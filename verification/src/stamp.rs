//! Stamps and stamp collections.
//!
//! A stamp is an allowed arrangement of voxels: a fixed-shape window
//! into a source cuboid, compared by its contents in canonical order.
//! [`gather_stamps`] extracts every window that fits inside a template,
//! grouped by content with occurrence counts.

use vstd::prelude::*;

use crate::extent::Extent;
use crate::indices::WorldIndex;
use crate::shape::Shape;
use crate::space::{Padded, Space};
use crate::superposition::Superposition;
use crate::world::{spec_window_index, FlatPaddedGridCuboid};
use crate::VoxelId;

verus! {

/// Wrapping modes for stamp extraction.  Only "no wrap" is defined:
/// stamps must fit entirely inside the template.  The marker is
/// accepted for forward compatibility and ignored.
pub struct Wrapping;

/// A local coordinate inside a stamp window, starting from 0.
#[derive(Clone, Copy, PartialEq, Eq, Debug)]
pub struct StampIndex(pub [usize; 3]);

/// A fixed-shape window into a cuboid, anchored at `offset` and
/// compared by its contents.
pub struct ViewStamp<'a, V> {
    pub space: &'a FlatPaddedGridCuboid<V>,
    pub offset: WorldIndex,
    pub shape: Shape,
}

impl<'a, V> Clone for ViewStamp<'a, V> {
    fn clone(&self) -> (r: Self)
        ensures
            r == *self,
    {
        ViewStamp { space: self.space, offset: self.offset, shape: self.shape }
    }
}

impl<'a, V> Copy for ViewStamp<'a, V> {

}

impl<'a, V: Padded + Copy> ViewStamp<'a, V> {
    /// The window's shape is supported and its anchor is in coordinate
    /// range, so local coordinates translate without overflow.
    pub open spec fn wf(self) -> bool {
        &&& self.space.inv()
        &&& self.shape.wf()
        &&& crate::world::coord_in_range(self.offset)
    }

    /// The voxel of the window at rank `n` of the canonical order.
    pub open spec fn sample_spec(self, n: int) -> V {
        self.space.spec_get(spec_window_index(self.offset, self.shape, n))
    }

    /// The window's contents in canonical order.
    pub open spec fn samples_spec(self) -> Seq<V> {
        Seq::new(self.shape.size_spec() as nat, |n: int| self.sample_spec(n))
    }

    pub fn new(space: &'a FlatPaddedGridCuboid<V>, offset: WorldIndex, shape: Shape) -> (r: Self)
        ensures
            r.space == space,
            r.offset == offset,
            r.shape == shape,
    {
        ViewStamp { space, offset, shape }
    }

    /// Reads the window voxel at a local coordinate.
    pub fn get(&self, index: StampIndex) -> (r: V)
        requires
            self.wf(),
            self.shape.in_bounds(index.0[0] as int, index.0[1] as int, index.0[2] as int),
        ensures
            r == self.space.spec_get(
                WorldIndex(
                    (self.offset.0 + index.0[0]) as i32,
                    (self.offset.1 + index.0[1]) as i32,
                    (self.offset.2 + index.0[2]) as i32,
                ),
            ),
    {
        self.space.get(WorldIndex(
            self.offset.0 + index.0[0] as i32,
            self.offset.1 + index.0[1] as i32,
            self.offset.2 + index.0[2] as i32,
        ))
    }

    /// Materializes the window's contents in canonical order.
    pub fn get_samples(&self) -> (r: Vec<V>)
        requires
            self.wf(),
        ensures
            r@ == self.samples_spec(),
    {
        let size = self.shape.size();
        let mut out: Vec<V> = Vec::new();
        let mut n: usize = 0;
        while n < size
            invariant
                out@.len() == n,
                n <= size,
                size == self.shape.size_spec(),
                self.wf(),
                forall|k: int| 0 <= k < n ==> out@[k] == self.sample_spec(k),
            decreases size - n,
        {
            proof {
                self.shape.lemma_linearize_of_delinearize(n as int);
            }
            let p = self.shape.delinearize(n);
            let v = self.get(StampIndex(p));
            out.push(v);
            n = n + 1;
        }
        proof {
            assert(out@ =~= self.samples_spec());
        }
        out
    }
}

impl<'a> ViewStamp<'a, VoxelId> {
    /// All window voxels are below `b`.
    pub open spec fn values_below(self, b: int) -> bool {
        forall|n: int| 0 <= n < self.shape.size_spec() ==> (#[trigger] self.sample_spec(n)) < b
    }
}

/// Whether two windows hold the same contents.
pub fn stamp_contents_equal<'a, 'b>(a: &ViewStamp<'a, VoxelId>, b: &ViewStamp<'b, VoxelId>) -> (r:
    bool)
    requires
        a.wf(),
        b.wf(),
        a.shape == b.shape,
    ensures
        r == (a.samples_spec() == b.samples_spec()),
{
    let size = a.shape.size();
    let mut n: usize = 0;
    while n < size
        invariant
            n <= size,
            size == a.shape.size_spec(),
            a.wf(),
            b.wf(),
            a.shape == b.shape,
            forall|k: int| 0 <= k < n ==> a.sample_spec(k) == b.sample_spec(k),
        decreases size - n,
    {
        proof {
            a.shape.lemma_linearize_of_delinearize(n as int);
        }
        let p = a.shape.delinearize(n);
        let va = a.get(StampIndex(p));
        let vb = b.get(StampIndex(p));
        if va != vb {
            proof {
                assert(a.samples_spec()[n as int] != b.samples_spec()[n as int]);
            }
            return false;
        }
        n = n + 1;
    }
    proof {
        assert(a.samples_spec() =~= b.samples_spec());
    }
    true
}

impl<'a, const C: u8> ViewStamp<'a, Superposition<C>> {
    /// Whether every cell of this superposition window allows the
    /// corresponding voxel of the stamp.  This is the only primitive by
    /// which a wave cell sees stamps.
    pub open spec fn allows_stamp(self, stamp: ViewStamp<VoxelId>) -> bool {
        forall|n: int|
            0 <= n < self.shape.size_spec() ==> (#[trigger] self.sample_spec(n)).allows_spec(
                stamp.sample_spec(n) as int,
            )
    }

    /// Tests whether the stamp fits this window.
    pub fn allows(&self, stamp: &ViewStamp<'_, VoxelId>) -> (r: bool)
        requires
            self.wf(),
            stamp.wf(),
            self.shape == stamp.shape,
            stamp.values_below(64),
        ensures
            r == self.allows_stamp(*stamp),
    {
        let size = self.shape.size();
        let mut n: usize = 0;
        while n < size
            invariant
                n <= size,
                size == self.shape.size_spec(),
                self.wf(),
                stamp.wf(),
                self.shape == stamp.shape,
                stamp.values_below(64),
                forall|k: int|
                    0 <= k < n ==> (#[trigger] self.sample_spec(k)).allows_spec(
                        stamp.sample_spec(k) as int,
                    ),
            decreases size - n,
        {
            proof {
                self.shape.lemma_linearize_of_delinearize(n as int);
            }
            let p = self.shape.delinearize(n);
            let cell = self.get(StampIndex(p));
            let v = stamp.get(StampIndex(p));
            proof {
                assert(cell == self.sample_spec(n as int));
                assert(v == stamp.sample_spec(n as int));
                assert(v < 64);
            }
            if !cell.allows(v) {
                return false;
            }
            n = n + 1;
        }
        true
    }
}

/// The contents of the window of `cuboid` anchored at `o`, in canonical
/// order.
pub open spec fn window_samples(
    cuboid: FlatPaddedGridCuboid<VoxelId>,
    o: WorldIndex,
    shape: Shape,
) -> Seq<VoxelId> {
    Seq::new(shape.size_spec() as nat, |n: int| cuboid.spec_get(spec_window_index(o, shape, n)))
}

/// Number of ranks `n < upto` of `se`'s iteration whose window contents
/// equal `content`.
pub open spec fn count_matching(
    cuboid: FlatPaddedGridCuboid<VoxelId>,
    se: Extent,
    shape: Shape,
    content: Seq<VoxelId>,
    upto: int,
) -> int
    decreases upto,
{
    if upto <= 0 {
        0
    } else {
        count_matching(cuboid, se, shape, content, upto - 1) + if window_samples(
            cuboid,
            se.index_at(upto - 1),
            shape,
        ) == content {
            1int
        } else {
            0int
        }
    }
}

/// Sum of the occurrence counts of the first `upto` entries.
pub open spec fn counts_total_upto(stamps: Seq<(ViewStamp<VoxelId>, usize)>, upto: int) -> int
    decreases upto,
{
    if upto <= 0 {
        0
    } else {
        counts_total_upto(stamps, upto - 1) + stamps[upto - 1].1
    }
}

/// The collection of stamps extracted from a single source: an ordered
/// sequence of content-distinct stamps with positive occurrence counts.
pub struct StampCollection<'a> {
    pub stamps: Vec<(ViewStamp<'a, VoxelId>, usize)>,
    pub shape: Shape,
}

impl<'a> StampCollection<'a> {
    /// Every stamp is a well-formed window of the common shape, counts
    /// are positive, and contents are pairwise distinct.
    pub open spec fn wf(self) -> bool {
        &&& self.shape.wf()
        &&& forall|k: int|
            0 <= k < self.stamps@.len() ==> (#[trigger] self.stamps@[k].0).wf()
                && self.stamps@[k].0.shape == self.shape && self.stamps@[k].1 >= 1
        &&& forall|k: int, l: int|
            0 <= k < l < self.stamps@.len() ==> (#[trigger] self.stamps@[k].0.samples_spec())
                != (#[trigger] self.stamps@[l].0.samples_spec())
    }

    /// All stamp voxels are below `b`.
    pub open spec fn values_below(self, b: int) -> bool {
        forall|k: int|
            0 <= k < self.stamps@.len() ==> (#[trigger] self.stamps@[k].0).values_below(b)
    }

    /// Sum of the occurrence counts of the first `upto` stamps.
    pub open spec fn total_upto(self, upto: int) -> int
        decreases upto,
    {
        if upto <= 0 {
            0
        } else {
            self.total_upto(upto - 1) + self.stamps@[upto - 1].1
        }
    }

    /// Sum of all occurrence counts.
    pub open spec fn total_spec(self) -> int {
        self.total_upto(self.stamps@.len() as int)
    }

    pub fn new(stamps: Vec<(ViewStamp<'a, VoxelId>, usize)>, shape: Shape) -> (r: Self)
        ensures
            r.stamps == stamps,
            r.shape == shape,
    {
        StampCollection { stamps, shape }
    }

    /// Number of distinct stamps.
    pub fn len(&self) -> (r: usize)
        ensures
            r == self.stamps@.len(),
    {
        self.stamps.len()
    }

    /// The total number of stamp occurrences in the source.
    pub fn get_total_occurrences(&self) -> (r: usize)
        requires
            self.total_spec() <= usize::MAX,
            self.wf(),
        ensures
            r == self.total_spec(),
    {
        let mut total: usize = 0;
        let mut k: usize = 0;
        proof {
            self.lemma_total_upto_monotone(0, self.stamps@.len() as int);
        }
        while k < self.stamps.len()
            invariant
                k <= self.stamps@.len(),
                total == self.total_upto(k as int),
                self.total_spec() <= usize::MAX,
                forall|m: int, n: int|
                    0 <= m <= n <= self.stamps@.len() ==> self.total_upto(m) <= self.total_upto(n),
            decreases self.stamps@.len() - k,
        {
            proof {
                self.lemma_total_upto_monotone((k + 1) as int, self.stamps@.len() as int);
            }
            let c = self.stamps[k].1;
            total = total + c;
            k = k + 1;
        }
        total
    }

    /// Partial sums of counts grow with the range.
    pub proof fn lemma_total_upto_monotone(self, m: int, n: int)
        requires
            0 <= m <= n <= self.stamps@.len(),
        ensures
            self.total_upto(m) <= self.total_upto(n),
            forall|a: int, b: int|
                0 <= a <= b <= self.stamps@.len() ==> self.total_upto(a) <= self.total_upto(b),
    {
        assert forall|a: int, b: int|
            0 <= a <= b <= self.stamps@.len() implies self.total_upto(a) <= self.total_upto(b) by {
            self.lemma_total_upto_monotone_inner(a, b);
        }
    }

    proof fn lemma_total_upto_monotone_inner(self, a: int, b: int)
        requires
            0 <= a <= b <= self.stamps@.len(),
        ensures
            self.total_upto(a) <= self.total_upto(b),
        decreases b - a,
    {
        if a < b {
            self.lemma_total_upto_monotone_inner(a, b - 1);
        }
    }

    /// Each stamp's count is at most the total.
    pub proof fn lemma_count_le_total(self, k: int)
        requires
            self.wf(),
            0 <= k < self.stamps@.len(),
        ensures
            self.stamps@[k].1 <= self.total_spec(),
            self.stamps@[k].1 >= 1,
            self.total_spec() >= 1,
    {
        assert(self.stamps@[k].0.wf());
        assert(self.stamps@[0].0.wf());
        self.lemma_total_upto_monotone(k + 1, self.stamps@.len() as int);
        self.lemma_total_upto_nonneg(k);
        self.lemma_total_upto_monotone(1, self.stamps@.len() as int);
    }

    proof fn lemma_total_upto_nonneg(self, k: int)
        requires
            0 <= k <= self.stamps@.len(),
        ensures
            self.total_upto(k) >= 0,
        decreases k,
    {
        if k > 0 {
            self.lemma_total_upto_nonneg(k - 1);
        }
    }

    /// Classifies one wave window against the collection: no stamp
    /// fits, exactly one fits (returned), or more than one fits.
    pub fn get_collapse_outcomes<const C: u8>(&self, view: &ViewStamp<'_, Superposition<C>>) -> (r:
        CollapseOutcomes<'a>)
        requires
            self.wf(),
            view.wf(),
            view.shape == self.shape,
            self.values_below(64),
        ensures
            r is NoneFit <==> fits_count(*view, self.stamps@, self.stamps@.len() as int) == 0,
            r is Multiple <==> fits_count(*view, self.stamps@, self.stamps@.len() as int) >= 2,
            r is One ==> fits_count(*view, self.stamps@, self.stamps@.len() as int) == 1
                && exists|k: int|
                0 <= k < self.stamps@.len() && view.allows_stamp(#[trigger] self.stamps@[k].0) && r
                    == CollapseOutcomes::One(self.stamps@[k].0),
    {
        let ghost len = self.stamps@.len() as int;
        let mut found: Option<usize> = None;
        let mut k: usize = 0;
        while k < self.stamps.len()
            invariant
                k <= self.stamps@.len(),
                self.wf(),
                view.wf(),
                view.shape == self.shape,
                self.values_below(64),
                match found {
                    Some(j) => j < k && view.allows_stamp(self.stamps@[j as int].0) && fits_count(
                        *view,
                        self.stamps@,
                        k as int,
                    ) == 1,
                    None => fits_count(*view, self.stamps@, k as int) == 0,
                },
            decreases self.stamps@.len() - k,
        {
            let entry = &self.stamps[k];
            proof {
                assert(self.stamps@[k as int].0.wf());
            }
            if view.allows(&entry.0) {
                match found {
                    Some(j) => {
                        proof {
                            lemma_fits_count_two(
                                *view,
                                self.stamps@,
                                j as int,
                                k as int,
                                self.stamps@.len() as int,
                            );
                        }
                        return CollapseOutcomes::Multiple;
                    },
                    None => {
                        found = Some(k);
                    },
                }
            }
            k = k + 1;
        }
        match found {
            Some(j) => CollapseOutcomes::One(self.stamps[j].0.clone()),
            None => CollapseOutcomes::NoneFit,
        }
    }

    /// Looks a stamp up by content; returns its occurrence count.
    pub fn get(&self, probe: &ViewStamp<'_, VoxelId>) -> (r: Option<usize>)
        requires
            self.wf(),
            probe.wf(),
            probe.shape == self.shape,
        ensures
            match r {
                Some(c) => exists|k: int|
                    0 <= k < self.stamps@.len() && (#[trigger] self.stamps@[k].0).samples_spec()
                        == probe.samples_spec() && self.stamps@[k].1 == c,
                None => forall|k: int|
                    0 <= k < self.stamps@.len() ==> (#[trigger] self.stamps@[k].0).samples_spec()
                        != probe.samples_spec(),
            },
    {
        let mut k: usize = 0;
        while k < self.stamps.len()
            invariant
                k <= self.stamps@.len(),
                self.wf(),
                probe.wf(),
                probe.shape == self.shape,
                forall|l: int|
                    0 <= l < k ==> (#[trigger] self.stamps@[l].0).samples_spec()
                        != probe.samples_spec(),
            decreases self.stamps@.len() - k,
        {
            let entry = &self.stamps[k];
            if stamp_contents_equal(&entry.0, probe) {
                return Some(entry.1);
            }
            k = k + 1;
        }
        None
    }
}


/// The two ways of summing a collection's counts agree.
pub proof fn lemma_counts_total_eq(c: StampCollection, upto: int)
    requires
        0 <= upto <= c.stamps@.len(),
    ensures
        counts_total_upto(c.stamps@, upto) == c.total_upto(upto),
    decreases upto,
{
    if upto > 0 {
        lemma_counts_total_eq(c, upto - 1);
    }
}

/// Updating one entry's count changes the sum by the difference.
proof fn lemma_counts_sum_update(
    s: Seq<(ViewStamp<VoxelId>, usize)>,
    s2: Seq<(ViewStamp<VoxelId>, usize)>,
    k: int,
    upto: int,
)
    requires
        0 <= k < s.len(),
        s2 == s.update(k, (s[k].0, (s[k].1 + 1) as usize)),
        s[k].1 + 1 <= usize::MAX,
        0 <= upto <= s.len(),
    ensures
        counts_total_upto(s2, upto) == counts_total_upto(s, upto) + if k < upto {
            1int
        } else {
            0int
        },
    decreases upto,
{
    if upto > 0 {
        lemma_counts_sum_update(s, s2, k, upto - 1);
    }
}

/// Appending an entry leaves prefix sums alone and adds its count at
/// the end.
proof fn lemma_counts_sum_push(
    s: Seq<(ViewStamp<VoxelId>, usize)>,
    e: (ViewStamp<VoxelId>, usize),
    upto: int,
)
    requires
        0 <= upto <= s.len(),
    ensures
        counts_total_upto(s.push(e), upto) == counts_total_upto(s, upto),
    decreases upto,
{
    if upto > 0 {
        lemma_counts_sum_push(s, e, upto - 1);
    }
}

/// Every stamp of a collection whose windows lie inside a template
/// with voxel ids below `b` has its voxels below `b`.
pub proof fn lemma_stamps_values_below(
    r: StampCollection,
    cuboid: FlatPaddedGridCuboid<VoxelId>,
    b: int,
)
    requires
        r.wf(),
        cuboid.inv(),
        forall|k: int|
            0 <= k < r.stamps@.len() ==> (#[trigger] r.stamps@[k].0).space == cuboid
                && cuboid.get_extent_spec().stamp_fits(r.shape, r.stamps@[k].0.offset),
        forall|i: WorldIndex| cuboid.contains_spec(i) ==> cuboid.spec_get(i) < b,
    ensures
        r.values_below(b),
{
    assert forall|k: int| 0 <= k < r.stamps@.len() implies (#[trigger] r.stamps@[k].0).values_below(
        b,
    ) by {
        let st = r.stamps@[k].0;
        assert(st.wf());
        assert forall|n: int| 0 <= n < st.shape.size_spec() implies (#[trigger] st.sample_spec(n))
            < b by {
            st.shape.lemma_linearize_of_delinearize(n);
            assert(st.shape.x >= 1 && st.shape.y >= 1 && st.shape.z >= 1) by (nonlinear_arith)
                requires
                    0 < st.shape.size_spec(),
                    st.shape.size_spec() == st.shape.x * st.shape.y * st.shape.z,
            ;
            assert(cuboid.contains_spec(spec_window_index(st.offset, st.shape, n)));
        }
    }
}

/// Finds the stamp whose contents equal `probe`'s, if any.
fn find_stamp<'a, 'b>(stamps: &Vec<(ViewStamp<'a, VoxelId>, usize)>, probe: &ViewStamp<
    'b,
    VoxelId,
>, shape: Ghost<Shape>) -> (r: Option<usize>)
    requires
        probe.wf(),
        probe.shape == shape@,
        forall|k: int|
            0 <= k < stamps@.len() ==> (#[trigger] stamps@[k].0).wf() && stamps@[k].0.shape
                == shape@,
    ensures
        match r {
            Some(k) => 0 <= k < stamps@.len() && stamps@[k as int].0.samples_spec()
                == probe.samples_spec(),
            None => forall|k: int|
                0 <= k < stamps@.len() ==> (#[trigger] stamps@[k].0).samples_spec()
                    != probe.samples_spec(),
        },
{
    let mut k: usize = 0;
    while k < stamps.len()
        invariant
            k <= stamps@.len(),
            probe.wf(),
            probe.shape == shape@,
            forall|l: int|
                0 <= l < stamps@.len() ==> (#[trigger] stamps@[l].0).wf() && stamps@[l].0.shape
                    == shape@,
            forall|l: int|
                0 <= l < k ==> (#[trigger] stamps@[l].0).samples_spec() != probe.samples_spec(),
        decreases stamps@.len() - k,
    {
        let entry = &stamps[k];
        if stamp_contents_equal(&entry.0, probe) {
            return Some(k);
        }
        k = k + 1;
    }
    None
}

/// The contents of the window anchored at `o` appear among `stamps`.
pub open spec fn window_has_match(
    stamps: Seq<(ViewStamp<VoxelId>, usize)>,
    cuboid: FlatPaddedGridCuboid<VoxelId>,
    o: WorldIndex,
    shape: Shape,
) -> bool {
    exists|k: int|
        0 <= k < stamps.len() && (#[trigger] stamps[k].0).samples_spec() == window_samples(
            cuboid,
            o,
            shape,
        )
}

/// Every window of `se` has its contents among `stamps`.
pub open spec fn covers_all_windows(
    stamps: Seq<(ViewStamp<VoxelId>, usize)>,
    cuboid: FlatPaddedGridCuboid<VoxelId>,
    se: Extent,
    shape: Shape,
) -> bool {
    forall|m: int|
        0 <= m < se.volume() ==> window_has_match(stamps, cuboid, #[trigger] se.index_at(m), shape)
}

/// Extracts all stamps fitting within the template, grouped by content
/// with occurrence counts, in order of first appearance.
///
/// The result is exhaustive and exact: the stamps are pairwise
/// content-distinct; every fitting window's contents appear; and each
/// stamp's count equals the number of fitting windows with its
/// contents.
pub fn gather_stamps<'a>(
    cuboid: &'a FlatPaddedGridCuboid<VoxelId>,
    wrapping: Wrapping,
    stamp_shape: Shape,
) -> (r: StampCollection<'a>)
    requires
        cuboid.inv(),
        stamp_shape.wf(),
        stamp_shape.x >= 1,
        stamp_shape.y >= 1,
        stamp_shape.z >= 1,
    ensures
        r.wf(),
        r.shape == stamp_shape,
        forall|k: int|
            0 <= k < r.stamps@.len() ==> (#[trigger] r.stamps@[k].0).space == cuboid
                && r.stamps@[k].1 == count_matching(
                *cuboid,
                cuboid.get_extent_spec().get_stamps_extent_spec(stamp_shape),
                stamp_shape,
                r.stamps@[k].0.samples_spec(),
                cuboid.get_extent_spec().get_stamps_extent_spec(stamp_shape).volume(),
            ),
        covers_all_windows(
            r.stamps@,
            *cuboid,
            cuboid.get_extent_spec().get_stamps_extent_spec(stamp_shape),
            stamp_shape,
        ),
        r.total_spec() == cuboid.get_extent_spec().get_stamps_extent_spec(stamp_shape).volume(),
        forall|k: int|
            0 <= k < r.stamps@.len() ==> cuboid.get_extent_spec().stamp_fits(
                stamp_shape,
                (#[trigger] r.stamps@[k].0).offset,
            ),
{
    let se = cuboid.get_stamps_extent(stamp_shape);
    let ghost se_spec = cuboid.get_extent_spec().get_stamps_extent_spec(stamp_shape);
    proof {
        assert(se == se_spec);
    }
    let offs = se.iter_indices();
    let mut stamps: Vec<(ViewStamp<'a, VoxelId>, usize)> = Vec::new();
    let mut n: usize = 0;
    while n < offs.len()
        invariant
            n <= offs@.len(),
            cuboid.inv(),
            stamp_shape.wf(),
            se.iterable(),
            se == se_spec,
            offs@.len() == se.volume(),
            forall|m: int| 0 <= m < offs@.len() ==> offs@[m] == se.index_at(m),
            forall|k: int|
                0 <= k < stamps@.len() ==> (#[trigger] stamps@[k].0).wf() && stamps@[k].0.shape
                    == stamp_shape && stamps@[k].0.space == cuboid && se.contains_spec(
                    stamps@[k].0.offset,
                ),
            counts_total_upto(stamps@, stamps@.len() as int) == n,
            forall|k: int, l: int|
                0 <= k < l < stamps@.len() ==> (#[trigger] stamps@[k].0.samples_spec())
                    != (#[trigger] stamps@[l].0.samples_spec()),
            forall|k: int|
                0 <= k < stamps@.len() ==> (#[trigger] stamps@[k].1) == count_matching(
                    *cuboid,
                    se,
                    stamp_shape,
                    stamps@[k].0.samples_spec(),
                    n as int,
                ) && stamps@[k].1 >= 1,
            forall|m: int|
                0 <= m < n ==> window_has_match(stamps@, *cuboid, #[trigger] se.index_at(m), stamp_shape),
        decreases offs@.len() - n,
    {
        let o = offs[n];
        let view = ViewStamp::new(cuboid, o, stamp_shape);
        proof {
            se.lemma_index_at_contains(n as int);
            assert(view.samples_spec() =~= window_samples(*cuboid, se.index_at(n as int), stamp_shape));
        }
        let found = find_stamp(&stamps, &view, Ghost(stamp_shape));
        match found {
            Some(k) => {
                let old_entry = stamps[k];
                proof {
                    lemma_count_matching_le(*cuboid, se, stamp_shape, old_entry.0.samples_spec(), n as int);
                }
                let ghost old_stamps = stamps@;
                stamps[k] = (old_entry.0, old_entry.1 + 1);
                proof {
                    lemma_counts_sum_update(
                        old_stamps,
                        stamps@,
                        k as int,
                        old_stamps.len() as int,
                    );
                    assert forall|l: int|
                        0 <= l < stamps@.len() implies (#[trigger] stamps@[l].1) == count_matching(
                            *cuboid,
                            se,
                            stamp_shape,
                            stamps@[l].0.samples_spec(),
                            n as int + 1,
                        ) by {
                        assert(stamps@[l].0 == old_stamps[l].0);
                    }
                    assert forall|m: int| 0 <= m < n as int + 1 implies window_has_match(
                        stamps@,
                        *cuboid,
                        #[trigger] se.index_at(m),
                        stamp_shape,
                    ) by {
                        if m < n as int {
                            assert(window_has_match(old_stamps, *cuboid, se.index_at(m), stamp_shape));
                            let kk = choose|k2: int|
                                0 <= k2 < old_stamps.len() && (#[trigger] old_stamps[k2].0).samples_spec()
                                    == window_samples(*cuboid, se.index_at(m), stamp_shape);
                            assert(stamps@[kk].0 == old_stamps[kk].0);
                            assert(stamps@[kk].0.samples_spec() == window_samples(
                                *cuboid,
                                se.index_at(m),
                                stamp_shape,
                            ));
                        } else {
                            assert(stamps@[k as int].0.samples_spec() == window_samples(
                                *cuboid,
                                se.index_at(m),
                                stamp_shape,
                            ));
                        }
                    }
                }
            },
            None => {
                let ghost old_stamps = stamps@;
                stamps.push((view, 1));
                proof {
                    lemma_counts_sum_push(old_stamps, (view, 1), old_stamps.len() as int);
                    lemma_count_matching_zero(*cuboid, se, stamp_shape, view.samples_spec(), n as int);
                    assert forall|l: int|
                        0 <= l < stamps@.len() implies (#[trigger] stamps@[l].1) == count_matching(
                            *cuboid,
                            se,
                            stamp_shape,
                            stamps@[l].0.samples_spec(),
                            n as int + 1,
                        ) by {
                        if l < old_stamps.len() {
                            assert(stamps@[l] == old_stamps[l]);
                        }
                    }
                    assert forall|m: int| 0 <= m < n as int + 1 implies window_has_match(
                        stamps@,
                        *cuboid,
                        #[trigger] se.index_at(m),
                        stamp_shape,
                    ) by {
                        if m < n as int {
                            assert(window_has_match(old_stamps, *cuboid, se.index_at(m), stamp_shape));
                            let kk = choose|k2: int|
                                0 <= k2 < old_stamps.len() && (#[trigger] old_stamps[k2].0).samples_spec()
                                    == window_samples(*cuboid, se.index_at(m), stamp_shape);
                            assert(stamps@[kk].0 == old_stamps[kk].0);
                            assert(stamps@[kk].0.samples_spec() == window_samples(
                                *cuboid,
                                se.index_at(m),
                                stamp_shape,
                            ));
                        } else {
                            assert(stamps@[old_stamps.len() as int].0.samples_spec()
                                == window_samples(*cuboid, se.index_at(m), stamp_shape));
                        }
                    }
                }
            },
        }
        n = n + 1;
    }
    let ghost gst = stamps@;
    proof {
        assert forall|m: int| 0 <= m < se.volume() implies window_has_match(
            gst,
            *cuboid,
            #[trigger] se.index_at(m),
            stamp_shape,
        ) by {
            assert(window_has_match(stamps@, *cuboid, se.index_at(m), stamp_shape));
        }
        assert(covers_all_windows(gst, *cuboid, se, stamp_shape));
    }
    let r = StampCollection { stamps, shape: stamp_shape };
    proof {
        assert(r.stamps@ == gst);
        lemma_counts_total_eq(r, r.stamps@.len() as int);
        assert forall|k: int| 0 <= k < r.stamps@.len() implies cuboid.get_extent_spec().stamp_fits(
            stamp_shape,
            (#[trigger] r.stamps@[k].0).offset,
        ) by {
            assert(se.contains_spec(r.stamps@[k].0.offset));
        }
    }
    r
}


/// Number of stamps among the first `upto` entries that fit the
/// superposition window `view`.
pub open spec fn fits_count<const C: u8>(
    view: ViewStamp<Superposition<C>>,
    stamps: Seq<(ViewStamp<VoxelId>, usize)>,
    upto: int,
) -> int
    decreases upto,
{
    if upto <= 0 {
        0
    } else {
        fits_count(view, stamps, upto - 1) + if view.allows_stamp(stamps[upto - 1].0) {
            1int
        } else {
            0int
        }
    }
}

/// The fit count grows with the range.
pub proof fn lemma_fits_count_monotone<const C: u8>(
    view: ViewStamp<Superposition<C>>,
    stamps: Seq<(ViewStamp<VoxelId>, usize)>,
    a: int,
    b: int,
)
    requires
        0 <= a <= b,
    ensures
        0 <= fits_count(view, stamps, a) <= fits_count(view, stamps, b) <= b,
    decreases b,
{
    if b > 0 {
        if a == b {
            lemma_fits_count_monotone(view, stamps, a - 1 + 1 - 1, b - 1);
        } else {
            lemma_fits_count_monotone(view, stamps, a, b - 1);
        }
    }
}

/// One fitting stamp below the range bound makes the count positive.
pub proof fn lemma_fits_count_one<const C: u8>(
    view: ViewStamp<Superposition<C>>,
    stamps: Seq<(ViewStamp<VoxelId>, usize)>,
    k: int,
    upto: int,
)
    requires
        0 <= k < upto,
        view.allows_stamp(stamps[k].0),
    ensures
        fits_count(view, stamps, upto) >= 1,
    decreases upto,
{
    if k == upto - 1 {
        lemma_fits_count_monotone(view, stamps, 0, upto - 1);
    } else {
        lemma_fits_count_one(view, stamps, k, upto - 1);
    }
}

/// Two distinct fitting stamps make the count at least two.
pub proof fn lemma_fits_count_two<const C: u8>(
    view: ViewStamp<Superposition<C>>,
    stamps: Seq<(ViewStamp<VoxelId>, usize)>,
    k1: int,
    k2: int,
    upto: int,
)
    requires
        0 <= k1 < k2 < upto,
        view.allows_stamp(stamps[k1].0),
        view.allows_stamp(stamps[k2].0),
    ensures
        fits_count(view, stamps, upto) >= 2,
    decreases upto,
{
    if k2 == upto - 1 {
        lemma_fits_count_one(view, stamps, k1, upto - 1);
    } else {
        lemma_fits_count_two(view, stamps, k1, k2, upto - 1);
    }
}

/// When nothing in a prefix fits, its count is zero.
pub proof fn lemma_fits_count_none<const C: u8>(
    view: ViewStamp<Superposition<C>>,
    stamps: Seq<(ViewStamp<VoxelId>, usize)>,
    upto: int,
)
    requires
        0 <= upto,
        forall|k: int| 0 <= k < upto ==> !view.allows_stamp(#[trigger] stamps[k].0),
    ensures
        fits_count(view, stamps, upto) == 0,
    decreases upto,
{
    if upto > 0 {
        lemma_fits_count_none(view, stamps, upto - 1);
    }
}

/// A positive count exhibits a fitting stamp.
pub proof fn lemma_fits_count_pos<const C: u8>(
    view: ViewStamp<Superposition<C>>,
    stamps: Seq<(ViewStamp<VoxelId>, usize)>,
    upto: int,
)
    requires
        0 <= upto,
        fits_count(view, stamps, upto) >= 1,
    ensures
        exists|k: int| 0 <= k < upto && view.allows_stamp(#[trigger] stamps[k].0),
    decreases upto,
{
    if upto > 0 {
        if view.allows_stamp(stamps[upto - 1].0) {
        } else {
            lemma_fits_count_pos(view, stamps, upto - 1);
        }
    }
}

/// A count of at least two exhibits two distinct fitting stamps.
pub proof fn lemma_fits_count_two_converse<const C: u8>(
    view: ViewStamp<Superposition<C>>,
    stamps: Seq<(ViewStamp<VoxelId>, usize)>,
    upto: int,
)
    requires
        0 <= upto,
        fits_count(view, stamps, upto) >= 2,
    ensures
        exists|ka: int, kb: int|
            0 <= ka < kb < upto && view.allows_stamp(#[trigger] stamps[ka].0) && view.allows_stamp(
                #[trigger] stamps[kb].0,
            ),
    decreases upto,
{
    if upto > 0 {
        if view.allows_stamp(stamps[upto - 1].0) {
            if fits_count(view, stamps, upto - 1) >= 1 {
                lemma_fits_count_pos(view, stamps, upto - 1);
                let ka = choose|k: int|
                    0 <= k < upto - 1 && view.allows_stamp(#[trigger] stamps[k].0);
                assert(0 <= ka < upto - 1 < upto && view.allows_stamp(stamps[ka].0)
                    && view.allows_stamp(stamps[upto - 1].0));
            } else {
                lemma_fits_count_monotone(view, stamps, 0, upto - 1);
            }
        } else {
            lemma_fits_count_two_converse(view, stamps, upto - 1);
        }
    }
}

/// The outcome of scanning the collection against one wave window.
pub enum CollapseOutcomes<'a> {
    /// Exactly one stamp fits: a forced collapse is available.
    One(ViewStamp<'a, VoxelId>),
    /// No stamp fits: the window is contradictory.
    NoneFit,
    /// More than one stamp fits: the window is undetermined.
    Multiple,
}

/// A positive prefix count means some window matched.
proof fn lemma_count_matching_pos(
    cuboid: FlatPaddedGridCuboid<VoxelId>,
    se: Extent,
    shape: Shape,
    content: Seq<VoxelId>,
    upto: int,
)
    requires
        upto >= 0,
        count_matching(cuboid, se, shape, content, upto) > 0,
    ensures
        exists|m: int|
            0 <= m < upto && #[trigger] window_samples(cuboid, se.index_at(m), shape) == content,
    decreases upto,
{
    if upto > 0 {
        if window_samples(cuboid, se.index_at(upto - 1), shape) == content {
        } else {
            lemma_count_matching_pos(cuboid, se, shape, content, upto - 1);
        }
    }
}

/// When every window matches, the count is the full range.
proof fn lemma_count_matching_all(
    cuboid: FlatPaddedGridCuboid<VoxelId>,
    se: Extent,
    shape: Shape,
    content: Seq<VoxelId>,
    upto: int,
)
    requires
        upto >= 0,
        forall|m: int|
            0 <= m < upto ==> #[trigger] window_samples(cuboid, se.index_at(m), shape) == content,
    ensures
        count_matching(cuboid, se, shape, content, upto) == upto,
    decreases upto,
{
    if upto > 0 {
        lemma_count_matching_all(cuboid, se, shape, content, upto - 1);
    }
}

/// Over a uniform template (every voxel inside the extent equal),
/// stamp extraction yields exactly one stamp, and its occurrence count
/// is the whole stamps-extent volume: the product of
/// `template dimension - stamp dimension + 1` over the three axes.
pub proof fn lemma_gather_uniform(
    r: StampCollection,
    cuboid: FlatPaddedGridCuboid<VoxelId>,
    stamp_shape: Shape,
    v0: VoxelId,
)
    requires
        cuboid.inv(),
        stamp_shape.wf(),
        stamp_shape.x >= 1,
        stamp_shape.y >= 1,
        stamp_shape.z >= 1,
        r.wf(),
        r.shape == stamp_shape,
        forall|k: int|
            0 <= k < r.stamps@.len() ==> (#[trigger] r.stamps@[k].0).space == cuboid
                && r.stamps@[k].1 == count_matching(
                cuboid,
                cuboid.get_extent_spec().get_stamps_extent_spec(stamp_shape),
                stamp_shape,
                r.stamps@[k].0.samples_spec(),
                cuboid.get_extent_spec().get_stamps_extent_spec(stamp_shape).volume(),
            ),
        covers_all_windows(
            r.stamps@,
            cuboid,
            cuboid.get_extent_spec().get_stamps_extent_spec(stamp_shape),
            stamp_shape,
        ),
        forall|i: WorldIndex| cuboid.contains_spec(i) ==> cuboid.spec_get(i) == v0,
        cuboid.get_extent_spec().get_stamps_extent_spec(stamp_shape).volume() > 0,
    ensures
        r.stamps@.len() == 1,
        r.stamps@[0].1 == cuboid.get_extent_spec().get_stamps_extent_spec(stamp_shape).volume(),
{
    let e = cuboid.get_extent_spec();
    let se = e.get_stamps_extent_spec(stamp_shape);
    let uniform = Seq::new(stamp_shape.size_spec() as nat, |n: int| v0);
    // every window of the stamps-extent holds the uniform contents
    assert forall|m: int| 0 <= m < se.volume() implies #[trigger] window_samples(
        cuboid,
        se.index_at(m),
        stamp_shape,
    ) == uniform by {
        se.lemma_index_at_contains(m);
        let o = se.index_at(m);
        e.lemma_stamps_extent_contains(stamp_shape, o);
        assert forall|n: int| 0 <= n < stamp_shape.size_spec() implies cuboid.spec_get(
            #[trigger] spec_window_index(o, stamp_shape, n),
        ) == v0 by {
            stamp_shape.lemma_linearize_of_delinearize(n);
            assert(cuboid.contains_spec(spec_window_index(o, stamp_shape, n)));
        }
        assert(window_samples(cuboid, o, stamp_shape) =~= uniform);
    }
    // each stamp's contents are some window's contents, hence uniform
    assert forall|k: int| 0 <= k < r.stamps@.len() implies (#[trigger] r.stamps@[k].0).samples_spec()
        == uniform by {
        assert(r.stamps@[k].0.wf());
        assert(r.stamps@[k].1 >= 1);
        lemma_count_matching_pos(cuboid, se, stamp_shape, r.stamps@[k].0.samples_spec(), se.volume());
    }
    // at least one stamp: the first window is covered
    assert(window_has_match(r.stamps@, cuboid, se.index_at(0), stamp_shape));
    assert(r.stamps@.len() >= 1);
    // at most one stamp: two would hold equal contents
    if r.stamps@.len() > 1 {
        assert(r.stamps@[0].0.samples_spec() == r.stamps@[1].0.samples_spec());
        assert(false);
    }
    // and its count is the full volume
    lemma_count_matching_all(cuboid, se, stamp_shape, r.stamps@[0].0.samples_spec(), se.volume());
}

/// A prefix count never exceeds the prefix length.
proof fn lemma_count_matching_le(
    cuboid: FlatPaddedGridCuboid<VoxelId>,
    se: Extent,
    shape: Shape,
    content: Seq<VoxelId>,
    upto: int,
)
    requires
        upto >= 0,
    ensures
        0 <= count_matching(cuboid, se, shape, content, upto) <= upto,
    decreases upto,
{
    if upto > 0 {
        lemma_count_matching_le(cuboid, se, shape, content, upto - 1);
    }
}

/// Contents that matched no window among the first `upto` have a zero
/// prefix count.
proof fn lemma_count_matching_zero(
    cuboid: FlatPaddedGridCuboid<VoxelId>,
    se: Extent,
    shape: Shape,
    content: Seq<VoxelId>,
    upto: int,
)
    requires
        upto >= 0,
        forall|m: int| 0 <= m < upto ==> window_samples(cuboid, se.index_at(m), shape) != content,
    ensures
        count_matching(cuboid, se, shape, content, upto) == 0,
    decreases upto,
{
    if upto > 0 {
        lemma_count_matching_zero(cuboid, se, shape, content, upto - 1);
    }
}

} // verus!
