//! Wave containers: a mutable grid of superpositions kept consistent
//! with a stamp collection by constraint propagation.

use vstd::prelude::*;

use crate::extent::Extent;
use crate::indices::WorldIndex;
use crate::shape::Shape;
use crate::space::Space;
use crate::stamp::{fits_count, CollapseOutcomes, StampCollection, StampIndex, ViewStamp};
use crate::superposition::{
    cell_restricts, count_clear, only_mask, Superposition,
};
use crate::world::{spec_window_index, FlatPaddedGridCuboid, OutOfBounds};
use crate::VoxelId;

verus! {

/// Total number of allowed ids over the first `upto` cells: the
/// monovariant of propagation.  Propagation only clears possibilities,
/// so this sum only decreases; it is bounded by `cells * C`, which
/// bounds the number of propagation passes.
pub open spec fn allowed_sum<const C: u8>(cells: Seq<Superposition<C>>, upto: int) -> int
    decreases upto,
{
    if upto <= 0 {
        0
    } else {
        allowed_sum(cells, upto - 1) + count_clear(cells[upto - 1].0, C as int)
    }
}

/// Every cell keeps its mask canonical.
pub open spec fn cells_wf<const C: u8>(cells: Seq<Superposition<C>>) -> bool {
    forall|n: int| 0 <= n < cells.len() ==> (#[trigger] cells[n]).wf()
}

/// Pointwise restriction between two grids of the same size: every id
/// a cell still allows afterwards, it allowed before.
pub open spec fn grid_restricts<const C: u8>(
    post: Seq<Superposition<C>>,
    pre: Seq<Superposition<C>>,
) -> bool {
    &&& post.len() == pre.len()
    &&& forall|n: int| 0 <= n < post.len() ==> cell_restricts(#[trigger] post[n], pre[n])
}

/// Restriction is reflexive.
pub proof fn lemma_grid_restricts_refl<const C: u8>(cells: Seq<Superposition<C>>)
    ensures
        grid_restricts(cells, cells),
{
}

/// Restriction is transitive.
pub proof fn lemma_grid_restricts_trans<const C: u8>(
    a: Seq<Superposition<C>>,
    b: Seq<Superposition<C>>,
    c: Seq<Superposition<C>>,
)
    requires
        grid_restricts(a, b),
        grid_restricts(b, c),
    ensures
        grid_restricts(a, c),
{
    assert forall|n: int| 0 <= n < a.len() implies cell_restricts(#[trigger] a[n], c[n]) by {
        assert(cell_restricts(a[n], b[n]));
        assert(cell_restricts(b[n], c[n]));
    }
}

/// The allowed sum never grows under restriction.
pub proof fn lemma_allowed_sum_restricts<const C: u8>(
    post: Seq<Superposition<C>>,
    pre: Seq<Superposition<C>>,
    upto: int,
)
    requires
        C <= 64,
        grid_restricts(post, pre),
        0 <= upto <= post.len(),
    ensures
        allowed_sum(post, upto) <= allowed_sum(pre, upto),
    decreases upto,
{
    if upto > 0 {
        lemma_allowed_sum_restricts(post, pre, upto - 1);
        Superposition::<C>::lemma_restriction_count(post[upto - 1], pre[upto - 1]);
    }
}

/// A restriction that actually changes a canonical cell shrinks the
/// allowed sum strictly.
pub proof fn lemma_allowed_sum_strict<const C: u8>(
    post: Seq<Superposition<C>>,
    pre: Seq<Superposition<C>>,
    j: int,
    upto: int,
)
    requires
        C <= 64,
        grid_restricts(post, pre),
        cells_wf(post),
        cells_wf(pre),
        0 <= j < upto <= post.len(),
        post[j].0 != pre[j].0,
    ensures
        allowed_sum(post, upto) < allowed_sum(pre, upto),
    decreases upto,
{
    if j == upto - 1 {
        lemma_allowed_sum_restricts(post, pre, upto - 1);
        Superposition::<C>::lemma_strict_restriction(post[j], pre[j]);
    } else {
        lemma_allowed_sum_strict(post, pre, j, upto - 1);
        Superposition::<C>::lemma_restriction_count(post[upto - 1], pre[upto - 1]);
    }
}

/// The allowed sum lies between zero and `cells * C`: with the strict
/// decrease per propagation pass, propagation terminates within
/// `cells * C` passes.
pub proof fn lemma_allowed_sum_bound<const C: u8>(cells: Seq<Superposition<C>>, upto: int)
    requires
        0 <= upto <= cells.len(),
    ensures
        0 <= allowed_sum(cells, upto) <= upto * (C as int),
    decreases upto,
{
    if upto > 0 {
        lemma_allowed_sum_bound(cells, upto - 1);
        crate::superposition::lemma_count_clear_bounds(cells[upto - 1].0, C as int);
        assert(upto * (C as int) == (upto - 1) * (C as int) + C) by (nonlinear_arith);
    }
}

/// Restriction of the whole grid restricts every read: a cell read
/// after only allows ids it allowed before, whether the index is
/// inside the extent (stored cell) or outside (padding, unchanged).
pub proof fn lemma_spec_get_restricts<const C: u8>(
    post: FlatPaddedGridCuboid<Superposition<C>>,
    pre: FlatPaddedGridCuboid<Superposition<C>>,
    i: WorldIndex,
)
    requires
        post.inv(),
        pre.inv(),
        post.offset == pre.offset,
        post.shape == pre.shape,
        grid_restricts(post.data@, pre.data@),
    ensures
        cell_restricts(post.spec_get(i), pre.spec_get(i)),
{
    if post.contains_spec(i) {
        post.lemma_cell_of_in_range(i);
    }
}


/// Whether the window of `world` at `o` admits the stamp: every cell
/// allows the stamp's voxel at its position.
pub open spec fn value_window_allows<const C: u8>(
    world: FlatPaddedGridCuboid<Superposition<C>>,
    o: WorldIndex,
    shape: Shape,
    stamp: ViewStamp<VoxelId>,
) -> bool {
    forall|n: int|
        0 <= n < shape.size_spec() ==> (#[trigger] world.spec_get(
            spec_window_index(o, shape, n),
        )).allows_spec(stamp.sample_spec(n) as int)
}

/// Number of stamps among the first `upto` entries that fit the window
/// of `world` at `o`.
pub open spec fn value_fits_count<const C: u8>(
    world: FlatPaddedGridCuboid<Superposition<C>>,
    o: WorldIndex,
    shape: Shape,
    stamps: Seq<(ViewStamp<VoxelId>, usize)>,
    upto: int,
) -> int
    decreases upto,
{
    if upto <= 0 {
        0
    } else {
        value_fits_count(world, o, shape, stamps, upto - 1) + if value_window_allows(
            world,
            o,
            shape,
            stamps[upto - 1].0,
        ) {
            1int
        } else {
            0int
        }
    }
}

/// A window view agrees with the value-level window predicates.
pub proof fn lemma_view_fits_agree<const C: u8>(
    view: ViewStamp<Superposition<C>>,
    stamps: Seq<(ViewStamp<VoxelId>, usize)>,
    upto: int,
)
    requires
        0 <= upto <= stamps.len(),
    ensures
        fits_count(view, stamps, upto) == value_fits_count(
            *view.space,
            view.offset,
            view.shape,
            stamps,
            upto,
        ),
        forall|k: int|
            0 <= k < stamps.len() ==> (view.allows_stamp(#[trigger] stamps[k].0)
                <==> value_window_allows(*view.space, view.offset, view.shape, stamps[k].0)),
    decreases upto,
{
    assert forall|k: int| 0 <= k < stamps.len() implies (view.allows_stamp(#[trigger] stamps[k].0)
        <==> value_window_allows(*view.space, view.offset, view.shape, stamps[k].0)) by {
        let stamp = stamps[k].0;
        if view.allows_stamp(stamp) {
            assert forall|n: int| 0 <= n < view.shape.size_spec() implies (
            #[trigger] (*view.space).spec_get(
                spec_window_index(view.offset, view.shape, n),
            )).allows_spec(stamp.sample_spec(n) as int) by {
                assert(view.sample_spec(n).allows_spec(stamp.sample_spec(n) as int));
            }
        }
        if value_window_allows(*view.space, view.offset, view.shape, stamp) {
            assert forall|n: int| 0 <= n < view.shape.size_spec() implies (
            #[trigger] view.sample_spec(n)).allows_spec(stamp.sample_spec(n) as int) by {
                assert((*view.space).spec_get(
                    spec_window_index(view.offset, view.shape, n),
                ).allows_spec(stamp.sample_spec(n) as int));
            }
            assert(view.allows_stamp(stamp));
        }
    }
    if upto > 0 {
        lemma_view_fits_agree(view, stamps, upto - 1);
    }
}

/// No forced write remains at offset `o`: whenever exactly one stamp
/// fits the window there, every window cell is already restricted to
/// that stamp's voxel.
pub open spec fn forced_write_free<const C: u8>(
    world: FlatPaddedGridCuboid<Superposition<C>>,
    stamps: Seq<(ViewStamp<VoxelId>, usize)>,
    shape: Shape,
    o: WorldIndex,
) -> bool {
    value_fits_count(world, o, shape, stamps, stamps.len() as int) == 1 ==> forall|k: int, j: int|
        0 <= k < stamps.len() && value_window_allows(world, o, shape, #[trigger] stamps[k].0) && 0
            <= j < shape.size_spec() ==> (#[trigger] world.spec_get(
            spec_window_index(o, shape, j),
        )).0 == world.spec_get(spec_window_index(o, shape, j)).0 | only_mask(
            C as int,
            stamps[k].0.sample_spec(j) as int,
        )
}

/// Whether `i` lies in the window of dimensions `shape` anchored at
/// `index`.
pub open spec fn in_window(index: WorldIndex, shape: Shape, i: WorldIndex) -> bool {
    &&& index.0 <= i.0 < index.0 + shape.x
    &&& index.1 <= i.1 < index.1 + shape.y
    &&& index.2 <= i.2 < index.2 + shape.z
}


/// Requirements on a stamp collection used to drive a wave over `C`
/// voxel ids.
pub open spec fn wave_stamps_ok<const C: u8>(stamps: StampCollection) -> bool {
    &&& stamps.wf()
    &&& stamps.values_below(C as int)
    &&& stamps.shape.x >= 1
    &&& stamps.shape.y >= 1
    &&& stamps.shape.z >= 1
}

/// A dumb wave container: a grid of superpositions that propagates
/// collapses but applies no further strategy.
pub struct Naive<const C: u8> {
    pub world: FlatPaddedGridCuboid<Superposition<C>>,
}

impl<const C: u8> Naive<C> {
    /// The grid is well-formed and every cell's mask is canonical.
    pub open spec fn inv(self) -> bool {
        &&& Superposition::<C>::dims_ok()
        &&& self.world.inv()
        &&& cells_wf(self.world.data@)
    }

    /// The wave's own extent.
    pub fn get_extent(&self) -> (r: Extent)
        requires
            self.inv(),
        ensures
            r.inv(),
            r == self.world.get_extent_spec(),
            forall|i: WorldIndex| r.contains_spec(i) <==> self.world.contains_spec(i),
    {
        self.world.get_extent()
    }

    /// Read-only access to the underlying grid.
    pub fn get_world(&self) -> (r: &FlatPaddedGridCuboid<Superposition<C>>)
        ensures
            *r == self.world,
    {
        &self.world
    }

    /// Gives the grid up.
    pub fn into_space(self) -> (r: FlatPaddedGridCuboid<Superposition<C>>)
        ensures
            r == self.world,
    {
        self.world
    }

    /// Reads one cell; outside the extent every id is allowed.
    pub fn get(&self, index: WorldIndex) -> (r: Superposition<C>)
        requires
            self.inv(),
        ensures
            r == self.world.spec_get(index),
    {
        self.world.get(index)
    }

    /// Writes `only(stamp[j])` restrictions over the whole window at
    /// `index`, without propagating.  Returns whether anything changed.
    fn write_stamp(&mut self, index: WorldIndex, stamp: &ViewStamp<'_, VoxelId>) -> (changed:
        bool)
        requires
            old(self).inv(),
            stamp.wf(),
            stamp.values_below(C as int),
            old(self).world.get_extent_spec().stamp_fits(stamp.shape, index),
        ensures
            final(self).inv(),
            final(self).world.offset == old(self).world.offset,
            final(self).world.shape == old(self).world.shape,
            grid_restricts(final(self).world.data@, old(self).world.data@),
            forall|j: int|
                0 <= j < stamp.shape.size_spec() ==> (#[trigger] final(self).world.spec_get(
                    spec_window_index(index, stamp.shape, j),
                )).0 == old(self).world.spec_get(spec_window_index(index, stamp.shape, j)).0
                    | only_mask(C as int, stamp.sample_spec(j) as int),
            forall|i: WorldIndex|
                !in_window(index, stamp.shape, i) ==> final(self).world.spec_get(i) == old(
                    self,
                ).world.spec_get(i),
            changed <==> exists|j: int|
                0 <= j < stamp.shape.size_spec() && (#[trigger] old(self).world.spec_get(
                    spec_window_index(index, stamp.shape, j),
                )).0 != old(self).world.spec_get(spec_window_index(index, stamp.shape, j)).0
                    | only_mask(C as int, stamp.sample_spec(j) as int),
            !changed ==> *final(self) == *old(self),
            changed ==> allowed_sum(final(self).world.data@, final(self).world.data@.len() as int)
                < allowed_sum(old(self).world.data@, old(self).world.data@.len() as int),
    {
        let shape = stamp.shape;
        let size = shape.size();
        let mut changed = false;
        let mut j: usize = 0;
        let ghost pre = *old(self);
        while j < size
            invariant
                j <= size,
                size == shape.size_spec(),
                shape == stamp.shape,
                stamp.wf(),
                stamp.values_below(C as int),
                pre.world.get_extent_spec().stamp_fits(shape, index),
                pre.inv(),
                self.inv(),
                self.world.offset == pre.world.offset,
                self.world.shape == pre.world.shape,
                grid_restricts(self.world.data@, pre.world.data@),
                forall|jj: int|
                    0 <= jj < j ==> (#[trigger] self.world.spec_get(
                        spec_window_index(index, shape, jj),
                    )).0 == pre.world.spec_get(spec_window_index(index, shape, jj)).0 | only_mask(
                        C as int,
                        stamp.sample_spec(jj) as int,
                    ),
                forall|jj: int|
                    j <= jj < size ==> (#[trigger] self.world.spec_get(
                        spec_window_index(index, shape, jj),
                    )) == pre.world.spec_get(spec_window_index(index, shape, jj)),
                forall|i: WorldIndex|
                    !in_window(index, shape, i) ==> self.world.spec_get(i) == pre.world.spec_get(
                        i,
                    ),
                changed <==> exists|jj: int|
                    0 <= jj < j && (#[trigger] pre.world.spec_get(
                        spec_window_index(index, shape, jj),
                    )).0 != pre.world.spec_get(spec_window_index(index, shape, jj)).0 | only_mask(
                        C as int,
                        stamp.sample_spec(jj) as int,
                    ),
                !changed ==> self.world == pre.world,
            decreases size - j,
        {
            proof {
                shape.lemma_linearize_of_delinearize(j as int);
            }
            let p = shape.delinearize(j);
            let v = stamp.get(StampIndex(p));
            let target = WorldIndex(
                index.0 + p[0] as i32,
                index.1 + p[1] as i32,
                index.2 + p[2] as i32,
            );
            proof {
                assert(target == spec_window_index(index, shape, j as int));
                assert(v == stamp.sample_spec(j as int));
                assert(v < C);
                assert(shape.x >= 1 && shape.y >= 1 && shape.z >= 1) by (nonlinear_arith)
                    requires
                        0 < shape.size_spec(),
                        shape.size_spec() == shape.x * shape.y * shape.z,
                ;
                assert(pre.world.contains_spec(target));
                assert(crate::world::coord_in_range(index));
            }
            let only_v = Superposition::<C>::only(v);
            let cell = self.world.get(target);
            let newc = cell.intersect(only_v);
            proof {
                assert(newc.0 == cell.0 | only_mask(C as int, v as int));
                assert(cell == pre.world.spec_get(spec_window_index(index, shape, j as int)));
            }
            if newc.0 != cell.0 {
                let ghost before = self.world;
                let res = self.world.set(target, newc);
                proof {
                    assert(res is Ok);
                    before.lemma_cell_of_in_range(target);
                    let pcell = before.cell_of(target);
                    assert(self.world.data@ == before.data@.update(pcell, newc));
                    assert(before.data@[pcell] == cell);
                    assert(cells_wf(self.world.data@)) by {
                        assert forall|n: int| 0 <= n < self.world.data@.len() implies (
                        #[trigger] self.world.data@[n]).wf() by {
                            if n == pcell {
                            } else {
                                assert(self.world.data@[n] == before.data@[n]);
                            }
                        }
                    }
                    assert(grid_restricts(self.world.data@, before.data@)) by {
                        assert(cell_restricts(newc, cell));
                        assert forall|n: int| 0 <= n < self.world.data@.len() implies
                            cell_restricts(#[trigger] self.world.data@[n], before.data@[n]) by {
                            if n == pcell {
                            } else {
                                assert(self.world.data@[n] == before.data@[n]);
                            }
                        }
                    }
                    lemma_grid_restricts_trans(self.world.data@, before.data@, pre.world.data@);
                    assert forall|jj: int| 0 <= jj < size && jj != j as int implies (
                    #[trigger] self.world.spec_get(spec_window_index(index, shape, jj)))
                        == before.spec_get(spec_window_index(index, shape, jj)) by {
                        crate::world::lemma_window_index_injective(index, shape, jj, j as int);
                    }
                    assert(in_window(index, shape, target));
                }
                changed = true;
            } else {
                proof {
                    assert(self.world.spec_get(spec_window_index(index, shape, j as int)).0
                        == pre.world.spec_get(spec_window_index(index, shape, j as int)).0
                        | only_mask(C as int, stamp.sample_spec(j as int) as int));
                }
            }
            j = j + 1;
        }
        proof {
            if changed {
                let jj = choose|jj: int|
                    0 <= jj < size && (#[trigger] pre.world.spec_get(
                        spec_window_index(index, shape, jj),
                    )).0 != pre.world.spec_get(spec_window_index(index, shape, jj)).0 | only_mask(
                        C as int,
                        stamp.sample_spec(jj) as int,
                    );
                let w = spec_window_index(index, shape, jj);
                assert(self.world.spec_get(w).0 != pre.world.spec_get(w).0);
                assert(pre.world.contains_spec(w)) by {
                    if !pre.world.contains_spec(w) {
                        assert(self.world.spec_get(w) == pre.world.spec_get(w));
                    }
                }
                pre.world.lemma_cell_of_in_range(w);
                self.world.lemma_cell_of_in_range(w);
                lemma_allowed_sum_strict(
                    self.world.data@,
                    pre.world.data@,
                    pre.world.cell_of(w),
                    pre.world.data@.len() as int,
                );
            }
        }
        changed
    }

    /// One propagation pass: visits each stamp offset of the given
    /// extent (clamped to the wave's stamps-extent) in row-major order
    /// and, wherever exactly one stamp fits, forces the window to it.
    /// Returns whether anything changed; an unchanged pass certifies
    /// that no forced write remains over the visited offsets.
    fn collapse_pass(&mut self, ext: &Extent, stamps: &StampCollection) -> (changed: bool)
        requires
            old(self).inv(),
            ext.inv(),
            wave_stamps_ok::<C>(*stamps),
        ensures
            final(self).inv(),
            final(self).world.offset == old(self).world.offset,
            final(self).world.shape == old(self).world.shape,
            grid_restricts(final(self).world.data@, old(self).world.data@),
            changed ==> allowed_sum(
                final(self).world.data@,
                final(self).world.data@.len() as int,
            ) < allowed_sum(old(self).world.data@, old(self).world.data@.len() as int),
            !changed ==> *final(self) == *old(self),
            !changed ==> forall|o: WorldIndex|
                ext.contains_spec(o) && final(self).world.get_extent_spec().stamp_fits(
                    stamps.shape,
                    o,
                ) ==> forced_write_free(
                    final(self).world,
                    stamps.stamps@,
                    stamps.shape,
                    o,
                ),
            preserves_assignments(
                old(self).world.data@,
                final(self).world.data@,
                old(self).world.offset,
                old(self).world.shape,
                stamps.stamps@,
                stamps.shape,
            ),
            (forall|o: WorldIndex|
                ext.contains_spec(o) && old(self).world.get_extent_spec().stamp_fits(
                    stamps.shape,
                    o,
                ) ==> forced_write_free(
                    old(self).world,
                    stamps.stamps@,
                    stamps.shape,
                    o,
                )) ==> (!changed && *final(self) == *old(self)),
    {
        let ghost pre = *old(self);
        let se = self.world.get_stamps_extent(stamps.shape);
        let region = ext.intersection(&se);
        proof {
            assert(region.iterable()) by {
                if !(region.start == WorldIndex(0, 0, 0) && region.end == WorldIndex(0, 0, 0)) {
                    assert(se.start.0 < se.end.0 && se.start.1 < se.end.1 && se.start.2 < se.end.2);
                }
            }
        }
        let offs = region.iter_indices();
        let mut changed = false;
        let mut n: usize = 0;
        while n < offs.len()
            invariant
                n <= offs@.len(),
                pre.inv(),
                self.inv(),
                wave_stamps_ok::<C>(*stamps),
                self.world.offset == pre.world.offset,
                self.world.shape == pre.world.shape,
                grid_restricts(self.world.data@, pre.world.data@),
                region.iterable(),
                offs@.len() == region.volume(),
                forall|m: int| 0 <= m < offs@.len() ==> offs@[m] == region.index_at(m),
                forall|o: WorldIndex|
                    region.contains_spec(o) <==> (ext.contains_spec(o)
                        && pre.world.get_extent_spec().stamp_fits(stamps.shape, o)),
                changed ==> allowed_sum(self.world.data@, self.world.data@.len() as int)
                    < allowed_sum(pre.world.data@, pre.world.data@.len() as int),
                !changed ==> *self == pre,
                !changed ==> forall|m: int|
                    0 <= m < n ==> forced_write_free(
                        self.world,
                        stamps.stamps@,
                        stamps.shape,
                        #[trigger] region.index_at(m),
                    ),
                preserves_assignments(
                    pre.world.data@,
                    self.world.data@,
                    pre.world.offset,
                    pre.world.shape,
                    stamps.stamps@,
                    stamps.shape,
                ),
                (forall|o: WorldIndex|
                    ext.contains_spec(o) && pre.world.get_extent_spec().stamp_fits(
                        stamps.shape,
                        o,
                    ) ==> forced_write_free(
                        pre.world,
                        stamps.stamps@,
                        stamps.shape,
                        o,
                    )) ==> (!changed && *self == pre),
            decreases offs@.len() - n,
        {
            let o = offs[n];
            proof {
                region.lemma_index_at_contains(n as int);
                assert(pre.world.get_extent_spec().stamp_fits(stamps.shape, o));
                assert(crate::world::coord_in_range(o)) by {
                    assert(region.contains_spec(o));
                }
            }
            let ghost at_entry = *self;
            let view = ViewStamp::new(&self.world, o, stamps.shape);
            let outcome = stamps.get_collapse_outcomes(&view);
            proof {
                lemma_view_fits_agree(view, stamps.stamps@, stamps.stamps@.len() as int);
            }
            match outcome {
                CollapseOutcomes::One(st) => {
                    let ghost k0 = choose|k: int|
                        0 <= k < stamps.stamps@.len() && view.allows_stamp(
                            #[trigger] stamps.stamps@[k].0,
                        ) && outcome == CollapseOutcomes::One(stamps.stamps@[k].0);
                    proof {
                        assert(st == stamps.stamps@[k0].0);
                        assert(st.wf());
                        assert(st.values_below(C as int));
                        // under the no-forced-write hypothesis the state is
                        // still the entry state and this window writes nothing
                        if forall|o2: WorldIndex|
                            ext.contains_spec(o2) && pre.world.get_extent_spec().stamp_fits(
                                stamps.shape,
                                o2,
                            ) ==> forced_write_free(
                                pre.world,
                                stamps.stamps@,
                                stamps.shape,
                                o2,
                            ) {
                            assert(forced_write_free(pre.world, stamps.stamps@, stamps.shape, o));
                            assert(value_fits_count(
                                pre.world,
                                o,
                                stamps.shape,
                                stamps.stamps@,
                                stamps.stamps@.len() as int,
                            ) == 1);
                            assert(value_window_allows(pre.world, o, stamps.shape, st));
                            assert forall|j: int| 0 <= j < stamps.shape.size_spec() implies (
                            #[trigger] at_entry.world.spec_get(
                                spec_window_index(o, stamps.shape, j),
                            )).0 == at_entry.world.spec_get(
                                spec_window_index(o, stamps.shape, j),
                            ).0 | only_mask(C as int, st.sample_spec(j) as int) by {
                                assert(at_entry.world == pre.world);
                            }
                        }
                    }
                    let ch = self.write_stamp(o, &st);
                    proof {
                        assert(at_entry.world.get_extent_spec().stamp_fits(stamps.shape, o));
                        lemma_forced_write_preserves(
                            at_entry.world,
                            self.world,
                            *stamps,
                            o,
                            st,
                            k0,
                            view,
                        );
                        lemma_preserves_trans(
                            pre.world.data@,
                            at_entry.world.data@,
                            self.world.data@,
                            pre.world.offset,
                            pre.world.shape,
                            stamps.stamps@,
                            stamps.shape,
                        );
                    }
                    if ch {
                        proof {
                            lemma_allowed_sum_restricts(
                                at_entry.world.data@,
                                pre.world.data@,
                                pre.world.data@.len() as int,
                            );
                        }
                        changed = true;
                    } else {
                        proof {
                            assert(*self == at_entry);
                            if !changed {
                                assert forall|m: int| 0 <= m < n as int + 1 implies
                                    forced_write_free(
                                    self.world,
                                    stamps.stamps@,
                                    stamps.shape,
                                    #[trigger] region.index_at(m),
                                ) by {
                                    if m == n as int {
                                        Self::lemma_forced_free_one(
                                            self.world,
                                            *stamps,
                                            o,
                                            k0,
                                            st,
                                            view,
                                        );
                                    }
                                }
                            }
                        }
                    }
                },
                CollapseOutcomes::NoneFit => {
                    proof {
                        assert(value_fits_count(
                            self.world,
                            o,
                            stamps.shape,
                            stamps.stamps@,
                            stamps.stamps@.len() as int,
                        ) == 0);
                    }
                },
                CollapseOutcomes::Multiple => {
                    proof {
                        assert(value_fits_count(
                            self.world,
                            o,
                            stamps.shape,
                            stamps.stamps@,
                            stamps.stamps@.len() as int,
                        ) >= 2);
                    }
                },
            }
            n = n + 1;
        }
        proof {
            if !changed {
                assert forall|o: WorldIndex|
                    ext.contains_spec(o) && self.world.get_extent_spec().stamp_fits(
                        stamps.shape,
                        o,
                    ) implies forced_write_free(self.world, stamps.stamps@, stamps.shape, o) by {
                    assert(region.contains_spec(o));
                    region.lemma_contains_has_rank(o);
                    assert(forced_write_free(
                        self.world,
                        stamps.stamps@,
                        stamps.shape,
                        region.index_at(region.rank_of(o)),
                    ));
                }
            }
        }
        changed
    }

    /// Propagates collapse to quiescence.  A first pass visits the
    /// stamp offsets of `extent`; while anything changes, further
    /// passes sweep the whole wave.  Terminates because the total
    /// number of allowed ids strictly decreases with every changed
    /// pass and is bounded by `cells * C`.  On return no forced write
    /// remains: over the given extent when nothing changed, over the
    /// whole wave otherwise.
    pub fn collapse(&mut self, extent: &Extent, stamps: &StampCollection) -> (changed: bool)
        requires
            old(self).inv(),
            extent.inv(),
            wave_stamps_ok::<C>(*stamps),
        ensures
            final(self).inv(),
            final(self).world.offset == old(self).world.offset,
            final(self).world.shape == old(self).world.shape,
            grid_restricts(final(self).world.data@, old(self).world.data@),
            !changed ==> *final(self) == *old(self),
            !changed ==> forall|o: WorldIndex|
                extent.contains_spec(o) && final(self).world.get_extent_spec().stamp_fits(
                    stamps.shape,
                    o,
                ) ==> forced_write_free(final(self).world, stamps.stamps@, stamps.shape, o),
            changed ==> allowed_sum(
                final(self).world.data@,
                final(self).world.data@.len() as int,
            ) < allowed_sum(old(self).world.data@, old(self).world.data@.len() as int),
            changed ==> forall|o: WorldIndex|
                final(self).world.get_extent_spec().stamp_fits(stamps.shape, o)
                    ==> forced_write_free(final(self).world, stamps.stamps@, stamps.shape, o),
            preserves_assignments(
                old(self).world.data@,
                final(self).world.data@,
                old(self).world.offset,
                old(self).world.shape,
                stamps.stamps@,
                stamps.shape,
            ),
            (forall|o: WorldIndex|
                extent.contains_spec(o) && old(self).world.get_extent_spec().stamp_fits(
                    stamps.shape,
                    o,
                ) ==> forced_write_free(
                    old(self).world,
                    stamps.stamps@,
                    stamps.shape,
                    o,
                )) ==> (!changed && *final(self) == *old(self)),
    {
        let ghost pre = *old(self);
        let first = self.collapse_pass(extent, stamps);
        if !first {
            return false;
        }
        let full = self.get_extent();
        proof {
            assert(full.inv());
        }
        loop
            invariant_except_break
                self.inv(),
                wave_stamps_ok::<C>(*stamps),
                full.inv(),
                full == self.world.get_extent_spec(),
                self.world.offset == pre.world.offset,
                self.world.shape == pre.world.shape,
                grid_restricts(self.world.data@, pre.world.data@),
                allowed_sum(self.world.data@, self.world.data@.len() as int) < allowed_sum(
                    pre.world.data@,
                    pre.world.data@.len() as int,
                ),
                preserves_assignments(
                    pre.world.data@,
                    self.world.data@,
                    pre.world.offset,
                    pre.world.shape,
                    stamps.stamps@,
                    stamps.shape,
                ),
            ensures
                self.inv(),
                self.world.offset == pre.world.offset,
                self.world.shape == pre.world.shape,
                grid_restricts(self.world.data@, pre.world.data@),
                allowed_sum(self.world.data@, self.world.data@.len() as int) < allowed_sum(
                    pre.world.data@,
                    pre.world.data@.len() as int,
                ),
                preserves_assignments(
                    pre.world.data@,
                    self.world.data@,
                    pre.world.offset,
                    pre.world.shape,
                    stamps.stamps@,
                    stamps.shape,
                ),
                forall|o: WorldIndex|
                    full.contains_spec(o) && self.world.get_extent_spec().stamp_fits(
                        stamps.shape,
                        o,
                    ) ==> forced_write_free(self.world, stamps.stamps@, stamps.shape, o),
            decreases allowed_sum(self.world.data@, self.world.data@.len() as int),
        {
            proof {
                lemma_allowed_sum_bound::<C>(self.world.data@, self.world.data@.len() as int);
            }
            let ghost before_pass = *self;
            let ch = self.collapse_pass(&full, stamps);
            proof {
                lemma_preserves_trans(
                    pre.world.data@,
                    before_pass.world.data@,
                    self.world.data@,
                    pre.world.offset,
                    pre.world.shape,
                    stamps.stamps@,
                    stamps.shape,
                );
            }
            if !ch {
                break;
            }
            proof {
                lemma_allowed_sum_bound::<C>(self.world.data@, self.world.data@.len() as int);
            }
        }
        proof {
            assert forall|o: WorldIndex|
                self.world.get_extent_spec().stamp_fits(stamps.shape, o) implies
                forced_write_free(self.world, stamps.stamps@, stamps.shape, o) by {
                assert(full.contains_spec(o)) by {
                    Self::lemma_fits_implies_contains(self.world, stamps.shape, o);
                }
            }
        }
        true
    }

    /// The wave's stamps-extent has supported dimensions and can be
    /// iterated.
    pub proof fn lemma_se_iterable(self, shape: Shape)
        requires
            self.inv(),
            shape.wf(),
            shape.x >= 1,
            shape.y >= 1,
            shape.z >= 1,
        ensures
            self.world.get_extent_spec().get_stamps_extent_spec(shape).iterable(),
    {
    }

    /// A window that fits lies inside the wave's extent.
    proof fn lemma_fits_implies_contains(
        world: FlatPaddedGridCuboid<Superposition<C>>,
        shape: Shape,
        o: WorldIndex,
    )
        requires
            world.inv(),
            shape.x >= 1,
            shape.y >= 1,
            shape.z >= 1,
            world.get_extent_spec().stamp_fits(shape, o),
        ensures
            world.get_extent_spec().contains_spec(o),
    {
    }

    /// The grid as it stands right after writing `value` at `index`,
    /// before propagation.
    pub open spec fn seeded_data(
        world: FlatPaddedGridCuboid<Superposition<C>>,
        index: WorldIndex,
        value: Superposition<C>,
    ) -> Seq<Superposition<C>> {
        if world.contains_spec(index) {
            world.data@.update(world.cell_of(index), value)
        } else {
            world.data@
        }
    }

    /// Writes one cell and propagates the consequences.  The write may
    /// lock or unlock possibilities — this is intentional, to allow
    /// interactivity; afterwards, every cell is a restriction of the
    /// grid as seeded by the write, and no forced write remains at any
    /// stamp offset whose window contains the written cell.
    pub fn set(&mut self, index: WorldIndex, value: Superposition<C>, stamps: &StampCollection)
        -> (r: Result<(), OutOfBounds>)
        requires
            old(self).inv(),
            value.wf(),
            wave_stamps_ok::<C>(*stamps),
        ensures
            final(self).inv(),
            final(self).world.offset == old(self).world.offset,
            final(self).world.shape == old(self).world.shape,
            old(self).world.spec_get(index) == value ==> r is Ok && *final(self) == *old(self),
            r is Err <==> (old(self).world.spec_get(index) != value && !old(
                self,
            ).world.contains_spec(index)),
            r is Err ==> *final(self) == *old(self),
            r is Ok ==> grid_restricts(
                final(self).world.data@,
                Self::seeded_data(old(self).world, index, value),
            ),
            r is Ok ==> preserves_assignments(
                Self::seeded_data(old(self).world, index, value),
                final(self).world.data@,
                old(self).world.offset,
                old(self).world.shape,
                stamps.stamps@,
                stamps.shape,
            ),
            (r is Ok && old(self).world.spec_get(index) != value) ==> forall|o: WorldIndex|
                final(self).world.get_extent_spec().stamp_fits(stamps.shape, o) && o.0 <= index.0
                    < o.0 + stamps.shape.x && o.1 <= index.1 < o.1 + stamps.shape.y && o.2
                    <= index.2 < o.2 + stamps.shape.z ==> forced_write_free(
                    final(self).world,
                    stamps.stamps@,
                    stamps.shape,
                    o,
                ),
    {
        let ghost pre = *old(self);
        let cur = self.world.get(index);
        if cur.0 == value.0 {
            proof {
                assert(cur == value);
                lemma_grid_restricts_refl(Self::seeded_data(pre.world, index, value));
                lemma_preserves_refl(
                    Self::seeded_data(pre.world, index, value),
                    pre.world.offset,
                    pre.world.shape,
                    stamps.stamps@,
                    stamps.shape,
                );
                if pre.world.contains_spec(index) {
                    pre.world.lemma_cell_of_in_range(index);
                    assert(Self::seeded_data(pre.world, index, value) =~= pre.world.data@);
                }
            }
            return Ok(());
        }
        let ghost before = self.world;
        let res = self.world.set(index, value);
        match res {
            Result::Err(e) => {
                return Err(e);
            },
            Result::Ok(()) => {},
        }
        proof {
            before.lemma_cell_of_in_range(index);
            assert(self.world.data@ == Self::seeded_data(pre.world, index, value));
            assert(cells_wf(self.world.data@)) by {
                assert forall|n: int| 0 <= n < self.world.data@.len() implies (
                #[trigger] self.world.data@[n]).wf() by {
                    if n != before.cell_of(index) {
                        assert(self.world.data@[n] == before.data@[n]);
                    }
                }
            }
        }
        let ext = self.get_extent();
        let cont = ext.get_stamps_containing(stamps.shape, index);
        let ghost seeded = *self;
        let changed = self.collapse(&cont, stamps);
        proof {
            assert(grid_restricts(self.world.data@, seeded.world.data@));
            assert forall|o: WorldIndex|
                self.world.get_extent_spec().stamp_fits(stamps.shape, o) && o.0 <= index.0 < o.0
                    + stamps.shape.x && o.1 <= index.1 < o.1 + stamps.shape.y && o.2 <= index.2
                    < o.2 + stamps.shape.z implies forced_write_free(
                self.world,
                stamps.stamps@,
                stamps.shape,
                o,
            ) by {
                if !changed {
                    assert(cont.contains_spec(o));
                }
            }
        }
        Ok(())
    }

    /// Restricts one cell: logically `set(index, intersect(get(index),
    /// value))`.  Unlike a bare `set`, this can only remove
    /// possibilities, so the whole grid afterwards is a restriction of
    /// the grid before; when the cell actually shrinks, the change is
    /// propagated like a `set`.  Succeeds unless the index lies
    /// outside the wave and the restriction would actually change the
    /// cell; on success the cell afterwards has absorbed the given
    /// mask.
    pub fn limit(&mut self, index: WorldIndex, value: Superposition<C>, stamps: &StampCollection)
        -> (r: Result<(), OutOfBounds>)
        requires
            old(self).inv(),
            value.wf(),
            wave_stamps_ok::<C>(*stamps),
        ensures
            final(self).inv(),
            final(self).world.offset == old(self).world.offset,
            final(self).world.shape == old(self).world.shape,
            grid_restricts(final(self).world.data@, old(self).world.data@),
            r is Err ==> *final(self) == *old(self),
            r is Ok <==> (old(self).world.spec_get(index).0 == old(self).world.spec_get(index).0
                | value.0 || old(self).world.contains_spec(index)),
            r is Ok ==> final(self).world.spec_get(index).0 == final(self).world.spec_get(
                index,
            ).0 | value.0,
            r is Ok ==> preserves_assignments(
                Self::seeded_data(
                    old(self).world,
                    index,
                    (Superposition(old(self).world.spec_get(index).0 | value.0)),
                ),
                final(self).world.data@,
                old(self).world.offset,
                old(self).world.shape,
                stamps.stamps@,
                stamps.shape,
            ),
            (r is Ok && old(self).world.spec_get(index).0 != old(self).world.spec_get(index).0
                | value.0) ==> forall|o: WorldIndex|
                final(self).world.get_extent_spec().stamp_fits(stamps.shape, o) && o.0 <= index.0
                    < o.0 + stamps.shape.x && o.1 <= index.1 < o.1 + stamps.shape.y && o.2
                    <= index.2 < o.2 + stamps.shape.z ==> forced_write_free(
                    final(self).world,
                    stamps.stamps@,
                    stamps.shape,
                    o,
                ),
    {
        let ghost pre = *old(self);
        let cur = self.world.get(index);
        proof {
            if pre.world.contains_spec(index) {
                pre.world.lemma_cell_of_in_range(index);
            } else {
                assert(cur == Superposition::<C>(0));
                let l = crate::superposition::low_mask(C as int);
                assert(0u64 & !l == 0) by (bit_vector);
            }
        }
        let newv = cur.intersect(value);
        let res = self.set(index, newv, stamps);
        proof {
            if res is Ok {
                assert(grid_restricts(Self::seeded_data(pre.world, index, newv), pre.world.data@))
                    by {
                    if pre.world.contains_spec(index) {
                        pre.world.lemma_cell_of_in_range(index);
                        assert(cell_restricts(newv, cur));
                        assert forall|n: int|
                            0 <= n < Self::seeded_data(pre.world, index, newv).len() implies
                            cell_restricts(
                            #[trigger] Self::seeded_data(pre.world, index, newv)[n],
                            pre.world.data@[n],
                        ) by {
                        }
                    }
                }
                lemma_grid_restricts_trans(
                    self.world.data@,
                    Self::seeded_data(pre.world, index, newv),
                    pre.world.data@,
                );
                assert(newv == (Superposition::<C>(pre.world.spec_get(index).0 | value.0)));
                // the written (or already absorbed) cell keeps the mask
                assert forall|i: int| 0 <= i < 64 && crate::superposition::bit_set(
                    value.0,
                    i,
                ) implies crate::superposition::bit_set(newv.0, i) by {
                    crate::superposition::lemma_or_bit(cur.0, value.0, i);
                }
                crate::superposition::lemma_absorb_from_bits(newv.0, value.0);
                if pre.world.contains_spec(index) {
                    pre.world.lemma_cell_of_in_range(index);
                    self.world.lemma_cell_of_in_range(index);
                    assert(cell_restricts(
                        self.world.data@[pre.world.cell_of(index)],
                        Self::seeded_data(pre.world, index, newv)[pre.world.cell_of(index)],
                    ));
                    assert(Self::seeded_data(pre.world, index, newv)[pre.world.cell_of(index)]
                        == newv);
                    Superposition::<C>::lemma_restriction_keeps_absorption(
                        self.world.spec_get(index),
                        newv,
                        value.0,
                    );
                } else {
                    assert(self.world.spec_get(index) == cur);
                    assert(cur.0 == newv.0);
                }
            }
        }
        res
    }

    /// Forces the window at `index` to the given stamp: restricts
    /// every window cell to the stamp's voxel and propagates.  Fails,
    /// changing nothing, exactly when the window does not lie entirely
    /// inside the wave.
    pub fn limit_stamp(
        &mut self,
        index: WorldIndex,
        stamp: &ViewStamp<'_, VoxelId>,
        stamps: &StampCollection,
    ) -> (r: Result<(), OutOfBounds>)
        requires
            old(self).inv(),
            wave_stamps_ok::<C>(*stamps),
            stamp.wf(),
            stamp.shape == stamps.shape,
            stamp.values_below(C as int),
        ensures
            final(self).inv(),
            final(self).world.offset == old(self).world.offset,
            final(self).world.shape == old(self).world.shape,
            grid_restricts(final(self).world.data@, old(self).world.data@),
            r is Ok <==> old(self).world.get_extent_spec().stamp_fits(stamps.shape, index),
            r is Err ==> *final(self) == *old(self),
            (r is Ok && (exists|j: int|
                0 <= j < stamps.shape.size_spec() && (#[trigger] old(self).world.spec_get(
                    spec_window_index(index, stamps.shape, j),
                )).0 != old(self).world.spec_get(spec_window_index(index, stamps.shape, j)).0
                    | only_mask(C as int, stamp.sample_spec(j) as int))) ==> (allowed_sum(
                final(self).world.data@,
                final(self).world.data@.len() as int,
            ) < allowed_sum(old(self).world.data@, old(self).world.data@.len() as int) && (
            forall|o: WorldIndex|
                final(self).world.get_extent_spec().stamp_fits(stamps.shape, o)
                    ==> forced_write_free(final(self).world, stamps.stamps@, stamps.shape, o))),
            r is Ok ==> forall|j: int|
                0 <= j < stamps.shape.size_spec() ==> (#[trigger] final(self).world.spec_get(
                    spec_window_index(index, stamps.shape, j),
                )).0 == final(self).world.spec_get(spec_window_index(index, stamps.shape, j)).0
                    | only_mask(C as int, stamp.sample_spec(j) as int),
            r is Ok ==> forall|a: Seq<VoxelId>|
                a.len() == old(self).world.data@.len() && assignment_ids_ok(a, C as int)
                    && assignment_consistent(
                    a,
                    old(self).world.offset,
                    old(self).world.shape,
                    stamps.stamps@,
                    stamps.shape,
                ) && #[trigger] assignment_allowed(a, old(self).world.data@)
                    && assignment_window(
                    a,
                    old(self).world.offset,
                    old(self).world.shape,
                    index,
                    stamps.shape,
                ) == stamp.samples_spec() ==> assignment_allowed(a, final(self).world.data@),
    {
        let ghost pre = *old(self);
        let e = self.get_extent();
        let fits = e.start.0 as i64 <= index.0 as i64 && index.0 as i64 + stamps.shape.x as i64
            <= e.end.0 as i64 && e.start.1 as i64 <= index.1 as i64 && index.1 as i64
            + stamps.shape.y as i64 <= e.end.1 as i64 && e.start.2 as i64 <= index.2 as i64
            && index.2 as i64 + stamps.shape.z as i64 <= e.end.2 as i64;
        proof {
            assert(fits == pre.world.get_extent_spec().stamp_fits(stamps.shape, index));
        }
        if !fits {
            return Err(OutOfBounds);
        }
        let ch = self.write_stamp(index, stamp);
        let ghost mid = *self;
        proof {
            let shape = stamps.shape;
            // the written window has absorbed the stamp's masks
            assert forall|j: int| 0 <= j < shape.size_spec() implies (
            #[trigger] mid.world.spec_get(spec_window_index(index, shape, j))).0 == mid
                .world.spec_get(spec_window_index(index, shape, j)).0 | only_mask(
                C as int,
                stamp.sample_spec(j) as int,
            ) by {
                let m = only_mask(C as int, stamp.sample_spec(j) as int);
                let x = pre.world.spec_get(spec_window_index(index, shape, j)).0;
                assert forall|i: int| 0 <= i < 64 && crate::superposition::bit_set(m, i) implies
                    crate::superposition::bit_set(x | m, i) by {
                    crate::superposition::lemma_or_bit(x, m, i);
                }
                crate::superposition::lemma_absorb_from_bits(x | m, m);
            }
            // a consistent allowed assignment matching the stamp survives the write
            assert forall|a: Seq<VoxelId>|
                a.len() == pre.world.data@.len() && assignment_ids_ok(a, C as int)
                    && assignment_consistent(
                    a,
                    pre.world.offset,
                    pre.world.shape,
                    stamps.stamps@,
                    shape,
                ) && #[trigger] assignment_allowed(a, pre.world.data@) && assignment_window(
                    a,
                    pre.world.offset,
                    pre.world.shape,
                    index,
                    shape,
                ) == stamp.samples_spec() implies assignment_allowed(a, mid.world.data@) by {
                assert forall|n: int| 0 <= n < mid.world.data@.len() implies (
                #[trigger] mid.world.data@[n]).allows_spec(a[n] as int) by {
                    mid.world.lemma_index_of_in_range(n);
                    pre.world.lemma_index_of_in_range(n);
                    let i = mid.world.index_of(n);
                    assert(i == pre.world.index_of(n));
                    if in_window(index, shape, i) {
                        assert(crate::world::coord_in_range(index));
                        lemma_in_window_rank(index, shape, i);
                        let j = shape.linearize_spec(
                            i.0 - index.0,
                            i.1 - index.1,
                            i.2 - index.2,
                        );
                        assert(spec_window_index(index, shape, j) == i);
                        assert(a[n] == stamp.sample_spec(j)) by {
                            assert(assignment_window(
                                a,
                                pre.world.offset,
                                pre.world.shape,
                                index,
                                shape,
                            )[j] == a[wave_cell_rank(pre.world.offset, pre.world.shape, i)]);
                            assert(wave_cell_rank(pre.world.offset, pre.world.shape, i)
                                == pre.world.cell_of(i));
                            pre.world.lemma_cell_of_in_range(i);
                            assert(pre.world.cell_of(i) == n);
                            assert(stamp.samples_spec()[j] == stamp.sample_spec(j));
                        }
                        let v = a[n] as int;
                        let m = only_mask(C as int, stamp.sample_spec(j) as int);
                        assert(mid.world.spec_get(i).0 == pre.world.spec_get(i).0 | m);
                        assert(!crate::superposition::bit_set(m, v)) by {
                            assert(stamp.sample_spec(j) < C);
                            crate::superposition::lemma_only_mask_bit(
                                C as int,
                                stamp.sample_spec(j) as int,
                                v,
                            );
                        }
                        assert(!crate::superposition::bit_set(pre.world.spec_get(i).0, v)) by {
                            assert(pre.world.data@[n].allows_spec(v));
                        }
                        crate::superposition::lemma_or_bit(pre.world.spec_get(i).0, m, v);
                        assert(mid.world.spec_get(i).allows_spec(v));
                        assert(mid.world.data@[n] == mid.world.spec_get(i));
                    } else {
                        assert(mid.world.spec_get(i) == pre.world.spec_get(i));
                        assert(pre.world.data@[n].allows_spec(a[n] as int));
                    }
                }
            }
        }
        if ch {
            let full = self.get_extent();
            let changed = self.collapse(&full, stamps);
            proof {
                lemma_grid_restricts_trans(self.world.data@, mid.world.data@, pre.world.data@);
                lemma_allowed_sum_restricts(
                    self.world.data@,
                    mid.world.data@,
                    mid.world.data@.len() as int,
                );
                assert forall|o: WorldIndex|
                    self.world.get_extent_spec().stamp_fits(stamps.shape, o) implies
                    forced_write_free(self.world, stamps.stamps@, stamps.shape, o) by {
                    if !changed {
                        Self::lemma_fits_implies_contains(self.world, stamps.shape, o);
                        assert(full.contains_spec(o));
                    }
                }
                // absorption survives the propagation's further restriction
                assert forall|j: int| 0 <= j < stamps.shape.size_spec() implies (
                #[trigger] self.world.spec_get(spec_window_index(index, stamps.shape, j))).0
                    == self.world.spec_get(spec_window_index(index, stamps.shape, j)).0
                    | only_mask(C as int, stamp.sample_spec(j) as int) by {
                    let wj = spec_window_index(index, stamps.shape, j);
                    lemma_spec_get_restricts(self.world, mid.world, wj);
                    assert(stamp.sample_spec(j) < C);
                    crate::superposition::lemma_only_mask_canonical(
                        C as int,
                        stamp.sample_spec(j) as int,
                    );
                    Superposition::<C>::lemma_restriction_keeps_absorption(
                        self.world.spec_get(wj),
                        mid.world.spec_get(wj),
                        only_mask(C as int, stamp.sample_spec(j) as int),
                    );
                }
            }
        }
        Ok(())
    }

    /// Adopts a seed grid and immediately propagates the constraints
    /// it carries: afterwards the grid is a restriction of the seed,
    /// no forced write remains anywhere, and every consistent
    /// assignment the seed allowed is still allowed.  A seed that
    /// already has no forced window is adopted unchanged.
    pub fn new(world: FlatPaddedGridCuboid<Superposition<C>>, stamps: &StampCollection) -> (r:
        Self)
        requires
            Superposition::<C>::dims_ok(),
            world.inv(),
            cells_wf(world.data@),
            wave_stamps_ok::<C>(*stamps),
        ensures
            r.inv(),
            r.world.offset == world.offset,
            r.world.shape == world.shape,
            grid_restricts(r.world.data@, world.data@),
            forall|o: WorldIndex|
                r.world.get_extent_spec().stamp_fits(stamps.shape, o) ==> forced_write_free(
                    r.world,
                    stamps.stamps@,
                    stamps.shape,
                    o,
                ),
            preserves_assignments(
                world.data@,
                r.world.data@,
                world.offset,
                world.shape,
                stamps.stamps@,
                stamps.shape,
            ),
            (forall|o: WorldIndex|
                world.get_extent_spec().stamp_fits(stamps.shape, o) ==> forced_write_free(
                    world,
                    stamps.stamps@,
                    stamps.shape,
                    o,
                )) ==> r.world == world,
    {
        let ghost seed = world;
        let mut new_wave = Naive { world };
        let full = new_wave.get_extent();
        let changed = new_wave.collapse(&full, stamps);
        proof {
            if !changed {
                assert forall|o: WorldIndex|
                    new_wave.world.get_extent_spec().stamp_fits(stamps.shape, o) implies
                    forced_write_free(new_wave.world, stamps.stamps@, stamps.shape, o) by {
                    Self::lemma_fits_implies_contains(new_wave.world, stamps.shape, o);
                }
            }
            if forall|o: WorldIndex|
                seed.get_extent_spec().stamp_fits(stamps.shape, o) ==> forced_write_free(
                    seed,
                    stamps.stamps@,
                    stamps.shape,
                    o,
                ) {
                assert forall|o: WorldIndex|
                    full.contains_spec(o) && seed.get_extent_spec().stamp_fits(
                        stamps.shape,
                        o,
                    ) implies forced_write_free(seed, stamps.stamps@, stamps.shape, o) by {
                }
            }
        }
        new_wave
    }

    /// After an unchanged forced write of the unique fitting stamp,
    /// no forced write remains at that offset.
    proof fn lemma_forced_free_one(
        world: FlatPaddedGridCuboid<Superposition<C>>,
        stamps: StampCollection,
        o: WorldIndex,
        k0: int,
        st: ViewStamp<VoxelId>,
        view: ViewStamp<Superposition<C>>,
    )
        requires
            stamps.wf(),
            0 <= k0 < stamps.stamps@.len(),
            st == stamps.stamps@[k0].0,
            view.space == world,
            view.offset == o,
            view.shape == stamps.shape,
            view.allows_stamp(st),
            fits_count(view, stamps.stamps@, stamps.stamps@.len() as int) == 1,
            forall|j: int|
                0 <= j < stamps.shape.size_spec() ==> (#[trigger] world.spec_get(
                    spec_window_index(o, stamps.shape, j),
                )).0 == world.spec_get(spec_window_index(o, stamps.shape, j)).0 | only_mask(
                    C as int,
                    st.sample_spec(j) as int,
                ),
        ensures
            forced_write_free(world, stamps.stamps@, stamps.shape, o),
    {
        lemma_view_fits_agree(view, stamps.stamps@, stamps.stamps@.len() as int);
        assert forall|k: int, j: int|
            0 <= k < stamps.stamps@.len() && value_window_allows(
                world,
                o,
                stamps.shape,
                #[trigger] stamps.stamps@[k].0,
            ) && 0 <= j < stamps.shape.size_spec() implies (#[trigger] world.spec_get(
            spec_window_index(o, stamps.shape, j),
        )).0 == world.spec_get(spec_window_index(o, stamps.shape, j)).0 | only_mask(
            C as int,
            stamps.stamps@[k].0.sample_spec(j) as int,
        ) by {
            assert(view.allows_stamp(stamps.stamps@[k].0));
            if k != k0 {
                if k < k0 {
                    crate::stamp::lemma_fits_count_two(
                        view,
                        stamps.stamps@,
                        k,
                        k0,
                        stamps.stamps@.len() as int,
                    );
                } else {
                    crate::stamp::lemma_fits_count_two(
                        view,
                        stamps.stamps@,
                        k0,
                        k,
                        stamps.stamps@.len() as int,
                    );
                }
            }
        }
    }
}


/// Monotone restriction: when one grid is a pointwise restriction of
/// another, every window admits at most the stamps it admitted before.
/// In particular, after `set` the windows near the written cell (and
/// everywhere else) admit no more stamps than before, as long as the
/// written value itself was a restriction.
pub proof fn lemma_restriction_admits_fewer<const C: u8>(
    post: FlatPaddedGridCuboid<Superposition<C>>,
    pre: FlatPaddedGridCuboid<Superposition<C>>,
    stamps: Seq<(ViewStamp<VoxelId>, usize)>,
    shape: Shape,
    o: WorldIndex,
    upto: int,
)
    requires
        post.inv(),
        pre.inv(),
        post.offset == pre.offset,
        post.shape == pre.shape,
        grid_restricts(post.data@, pre.data@),
        0 <= upto <= stamps.len(),
    ensures
        value_fits_count(post, o, shape, stamps, upto) <= value_fits_count(
            pre,
            o,
            shape,
            stamps,
            upto,
        ),
    decreases upto,
{
    if upto > 0 {
        lemma_restriction_admits_fewer(post, pre, stamps, shape, o, upto - 1);
        if value_window_allows(post, o, shape, stamps[upto - 1].0) {
            assert forall|n: int| 0 <= n < shape.size_spec() implies (#[trigger] pre.spec_get(
                spec_window_index(o, shape, n),
            )).allows_spec(stamps[upto - 1].0.sample_spec(n) as int) by {
                lemma_spec_get_restricts(post, pre, spec_window_index(o, shape, n));
                assert(post.spec_get(spec_window_index(o, shape, n)).allows_spec(
                    stamps[upto - 1].0.sample_spec(n) as int,
                ));
            }
        }
    }
}

/// At an open window (at least two stamps fit), forcing any fitting
/// stamp writes something: some window cell is not yet restricted to
/// the stamp's voxel.
pub proof fn lemma_open_site_write_changes<const C: u8>(
    world: FlatPaddedGridCuboid<Superposition<C>>,
    stamps: StampCollection,
    view: ViewStamp<Superposition<C>>,
    o: WorldIndex,
    st: ViewStamp<VoxelId>,
    k0: int,
)
    requires
        C <= 64,
        world.inv(),
        cells_wf(world.data@),
        wave_stamps_ok::<C>(stamps),
        view.space == world,
        view.offset == o,
        view.shape == stamps.shape,
        0 <= k0 < stamps.stamps@.len(),
        st == stamps.stamps@[k0].0,
        view.allows_stamp(st),
        fits_count(view, stamps.stamps@, stamps.stamps@.len() as int) >= 2,
    ensures
        exists|j: int|
            0 <= j < stamps.shape.size_spec() && (#[trigger] world.spec_get(
                spec_window_index(o, stamps.shape, j),
            )).0 != world.spec_get(spec_window_index(o, stamps.shape, j)).0 | only_mask(
                C as int,
                st.sample_spec(j) as int,
            ),
{
    let shape = stamps.shape;
    let len = stamps.stamps@.len() as int;
    if forall|j: int|
        0 <= j < shape.size_spec() ==> (#[trigger] world.spec_get(
            spec_window_index(o, shape, j),
        )).0 == world.spec_get(spec_window_index(o, shape, j)).0 | only_mask(
            C as int,
            st.sample_spec(j) as int,
        ) {
        crate::stamp::lemma_fits_count_two_converse(view, stamps.stamps@, len);
        let (ka, kb) = choose|ka: int, kb: int|
            0 <= ka < kb < len && view.allows_stamp(#[trigger] stamps.stamps@[ka].0)
                && view.allows_stamp(#[trigger] stamps.stamps@[kb].0);
        let sa = stamps.stamps@[ka].0;
        let sb = stamps.stamps@[kb].0;
        assert(sa.samples_spec() != sb.samples_spec());
        assert(sa.wf() && sb.wf() && sa.shape == shape && sb.shape == shape);
        assert(exists|j: int|
            0 <= j < shape.size_spec() && sa.sample_spec(j) != sb.sample_spec(j)) by {
            if forall|j: int|
                0 <= j < shape.size_spec() ==> (#[trigger] sa.sample_spec(j)) == sb.sample_spec(
                    j,
                ) {
                assert(sa.samples_spec() =~= sb.samples_spec());
            }
        }
        let j = choose|j: int|
            0 <= j < shape.size_spec() && (#[trigger] sa.sample_spec(j)) != sb.sample_spec(j);
        let cell = world.spec_get(spec_window_index(o, shape, j));
        let va = sa.sample_spec(j) as int;
        let vb = sb.sample_spec(j) as int;
        assert(view.sample_spec(j).allows_spec(sa.sample_spec(j) as int));
        assert(view.sample_spec(j).allows_spec(sb.sample_spec(j) as int));
        assert(view.sample_spec(j) == cell);
        assert(cell.allows_spec(va) && cell.allows_spec(vb));
        assert(0 <= va < C && 0 <= vb < C);
        let vst = st.sample_spec(j) as int;
        assert(cell.0 == cell.0 | only_mask(C as int, vst));
        assert forall|u: int| 0 <= u < C && u != vst implies !cell.allows_spec(u) by {
            crate::superposition::lemma_only_mask_bit(C as int, vst, u);
            crate::superposition::lemma_absorbed_bits(
                cell.0,
                only_mask(C as int, vst),
                u,
            );
        }
        assert(va == vst && vb == vst);
        assert(false);
    }
}


/// Buffer rank of index `i` in a wave grid anchored at `offset` with
/// dimensions `wshape`; agrees with the cuboid's own `cell_of`.
pub open spec fn wave_cell_rank(offset: WorldIndex, wshape: Shape, i: WorldIndex) -> int {
    wshape.linearize_spec(i.0 - offset.0, i.1 - offset.1, i.2 - offset.2)
}

/// Whether a window of dimensions `shape` at `o` lies entirely inside
/// the wave grid's box.
pub open spec fn wave_window_fits(
    offset: WorldIndex,
    wshape: Shape,
    shape: Shape,
    o: WorldIndex,
) -> bool {
    &&& offset.0 <= o.0 && o.0 + shape.x <= offset.0 + wshape.x
    &&& offset.1 <= o.1 && o.1 + shape.y <= offset.1 + wshape.y
    &&& offset.2 <= o.2 && o.2 + shape.z <= offset.2 + wshape.z
}

/// Every id of a full assignment is below the palette size `d`.
pub open spec fn assignment_ids_ok(a: Seq<VoxelId>, d: int) -> bool {
    forall|n: int| 0 <= n < a.len() ==> (#[trigger] a[n]) < d
}

/// Every cell still allows the id assigned to it.
pub open spec fn assignment_allowed<const C: u8>(
    a: Seq<VoxelId>,
    cells: Seq<Superposition<C>>,
) -> bool {
    forall|n: int| 0 <= n < cells.len() ==> (#[trigger] cells[n]).allows_spec(a[n] as int)
}

/// The assignment's ids over the window at `o`, in canonical order.
pub open spec fn assignment_window(
    a: Seq<VoxelId>,
    offset: WorldIndex,
    wshape: Shape,
    o: WorldIndex,
    shape: Shape,
) -> Seq<VoxelId> {
    Seq::new(
        shape.size_spec() as nat,
        |n: int| a[wave_cell_rank(offset, wshape, spec_window_index(o, shape, n))],
    )
}

/// The contents equal some stamp of the collection.
pub open spec fn matches_some_stamp(
    content: Seq<VoxelId>,
    stamps: Seq<(ViewStamp<VoxelId>, usize)>,
) -> bool {
    exists|k: int| 0 <= k < stamps.len() && (#[trigger] stamps[k].0).samples_spec() == content
}

/// The assignment is consistent with the collection: every window
/// that fits the wave grid holds some stamp's contents.
pub open spec fn assignment_consistent(
    a: Seq<VoxelId>,
    offset: WorldIndex,
    wshape: Shape,
    stamps: Seq<(ViewStamp<VoxelId>, usize)>,
    shape: Shape,
) -> bool {
    forall|o: WorldIndex|
        wave_window_fits(offset, wshape, shape, o) ==> matches_some_stamp(
            #[trigger] assignment_window(a, offset, wshape, o, shape),
            stamps,
        )
}

/// Propagation soundness between two grids of one wave: every full
/// assignment that is consistent with the collection and allowed by
/// the first grid is still allowed by the second.  This is the lower
/// bound on propagation: cells lose only ids that no consistent
/// completion of the grid uses.
pub open spec fn preserves_assignments<const C: u8>(
    pre: Seq<Superposition<C>>,
    post: Seq<Superposition<C>>,
    offset: WorldIndex,
    wshape: Shape,
    stamps: Seq<(ViewStamp<VoxelId>, usize)>,
    shape: Shape,
) -> bool {
    forall|a: Seq<VoxelId>|
        a.len() == pre.len() && assignment_ids_ok(a, C as int) && assignment_consistent(
            a,
            offset,
            wshape,
            stamps,
            shape,
        ) && #[trigger] assignment_allowed(a, pre) ==> assignment_allowed(a, post)
}

/// Soundness is reflexive.
pub proof fn lemma_preserves_refl<const C: u8>(
    cells: Seq<Superposition<C>>,
    offset: WorldIndex,
    wshape: Shape,
    stamps: Seq<(ViewStamp<VoxelId>, usize)>,
    shape: Shape,
)
    ensures
        preserves_assignments(cells, cells, offset, wshape, stamps, shape),
{
}

/// Soundness composes.
pub proof fn lemma_preserves_trans<const C: u8>(
    pre: Seq<Superposition<C>>,
    mid: Seq<Superposition<C>>,
    post: Seq<Superposition<C>>,
    offset: WorldIndex,
    wshape: Shape,
    stamps: Seq<(ViewStamp<VoxelId>, usize)>,
    shape: Shape,
)
    requires
        pre.len() == mid.len(),
        preserves_assignments(pre, mid, offset, wshape, stamps, shape),
        preserves_assignments(mid, post, offset, wshape, stamps, shape),
    ensures
        preserves_assignments(pre, post, offset, wshape, stamps, shape),
{
    assert forall|a: Seq<VoxelId>|
        a.len() == pre.len() && assignment_ids_ok(a, C as int) && assignment_consistent(
            a,
            offset,
            wshape,
            stamps,
            shape,
        ) && #[trigger] assignment_allowed(a, pre) implies assignment_allowed(a, post) by {
        assert(assignment_allowed(a, mid));
    }
}

/// An index inside a window is the window's cell at some rank.
pub proof fn lemma_in_window_rank(o: WorldIndex, shape: Shape, i: WorldIndex)
    requires
        shape.wf(),
        crate::world::coord_in_range(o),
        in_window(o, shape, i),
    ensures
        ({
            let j = shape.linearize_spec(i.0 - o.0, i.1 - o.1, i.2 - o.2);
            0 <= j < shape.size_spec() && spec_window_index(o, shape, j) == i
        }),
{
    shape.lemma_linearize_in_range(i.0 - o.0, i.1 - o.1, i.2 - o.2);
    shape.lemma_delinearize_of_linearize(i.0 - o.0, i.1 - o.1, i.2 - o.2);
}

/// Whether the window of `world` at `o` admits the given contents:
/// every cell allows the content's id at its position.
pub open spec fn window_admits<const C: u8>(
    world: FlatPaddedGridCuboid<Superposition<C>>,
    o: WorldIndex,
    shape: Shape,
    content: Seq<VoxelId>,
) -> bool {
    forall|n: int|
        0 <= n < shape.size_spec() ==> (#[trigger] world.spec_get(
            spec_window_index(o, shape, n),
        )).allows_spec(content[n] as int)
}

/// Two distinct fitting stamps give a fit count of at least two, at
/// the value level.
pub proof fn lemma_value_fits_two<const C: u8>(
    world: FlatPaddedGridCuboid<Superposition<C>>,
    o: WorldIndex,
    shape: Shape,
    stamps: Seq<(ViewStamp<VoxelId>, usize)>,
    k1: int,
    k2: int,
    upto: int,
)
    requires
        0 <= k1 < k2 < upto,
        value_window_allows(world, o, shape, stamps[k1].0),
        value_window_allows(world, o, shape, stamps[k2].0),
    ensures
        value_fits_count(world, o, shape, stamps, upto) >= 2,
    decreases upto,
{
    if k2 == upto - 1 {
        lemma_value_fits_one(world, o, shape, stamps, k1, upto - 1);
    } else {
        lemma_value_fits_two(world, o, shape, stamps, k1, k2, upto - 1);
    }
}

/// One fitting stamp below the bound makes the value-level count
/// positive.
pub proof fn lemma_value_fits_one<const C: u8>(
    world: FlatPaddedGridCuboid<Superposition<C>>,
    o: WorldIndex,
    shape: Shape,
    stamps: Seq<(ViewStamp<VoxelId>, usize)>,
    k: int,
    upto: int,
)
    requires
        0 <= k < upto,
        value_window_allows(world, o, shape, stamps[k].0),
    ensures
        value_fits_count(world, o, shape, stamps, upto) >= 1,
    decreases upto,
{
    if k == upto - 1 {
        lemma_value_fits_nonneg(world, o, shape, stamps, upto - 1);
    } else {
        lemma_value_fits_one(world, o, shape, stamps, k, upto - 1);
    }
}

/// The value-level count is never negative.
pub proof fn lemma_value_fits_nonneg<const C: u8>(
    world: FlatPaddedGridCuboid<Superposition<C>>,
    o: WorldIndex,
    shape: Shape,
    stamps: Seq<(ViewStamp<VoxelId>, usize)>,
    upto: int,
)
    requires
        0 <= upto,
    ensures
        value_fits_count(world, o, shape, stamps, upto) >= 0,
    decreases upto,
{
    if upto > 0 {
        lemma_value_fits_nonneg(world, o, shape, stamps, upto - 1);
    }
}


/// Forcing the unique fitting stamp over one window loses no
/// consistent assignment: any full assignment the grid allowed whose
/// windows all hold collection contents is still allowed after the
/// write, because its content at the forced window can only be the
/// forced stamp itself.
proof fn lemma_forced_write_preserves<const C: u8>(
    pre_world: FlatPaddedGridCuboid<Superposition<C>>,
    post_world: FlatPaddedGridCuboid<Superposition<C>>,
    stamps: StampCollection,
    o: WorldIndex,
    st: ViewStamp<VoxelId>,
    k0: int,
    view: ViewStamp<Superposition<C>>,
)
    requires
        C <= 64,
        pre_world.inv(),
        post_world.inv(),
        post_world.offset == pre_world.offset,
        post_world.shape == pre_world.shape,
        wave_stamps_ok::<C>(stamps),
        pre_world.get_extent_spec().stamp_fits(stamps.shape, o),
        view.space == pre_world,
        view.offset == o,
        view.shape == stamps.shape,
        fits_count(view, stamps.stamps@, stamps.stamps@.len() as int) == 1,
        0 <= k0 < stamps.stamps@.len(),
        st == stamps.stamps@[k0].0,
        view.allows_stamp(st),
        forall|j: int|
            0 <= j < stamps.shape.size_spec() ==> (#[trigger] post_world.spec_get(
                spec_window_index(o, stamps.shape, j),
            )).0 == pre_world.spec_get(spec_window_index(o, stamps.shape, j)).0 | only_mask(
                C as int,
                st.sample_spec(j) as int,
            ),
        forall|i: WorldIndex|
            !in_window(o, stamps.shape, i) ==> post_world.spec_get(i) == pre_world.spec_get(i),
    ensures
        preserves_assignments(
            pre_world.data@,
            post_world.data@,
            pre_world.offset,
            pre_world.shape,
            stamps.stamps@,
            stamps.shape,
        ),
{
    let offset = pre_world.offset;
    let wshape = pre_world.shape;
    let shape = stamps.shape;
    let len = stamps.stamps@.len() as int;
    assert forall|a: Seq<VoxelId>|
        a.len() == pre_world.data@.len() && assignment_ids_ok(a, C as int)
            && assignment_consistent(a, offset, wshape, stamps.stamps@, shape)
            && #[trigger] assignment_allowed(a, pre_world.data@) implies assignment_allowed(
        a,
        post_world.data@,
    ) by {
        // the window fits, so the assignment's content there is some stamp
        assert(wave_window_fits(offset, wshape, shape, o));
        let content = assignment_window(a, offset, wshape, o, shape);
        assert(matches_some_stamp(content, stamps.stamps@));
        let k = choose|k: int|
            0 <= k < stamps.stamps@.len() && (#[trigger] stamps.stamps@[k].0).samples_spec()
                == content;
        // window cells are inside the extent, at the content's ranks
        assert forall|j: int| #![trigger spec_window_index(o, shape, j)]
            0 <= j < shape.size_spec() implies {
            let wj = spec_window_index(o, shape, j);
            &&& pre_world.contains_spec(wj)
            &&& 0 <= pre_world.cell_of(wj) < pre_world.data@.len()
            &&& wave_cell_rank(offset, wshape, wj) == pre_world.cell_of(wj)
            &&& content[j] == a[pre_world.cell_of(wj)]
        } by {
            shape.lemma_linearize_of_delinearize(j);
            let wj = spec_window_index(o, shape, j);
            assert(pre_world.contains_spec(wj));
            pre_world.lemma_cell_of_in_range(wj);
        }
        // that stamp fits the pre-state window, so it is the forced one
        assert(view.allows_stamp(stamps.stamps@[k].0)) by {
            assert forall|n: int| 0 <= n < shape.size_spec() implies (
            #[trigger] view.sample_spec(n)).allows_spec(
                stamps.stamps@[k].0.sample_spec(n) as int,
            ) by {
                let wn = spec_window_index(o, shape, n);
                assert(stamps.stamps@[k].0.sample_spec(n) == content[n]);
                assert(view.sample_spec(n) == pre_world.spec_get(wn));
                assert(pre_world.spec_get(wn) == pre_world.data@[pre_world.cell_of(wn)]);
                assert(pre_world.data@[pre_world.cell_of(wn)].allows_spec(
                    a[pre_world.cell_of(wn)] as int,
                ));
            }
        }
        assert(k == k0) by {
            if k != k0 {
                if k < k0 {
                    crate::stamp::lemma_fits_count_two(view, stamps.stamps@, k, k0, len);
                } else {
                    crate::stamp::lemma_fits_count_two(view, stamps.stamps@, k0, k, len);
                }
            }
        }
        // every cell still allows its assigned id
        assert forall|n: int| 0 <= n < post_world.data@.len() implies (
        #[trigger] post_world.data@[n]).allows_spec(a[n] as int) by {
            post_world.lemma_index_of_in_range(n);
            pre_world.lemma_index_of_in_range(n);
            let i = post_world.index_of(n);
            assert(i == pre_world.index_of(n));
            assert(post_world.data@[n] == post_world.spec_get(i));
            assert(pre_world.data@[n] == pre_world.spec_get(i));
            if in_window(o, shape, i) {
                assert(crate::world::coord_in_range(o));
                lemma_in_window_rank(o, shape, i);
                let j = shape.linearize_spec(i.0 - o.0, i.1 - o.1, i.2 - o.2);
                assert(spec_window_index(o, shape, j) == i);
                assert(post_world.spec_get(i).0 == pre_world.spec_get(i).0 | only_mask(
                    C as int,
                    st.sample_spec(j) as int,
                ));
                assert(a[n] == st.sample_spec(j)) by {
                    assert(content[j] == a[pre_world.cell_of(i)]);
                    assert(pre_world.cell_of(i) == n);
                    assert(stamps.stamps@[k0].0.samples_spec()[j] == content[j]);
                }
                let v = a[n] as int;
                assert(0 <= v < C);
                assert(!crate::superposition::bit_set(
                    only_mask(C as int, st.sample_spec(j) as int),
                    v,
                )) by {
                    assert(st.sample_spec(j) < 64) by {
                        assert(st.values_below(C as int));
                        assert(st.sample_spec(j) < C);
                    }
                    crate::superposition::lemma_only_mask_bit(
                        C as int,
                        st.sample_spec(j) as int,
                        v,
                    );
                }
                assert(!crate::superposition::bit_set(pre_world.spec_get(i).0, v)) by {
                    assert(pre_world.data@[n].allows_spec(v));
                }
                crate::superposition::lemma_or_bit(
                    pre_world.spec_get(i).0,
                    only_mask(C as int, st.sample_spec(j) as int),
                    v,
                );
                assert(post_world.spec_get(i).allows_spec(v));
            } else {
                assert(post_world.spec_get(i) == pre_world.spec_get(i));
                assert(pre_world.data@[n].allows_spec(a[n] as int));
            }
        }
    }
}

} // verus!
