//! Half-open axis-aligned integer boxes: iteration and intersection.

use vstd::prelude::*;

use crate::indices::WorldIndex;
use crate::shape::{Shape, MAX_DIM};
use crate::world::{coord_in_range, spec_window_index, FlatPaddedGridCuboid};
use crate::space::Padded;

verus! {

/// A half-open box `[start, end)`.  Either `start.k < end.k` on every
/// axis, or both corners are the origin, denoting the empty extent.
#[derive(Clone, Copy, PartialEq, Eq, Structural, Debug)]
pub struct Extent {
    pub start: WorldIndex,
    pub end: WorldIndex,
}

impl Extent {
    /// Canonical form: a proper box in coordinate range, or the empty
    /// extent.
    pub open spec fn inv(self) -> bool {
        ||| (self.start == WorldIndex(0, 0, 0) && self.end == WorldIndex(0, 0, 0))
        ||| (self.start.0 < self.end.0 && self.start.1 < self.end.1 && self.start.2 < self.end.2
            && coord_in_range(self.start) && coord_in_range(self.end))
    }

    /// Whether `i` lies inside the box.
    pub open spec fn contains_spec(self, i: WorldIndex) -> bool {
        &&& self.start.0 <= i.0 < self.end.0
        &&& self.start.1 <= i.1 < self.end.1
        &&& self.start.2 <= i.2 < self.end.2
    }

    /// What `Extent::new` produces: the box if it is proper, the empty
    /// extent otherwise.
    pub open spec fn make_spec(start: WorldIndex, end: WorldIndex) -> Extent {
        if start.0 < end.0 && start.1 < end.1 && start.2 < end.2 {
            Extent { start, end }
        } else {
            Extent { start: WorldIndex(0, 0, 0), end: WorldIndex(0, 0, 0) }
        }
    }

    /// The dimensions of the box.
    pub open spec fn shape_spec(self) -> Shape {
        Shape {
            x: (self.end.0 - self.start.0) as usize,
            y: (self.end.1 - self.start.1) as usize,
            z: (self.end.2 - self.start.2) as usize,
        }
    }

    /// The index enumerated at rank `n` of the iteration order.
    pub open spec fn index_at(self, n: int) -> WorldIndex {
        spec_window_index(self.start, self.shape_spec(), n)
    }

    /// Number of contained indices.
    pub open spec fn volume(self) -> int {
        self.shape_spec().size_spec()
    }

    /// Dimensions small enough to iterate.
    pub open spec fn iterable(self) -> bool {
        self.inv() && self.shape_spec().wf()
    }

    pub fn new(start: WorldIndex, end: WorldIndex) -> (r: Self)
        requires
            coord_in_range(start),
            coord_in_range(end),
        ensures
            r == Self::make_spec(start, end),
            r.inv(),
            forall|i: WorldIndex|
                r.contains_spec(i) <==> (start.0 <= i.0 < end.0 && start.1 <= i.1 < end.1
                    && start.2 <= i.2 < end.2),
    {
        if start.0 < end.0 && start.1 < end.1 && start.2 < end.2 {
            Extent { start, end }
        } else {
            Extent { start: WorldIndex(0, 0, 0), end: WorldIndex(0, 0, 0) }
        }
    }

    /// Clamps per axis; collapses to the empty extent when the clamped
    /// box inverts.  An index lies in the result exactly when it lies
    /// in both operands.
    pub fn intersection(&self, other: &Extent) -> (r: Extent)
        requires
            self.inv(),
            other.inv(),
        ensures
            r.inv(),
            r == Self::make_spec(
                WorldIndex(
                    if self.start.0 > other.start.0 { self.start.0 } else { other.start.0 },
                    if self.start.1 > other.start.1 { self.start.1 } else { other.start.1 },
                    if self.start.2 > other.start.2 { self.start.2 } else { other.start.2 },
                ),
                WorldIndex(
                    if self.end.0 < other.end.0 { self.end.0 } else { other.end.0 },
                    if self.end.1 < other.end.1 { self.end.1 } else { other.end.1 },
                    if self.end.2 < other.end.2 { self.end.2 } else { other.end.2 },
                ),
            ),
            forall|i: WorldIndex|
                r.contains_spec(i) <==> (self.contains_spec(i) && other.contains_spec(i)),
    {
        let sx = if self.start.0 > other.start.0 {
            self.start.0
        } else {
            other.start.0
        };
        let sy = if self.start.1 > other.start.1 {
            self.start.1
        } else {
            other.start.1
        };
        let sz = if self.start.2 > other.start.2 {
            self.start.2
        } else {
            other.start.2
        };
        let ex = if self.end.0 < other.end.0 {
            self.end.0
        } else {
            other.end.0
        };
        let ey = if self.end.1 < other.end.1 {
            self.end.1
        } else {
            other.end.1
        };
        let ez = if self.end.2 < other.end.2 {
            self.end.2
        } else {
            other.end.2
        };
        Extent::new(WorldIndex(sx, sy, sz), WorldIndex(ex, ey, ez))
    }

    /// The size in each direction.
    pub fn get_dimensions(&self) -> (r: [usize; 3])
        requires
            self.inv(),
        ensures
            r[0] == self.shape_spec().x,
            r[1] == self.shape_spec().y,
            r[2] == self.shape_spec().z,
    {
        [
            (self.end.0 - self.start.0) as usize,
            (self.end.1 - self.start.1) as usize,
            (self.end.2 - self.start.2) as usize,
        ]
    }

    /// Ranks within the volume enumerate contained indices.
    pub proof fn lemma_index_at_contains(self, n: int)
        requires
            self.iterable(),
            0 <= n < self.volume(),
        ensures
            self.contains_spec(self.index_at(n)),
    {
        self.shape_spec().lemma_linearize_of_delinearize(n);
    }

    /// Every contained index is enumerated, at the rank given by the
    /// canonical linearization of its offset from `start`.
    pub open spec fn rank_of(self, i: WorldIndex) -> int {
        self.shape_spec().linearize_spec(
            i.0 - self.start.0,
            i.1 - self.start.1,
            i.2 - self.start.2,
        )
    }

    pub proof fn lemma_contains_has_rank(self, i: WorldIndex)
        requires
            self.iterable(),
            self.contains_spec(i),
        ensures
            0 <= self.rank_of(i) < self.volume(),
            self.index_at(self.rank_of(i)) == i,
    {
        let s = self.shape_spec();
        s.lemma_linearize_in_range(i.0 - self.start.0, i.1 - self.start.1, i.2 - self.start.2);
        s.lemma_delinearize_of_linearize(
            i.0 - self.start.0,
            i.1 - self.start.1,
            i.2 - self.start.2,
        );
    }

    /// No index is enumerated twice.
    pub proof fn lemma_index_at_injective(self, m: int, n: int)
        requires
            self.iterable(),
            0 <= m < self.volume(),
            0 <= n < self.volume(),
            m != n,
        ensures
            self.index_at(m) != self.index_at(n),
    {
        let s = self.shape_spec();
        s.lemma_linearize_of_delinearize(m);
        s.lemma_linearize_of_delinearize(n);
    }

    /// The iteration of an intersection enumerates exactly the indices
    /// enumerated by both operands' iterations: each contained index
    /// appears exactly once in an extent's iteration, and an index is
    /// contained in the intersection exactly when it is contained in
    /// both operands.  Disjoint operands give an empty iteration.
    pub proof fn lemma_intersection_iteration(a: Extent, b: Extent, c: Extent, i: WorldIndex)
        requires
            a.iterable(),
            b.iterable(),
            c.iterable(),
            forall|j: WorldIndex| c.contains_spec(j) <==> (a.contains_spec(j) && b.contains_spec(j)),
        ensures
            (exists|n: int| 0 <= n < c.volume() && c.index_at(n) == i) <==> ((exists|n: int|
                0 <= n < a.volume() && a.index_at(n) == i) && (exists|n: int|
                0 <= n < b.volume() && b.index_at(n) == i)),
    {
        if exists|n: int| 0 <= n < c.volume() && c.index_at(n) == i {
            let n = choose|n: int| 0 <= n < c.volume() && c.index_at(n) == i;
            c.lemma_index_at_contains(n);
            a.lemma_contains_has_rank(i);
            b.lemma_contains_has_rank(i);
        }
        if (exists|n: int| 0 <= n < a.volume() && a.index_at(n) == i) && (exists|n: int|
            0 <= n < b.volume() && b.index_at(n) == i) {
            let na = choose|n: int| 0 <= n < a.volume() && a.index_at(n) == i;
            a.lemma_index_at_contains(na);
            let nb = choose|n: int| 0 <= n < b.volume() && b.index_at(n) == i;
            b.lemma_index_at_contains(nb);
            c.lemma_contains_has_rank(i);
        }
    }

    /// Every contained index, in canonical row-major order.
    pub fn iter_indices(&self) -> (r: Vec<WorldIndex>)
        requires
            self.iterable(),
        ensures
            r@.len() == self.volume(),
            forall|n: int| 0 <= n < r@.len() ==> r@[n] == self.index_at(n),
    {
        let shape = Shape::new(
            (self.end.0 - self.start.0) as usize,
            (self.end.1 - self.start.1) as usize,
            (self.end.2 - self.start.2) as usize,
        );
        let size = shape.size();
        let mut out: Vec<WorldIndex> = Vec::new();
        let mut n: usize = 0;
        while n < size
            invariant
                out@.len() == n,
                n <= size,
                shape == self.shape_spec(),
                size == self.volume(),
                self.iterable(),
                forall|k: int| 0 <= k < n ==> out@[k] == self.index_at(k),
            decreases size - n,
        {
            proof {
                shape.lemma_linearize_of_delinearize(n as int);
            }
            let p = shape.delinearize(n);
            out.push(WorldIndex(
                self.start.0 + p[0] as i32,
                self.start.1 + p[1] as i32,
                self.start.2 + p[2] as i32,
            ));
            n = n + 1;
        }
        out
    }

    /// The stamps-extent, at the specification level.
    pub open spec fn get_stamps_extent_spec(self, stamp_shape: Shape) -> Extent {
        Self::make_spec(
            self.start,
            WorldIndex(
                (self.end.0 - stamp_shape.x + 1) as i32,
                (self.end.1 - stamp_shape.y + 1) as i32,
                (self.end.2 - stamp_shape.z + 1) as i32,
            ),
        )
    }

    /// The stamps-extent contains exactly the offsets whose windows fit.
    pub proof fn lemma_stamps_extent_contains(self, stamp_shape: Shape, o: WorldIndex)
        requires
            self.inv(),
            stamp_shape.wf(),
            stamp_shape.x >= 1,
            stamp_shape.y >= 1,
            stamp_shape.z >= 1,
        ensures
            self.get_stamps_extent_spec(stamp_shape).contains_spec(o) <==> self.stamp_fits(
                stamp_shape,
                o,
            ),
    {
    }

    /// Whether a window of dimensions `stamp_shape` anchored at `o`
    /// fits entirely inside this extent.
    pub open spec fn stamp_fits(self, stamp_shape: Shape, o: WorldIndex) -> bool {
        &&& self.start.0 <= o.0 && o.0 + stamp_shape.x <= self.end.0
        &&& self.start.1 <= o.1 && o.1 + stamp_shape.y <= self.end.1
        &&& self.start.2 <= o.2 && o.2 + stamp_shape.z <= self.end.2
    }

    /// The offsets at which a window of the given dimensions fits
    /// entirely inside this extent: the box whose upper corner is
    /// `end - dims + 1` per axis.
    pub fn get_stamps_extent(&self, stamp_shape: Shape) -> (r: Extent)
        requires
            self.inv(),
            stamp_shape.wf(),
            stamp_shape.x >= 1,
            stamp_shape.y >= 1,
            stamp_shape.z >= 1,
        ensures
            r.inv(),
            r == self.get_stamps_extent_spec(stamp_shape),
            forall|o: WorldIndex| r.contains_spec(o) <==> self.stamp_fits(stamp_shape, o),
    {
        let ex = self.end.0 as i64 - stamp_shape.x as i64 + 1;
        let ey = self.end.1 as i64 - stamp_shape.y as i64 + 1;
        let ez = self.end.2 as i64 - stamp_shape.z as i64 + 1;
        if (self.start.0 as i64) < ex && (self.start.1 as i64) < ey && (self.start.2 as i64) < ez {
            Extent { start: self.start, end: WorldIndex(ex as i32, ey as i32, ez as i32) }
        } else {
            Extent { start: WorldIndex(0, 0, 0), end: WorldIndex(0, 0, 0) }
        }
    }

    /// The window offsets within this extent's stamps-extent whose
    /// windows contain `index`.
    pub fn get_stamps_containing(&self, stamp_shape: Shape, index: WorldIndex) -> (r: Extent)
        requires
            self.inv(),
            stamp_shape.wf(),
            stamp_shape.x >= 1,
            stamp_shape.y >= 1,
            stamp_shape.z >= 1,
            -0x40000000 <= index.0 <= 0x40000000,
            -0x40000000 <= index.1 <= 0x40000000,
            -0x40000000 <= index.2 <= 0x40000000,
        ensures
            r.inv(),
            forall|o: WorldIndex|
                r.contains_spec(o) <==> (self.stamp_fits(stamp_shape, o) && o.0 <= index.0 < o.0
                    + stamp_shape.x && o.1 <= index.1 < o.1 + stamp_shape.y && o.2 <= index.2 < o.2
                    + stamp_shape.z),
    {
        let sx = max_i64(self.start.0 as i64, index.0 as i64 - stamp_shape.x as i64 + 1);
        let sy = max_i64(self.start.1 as i64, index.1 as i64 - stamp_shape.y as i64 + 1);
        let sz = max_i64(self.start.2 as i64, index.2 as i64 - stamp_shape.z as i64 + 1);
        let ex = min_i64(self.end.0 as i64 - stamp_shape.x as i64 + 1, index.0 as i64 + 1);
        let ey = min_i64(self.end.1 as i64 - stamp_shape.y as i64 + 1, index.1 as i64 + 1);
        let ez = min_i64(self.end.2 as i64 - stamp_shape.z as i64 + 1, index.2 as i64 + 1);
        if sx < ex && sy < ey && sz < ez {
            Extent {
                start: WorldIndex(sx as i32, sy as i32, sz as i32),
                end: WorldIndex(ex as i32, ey as i32, ez as i32),
            }
        } else {
            Extent { start: WorldIndex(0, 0, 0), end: WorldIndex(0, 0, 0) }
        }
    }
}

/// The larger of two values.
fn max_i64(a: i64, b: i64) -> (r: i64)
    ensures
        r == if a >= b {
            a
        } else {
            b
        },
{
    if a >= b {
        a
    } else {
        b
    }
}

/// The smaller of two values.
fn min_i64(a: i64, b: i64) -> (r: i64)
    ensures
        r == if a <= b {
            a
        } else {
            b
        },
{
    if a <= b {
        a
    } else {
        b
    }
}

impl<V: Padded + Copy> FlatPaddedGridCuboid<V> {
    /// The extent of this cuboid.
    pub fn get_extent(&self) -> (r: Extent)
        requires
            self.inv(),
        ensures
            r.inv(),
            forall|i: WorldIndex| r.contains_spec(i) <==> self.contains_spec(i),
            r == Extent::make_spec(
                self.offset,
                WorldIndex(
                    (self.offset.0 + self.shape.x) as i32,
                    (self.offset.1 + self.shape.y) as i32,
                    (self.offset.2 + self.shape.z) as i32,
                ),
            ),
    {
        Extent::new(self.get_offset(), self.get_beyond_opposite_corner())
    }

    /// The offsets at which a window of the given dimensions fits
    /// entirely inside this cuboid.
    pub fn get_stamps_extent(&self, stamp_shape: Shape) -> (r: Extent)
        requires
            self.inv(),
            stamp_shape.wf(),
            stamp_shape.x >= 1,
            stamp_shape.y >= 1,
            stamp_shape.z >= 1,
        ensures
            r.inv(),
            r == self.get_extent_spec().get_stamps_extent_spec(stamp_shape),
            forall|o: WorldIndex|
                r.contains_spec(o) <==> self.get_extent_spec().stamp_fits(stamp_shape, o),
    {
        let e = self.get_extent();
        e.get_stamps_extent(stamp_shape)
    }

    /// The extent, at the specification level.
    pub open spec fn get_extent_spec(self) -> Extent {
        Extent::make_spec(
            self.offset,
            WorldIndex(
                (self.offset.0 + self.shape.x) as i32,
                (self.offset.1 + self.shape.y) as i32,
                (self.offset.2 + self.shape.z) as i32,
            ),
        )
    }
}

} // verus!
