//! Voxel storage: the dense padded cuboid and translated views.

use vstd::prelude::*;

use crate::indices::{ChunkIndex, WorldIndex};
use crate::shape::Shape;
use crate::space::{Padded, Space};

verus! {

/// Largest supported magnitude of a cuboid offset component.  Together
/// with the bound on [`Shape`] dimensions this keeps all coordinate
/// arithmetic inside `i32`.
pub const MAX_COORD: i32 = 0x20000000;

/// A write targeted an index outside the cuboid's extent.
#[derive(Debug, PartialEq, Eq, Structural)]
pub struct OutOfBounds;

/// A persisted cuboid record does not describe a valid cuboid: the
/// buffer length does not match the dimensions, or the dimensions or
/// offset exceed the supported ranges.
#[derive(Debug, PartialEq, Eq, Structural)]
pub struct MalformedPersistence;

/// Whether an index is within the supported coordinate range.
pub open spec fn coord_in_range(i: WorldIndex) -> bool {
    -MAX_COORD <= i.0 <= MAX_COORD && -MAX_COORD <= i.1 <= MAX_COORD && -MAX_COORD <= i.2
        <= MAX_COORD
}

/// Whether the whole box `[offset, offset + shape)` lies in the
/// supported coordinate range.
pub open spec fn extent_in_range(offset: WorldIndex, shape: Shape) -> bool {
    &&& coord_in_range(offset)
    &&& offset.0 + shape.x <= MAX_COORD
    &&& offset.1 + shape.y <= MAX_COORD
    &&& offset.2 + shape.z <= MAX_COORD
}

/// Flat 3D array of voxels; reads outside its extent give the padding
/// value.  The extent is the half-open box `[offset, offset + dims)`.
pub struct FlatPaddedGridCuboid<V> {
    pub data: Vec<V>,
    pub offset: WorldIndex,
    pub shape: Shape,
}

impl<V: Copy> Clone for FlatPaddedGridCuboid<V> {
    fn clone(&self) -> (r: Self)
        ensures
            r.data@ == self.data@,
            r.offset == self.offset,
            r.shape == self.shape,
    {
        let mut data: Vec<V> = Vec::new();
        let mut n: usize = 0;
        while n < self.data.len()
            invariant
                data@.len() == n,
                n <= self.data@.len(),
                forall|k: int| 0 <= k < n ==> data@[k] == self.data@[k],
            decreases self.data@.len() - n,
        {
            data.push(self.data[n]);
            n = n + 1;
        }
        proof {
            assert(data@ =~= self.data@);
        }
        FlatPaddedGridCuboid { data, offset: self.offset, shape: self.shape }
    }
}

impl<V: Padded + Copy> FlatPaddedGridCuboid<V> {
    /// Structural invariant: the buffer length equals the shape size and
    /// the extent lies in the supported coordinate range.
    pub open spec fn inv(self) -> bool {
        &&& self.shape.wf()
        &&& self.data@.len() == self.shape.size_spec()
        &&& extent_in_range(self.offset, self.shape)
    }

    /// Whether `i` lies inside the extent.
    pub open spec fn contains_spec(self, i: WorldIndex) -> bool {
        &&& self.offset.0 <= i.0 < self.offset.0 + self.shape.x
        &&& self.offset.1 <= i.1 < self.offset.1 + self.shape.y
        &&& self.offset.2 <= i.2 < self.offset.2 + self.shape.z
    }

    /// Buffer position of an in-extent index.
    pub open spec fn cell_of(self, i: WorldIndex) -> int {
        self.shape.linearize_spec(
            i.0 - self.offset.0,
            i.1 - self.offset.1,
            i.2 - self.offset.2,
        )
    }

    /// The index whose buffer position is `n`.
    pub open spec fn index_of(self, n: int) -> WorldIndex {
        WorldIndex(
            (self.offset.0 + self.shape.delin_x(n)) as i32,
            (self.offset.1 + self.shape.delin_y(n)) as i32,
            (self.offset.2 + self.shape.delin_z(n)) as i32,
        )
    }

    /// The value a read returns: the stored voxel inside the extent,
    /// the padding value outside.
    pub open spec fn spec_get(self, i: WorldIndex) -> V {
        if self.contains_spec(i) {
            self.data@[self.cell_of(i)]
        } else {
            V::padding_spec()
        }
    }

    /// In-extent indices map to in-range buffer positions.
    pub proof fn lemma_cell_of_in_range(self, i: WorldIndex)
        requires
            self.inv(),
            self.contains_spec(i),
        ensures
            0 <= self.cell_of(i) < self.data@.len(),
            self.index_of(self.cell_of(i)) == i,
    {
        self.shape.lemma_linearize_in_range(
            i.0 - self.offset.0,
            i.1 - self.offset.1,
            i.2 - self.offset.2,
        );
        self.shape.lemma_delinearize_of_linearize(
            i.0 - self.offset.0,
            i.1 - self.offset.1,
            i.2 - self.offset.2,
        );
    }

    /// Buffer positions map to in-extent indices and back.
    pub proof fn lemma_index_of_in_range(self, n: int)
        requires
            self.inv(),
            0 <= n < self.shape.size_spec(),
        ensures
            self.contains_spec(self.index_of(n)),
            self.cell_of(self.index_of(n)) == n,
            self.spec_get(self.index_of(n)) == self.data@[n],
    {
        self.shape.lemma_linearize_of_delinearize(n);
    }

    /// Distinct buffer positions address distinct indices: visiting the
    /// cells in buffer order exposes every index of the extent exactly
    /// once.
    pub proof fn lemma_index_of_injective(self, m: int, n: int)
        requires
            self.inv(),
            0 <= m < self.shape.size_spec(),
            0 <= n < self.shape.size_spec(),
            m != n,
        ensures
            self.index_of(m) != self.index_of(n),
    {
        self.lemma_index_of_in_range(m);
        self.lemma_index_of_in_range(n);
    }

    /// Creates a new cuboid filled with padding.
    pub fn new(offset: WorldIndex, shape: Shape) -> (r: Self)
        requires
            shape.wf(),
            extent_in_range(offset, shape),
        ensures
            r.inv(),
            r.offset == offset,
            r.shape == shape,
            forall|i: WorldIndex| r.spec_get(i) == V::padding_spec(),
    {
        let size = shape.size();
        let mut data: Vec<V> = Vec::new();
        let mut n: usize = 0;
        while n < size
            invariant
                data@.len() == n,
                n <= size,
                forall|k: int| 0 <= k < n ==> data@[k] == V::padding_spec(),
            decreases size - n,
        {
            data.push(V::padding());
            n = n + 1;
        }
        let r = FlatPaddedGridCuboid { data, offset, shape };
        proof {
            assert forall|i: WorldIndex| r.spec_get(i) == V::padding_spec() by {
                if r.contains_spec(i) {
                    r.lemma_cell_of_in_range(i);
                }
            }
        }
        r
    }

    /// Samples every cell of the window `[offset, offset + shape)` from
    /// another space.
    pub fn new_from_space<S: Space<Voxel = V>>(space: &S, offset: WorldIndex, shape: Shape) -> (r:
        Self)
        requires
            shape.wf(),
            extent_in_range(offset, shape),
            space.inv(),
            forall|n: int|
                0 <= n < shape.size_spec() ==> space.in_domain(
                    #[trigger] spec_window_index(offset, shape, n),
                ),
        ensures
            r.inv(),
            r.offset == offset,
            r.shape == shape,
            forall|n: int|
                0 <= n < shape.size_spec() ==> space.can_yield(
                    #[trigger] r.index_of(n),
                    r.data@[n],
                ),
    {
        let size = shape.size();
        let mut data: Vec<V> = Vec::new();
        let mut n: usize = 0;
        while n < size
            invariant
                data@.len() == n,
                n <= size,
                size == shape.size_spec(),
                shape.wf(),
                coord_in_range(offset),
                space.inv(),
                forall|k: int|
                    0 <= k < size ==> space.in_domain(
                        #[trigger] spec_window_index(offset, shape, k),
                    ),
                forall|k: int|
                    0 <= k < n ==> space.can_yield(
                        #[trigger] spec_window_index(offset, shape, k),
                        data@[k],
                    ),
            decreases size - n,
        {
            proof {
                shape.lemma_linearize_of_delinearize(n as int);
            }
            let p = shape.delinearize(n);
            let idx = WorldIndex(
                offset.0 + p[0] as i32,
                offset.1 + p[1] as i32,
                offset.2 + p[2] as i32,
            );
            assert(idx == spec_window_index(offset, shape, n as int));
            let v = space.get(idx);
            data.push(v);
            n = n + 1;
        }
        let r = FlatPaddedGridCuboid { data, offset, shape };
        proof {
            assert forall|k: int| 0 <= k < shape.size_spec() implies space.can_yield(
                #[trigger] r.index_of(k),
                r.data@[k],
            ) by {
                assert(r.index_of(k) == spec_window_index(offset, shape, k));
            }
        }
        r
    }

    /// Whether `index` lies inside the extent.
    pub fn contains(&self, index: WorldIndex) -> (r: bool)
        requires
            self.inv(),
        ensures
            r == self.contains_spec(index),
    {
        let ix = index.0 as i64;
        let iy = index.1 as i64;
        let iz = index.2 as i64;
        let ox = self.offset.0 as i64;
        let oy = self.offset.1 as i64;
        let oz = self.offset.2 as i64;
        ox <= ix && ix < ox + self.shape.x as i64 && oy <= iy && iy < oy + self.shape.y as i64
            && oz <= iz && iz < oz + self.shape.z as i64
    }

    /// Writes one voxel; fails without changing anything if the index
    /// is outside the extent.
    pub fn set(&mut self, index: WorldIndex, value: V) -> (r: Result<(), OutOfBounds>)
        requires
            old(self).inv(),
        ensures
            final(self).inv(),
            final(self).offset == old(self).offset,
            final(self).shape == old(self).shape,
            old(self).contains_spec(index) ==> r is Ok,
            !old(self).contains_spec(index) ==> r is Err && *final(self) == *old(self),
            r is Ok ==> forall|j: WorldIndex|
                final(self).spec_get(j) == if j == index {
                    value
                } else {
                    old(self).spec_get(j)
                },
            r is Ok ==> final(self).data@ == old(self).data@.update(
                old(self).cell_of(index),
                value,
            ),
    {
        if self.contains(index) {
            proof {
                self.lemma_cell_of_in_range(index);
            }
            let p = self.shape.linearize([
                (index.0 - self.offset.0) as usize,
                (index.1 - self.offset.1) as usize,
                (index.2 - self.offset.2) as usize,
            ]);
            self.data[p] = value;
            proof {
                let post = *self;
                let pre = *old(self);
                assert forall|j: WorldIndex|
                    post.spec_get(j) == (if j == index {
                        value
                    } else {
                        pre.spec_get(j)
                    }) by {
                    if post.contains_spec(j) {
                        post.lemma_cell_of_in_range(j);
                        pre.lemma_cell_of_in_range(j);
                        if j != index {
                            pre.lemma_cell_of_in_range(index);
                        }
                    }
                }
            }
            Ok(())
        } else {
            Err(OutOfBounds)
        }
    }

    /// The corner with the lowest coordinates.
    pub fn get_offset(&self) -> (r: WorldIndex)
        ensures
            r == self.offset,
    {
        self.offset
    }

    /// The size in each direction.
    pub fn get_dimensions(&self) -> (r: [usize; 3])
        ensures
            r[0] == self.shape.x && r[1] == self.shape.y && r[2] == self.shape.z,
    {
        [self.shape.x, self.shape.y, self.shape.z]
    }

    /// The shape of the extent.
    pub fn get_shape(&self) -> (r: Shape)
        ensures
            r == self.shape,
    {
        self.shape
    }

    /// The corner with the highest coordinates, plus one in each
    /// dimension.
    pub fn get_beyond_opposite_corner(&self) -> (r: WorldIndex)
        requires
            self.inv(),
        ensures
            r.0 == self.offset.0 + self.shape.x,
            r.1 == self.offset.1 + self.shape.y,
            r.2 == self.offset.2 + self.shape.z,
    {
        WorldIndex(
            self.offset.0 + self.shape.x as i32,
            self.offset.1 + self.shape.y as i32,
            self.offset.2 + self.shape.z as i32,
        )
    }

    /// The raw buffer, aligned according to the shape.
    pub fn get_samples(&self) -> (r: &Vec<V>)
        ensures
            r@ == self.data@,
    {
        &self.data
    }

    /// A lazily mapped reading of this cuboid: `map(f).get(i)`
    /// applies `f` to `get(i)`.
    pub fn map<'s, U, F: Fn(V) -> U>(&'s self, f: F) -> (r: crate::space::Mapped<'s, Self, F>)
        ensures
            r.space == self,
            r.f == f,
    {
        crate::space::Mapped { space: self, f }
    }

    /// A lazily mapped reading that also sees each index:
    /// `map_index(f).get(i)` applies `f` to `(i, get(i))`.
    pub fn map_index<'s, U, F: Fn(WorldIndex, V) -> U>(&'s self, f: F) -> (r: crate::space::MapIndex<
        's,
        Self,
        F,
    >)
        ensures
            r.space == self,
            r.f == f,
    {
        crate::space::MapIndex { space: self, f }
    }

    /// The co-indexed lazy product with another cuboid:
    /// `zip(other).get(i)` pairs the two reads at `i`.
    pub fn zip<'s, 'o, U: Padded + Copy>(&'s self, other: &'o FlatPaddedGridCuboid<U>) -> (r:
        crate::space::Zip<'s, 'o, Self, FlatPaddedGridCuboid<U>>)
        ensures
            r.left == self,
            r.right == other,
    {
        crate::space::Zip { left: self, right: other }
    }

    /// Rebuilds a cuboid from its persisted parts: the raw buffer, the
    /// offset and the dimensions.  Fails exactly when the buffer length
    /// does not equal the product of the dimensions or the record
    /// exceeds the supported coordinate ranges.
    pub fn from_parts(data: Vec<V>, offset: [i64; 3], dimensions: [usize; 3]) -> (r: Result<
        Self,
        MalformedPersistence,
    >)
        ensures
            match r {
                Result::Ok(c) => {
                    &&& c.inv()
                    &&& c.data@ == data@
                    &&& c.offset.0 == offset[0] && c.offset.1 == offset[1] && c.offset.2
                        == offset[2]
                    &&& c.shape == (Shape { x: dimensions[0], y: dimensions[1], z: dimensions[2] })
                },
                Result::Err(e) => !(data@.len() == dimensions[0] * dimensions[1] * dimensions[2]
                    && dimensions[0] <= crate::shape::MAX_DIM && dimensions[1]
                    <= crate::shape::MAX_DIM && dimensions[2] <= crate::shape::MAX_DIM
                    && -MAX_COORD <= offset[0] && offset[0] + dimensions[0] <= MAX_COORD
                    && -MAX_COORD <= offset[1] && offset[1] + dimensions[1] <= MAX_COORD
                    && -MAX_COORD <= offset[2] && offset[2] + dimensions[2] <= MAX_COORD),
            },
    {
        if dimensions[0] > crate::shape::MAX_DIM || dimensions[1] > crate::shape::MAX_DIM
            || dimensions[2] > crate::shape::MAX_DIM {
            return Err(MalformedPersistence);
        }
        let shape = Shape::new(dimensions[0], dimensions[1], dimensions[2]);
        if data.len() != shape.size() {
            return Err(MalformedPersistence);
        }
        if offset[0] < -MAX_COORD as i64 || offset[1] < -MAX_COORD as i64 || offset[2]
            < -MAX_COORD as i64 || offset[0] > MAX_COORD as i64 || offset[1] > MAX_COORD as i64
            || offset[2] > MAX_COORD as i64 {
            return Err(MalformedPersistence);
        }
        if offset[0] + dimensions[0] as i64 > MAX_COORD as i64 || offset[1]
            + dimensions[1] as i64 > MAX_COORD as i64 || offset[2] + dimensions[2] as i64
            > MAX_COORD as i64 {
            return Err(MalformedPersistence);
        }
        let off = WorldIndex(offset[0] as i32, offset[1] as i32, offset[2] as i32);
        Ok(FlatPaddedGridCuboid { data, offset: off, shape })
    }

    /// Every index of the extent, in canonical row-major order.
    pub fn indices(&self) -> (r: Vec<WorldIndex>)
        requires
            self.inv(),
        ensures
            r@.len() == self.shape.size_spec(),
            forall|n: int| 0 <= n < r@.len() ==> r@[n] == self.index_of(n),
    {
        let size = self.shape.size();
        let mut out: Vec<WorldIndex> = Vec::new();
        let mut n: usize = 0;
        while n < size
            invariant
                out@.len() == n,
                n <= size,
                size == self.shape.size_spec(),
                self.inv(),
                forall|k: int| 0 <= k < n ==> out@[k] == self.index_of(k),
            decreases size - n,
        {
            proof {
                self.shape.lemma_linearize_of_delinearize(n as int);
            }
            let p = self.shape.delinearize(n);
            out.push(WorldIndex(
                self.offset.0 + p[0] as i32,
                self.offset.1 + p[1] as i32,
                self.offset.2 + p[2] as i32,
            ));
            n = n + 1;
        }
        out
    }
}

/// The index at buffer position `n` of a window anchored at `offset`
/// with dimensions `shape`.
pub open spec fn spec_window_index(offset: WorldIndex, shape: Shape, n: int) -> WorldIndex {
    WorldIndex(
        (offset.0 + shape.delin_x(n)) as i32,
        (offset.1 + shape.delin_y(n)) as i32,
        (offset.2 + shape.delin_z(n)) as i32,
    )
}

/// Distinct ranks of one window address distinct world indices.
pub proof fn lemma_window_index_injective(index: WorldIndex, shape: Shape, a: int, b: int)
    requires
        shape.wf(),
        coord_in_range(index),
        0 <= a < shape.size_spec(),
        0 <= b < shape.size_spec(),
        a != b,
    ensures
        spec_window_index(index, shape, a) != spec_window_index(index, shape, b),
{
    shape.lemma_linearize_of_delinearize(a);
    shape.lemma_linearize_of_delinearize(b);
    if spec_window_index(index, shape, a) == spec_window_index(index, shape, b) {
        assert(shape.delin_x(a) == shape.delin_x(b) && shape.delin_y(a) == shape.delin_y(b)
            && shape.delin_z(a) == shape.delin_z(b));
    }
}

impl<V: Padded + Copy> Space for FlatPaddedGridCuboid<V> {
    type Voxel = V;

    open spec fn inv(&self) -> bool {
        FlatPaddedGridCuboid::inv(*self)
    }

    open spec fn in_domain(&self, i: WorldIndex) -> bool {
        true
    }

    /// A read returns exactly the stored (or padding) value.
    open spec fn can_yield(&self, i: WorldIndex, v: V) -> bool {
        v == self.spec_get(i)
    }

    fn get(&self, i: WorldIndex) -> (r: V) {
        let ix = i.0 as i64;
        let iy = i.1 as i64;
        let iz = i.2 as i64;
        let ox = self.offset.0 as i64;
        let oy = self.offset.1 as i64;
        let oz = self.offset.2 as i64;
        if ox <= ix && ix < ox + self.shape.x as i64 && oy <= iy && iy < oy + self.shape.y as i64
            && oz <= iz && iz < oz + self.shape.z as i64 {
            proof {
                self.lemma_cell_of_in_range(i);
            }
            let p = self.shape.linearize([
                (i.0 - self.offset.0) as usize,
                (i.1 - self.offset.1) as usize,
                (i.2 - self.offset.2) as usize,
            ]);
            self.data[p]
        } else {
            V::padding()
        }
    }
}

/// A translated window into another space: `view.get(i)` reads the
/// underlying space at `i + offset`.
pub struct SpaceView<'a, S> {
    pub world: &'a S,
    pub offset: WorldIndex,
    pub shape: Shape,
}

impl<'a, S: Space> SpaceView<'a, S> {
    /// The translated index a read at `i` resolves to.
    pub open spec fn translate(self, i: WorldIndex) -> WorldIndex {
        WorldIndex((i.0 + self.offset.0) as i32, (i.1 + self.offset.1) as i32, (
        i.2 + self.offset.2) as i32)
    }

    /// Whether translating `i` stays in the machine coordinate range.
    pub open spec fn translation_ok(self, i: WorldIndex) -> bool {
        &&& i32::MIN <= i.0 + self.offset.0 <= i32::MAX
        &&& i32::MIN <= i.1 + self.offset.1 <= i32::MAX
        &&& i32::MIN <= i.2 + self.offset.2 <= i32::MAX
    }

    pub fn new(space: &'a S, offset: WorldIndex) -> (r: Self)
        ensures
            r.world == space,
            r.offset == offset,
            r.shape == (Shape { x: 0, y: 0, z: 0 }),
    {
        SpaceView { world: space, offset, shape: Shape { x: 0, y: 0, z: 0 } }
    }

    pub fn new_with_shape(space: &'a S, offset: WorldIndex, shape: Shape) -> (r: Self)
        ensures
            r.world == space,
            r.offset == offset,
            r.shape == shape,
    {
        SpaceView { world: space, offset, shape }
    }

    /// The corner one past the window described by the view's shape.
    pub fn opposite_corner(&self) -> (r: WorldIndex)
        requires
            self.shape.wf(),
            coord_in_range(self.offset),
        ensures
            r.0 == self.offset.0 + self.shape.x,
            r.1 == self.offset.1 + self.shape.y,
            r.2 == self.offset.2 + self.shape.z,
    {
        WorldIndex(
            self.offset.0 + self.shape.x as i32,
            self.offset.1 + self.shape.y as i32,
            self.offset.2 + self.shape.z as i32,
        )
    }

    /// Materializes the window `[0, shape)` of the view, in canonical
    /// row-major order.
    pub fn into_vec(self) -> (r: Vec<S::Voxel>)
        requires
            self.inv(),
            self.shape.wf(),
            coord_in_range(self.offset),
            forall|n: int|
                0 <= n < self.shape.size_spec() ==> self.in_domain(
                    #[trigger] spec_local_index(self.shape, n),
                ),
        ensures
            r@.len() == self.shape.size_spec(),
            forall|n: int|
                0 <= n < r@.len() ==> self.can_yield(
                    #[trigger] spec_local_index(self.shape, n),
                    r@[n],
                ),
    {
        let size = self.shape.size();
        let mut out: Vec<S::Voxel> = Vec::new();
        let mut n: usize = 0;
        while n < size
            invariant
                out@.len() == n,
                n <= size,
                size == self.shape.size_spec(),
                self.inv(),
                self.shape.wf(),
                coord_in_range(self.offset),
                forall|k: int|
                    0 <= k < size ==> self.in_domain(#[trigger] spec_local_index(self.shape, k)),
                forall|k: int|
                    0 <= k < n ==> self.can_yield(#[trigger] spec_local_index(self.shape, k), out@[k]),
            decreases size - n,
        {
            proof {
                self.shape.lemma_linearize_of_delinearize(n as int);
            }
            let p = self.shape.delinearize(n);
            let idx = WorldIndex(p[0] as i32, p[1] as i32, p[2] as i32);
            assert(idx == spec_local_index(self.shape, n as int));
            let v = self.get(idx);
            out.push(v);
            n = n + 1;
        }
        out
    }
}

/// The local (untranslated) index at rank `n` of a window with the
/// given shape.
pub open spec fn spec_local_index(shape: Shape, n: int) -> WorldIndex {
    WorldIndex(shape.delin_x(n) as i32, shape.delin_y(n) as i32, shape.delin_z(n) as i32)
}

impl<'a, S: Space> Space for SpaceView<'a, S> {
    type Voxel = S::Voxel;

    open spec fn inv(&self) -> bool {
        self.world.inv()
    }

    open spec fn in_domain(&self, i: WorldIndex) -> bool {
        self.translation_ok(i) && self.world.in_domain(self.translate(i))
    }

    /// Translation law: a view reads the underlying space at the
    /// translated index.
    open spec fn can_yield(&self, i: WorldIndex, v: S::Voxel) -> bool {
        self.world.can_yield(self.translate(i), v)
    }

    fn get(&self, i: WorldIndex) -> (r: S::Voxel) {
        self.world.get(WorldIndex(i.0 + self.offset.0, i.1 + self.offset.1, i.2 + self.offset.2))
    }
}


/// A naive copy-on-write overlay over a [`crate::prefab::World`]:
/// reads prefer the overridden chunks and fall back to the base;
/// writes copy the affected chunk from the base first.  The changes
/// can eventually be applied to the underlying world.
pub struct Cow<'a> {
    pub base: &'a crate::prefab::World,
    pub overlaid: Vec<(ChunkIndex, crate::prefab::PaletteIdChunk)>,
}

impl<'a> Cow<'a> {
    /// The base is well-formed, override keys are unique and every
    /// overridden chunk is well-formed.
    pub open spec fn inv(self) -> bool {
        &&& self.base.inv()
        &&& crate::prefab::keys_unique(self.overlaid@)
        &&& crate::prefab::chunks_inv(self.overlaid@)
    }

    /// The value a read at `i` returns: the cell of the overridden
    /// chunk when the enclosing chunk is overridden, the base's value
    /// otherwise.
    pub open spec fn spec_get(self, i: WorldIndex) -> crate::prefab::PaletteVoxel {
        let e = ChunkIndex::enclosing_spec(i);
        let ci = ChunkIndex(WorldIndex(e.0 as i32, e.1 as i32, e.2 as i32));
        match crate::prefab::spec_chunk_at(self.overlaid@, ci) {
            Some(ch) => ch.spec_get(
                WorldIndex((i.0 - e.0) as i32, (i.1 - e.1) as i32, (i.2 - e.2) as i32),
            ),
            None => self.base.spec_get(i),
        }
    }

    pub fn new(base: &'a crate::prefab::World) -> (r: Self)
        requires
            base.inv(),
        ensures
            r.inv(),
            r.base == base,
            r.overlaid@.len() == 0,
            forall|i: WorldIndex| r.spec_get(i) == base.spec_get(i),
    {
        Cow { base, overlaid: Vec::new() }
    }

    /// Writes one voxel, copying the enclosing chunk from the base
    /// into the overlay if it was not overridden yet.
    pub fn set(&mut self, offset: WorldIndex, value: crate::prefab::PaletteVoxel)
        requires
            old(self).inv(),
            crate::prefab::chunkable(offset),
        ensures
            final(self).inv(),
            final(self).base == old(self).base,
            final(self).spec_get(offset) == value,
            forall|j: WorldIndex|
                crate::prefab::chunkable(j) && j != offset ==> final(self).spec_get(j) == old(
                    self,
                ).spec_get(j),
    {
        let ci = ChunkIndex::new_encompassing(offset);
        let internal = ci.get_internal_offset(offset);
        let local = WorldIndex(internal.0, internal.1, internal.2);
        let ghost pre = *self;
        let mut chunk = match crate::prefab::find_chunk_pub(&self.overlaid, ci) {
            Some(k) => {
                proof {
                    crate::prefab::lemma_chunk_at_entry(self.overlaid@, ci, k as int);
                    assert(self.overlaid@[k as int].1.inv());
                }
                self.overlaid[k].1.clone()
            },
            None => self.base.get_chunk(ci),
        };
        chunk.set(local, value);
        let ghost e = ChunkIndex::enclosing_spec(offset);
        let ghost written = chunk;
        self.upsert(ci, chunk);
        proof {
            crate::prefab::chunk_shape().lemma_linearize_in_range(
                local.0 as int,
                local.1 as int,
                local.2 as int,
            );
            assert(self.spec_get(offset) == value);
            assert forall|j: WorldIndex|
                crate::prefab::chunkable(j) && j != offset implies self.spec_get(j)
                == pre.spec_get(j) by {
                let ej = ChunkIndex::enclosing_spec(j);
                let cj = ChunkIndex(WorldIndex(ej.0 as i32, ej.1 as i32, ej.2 as i32));
                vstd::arithmetic::div_mod::lemma_fundamental_div_mod(j.0 as int, 16);
                vstd::arithmetic::div_mod::lemma_fundamental_div_mod(j.1 as int, 16);
                vstd::arithmetic::div_mod::lemma_fundamental_div_mod(j.2 as int, 16);
                vstd::arithmetic::div_mod::lemma_mod_bound(j.0 as int, 16);
                vstd::arithmetic::div_mod::lemma_mod_bound(j.1 as int, 16);
                vstd::arithmetic::div_mod::lemma_mod_bound(j.2 as int, 16);
                let lj = WorldIndex((j.0 - ej.0) as i32, (j.1 - ej.1) as i32, (j.2 - ej.2) as i32);
                assert(0 <= j.0 - ej.0 < 16 && 0 <= j.1 - ej.1 < 16 && 0 <= j.2 - ej.2 < 16);
                assert(crate::prefab::PaletteIdChunk::local_in_range(lj));
                if cj == ci {
                    assert(ej.0 == e.0 && ej.1 == e.1 && ej.2 == e.2);
                    assert(lj != local) by {
                        if lj == local {
                            assert(j.0 == offset.0 && j.1 == offset.1 && j.2 == offset.2);
                        }
                    }
                    assert(self.spec_get(j) == written.spec_get(lj));
                    crate::prefab::chunk_shape().lemma_linearize_in_range(
                        lj.0 as int,
                        lj.1 as int,
                        lj.2 as int,
                    );
                    match crate::prefab::spec_chunk_at(pre.overlaid@, ci) {
                        Some(och) => {
                            assert(pre.spec_get(j) == och.spec_get(lj));
                        },
                        None => {
                            assert(pre.spec_get(j) == pre.base.spec_get(j));
                            match crate::prefab::spec_chunk_at(pre.base.chunks@, ci) {
                                Some(bch) => {
                                    assert(pre.base.spec_get(j) == bch.spec_get(lj));
                                },
                                None => {
                                    assert(pre.base.spec_get(j) == crate::prefab::PaletteVoxel(
                                        0,
                                    ));
                                },
                            }
                        },
                    }
                } else {
                    assert(crate::prefab::spec_chunk_at(self.overlaid@, cj)
                        == crate::prefab::spec_chunk_at(pre.overlaid@, cj));
                }
            }
        }
    }

    /// Stores a chunk in the overlay, replacing any previous override.
    fn upsert(&mut self, ci: ChunkIndex, chunk: crate::prefab::PaletteIdChunk)
        requires
            old(self).inv(),
            chunk.inv(),
        ensures
            final(self).inv(),
            final(self).base == old(self).base,
            crate::prefab::spec_chunk_at(final(self).overlaid@, ci) == Some(chunk),
            forall|c2: ChunkIndex|
                c2 != ci ==> crate::prefab::spec_chunk_at(final(self).overlaid@, c2)
                    == crate::prefab::spec_chunk_at(old(self).overlaid@, c2),
    {
        let ghost pre = self.overlaid@;
        match crate::prefab::find_chunk_pub(&self.overlaid, ci) {
            Some(k) => {
                self.overlaid[k] = (ci, chunk);
                proof {
                    crate::prefab::lemma_upsert_update(pre, self.overlaid@, ci, chunk, k as int);
                }
            },
            None => {
                self.overlaid.push((ci, chunk));
                proof {
                    crate::prefab::lemma_upsert_push(pre, self.overlaid@, ci, chunk);
                }
            },
        }
    }

    /// Extracts the changes, ready for application to a mutable world.
    pub fn into_changes(self) -> (r: Overlay)
        ensures
            r.0 == self.overlaid,
    {
        Overlay(self.overlaid)
    }
}

/// The first `k` overlay entries have been applied to `out`: their
/// keys hold their overlay contents, every other key is as in `pre`.
pub open spec fn overlay_applied_upto(
    ov: Seq<(ChunkIndex, crate::prefab::PaletteIdChunk)>,
    out: Seq<(ChunkIndex, crate::prefab::PaletteIdChunk)>,
    pre: Seq<(ChunkIndex, crate::prefab::PaletteIdChunk)>,
    k: int,
) -> bool {
    &&& forall|l: int|
        0 <= l < k ==> crate::prefab::spec_chunk_at(out, (#[trigger] ov[l]).0) is Some
            && crate::prefab::chunk_data_at(out, ov[l].0) == crate::prefab::chunk_data_at(
            ov,
            ov[l].0,
        )
    &&& forall|ci: ChunkIndex|
        (forall|l: int| 0 <= l < k ==> (#[trigger] ov[l].0) != ci)
            ==> crate::prefab::spec_chunk_at(out, ci) == crate::prefab::spec_chunk_at(pre, ci)
}

/// A set of overridden chunks extracted from a copy-on-write overlay.
pub struct Overlay(pub Vec<(ChunkIndex, crate::prefab::PaletteIdChunk)>);

impl Overlay {
    /// Applies the changes to a world, replacing each overridden chunk
    /// wholesale.  Nothing checks that the target is the overlay's
    /// original base — callers own that invariant.
    pub fn apply(self, output: &mut crate::prefab::World)
        requires
            old(output).inv(),
            crate::prefab::keys_unique(self.0@),
            crate::prefab::chunks_inv(self.0@),
        ensures
            final(output).inv(),
            overlay_applied_upto(
                self.0@,
                final(output).chunks@,
                old(output).chunks@,
                self.0@.len() as int,
            ),
            forall|ci: ChunkIndex|
                crate::prefab::spec_chunk_at(self.0@, ci) is Some
                    ==> crate::prefab::spec_chunk_at(final(output).chunks@, ci) is Some
                    && crate::prefab::chunk_data_at(final(output).chunks@, ci)
                    == crate::prefab::chunk_data_at(self.0@, ci),
            forall|ci: ChunkIndex|
                crate::prefab::spec_chunk_at(self.0@, ci) is None
                    ==> crate::prefab::spec_chunk_at(final(output).chunks@, ci)
                    == crate::prefab::spec_chunk_at(old(output).chunks@, ci),
    {
        let ghost pre = *old(output);
        let mut k: usize = 0;
        while k < self.0.len()
            invariant
                k <= self.0@.len(),
                output.inv(),
                crate::prefab::keys_unique(self.0@),
                crate::prefab::chunks_inv(self.0@),
                overlay_applied_upto(self.0@, output.chunks@, pre.chunks@, k as int),
            decreases self.0@.len() - k,
        {
            let ghost before = output.chunks@;
            let entry = &self.0[k];
            proof {
                assert(self.0@[k as int].1.inv());
            }
            let cloned = entry.1.clone();
            output.insert_chunk(entry.0, cloned);
            proof {
                assert(overlay_applied_upto(self.0@, before, pre.chunks@, k as int));
                let ghost key = self.0@[k as int].0;
                assert(overlay_applied_upto(
                    self.0@,
                    output.chunks@,
                    pre.chunks@,
                    k as int + 1,
                )) by {
                    assert forall|l: int| 0 <= l < k as int + 1 implies crate::prefab::spec_chunk_at(
                        output.chunks@,
                        (#[trigger] self.0@[l]).0,
                    ) is Some && crate::prefab::chunk_data_at(output.chunks@, self.0@[l].0)
                        == crate::prefab::chunk_data_at(self.0@, self.0@[l].0) by {
                        if l == k as int {
                            crate::prefab::lemma_chunk_at_entry(self.0@, key, k as int);
                            assert(crate::prefab::spec_chunk_at(output.chunks@, key) == Some(
                                cloned,
                            ));
                        } else {
                            assert(self.0@[l].0 != key);
                            assert(crate::prefab::spec_chunk_at(output.chunks@, self.0@[l].0)
                                == crate::prefab::spec_chunk_at(before, self.0@[l].0));
                            assert(crate::prefab::spec_chunk_at(before, self.0@[l].0) is Some
                                && crate::prefab::chunk_data_at(before, self.0@[l].0)
                                == crate::prefab::chunk_data_at(self.0@, self.0@[l].0));
                        }
                    }
                    assert forall|ci: ChunkIndex|
                        (forall|l: int| 0 <= l < k as int + 1 ==> (#[trigger] self.0@[l].0) != ci)
                            implies crate::prefab::spec_chunk_at(output.chunks@, ci)
                        == crate::prefab::spec_chunk_at(pre.chunks@, ci) by {
                        assert(self.0@[k as int].0 != ci);
                        assert(forall|l: int|
                            0 <= l < k as int ==> (#[trigger] self.0@[l].0) != ci);
                        assert(crate::prefab::spec_chunk_at(before, ci)
                            == crate::prefab::spec_chunk_at(pre.chunks@, ci));
                        assert(crate::prefab::spec_chunk_at(output.chunks@, ci)
                            == crate::prefab::spec_chunk_at(before, ci));
                    }
                }
            }
            k = k + 1;
        }
        proof {
            assert(overlay_applied_upto(
                self.0@,
                output.chunks@,
                pre.chunks@,
                self.0@.len() as int,
            ));
            assert forall|ci: ChunkIndex|
                crate::prefab::spec_chunk_at(self.0@, ci) is Some implies
                crate::prefab::spec_chunk_at(output.chunks@, ci) is Some
                && crate::prefab::chunk_data_at(output.chunks@, ci)
                == crate::prefab::chunk_data_at(self.0@, ci) by {
                let l = choose|l: int| 0 <= l < self.0@.len() && (#[trigger] self.0@[l].0) == ci;
                assert(crate::prefab::spec_chunk_at(output.chunks@, (self.0@[l]).0) is Some
                    && crate::prefab::chunk_data_at(output.chunks@, self.0@[l].0)
                    == crate::prefab::chunk_data_at(self.0@, self.0@[l].0));
            }
            assert forall|ci: ChunkIndex|
                crate::prefab::spec_chunk_at(self.0@, ci) is None implies
                crate::prefab::spec_chunk_at(output.chunks@, ci) == crate::prefab::spec_chunk_at(
                pre.chunks@,
                ci,
            ) by {
                assert forall|l: int| 0 <= l < self.0@.len() implies (#[trigger] self.0@[l].0)
                    != ci by {
                    if self.0@[l].0 == ci {
                        crate::prefab::lemma_chunk_at_entry(self.0@, ci, l);
                    }
                }
            }
        }
    }
}

/// Translation law over an exactly-known space: a view of a cuboid
/// with offset `d` may yield at `i` exactly the cuboid's value at
/// `i + d`.
pub proof fn lemma_view_reads_translated<V: Padded + Copy>(
    view: SpaceView<FlatPaddedGridCuboid<V>>,
    i: WorldIndex,
    v: V,
)
    ensures
        view.can_yield(i, v) <==> v == (*view.world).spec_get(view.translate(i)),
{
}

} // verus!
