//! Indexing facilities: world coordinates, displacements and chunk indices.

use vstd::prelude::*;

verus! {

/// Converts an unsigned coordinate triple to a signed one.
pub fn to_i32_arr(a: [u32; 3]) -> (r: [i32; 3])
    requires
        a[0] <= i32::MAX as u32,
        a[1] <= i32::MAX as u32,
        a[2] <= i32::MAX as u32,
    ensures
        r[0] == a[0] as int && r[1] == a[1] as int && r[2] == a[2] as int,
{
    [a[0] as i32, a[1] as i32, a[2] as i32]
}

/// Widens a signed coordinate triple to 64 bits.
pub fn to_i64_arr(a: [i32; 3]) -> (r: [i64; 3])
    ensures
        r[0] == a[0] as int && r[1] == a[1] as int && r[2] == a[2] as int,
{
    [a[0] as i64, a[1] as i64, a[2] as i64]
}

/// Converts an unsigned size triple to signed coordinates.
pub fn usize_to_i32_arr(a: [usize; 3]) -> (r: [i32; 3])
    requires
        a[0] <= i32::MAX as usize,
        a[1] <= i32::MAX as usize,
        a[2] <= i32::MAX as usize,
    ensures
        r[0] == a[0] as int && r[1] == a[1] as int && r[2] == a[2] as int,
{
    [a[0] as i32, a[1] as i32, a[2] as i32]
}

/// Converts an unsigned size triple to 32-bit unsigned coordinates.
pub fn usize_to_u32_arr(a: [usize; 3]) -> (r: [u32; 3])
    requires
        a[0] <= u32::MAX as usize,
        a[1] <= u32::MAX as usize,
        a[2] <= u32::MAX as usize,
    ensures
        r[0] == a[0] as int && r[1] == a[1] as int && r[2] == a[2] as int,
{
    [a[0] as u32, a[1] as u32, a[2] as u32]
}

/// Converts non-negative signed coordinates to unsigned ones.
pub fn to_u32_arr(a: [i32; 3]) -> (r: [u32; 3])
    requires
        a[0] >= 0 && a[1] >= 0 && a[2] >= 0,
    ensures
        r[0] == a[0] as int && r[1] == a[1] as int && r[2] == a[2] as int,
{
    [a[0] as u32, a[1] as u32, a[2] as u32]
}

/// Converts non-negative signed coordinates to sizes.
pub fn to_usize_arr(a: [i32; 3]) -> (r: [usize; 3])
    requires
        a[0] >= 0 && a[1] >= 0 && a[2] >= 0,
    ensures
        r[0] == a[0] as int && r[1] == a[1] as int && r[2] == a[2] as int,
{
    [a[0] as usize, a[1] as usize, a[2] as usize]
}

/// Narrows a 64-bit coordinate triple; every component must fit.
pub fn i64_to_i32_arr(a: [i64; 3]) -> (r: [i32; 3])
    requires
        i32::MIN as i64 <= a[0] <= i32::MAX as i64,
        i32::MIN as i64 <= a[1] <= i32::MAX as i64,
        i32::MIN as i64 <= a[2] <= i32::MAX as i64,
    ensures
        r[0] == a[0] as int && r[1] == a[1] as int && r[2] == a[2] as int,
{
    [a[0] as i32, a[1] as i32, a[2] as i32]
}

/// A displacement between two world positions, in voxel units.
#[derive(Clone, Copy, PartialEq, Eq, Structural, Debug)]
pub struct VoxelUnits(pub i32, pub i32, pub i32);

/// An absolute position of a voxel in the world.
#[derive(Clone, Copy, PartialEq, Eq, Structural, Hash, Debug)]
pub struct WorldIndex(pub i32, pub i32, pub i32);

/// A position is also used as the index type of every space.
pub type Index = WorldIndex;

impl WorldIndex {
    /// The position reached from the origin by the given displacement.
    pub fn new(offset: VoxelUnits) -> (r: Self)
        ensures
            r.0 == offset.0 && r.1 == offset.1 && r.2 == offset.2,
    {
        WorldIndex(offset.0, offset.1, offset.2)
    }

    pub fn x(&self) -> (r: i32)
        ensures
            r == self.0,
    {
        self.0
    }

    pub fn y(&self) -> (r: i32)
        ensures
            r == self.1,
    {
        self.1
    }

    pub fn z(&self) -> (r: i32)
        ensures
            r == self.2,
    {
        self.2
    }

    /// Whether translating by `d` stays within the machine coordinate range.
    pub open spec fn can_move_by(self, d: VoxelUnits) -> bool {
        i32::MIN <= self.0 + d.0 <= i32::MAX
            && i32::MIN <= self.1 + d.1 <= i32::MAX
            && i32::MIN <= self.2 + d.2 <= i32::MAX
    }

    /// Componentwise translation by a displacement.
    pub fn plus(self, d: VoxelUnits) -> (r: Self)
        requires
            self.can_move_by(d),
        ensures
            r.0 == self.0 + d.0 && r.1 == self.1 + d.1 && r.2 == self.2 + d.2,
    {
        WorldIndex(self.0 + d.0, self.1 + d.1, self.2 + d.2)
    }

    /// Componentwise translation by the negation of a displacement.
    pub fn minus(self, d: VoxelUnits) -> (r: Self)
        requires
            i32::MIN <= self.0 - d.0 <= i32::MAX,
            i32::MIN <= self.1 - d.1 <= i32::MAX,
            i32::MIN <= self.2 - d.2 <= i32::MAX,
        ensures
            r.0 == self.0 - d.0 && r.1 == self.1 - d.1 && r.2 == self.2 - d.2,
    {
        WorldIndex(self.0 - d.0, self.1 - d.1, self.2 - d.2)
    }

    /// The displacement leading from `other` to `self`.
    pub fn diff(self, other: WorldIndex) -> (r: VoxelUnits)
        requires
            i32::MIN <= self.0 - other.0 <= i32::MAX,
            i32::MIN <= self.1 - other.1 <= i32::MAX,
            i32::MIN <= self.2 - other.2 <= i32::MAX,
        ensures
            r.0 == self.0 - other.0 && r.1 == self.1 - other.1 && r.2 == self.2 - other.2,
    {
        VoxelUnits(self.0 - other.0, self.1 - other.1, self.2 - other.2)
    }

    /// The six neighbouring positions sharing a face, in the order
    /// x+ x- y+ y- z+ z-.  The order is part of the contract.
    pub fn neighbours6(&self) -> (r: Neighbours6<Self>)
        requires
            i32::MIN < self.0 < i32::MAX,
            i32::MIN < self.1 < i32::MAX,
            i32::MIN < self.2 < i32::MAX,
        ensures
            r.0[0].0 == self.0 + 1 && r.0[0].1 == self.1 && r.0[0].2 == self.2,
            r.0[1].0 == self.0 - 1 && r.0[1].1 == self.1 && r.0[1].2 == self.2,
            r.0[2].0 == self.0 && r.0[2].1 == self.1 + 1 && r.0[2].2 == self.2,
            r.0[3].0 == self.0 && r.0[3].1 == self.1 - 1 && r.0[3].2 == self.2,
            r.0[4].0 == self.0 && r.0[4].1 == self.1 && r.0[4].2 == self.2 + 1,
            r.0[5].0 == self.0 && r.0[5].1 == self.1 && r.0[5].2 == self.2 - 1,
    {
        Neighbours6([
            WorldIndex(self.0 + 1, self.1, self.2),
            WorldIndex(self.0 - 1, self.1, self.2),
            WorldIndex(self.0, self.1 + 1, self.2),
            WorldIndex(self.0, self.1 - 1, self.2),
            WorldIndex(self.0, self.1, self.2 + 1),
            WorldIndex(self.0, self.1, self.2 - 1),
        ])
    }
}

impl From<[i32; 3]> for WorldIndex {
    fn from(coords: [i32; 3]) -> (r: Self) {
        WorldIndex(coords[0], coords[1], coords[2])
    }
}

impl vstd::std_specs::convert::FromSpecImpl<[i32; 3]> for WorldIndex {
    open spec fn obeys_from_spec() -> bool {
        true
    }

    open spec fn from_spec(coords: [i32; 3]) -> Self {
        WorldIndex(coords[0int], coords[1int], coords[2int])
    }
}

/// Ordered collection of the properties of the six face neighbours,
/// in the order x+ x- y+ y- z+ z-.
#[derive(Clone, Copy, Debug)]
pub struct Neighbours6<T: Copy>(pub [T; 6]);

impl<T: Copy> Neighbours6<T> {
    pub fn xp(&self) -> (r: T)
        ensures
            r == self.0[0],
    {
        self.0[0]
    }

    pub fn xm(&self) -> (r: T)
        ensures
            r == self.0[1],
    {
        self.0[1]
    }

    pub fn yp(&self) -> (r: T)
        ensures
            r == self.0[2],
    {
        self.0[2]
    }

    pub fn ym(&self) -> (r: T)
        ensures
            r == self.0[3],
    {
        self.0[3]
    }

    pub fn zp(&self) -> (r: T)
        ensures
            r == self.0[4],
    {
        self.0[4]
    }

    pub fn zm(&self) -> (r: T)
        ensures
            r == self.0[5],
    {
        self.0[5]
    }
}

/// The same six properties under their names.
#[derive(Clone, Copy)]
pub struct NamedNeighbours6<T> {
    pub xp: T,
    pub xm: T,
    pub yp: T,
    pub ym: T,
    pub zp: T,
    pub zm: T,
}

impl<T: Copy> From<NamedNeighbours6<T>> for Neighbours6<T> {
    fn from(nn: NamedNeighbours6<T>) -> (r: Self) {
        Neighbours6([nn.xp, nn.xm, nn.yp, nn.ym, nn.zp, nn.zm])
    }
}

impl<T: Copy> vstd::std_specs::convert::FromSpecImpl<NamedNeighbours6<T>> for Neighbours6<T> {
    open spec fn obeys_from_spec() -> bool {
        true
    }

    open spec fn from_spec(nn: NamedNeighbours6<T>) -> Self {
        Neighbours6([nn.xp, nn.xm, nn.yp, nn.ym, nn.zp, nn.zm])
    }
}

/// The edge length of a world chunk, a power of two.
pub const CHUNK_EDGE: u32 = 16;

/// Floors `v` to the nearest lower (or equal) multiple of `thr`.
pub fn trunc(v: i32, thr: u32) -> (r: i32)
    requires
        0 < thr <= i32::MAX as u32,
        i32::MIN as int + thr as int <= v as int,
    ensures
        r as int == (v as int / thr as int) * (thr as int),
        r <= v < r + thr,
        r as int % thr as int == 0,
{
    let t: i32 = thr as i32;
    proof {
        vstd::arithmetic::div_mod::lemma_mod_bound(v as int, t as int);
        vstd::arithmetic::div_mod::lemma_fundamental_div_mod(v as int, t as int);
        vstd::arithmetic::div_mod::lemma_mod_multiples_basic(v as int / t as int, t as int);
    }
    let rem: i32 = v.checked_rem_euclid(t).unwrap();
    proof {
        assert(rem as int == v as int % t as int);
        assert(v as int == (t as int) * (v as int / t as int) + v as int % t as int);
        assert((v as int / t as int) * (t as int) == (t as int) * (v as int / t as int))
            by (nonlinear_arith);
    }
    v - rem
}

/// The index of a chunk: the world position of its lowest corner,
/// always a multiple of [`CHUNK_EDGE`] in every component.
#[derive(Clone, Copy, Hash, PartialEq, Eq, Structural, Debug)]
pub struct ChunkIndex(pub WorldIndex);

impl ChunkIndex {
    /// The chunk corner enclosing a world position, as mathematical integers.
    pub open spec fn enclosing_spec(index: WorldIndex) -> (int, int, int) {
        (
            (index.0 as int / CHUNK_EDGE as int) * (CHUNK_EDGE as int),
            (index.1 as int / CHUNK_EDGE as int) * (CHUNK_EDGE as int),
            (index.2 as int / CHUNK_EDGE as int) * (CHUNK_EDGE as int),
        )
    }

    /// Returns the index of the chunk to which the world index belongs.
    /// Uses flooring division, so negative coordinates round toward
    /// negative infinity.
    pub fn new_encompassing(index: WorldIndex) -> (r: Self)
        requires
            index.0 > i32::MIN + CHUNK_EDGE,
            index.1 > i32::MIN + CHUNK_EDGE,
            index.2 > i32::MIN + CHUNK_EDGE,
        ensures
            r.0.0 == Self::enclosing_spec(index).0,
            r.0.1 == Self::enclosing_spec(index).1,
            r.0.2 == Self::enclosing_spec(index).2,
    {
        ChunkIndex(WorldIndex(
            trunc(index.0, CHUNK_EDGE),
            trunc(index.1, CHUNK_EDGE),
            trunc(index.2, CHUNK_EDGE),
        ))
    }

    /// The offset (minimum in all dimensions) at which this chunk begins.
    pub fn get_world_offset(&self) -> (r: WorldIndex)
        ensures
            r == self.0,
    {
        self.0
    }

    /// The offset of `index` relative to the beginning of its chunk; each
    /// component lies in `[0, CHUNK_EDGE)`.
    pub fn get_internal_offset(&self, index: WorldIndex) -> (r: VoxelUnits)
        requires
            index.0 > i32::MIN + CHUNK_EDGE,
            index.1 > i32::MIN + CHUNK_EDGE,
            index.2 > i32::MIN + CHUNK_EDGE,
        ensures
            r.0 == index.0 - Self::enclosing_spec(index).0,
            r.1 == index.1 - Self::enclosing_spec(index).1,
            r.2 == index.2 - Self::enclosing_spec(index).2,
            0 <= r.0 < CHUNK_EDGE,
            0 <= r.1 < CHUNK_EDGE,
            0 <= r.2 < CHUNK_EDGE,
    {
        let c = Self::new_encompassing(index);
        VoxelUnits(index.0 - c.0.0, index.1 - c.0.1, index.2 - c.0.2)
    }
}

} // verus!
