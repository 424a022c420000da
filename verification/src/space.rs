//! Read-only voxel fields and their lazy compositions.
//!
//! A [`Space`] is a random-access field of voxels.  Because a derived
//! space may apply arbitrary caller-supplied functions, its reads are
//! specified by a *relation* `can_yield`: for an exactly-known space
//! (such as a dense cuboid) the relation pins the value down; for a
//! mapped space it relates the result to the underlying value through
//! the postcondition of the mapping function.

use vstd::prelude::*;

use crate::indices::WorldIndex;

verus! {

/// A voxel value that has a designated padding (default) value,
/// returned by padded containers outside their extent.
pub trait Padded: Sized {
    /// The padding value, as a specification-level constant.
    spec fn padding_spec() -> Self;

    /// The padding value.
    fn padding() -> (r: Self)
        ensures
            r == Self::padding_spec(),
    ;
}

impl Padded for u8 {
    open spec fn padding_spec() -> Self {
        0
    }

    fn padding() -> (r: Self)
        ensures
            r == Self::padding_spec(),
    {
        0
    }
}

impl Padded for bool {
    open spec fn padding_spec() -> Self {
        false
    }

    fn padding() -> (r: Self)
        ensures
            r == Self::padding_spec(),
    {
        false
    }
}

impl Padded for () {
    open spec fn padding_spec() -> Self {
        ()
    }

    fn padding() -> (r: Self)
        ensures
            r == Self::padding_spec(),
    {
        ()
    }
}

impl<A: Padded, B: Padded> Padded for (A, B) {
    open spec fn padding_spec() -> Self {
        (A::padding_spec(), B::padding_spec())
    }

    fn padding() -> (r: Self)
        ensures
            r == Self::padding_spec(),
    {
        (A::padding(), B::padding())
    }
}

impl<const D: u8> Padded for crate::superposition::Superposition<D> {
    /// A fresh wave cell is fully free.
    open spec fn padding_spec() -> Self {
        crate::superposition::Superposition(0)
    }

    fn padding() -> (r: Self)
        ensures
            r == Self::padding_spec(),
    {
        crate::superposition::Superposition(0)
    }
}

/// Random access to the voxels of a 3D region.
pub trait Space {
    type Voxel;

    /// Well-formedness of the space (and of everything it closes over).
    spec fn inv(&self) -> bool;

    /// The indices at which the space may be read.
    spec fn in_domain(&self, i: WorldIndex) -> bool;

    /// The relation between an index and the values a read may return.
    spec fn can_yield(&self, i: WorldIndex, v: Self::Voxel) -> bool;

    /// Reads one voxel.
    fn get(&self, i: WorldIndex) -> (r: Self::Voxel)
        requires
            self.inv(),
            self.in_domain(i),
        ensures
            self.can_yield(i, r),
    ;
}

/// A pointwise mapping of another space: reading applies `f` to the
/// underlying voxel.  Composition law: a value `v` may be read at `i`
/// exactly when some value `m` readable from the underlying space at
/// `i` satisfies `f`'s postcondition with result `v`.
pub struct Mapped<'a, S, F> {
    pub space: &'a S,
    pub f: F,
}

impl<'a, V: Copy, U: Copy, S: Space<Voxel = V>, F: Fn(V) -> U> Space for Mapped<'a, S, F> {
    type Voxel = U;

    open spec fn inv(&self) -> bool {
        &&& self.space.inv()
        &&& forall|i: WorldIndex, m: V| self.space.can_yield(i, m) ==> call_requires(self.f, (m,))
    }

    open spec fn in_domain(&self, i: WorldIndex) -> bool {
        self.space.in_domain(i)
    }

    open spec fn can_yield(&self, i: WorldIndex, v: U) -> bool {
        exists|m: V| self.space.can_yield(i, m) && call_ensures(self.f, (m,), v)
    }

    fn get(&self, i: WorldIndex) -> (r: U) {
        let m = self.space.get(i);
        (self.f)(m)
    }
}

/// A pointwise mapping that also sees the index of each voxel.
pub struct MapIndex<'a, S, F> {
    pub space: &'a S,
    pub f: F,
}

impl<'a, V: Copy, U: Copy, S: Space<Voxel = V>, F: Fn(WorldIndex, V) -> U> Space for MapIndex<
    'a,
    S,
    F,
> {
    type Voxel = U;

    open spec fn inv(&self) -> bool {
        &&& self.space.inv()
        &&& forall|i: WorldIndex, m: V|
            self.space.can_yield(i, m) ==> call_requires(self.f, (i, m))
    }

    open spec fn in_domain(&self, i: WorldIndex) -> bool {
        self.space.in_domain(i)
    }

    open spec fn can_yield(&self, i: WorldIndex, v: U) -> bool {
        exists|m: V| self.space.can_yield(i, m) && call_ensures(self.f, (i, m), v)
    }

    fn get(&self, i: WorldIndex) -> (r: U) {
        let m = self.space.get(i);
        (self.f)(i, m)
    }
}

/// The co-indexed product of two spaces: reading yields the pair of
/// the two underlying voxels at the same index.
pub struct Zip<'a, 'b, S, T> {
    pub left: &'a S,
    pub right: &'b T,
}

impl<'a, 'b, VS: Copy, VT: Copy, S: Space<Voxel = VS>, T: Space<Voxel = VT>> Space for Zip<
    'a,
    'b,
    S,
    T,
> {
    type Voxel = (VS, VT);

    open spec fn inv(&self) -> bool {
        self.left.inv() && self.right.inv()
    }

    open spec fn in_domain(&self, i: WorldIndex) -> bool {
        self.left.in_domain(i) && self.right.in_domain(i)
    }

    open spec fn can_yield(&self, i: WorldIndex, v: (VS, VT)) -> bool {
        self.left.can_yield(i, v.0) && self.right.can_yield(i, v.1)
    }

    fn get(&self, i: WorldIndex) -> (r: (VS, VT)) {
        (self.left.get(i), self.right.get(i))
    }
}


/// Composition law for mapped reads over an exactly-known space: a
/// doubly-mapped cuboid may yield `r` at `i` exactly when some value
/// `m` satisfying `f`'s postcondition on the stored voxel satisfies
/// `g`'s postcondition with result `r` — reading `s.map(f).map(g)` at
/// `i` behaves as `g(f(s.get(i)))`.
pub proof fn lemma_map_composition<
    'a,
    'b,
    V: Padded + Copy,
    U: Copy,
    W: Copy,
    F: Fn(V) -> U,
    G: Fn(U) -> W,
>(outer: Mapped<'b, Mapped<'a, crate::world::FlatPaddedGridCuboid<V>, F>, G>, i: WorldIndex, r: W)
    ensures
        outer.can_yield(i, r) <==> exists|m: U|
            call_ensures(outer.space.f, (outer.space.space.spec_get(i),), m) && call_ensures(
                outer.f,
                (m,),
                r,
            ),
{
    let inner = *outer.space;
    let cub = *inner.space;
    if outer.can_yield(i, r) {
        let m = choose|m: U| inner.can_yield(i, m) && call_ensures(outer.f, (m,), r);
        let v0 = choose|v0: V| cub.can_yield(i, v0) && call_ensures(inner.f, (v0,), m);
        assert(v0 == cub.spec_get(i));
        assert(call_ensures(outer.space.f, (cub.spec_get(i),), m) && call_ensures(
            outer.f,
            (m,),
            r,
        ));
    }
    if exists|m: U|
        call_ensures(outer.space.f, (outer.space.space.spec_get(i),), m) && call_ensures(
            outer.f,
            (m,),
            r,
        ) {
        let m = choose|m: U|
            call_ensures(outer.space.f, (outer.space.space.spec_get(i),), m) && call_ensures(
                outer.f,
                (m,),
                r,
            );
        assert(cub.can_yield(i, cub.spec_get(i)));
        assert(inner.can_yield(i, m));
        assert(outer.can_yield(i, r));
    }
}

/// Composition law for zipped reads over exactly-known spaces: a zip
/// of two cuboids yields exactly the pair of their stored voxels —
/// reading `s.zip(t)` at `i` behaves as `(s.get(i), t.get(i))`.
pub proof fn lemma_zip_reads<'a, 'b, VS: Padded + Copy, VT: Padded + Copy>(
    z: Zip<
        'a,
        'b,
        crate::world::FlatPaddedGridCuboid<VS>,
        crate::world::FlatPaddedGridCuboid<VT>,
    >,
    i: WorldIndex,
    v: (VS, VT),
)
    ensures
        z.can_yield(i, v) <==> v == ((*z.left).spec_get(i), (*z.right).spec_get(i)),
{
}

} // verus!
