//! Helpers for converting between `VoxelId`s and application voxels.

use vstd::prelude::*;

use core::marker::PhantomData;

use crate::superposition::count_clear;
use crate::VoxelId;

verus! {

/// A mapping between voxel ids and an actual voxel type.  The mapping
/// is supplied by the surrounding application; the core never inspects
/// it.  `get(default_id())` should correspond to the default voxel.
pub trait Palette<V> {
    fn get(id: VoxelId) -> V;

    fn to_ref(v: V) -> VoxelId;

    fn default_id() -> VoxelId;
}

/// A superposition with a palette statically attached, to ease the
/// storage of each component: it stays a bitmap and resolves voxels on
/// demand.
pub struct Superposition<V, P: Palette<V>, const D: u8> {
    pub voxel: crate::superposition::Superposition<D>,
    pub palette: PhantomData<P>,
    pub v: PhantomData<V>,
}

impl<V, P: Palette<V>, const D: u8> Superposition<V, P, D> {
    /// The allowed ids, in increasing order, exactly as the wrapped
    /// superposition lists them.
    pub fn allowed_ids(&self) -> (r: Vec<u8>)
        requires
            D <= 64,
        ensures
            r@ == self.voxel.allowed_ids_spec(),
            r@.len() == self.voxel.count_allowed_spec(),
    {
        self.voxel.allowed_ids()
    }

    /// Resolves every allowed id through the palette, in increasing id
    /// order: one voxel per allowed id.  The palette's mapping itself
    /// carries no contract — for the pinned id sequence see
    /// [`Self::allowed_ids`].
    pub fn allowed_voxels(&self) -> (r: Vec<V>)
        requires
            D <= 64,
        ensures
            r@.len() == self.voxel.count_allowed_spec(),
    {
        let mut out: Vec<V> = Vec::new();
        let mut id: u8 = 0;
        while id < D
            invariant
                id <= D,
                D <= 64,
                out@.len() == count_clear(self.voxel.0, id as int),
            decreases D - id,
        {
            proof {
                crate::superposition::lemma_count_clear_bounds(self.voxel.0, id as int);
            }
            if self.voxel.allows(id) {
                out.push(P::get(id));
            }
            id = id + 1;
        }
        out
    }

    pub fn from_superposition(voxel: crate::superposition::Superposition<D>) -> (r: Self)
        ensures
            r.voxel == voxel,
    {
        Superposition { voxel, palette: PhantomData, v: PhantomData }
    }
}

/// A voxel id that resolves to its voxel through a palette without
/// storing extra memory.
#[derive(Debug)]
pub struct PaletteVoxel<V, P: Palette<V>> {
    pub id: VoxelId,
    pub palette: PhantomData<(P, V)>,
}

impl<V, P: Palette<V>> Clone for PaletteVoxel<V, P> {
    fn clone(&self) -> (r: Self)
        ensures
            r.id == self.id,
    {
        PaletteVoxel { id: self.id, palette: PhantomData }
    }
}

impl<V, P: Palette<V>> Copy for PaletteVoxel<V, P> {

}

impl<V: Copy, P: Palette<V>> PaletteVoxel<V, P> {
    /// Resolves the id through the palette.
    pub fn get(&self) -> V {
        P::get(self.id)
    }
}

impl<V, P: Palette<V>> Default for PaletteVoxel<V, P> {
    /// The voxel of the palette's default id.
    fn default() -> Self {
        PaletteVoxel { id: P::default_id(), palette: PhantomData }
    }
}

} // verus!
