use domostroj::palette::{Palette, PaletteVoxel, Superposition};
use domostroj::VoxelId;

#[derive(Copy, Clone)]
struct DumbPalette;

impl Palette<u16> for DumbPalette {
    fn get(id: VoxelId) -> u16 {
        id as u16
    }
    fn to_ref(v: u16) -> VoxelId {
        v as u8
    }
    fn default_id() -> VoxelId {
        0
    }
}

#[test]
fn palette_foo() {
    let voxel = PaletteVoxel::<u16, DumbPalette>::default();
    let _v: u16 = voxel.get();
}

#[test]
fn lib_foo() {
    let voxel = PaletteVoxel::<u16, DumbPalette>::default();
    let v: u16 = voxel.get();
    assert_eq!(v, 0);
}

#[test]
fn allowed_voxels_resolve_through_palette() {
    let s = Superposition::<u16, DumbPalette, 4>::from_superposition(
        domostroj::superposition::Superposition::only(2),
    );
    assert_eq!(s.allowed_voxels(), vec![2u16]);
    let free = Superposition::<u16, DumbPalette, 4>::from_superposition(
        domostroj::superposition::Superposition::free(),
    );
    assert_eq!(free.allowed_voxels(), vec![0u16, 1, 2, 3]);
}
