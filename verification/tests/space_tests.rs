use std::collections::HashSet;

use domostroj::indices::WorldIndex;
use domostroj::prefab::{PaletteVoxel, World};
use domostroj::shape::Shape;
use domostroj::space::{Mapped, Space};
use domostroj::world::{Cow, FlatPaddedGridCuboid, SpaceView};

#[test]
fn cow_apply_neg() {
    let world = World::default();
    let mut cow = Cow::new(&world);
    cow.set([-1, -1, -1].into(), PaletteVoxel(1));
    let changes = cow.into_changes();
    let mut world = world;
    changes.apply(&mut world);
    assert_eq!(world.get([-1, -1, -1].into()), PaletteVoxel(1));
}

#[test]
fn view_neg() {
    let world = World::default();
    let mut cow = Cow::new(&world);
    cow.set([-1, -1, -1].into(), PaletteVoxel(1));
    let changes = cow.into_changes();
    let mut world = world;
    changes.apply(&mut world);
    let view = SpaceView::new_with_shape(&world, [-2, -2, -2].into(), Shape::new(2, 2, 2));
    assert_eq!(view.get([1, 1, 1].into()), PaletteVoxel(1));
}

#[test]
fn copy_offset() {
    let extent = FlatPaddedGridCuboid::<()>::new([0, -10, 0].into(), Shape::new(32, 32, 32));
    let world = extent.map_index(|i: WorldIndex, _v: ()| i.y() < 0);
    let other: FlatPaddedGridCuboid<bool> =
        FlatPaddedGridCuboid::new_from_space(&world, [0, -10, 0].into(), Shape::new(32, 32, 32));
    assert_eq!(other.get([0, -1, 0].into()), true);
    assert_eq!(other.get([0, 0, 0].into()), false);
}

#[test]
fn set_offset() {
    let mut extent = FlatPaddedGridCuboid::<bool>::new([0, -10, 0].into(), Shape::new(32, 32, 32));
    assert!(extent.set([0, -9, 0].into(), true).is_ok());
}

#[test]
fn test_iterable_chunk() {
    let cube = FlatPaddedGridCuboid::<u8>::new([0, 0, 0].into(), Shape::new(2, 2, 2));
    let mut indices = HashSet::new();
    for i in cube.indices() {
        indices.insert(i);
    }
    let mut expected = HashSet::new();
    expected.insert(WorldIndex(0, 0, 0));
    expected.insert(WorldIndex(0, 0, 1));
    expected.insert(WorldIndex(0, 1, 0));
    expected.insert(WorldIndex(0, 1, 1));
    expected.insert(WorldIndex(1, 0, 0));
    expected.insert(WorldIndex(1, 0, 1));
    expected.insert(WorldIndex(1, 1, 0));
    expected.insert(WorldIndex(1, 1, 1));
    assert_eq!(indices, expected);
}

#[test]
fn map_composes() {
    let mut c = FlatPaddedGridCuboid::<u8>::new([0, 0, 0].into(), Shape::new(2, 2, 2));
    c.set([1, 0, 0].into(), 3).unwrap();
    let doubled = c.map(|v: u8| v * 2);
    let plus_one = Mapped { space: &doubled, f: |v: u8| v + 1 };
    assert_eq!(plus_one.get([1, 0, 0].into()), 7);
    assert_eq!(plus_one.get([0, 0, 0].into()), 1);
}

#[test]
fn zip_pairs() {
    let mut a = FlatPaddedGridCuboid::<u8>::new([0, 0, 0].into(), Shape::new(2, 2, 2));
    let mut b = FlatPaddedGridCuboid::<bool>::new([0, 0, 0].into(), Shape::new(2, 2, 2));
    a.set([0, 1, 0].into(), 9).unwrap();
    b.set([0, 1, 0].into(), true).unwrap();
    let z = a.zip(&b);
    assert_eq!(z.get([0, 1, 0].into()), (9, true));
    assert_eq!(z.get([1, 1, 1].into()), (0, false));
}

#[test]
fn view_translates() {
    let mut c = FlatPaddedGridCuboid::<u8>::new([0, 0, 0].into(), Shape::new(4, 4, 4));
    c.set([2, 3, 1].into(), 8).unwrap();
    let view = SpaceView::new_with_shape(&c, [2, 3, 1].into(), Shape::new(2, 1, 1));
    assert_eq!(view.get([0, 0, 0].into()), 8);
}

#[test]
fn into_vec_materializes() {
    let mut c = FlatPaddedGridCuboid::<u8>::new([0, 0, 0].into(), Shape::new(2, 2, 2));
    c.set([0, 0, 0].into(), 5).unwrap();
    c.set([1, 0, 0].into(), 6).unwrap();
    let view = SpaceView::new_with_shape(&c, [0, 0, 0].into(), Shape::new(2, 1, 1));
    let v = view.into_vec();
    assert_eq!(v, vec![5, 6]);
}

#[test]
fn cuboid_set_get_roundtrip() {
    let mut c = FlatPaddedGridCuboid::<u8>::new([-2, -2, -2].into(), Shape::new(4, 4, 4));
    assert_eq!(c.get([0, 0, 0].into()), 0);
    c.set([0, 0, 0].into(), 7).unwrap();
    assert_eq!(c.get([0, 0, 0].into()), 7);
    assert_eq!(c.get([1, 1, 1].into()), 0);
    assert!(c.set([5, 5, 5].into(), 1).is_err());
    assert_eq!(c.get([5, 5, 5].into()), 0);
}

#[test]
fn from_parts_checks_length() {
    let data: Vec<u8> = vec![0; 7];
    assert!(FlatPaddedGridCuboid::from_parts(data, [0, 0, 0], [2, 2, 2]).is_err());
    let data: Vec<u8> = vec![0; 8];
    let c = FlatPaddedGridCuboid::from_parts(data, [1, 2, 3], [2, 2, 2]).unwrap();
    assert_eq!(c.get_offset(), WorldIndex(1, 2, 3));
    assert_eq!(c.get_dimensions(), [2, 2, 2]);
}

#[test]
fn from_parts_checks_ranges() {
    let data: Vec<u8> = vec![0; 8];
    assert!(FlatPaddedGridCuboid::from_parts(data, [i64::MAX, 0, 0], [2, 2, 2]).is_err());
    let data: Vec<u8> = vec![0; 0];
    assert!(FlatPaddedGridCuboid::<u8>::from_parts(data, [0, 0, 0], [usize::MAX, 1, 1]).is_err());
}
