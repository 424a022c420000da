use domostroj::extent::Extent;
use domostroj::indices::{VoxelUnits, WorldIndex};
use domostroj::shape::Shape;
use domostroj::world::FlatPaddedGridCuboid;

#[test]
fn edge() {
    let mut cube = FlatPaddedGridCuboid::<u8>::new([0, 0, 0].into(), Shape::new(4, 4, 4));
    let stamp_extent = cube.get_stamps_extent(Shape::new(2, 2, 2));
    for i in stamp_extent.iter_indices() {
        cube.set(i, 0).unwrap();
        cube.set(i.plus(VoxelUnits(1, 1, 1)), 0).unwrap();
    }
    assert_eq!(stamp_extent.iter_indices().len(), 3 * 3 * 3);
}

#[test]
fn containing() {
    let extent = Extent { start: WorldIndex(0, 0, 0), end: WorldIndex(5, 5, 5) };
    let target = WorldIndex(2, 2, 2);
    let found = extent
        .get_stamps_containing(Shape::new(2, 2, 2), target)
        .iter_indices()
        .into_iter()
        .find(|i| *i == target);
    assert!(found.is_some());
}

#[test]
fn intersection_is_pointwise() {
    let a = Extent::new(WorldIndex(0, 0, 0), WorldIndex(4, 4, 4));
    let b = Extent::new(WorldIndex(2, 1, 0), WorldIndex(6, 6, 6));
    let c = a.intersection(&b);
    assert_eq!(c.start, WorldIndex(2, 1, 0));
    assert_eq!(c.end, WorldIndex(4, 4, 4));
    let ai: Vec<WorldIndex> = a.iter_indices();
    let bi: Vec<WorldIndex> = b.iter_indices();
    for i in c.iter_indices() {
        assert!(ai.contains(&i));
        assert!(bi.contains(&i));
    }
    assert_eq!(c.iter_indices().len(), 2 * 3 * 4);
}

#[test]
fn intersection_disjoint_is_empty() {
    let a = Extent::new(WorldIndex(0, 0, 0), WorldIndex(2, 2, 2));
    let b = Extent::new(WorldIndex(5, 5, 5), WorldIndex(7, 7, 7));
    let c = a.intersection(&b);
    assert_eq!(c.iter_indices().len(), 0);
}

#[test]
fn empty_extent_is_canonical() {
    let e = Extent::new(WorldIndex(3, 3, 3), WorldIndex(3, 5, 5));
    assert_eq!(e.start, WorldIndex(0, 0, 0));
    assert_eq!(e.end, WorldIndex(0, 0, 0));
    assert_eq!(e.get_dimensions(), [0, 0, 0]);
}

#[test]
fn shape_linearize_roundtrip() {
    let s = Shape::new(3, 4, 5);
    for n in 0..s.size() {
        let p = s.delinearize(n);
        assert_eq!(s.linearize(p), n);
    }
    assert_eq!(s.linearize([1, 2, 3]), (3 * 4 + 2) * 3 + 1);
}
