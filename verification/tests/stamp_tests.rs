use domostroj::indices::WorldIndex;
use domostroj::shape::Shape;
use domostroj::stamp::{gather_stamps, ViewStamp, Wrapping};
use domostroj::world::FlatPaddedGridCuboid;

fn split_template() -> FlatPaddedGridCuboid<u8> {
    // 4x4x4, voxels with y < 2 are id 1, the rest id 0
    let mut world = FlatPaddedGridCuboid::<u8>::new([0, 0, 0].into(), Shape::new(4, 4, 4));
    for i in world.indices() {
        let v = if i.y() < 2 { 1 } else { 0 };
        world.set(i, v).unwrap();
    }
    world
}

#[test]
fn lib_stamps() {
    let world = FlatPaddedGridCuboid::<u8>::new([0, 0, 0].into(), Shape::new(8, 8, 8));
    let stamps = gather_stamps(&world, Wrapping, Shape::new(2, 2, 2));
    assert_eq!(stamps.len(), 1);
    let values: Vec<usize> = stamps.stamps.iter().map(|(_s, v)| *v).collect();
    assert_eq!(values, vec![7 * 7 * 7]);
}

#[test]
fn lib_stamps2() {
    let world = split_template();
    let stamps = gather_stamps(&world, Wrapping, Shape::new(2, 2, 2));
    assert_eq!(stamps.len(), 3);
    // all 1
    assert_eq!(
        stamps.get(&ViewStamp::new(&world, [0, 0, 0].into(), Shape::new(2, 2, 2))),
        Some(3 * 3)
    );
    // bottom 1, top 0
    assert_eq!(
        stamps.get(&ViewStamp::new(&world, [0, 1, 0].into(), Shape::new(2, 2, 2))),
        Some(3 * 3)
    );
    // all 0
    assert_eq!(
        stamps.get(&ViewStamp::new(&world, [0, 2, 0].into(), Shape::new(2, 2, 2))),
        Some(3 * 3)
    );
}

#[test]
fn stamp_stamps() {
    let world = FlatPaddedGridCuboid::<u8>::new([0, 0, 0].into(), Shape::new(8, 8, 8));
    let stamps = gather_stamps(&world, Wrapping, Shape::new(2, 2, 2));
    assert_eq!(stamps.len(), 1);
    assert_eq!(stamps.stamps[0].1, 7 * 7 * 7);
}

#[test]
fn stamp_stamps2() {
    let world = split_template();
    let stamps = gather_stamps(&world, Wrapping, Shape::new(2, 2, 2));
    assert_eq!(stamps.len(), 3);
    let mut counts: Vec<usize> = stamps.stamps.iter().map(|(_s, v)| *v).collect();
    counts.sort();
    assert_eq!(counts, vec![9, 9, 9]);
}

#[test]
fn stamp_counts_sum_to_window_count() {
    let world = split_template();
    let stamps = gather_stamps(&world, Wrapping, Shape::new(2, 2, 2));
    assert_eq!(stamps.get_total_occurrences(), 3 * 3 * 3);
}

#[test]
fn stamp_contents_in_canonical_order() {
    let world = split_template();
    let stamp = ViewStamp::new(&world, [0, 1, 0].into(), Shape::new(2, 2, 2));
    // x fastest, then y, then z: y=1 layer is id 1, y=2 layer is id 0
    assert_eq!(stamp.get_samples(), vec![1, 1, 0, 0, 1, 1, 0, 0]);
}

#[test]
fn stamp_lookup_misses_unknown_content() {
    let world = split_template();
    let stamps = gather_stamps(&world, Wrapping, Shape::new(2, 2, 2));
    // a probe whose window holds a pattern no template window shows
    let mut other = FlatPaddedGridCuboid::<u8>::new([0, 0, 0].into(), Shape::new(2, 2, 2));
    other.set([0, 0, 0].into(), 7).unwrap();
    let probe = ViewStamp::new(&other, [0, 0, 0].into(), Shape::new(2, 2, 2));
    assert_eq!(stamps.get(&probe), None);
}
