use domostroj::entropy::{
    find_lowest_pseudo_entropy, find_preferred_stamp, get_distribution, get_pseudo_entropy,
    get_superposition_pseudo_entropy, log2, PseudoEntropy,
};
use domostroj::indices::WorldIndex;
use domostroj::shape::Shape;
use domostroj::stamp::{gather_stamps, StampCollection, ViewStamp, Wrapping};
use domostroj::superposition::Superposition;
use domostroj::world::FlatPaddedGridCuboid;

fn pe(items: &[usize]) -> f32 {
    let weights: Vec<usize> = items.to_vec();
    let total: usize = items.iter().sum();
    get_pseudo_entropy(&weights, total) as f32 / total as f32
}

fn pe_with_total(items: &[usize], total: usize) -> f32 {
    let weights: Vec<usize> = items.to_vec();
    get_pseudo_entropy(&weights, total) as f32 / total as f32
}

#[test]
fn log() {
    for i in 0..usize::BITS {
        assert_eq!(log2(1 << i as usize), i as usize);
    }
}

#[test]
fn entropy() {
    assert_ne!(pe(&[30, 1]), 0.0);
    // How extreme can we get?
    assert_ne!(pe(&[30000, 1]), 0.0);
}

#[test]
fn entropy_0() {
    // Nothing.
    assert_eq!(pe(&[5]), 0.0);
}

#[test]
fn entropy_1() {
    // One bit
    let h = pe(&[1, 1]);
    assert!((h - 1.0).abs() < 1e-6);
}

#[test]
fn entropy_extreme() {
    // When does it stop being meaningful?
    assert!(pe(&[30, 1]) > pe(&[30000, 1]));
}

#[test]
fn entropy_precision() {
    // How precise can we go?
    // Compare same total, to eliminate the influence of the division.
    assert!(pe(&[30000, 2]) > pe(&[30001, 1]));
}

#[test]
fn entropy_precision2() {
    // Compare counts so similar that they make little difference.
    assert!(pe(&[30000, 1002]) > pe(&[30001, 1001]));
}

#[test]
fn pseudo_entropy_equal() {
    // fudging to suss out the difference between 2 and 3 allowed states
    assert!(pe(&[1, 1, 1]) > pe_with_total(&[1, 1], 3));
}

fn split_template() -> FlatPaddedGridCuboid<u8> {
    let mut world = FlatPaddedGridCuboid::<u8>::new([0, 0, 0].into(), Shape::new(4, 4, 4));
    for i in world.indices() {
        let v = if i.y() < 2 { 1 } else { 0 };
        world.set(i, v).unwrap();
    }
    world
}

fn seeded_wave(seeds: &[(WorldIndex, Superposition<2>)]) -> FlatPaddedGridCuboid<Superposition<2>> {
    let mut world =
        FlatPaddedGridCuboid::<Superposition<2>>::new([0, 0, 0].into(), Shape::new(4, 4, 4));
    for (i, s) in seeds {
        world.set(*i, *s).unwrap();
    }
    world
}

/// This test fails on real entropy due to equal distribution of all stamps.
#[test]
fn superposition_lowest_entropy() {
    let template = split_template();
    let stamps = gather_stamps(&template, Wrapping, Shape::new(2, 2, 2));
    // Corner will be the only one constrained in any way
    let world = seeded_wave(&[(WorldIndex(0, 0, 0), Superposition::only(1))]);
    let total = stamps.get_total_occurrences();
    let lowest = find_lowest_pseudo_entropy(&world, &stamps, total);
    assert_eq!(lowest, Some(WorldIndex(0, 0, 0)));
}

#[test]
fn superposition_collapsed_entropy() {
    let template = split_template();
    let stamps = gather_stamps(&template, Wrapping, Shape::new(1, 2, 1));
    // Corner is completely collapsed
    let world = seeded_wave(&[
        (WorldIndex(0, 0, 0), Superposition::only(1)),
        (WorldIndex(0, 1, 0), Superposition::only(1)),
    ]);
    let total = stamps.get_total_occurrences();
    let lowest = find_lowest_pseudo_entropy(&world, &stamps, total);
    assert_eq!(lowest, Some(WorldIndex(0, 1, 0)));
}

#[test]
fn classification_cases() {
    let template = split_template();
    let stamps: StampCollection = gather_stamps(&template, Wrapping, Shape::new(2, 2, 2));
    let total = stamps.get_total_occurrences();
    // free window: all three stamps fit
    let free_world = seeded_wave(&[]);
    let view = ViewStamp::new(&free_world, [0, 0, 0].into(), Shape::new(2, 2, 2));
    assert!(matches!(
        get_superposition_pseudo_entropy(&view, &stamps, total),
        PseudoEntropy::Open(_)
    ));
    // a window forced to all-1 on the bottom and all-0 on top fits one stamp
    let forced = seeded_wave(&[
        (WorldIndex(0, 0, 0), Superposition::only(1)),
        (WorldIndex(0, 1, 0), Superposition::only(0)),
    ]);
    let view = ViewStamp::new(&forced, [0, 0, 0].into(), Shape::new(2, 2, 2));
    assert!(matches!(
        get_superposition_pseudo_entropy(&view, &stamps, total),
        PseudoEntropy::Collapsed
    ));
    // top forced to 1 under bottom forced to 0: nothing fits
    let broken = seeded_wave(&[
        (WorldIndex(0, 0, 0), Superposition::only(0)),
        (WorldIndex(0, 1, 0), Superposition::only(1)),
    ]);
    let view = ViewStamp::new(&broken, [0, 0, 0].into(), Shape::new(2, 2, 2));
    assert!(matches!(
        get_superposition_pseudo_entropy(&view, &stamps, total),
        PseudoEntropy::Impossible
    ));
}

#[test]
fn preferred_stamp_takes_highest_count() {
    // template with a dominant uniform region: the all-0 stamp is most frequent
    let mut template = FlatPaddedGridCuboid::<u8>::new([0, 0, 0].into(), Shape::new(4, 4, 4));
    template.set([0, 0, 0].into(), 1).unwrap();
    let stamps = gather_stamps(&template, Wrapping, Shape::new(2, 2, 2));
    let free_world = seeded_wave(&[]);
    let view = ViewStamp::new(&free_world, [1, 1, 1].into(), Shape::new(2, 2, 2));
    let st = find_preferred_stamp(&view, &stamps).unwrap();
    assert_eq!(st.get_samples(), vec![0; 8]);
}

#[test]
fn distribution_filters_fitting_stamps() {
    let template = split_template();
    let stamps = gather_stamps(&template, Wrapping, Shape::new(2, 2, 2));
    // bottom cell forced to 1: the all-0 stamp no longer fits
    let world = seeded_wave(&[(WorldIndex(0, 0, 0), Superposition::only(1))]);
    let view = ViewStamp::new(&world, [0, 0, 0].into(), Shape::new(2, 2, 2));
    let dist = get_distribution(&view, &stamps);
    assert_eq!(dist.len(), 2);
    for (stamp, count) in &dist {
        assert_eq!(*count, 9);
        assert_eq!(stamp.get_samples()[0], 1);
    }
}
