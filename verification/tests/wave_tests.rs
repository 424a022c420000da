use domostroj::collapse::execute;
use domostroj::space::Space;
use domostroj::indices::WorldIndex;
use domostroj::shape::Shape;
use domostroj::stamp::{gather_stamps, Wrapping};
use domostroj::superposition::Superposition;
use domostroj::wave::Naive;
use domostroj::world::FlatPaddedGridCuboid;

fn split_template() -> FlatPaddedGridCuboid<u8> {
    let mut world = FlatPaddedGridCuboid::<u8>::new([0, 0, 0].into(), Shape::new(4, 4, 4));
    for i in world.indices() {
        let v = if i.y() < 2 { 1 } else { 0 };
        world.set(i, v).unwrap();
    }
    world
}

#[test]
fn cllapse_one() {
    let template = split_template();
    let stamps = gather_stamps(&template, Wrapping, Shape::new(2, 2, 2));
    let mut wave = Naive::<2> {
        world: FlatPaddedGridCuboid::new([0, 0, 0].into(), Shape::new(4, 4, 4)),
    };
    // Collapse the middle of the edge.
    wave.set([0, 1, 0].into(), Superposition::only(1), &stamps).unwrap();
    assert_eq!(wave.get([0, 0, 0].into()), Superposition::only(1));
    assert_eq!(wave.get([0, 3, 0].into()), Superposition::free());
    assert_eq!(wave.get([3, 3, 3].into()), Superposition::free());
    wave.set([0, 2, 0].into(), Superposition::only(0), &stamps).unwrap();
    assert_eq!(wave.get([0, 3, 0].into()), Superposition::only(0));
    assert_eq!(wave.get([3, 3, 3].into()), Superposition::only(0));
}

#[test]
fn collapse_impossible() {
    let template = split_template();
    let stamps = gather_stamps(&template, Wrapping, Shape::new(2, 2, 2));
    let mut wave = Naive::<2> {
        world: FlatPaddedGridCuboid::new([0, 0, 0].into(), Shape::new(4, 4, 4)),
    };
    // Collapse all below
    wave.set([0, 2, 0].into(), Superposition::only(1), &stamps).unwrap();
    assert_eq!(wave.get([0, 0, 0].into()), Superposition::only(1));
    assert_eq!(wave.get([3, 3, 3].into()), Superposition::free());
    // And then alter what's below. But that gives an impossible outcome!
    wave.set([0, 1, 0].into(), Superposition::only(0), &stamps).unwrap();
    // This gets stopped early, as there's nothing to change due to the new information.
    assert_eq!(wave.get([0, 3, 0].into()), Superposition::free());
    assert_eq!(wave.get([3, 3, 3].into()), Superposition::free());
}

#[test]
fn superposition_operations() {
    let free = Superposition::<5>::free();
    for v in 0..5u8 {
        assert!(free.allows(v));
    }
    assert_eq!(free.count_allowed(), 5);
    let one = Superposition::<5>::only(3);
    assert!(one.allows(3));
    assert!(!one.allows(0));
    assert_eq!(one.count_allowed(), 1);
    let none = Superposition::<5>::impossible();
    assert_eq!(none.count_allowed(), 0);
    for v in 0..5u8 {
        assert!(!none.allows(v));
    }
    let both = Superposition::<5>::only(1).intersect(Superposition::<5>::only(2));
    assert_eq!(both.count_allowed(), 0);
    let same = Superposition::<5>::only(1).intersect(Superposition::<5>::free());
    assert_eq!(same, Superposition::<5>::only(1));
}

#[test]
fn limit_restricts_cell() {
    let template = split_template();
    let stamps = gather_stamps(&template, Wrapping, Shape::new(2, 2, 2));
    let mut wave = Naive::<2> {
        world: FlatPaddedGridCuboid::new([0, 0, 0].into(), Shape::new(4, 4, 4)),
    };
    wave.limit([1, 1, 1].into(), Superposition::only(1), &stamps).unwrap();
    assert_eq!(wave.get([1, 1, 1].into()), Superposition::only(1));
}

#[test]
fn uniform_template_collapses_everywhere() {
    // all-zero template: the only stamp forces every cell to id 0
    let template = FlatPaddedGridCuboid::<u8>::new([0, 0, 0].into(), Shape::new(8, 8, 8));
    let seed = FlatPaddedGridCuboid::<Superposition<2>>::new([0, 0, 0].into(), Shape::new(4, 4, 4));
    let out = execute(&template, Wrapping, seed, Shape::new(2, 2, 2));
    for i in out.indices() {
        assert_eq!(out.get(i), Superposition::only(0));
    }
}

#[test]
fn driver_resolves_seeded_wave() {
    let template = split_template();
    let mut seed =
        FlatPaddedGridCuboid::<Superposition<2>>::new([0, 0, 0].into(), Shape::new(4, 4, 4));
    seed.set([0, 1, 0].into(), Superposition::only(1)).unwrap();
    let out = execute(&template, Wrapping, seed, Shape::new(2, 2, 2));
    // the seeded cell keeps its value and every cell ends up resolved;
    // ties among equally frequent stamps go to the first gathered (all
    // ones), so the whole wave resolves to id 1
    assert_eq!(out.get([0, 1, 0].into()), Superposition::only(1));
    for i in out.indices() {
        assert_eq!(out.get(i), Superposition::only(1), "at {:?}", i);
    }
}

#[test]
fn wave_new_propagates_seed() {
    let template = split_template();
    let stamps = gather_stamps(&template, Wrapping, Shape::new(2, 2, 2));
    let mut seed =
        FlatPaddedGridCuboid::<Superposition<2>>::new([0, 0, 0].into(), Shape::new(4, 4, 4));
    seed.set([0, 1, 0].into(), Superposition::only(1)).unwrap();
    let wave = Naive::<2>::new(seed, &stamps);
    assert_eq!(wave.get_world().get([0, 0, 0].into()), Superposition::only(1));
    let grid = wave.into_space();
    assert_eq!(grid.get([0, 0, 0].into()), Superposition::only(1));
}

#[test]
fn limit_stamp_out_of_bounds_fails() {
    let template = split_template();
    let stamps = gather_stamps(&template, Wrapping, Shape::new(2, 2, 2));
    let stamp = domostroj::stamp::ViewStamp::new(&template, [0, 0, 0].into(), Shape::new(2, 2, 2));
    let mut wave = Naive::<2> {
        world: FlatPaddedGridCuboid::new([0, 0, 0].into(), Shape::new(4, 4, 4)),
    };
    assert!(wave.limit_stamp([3, 3, 3].into(), &stamp, &stamps).is_err());
    assert!(wave.limit_stamp([2, 2, 2].into(), &stamp, &stamps).is_ok());
    assert_eq!(wave.get([2, 2, 2].into()), Superposition::only(1));
}

#[test]
fn set_out_of_bounds_fails() {
    let template = split_template();
    let stamps = gather_stamps(&template, Wrapping, Shape::new(2, 2, 2));
    let mut wave = Naive::<2> {
        world: FlatPaddedGridCuboid::new([0, 0, 0].into(), Shape::new(4, 4, 4)),
    };
    assert!(wave.set([9, 9, 9].into(), Superposition::only(1), &stamps).is_err());
    // writing the padding value outside the extent is a no-op, as the
    // cell already reads as free
    assert!(wave.set([9, 9, 9].into(), Superposition::free(), &stamps).is_ok());
}

#[test]
fn allowed_ids_in_order() {
    let s = Superposition::<5>::free().intersect(Superposition::<5>::only(3));
    assert_eq!(s.allowed_ids(), vec![3u8]);
    let free = Superposition::<6>::free();
    assert_eq!(free.allowed_ids(), vec![0u8, 1, 2, 3, 4, 5]);
    assert_eq!(Superposition::<4>::impossible().allowed_ids(), Vec::<u8>::new());
}

#[test]
fn limit_outside_extent() {
    let template = split_template();
    let stamps = gather_stamps(&template, Wrapping, Shape::new(2, 2, 2));
    let mut wave = Naive::<2> {
        world: FlatPaddedGridCuboid::new([0, 0, 0].into(), Shape::new(4, 4, 4)),
    };
    // restricting an outside cell to a strict mask fails and changes nothing
    assert!(wave.limit([9, 9, 9].into(), Superposition::only(1), &stamps).is_err());
    // restricting an outside cell by the free mask is a no-op success
    assert!(wave.limit([9, 9, 9].into(), Superposition::free(), &stamps).is_ok());
}
