use domostroj::indices::{ChunkIndex, VoxelUnits, WorldIndex};

#[test]
fn neg_index() {
    assert_eq!(
        ChunkIndex::new_encompassing([-1, -1, -1].into()),
        ChunkIndex(WorldIndex(-16, -16, -16)),
    );
}

#[test]
fn enclosing_positive() {
    assert_eq!(
        ChunkIndex::new_encompassing([17, 0, 31].into()),
        ChunkIndex(WorldIndex(16, 0, 16)),
    );
}

#[test]
fn internal_offset_in_range() {
    let ci = ChunkIndex::new_encompassing([-1, 5, 16].into());
    let off = ci.get_internal_offset(WorldIndex(-1, 5, 16));
    assert_eq!((off.0, off.1, off.2), (15, 5, 0));
}

#[test]
fn neighbours_order() {
    let n = WorldIndex(1, 2, 3).neighbours6();
    assert_eq!(n.xp(), WorldIndex(2, 2, 3));
    assert_eq!(n.xm(), WorldIndex(0, 2, 3));
    assert_eq!(n.yp(), WorldIndex(1, 3, 3));
    assert_eq!(n.ym(), WorldIndex(1, 1, 3));
    assert_eq!(n.zp(), WorldIndex(1, 2, 4));
    assert_eq!(n.zm(), WorldIndex(1, 2, 2));
}

#[test]
fn index_arithmetic() {
    let i = WorldIndex(1, -2, 3);
    let j = i.plus(VoxelUnits(1, 1, 1));
    assert_eq!(j, WorldIndex(2, -1, 4));
    let d = j.diff(i);
    assert_eq!((d.0, d.1, d.2), (1, 1, 1));
    assert_eq!(j.minus(VoxelUnits(1, 1, 1)), i);
}
