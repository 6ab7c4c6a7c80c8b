use svo_engine::svo::coords::{coord_key, key_coord};
use svo_engine::svo::{brick_local_from_voxel, chunk_local_from_voxel, div_floor, IVec3};

#[test]
fn div_floor_positive_values() {
    assert_eq!(div_floor(17, 8), (2, 1));
    assert_eq!(div_floor(0, 64), (0, 0));
    assert_eq!(div_floor(63, 64), (0, 63));
    assert_eq!(div_floor(64, 64), (1, 0));
}

#[test]
fn div_floor_negative_values_round_down() {
    assert_eq!(div_floor(-1, 8), (-1, 7));
    assert_eq!(div_floor(-8, 8), (-1, 0));
    assert_eq!(div_floor(-9, 8), (-2, 7));
    assert_eq!(div_floor(-65, 64), (-2, 63));
}

#[test]
fn div_floor_negative_divisor() {
    // Only a negative remainder is corrected, whatever the divisor's sign.
    assert_eq!(div_floor(7, -2), (-3, 1));
    assert_eq!(div_floor(-7, -2), (2, -3));
    assert_eq!(div_floor(-8, -2), (4, 0));
}

#[test]
fn div_floor_recombines() {
    for value in [-1000, -65, -64, -63, -1, 0, 1, 63, 64, 65, 1000] {
        for divisor in [1, 2, 8, 64] {
            let (q, r) = div_floor(value, divisor);
            assert_eq!(q * divisor + r, value);
            assert!(0 <= r && r < divisor);
        }
    }
}

#[test]
fn div_floor_extremes() {
    assert_eq!(div_floor(i32::MIN, 64), (i32::MIN / 64, 0));
    assert_eq!(div_floor(i32::MAX, 64), (i32::MAX / 64, 63));
    assert_eq!(div_floor(i32::MIN, 1), (i32::MIN, 0));
}

#[test]
fn chunk_local_splits_each_axis() {
    let (chunk, local) = chunk_local_from_voxel(IVec3::new(-1, 64, 130), 64);
    assert_eq!(chunk, IVec3::new(-1, 1, 2));
    assert_eq!(local, IVec3::new(63, 0, 2));
}

#[test]
fn brick_local_splits_each_axis() {
    let (brick, in_brick) = brick_local_from_voxel(IVec3::new(63, 0, 17), 8);
    assert_eq!(brick, IVec3::new(7, 0, 2));
    assert_eq!(in_brick, IVec3::new(7, 0, 1));
}

#[test]
fn ivec3_constructors() {
    assert_eq!(IVec3::new(1, 2, 3), IVec3 { x: 1, y: 2, z: 3 });
    assert_eq!(IVec3::splat(-4), IVec3 { x: -4, y: -4, z: -4 });
}

#[test]
fn coord_key_round_trips() {
    for c in [
        IVec3::new(0, 0, 0),
        IVec3::new(-1, 2, -3),
        IVec3::new(i32::MIN, i32::MAX, 0),
        IVec3::new(i32::MAX, i32::MIN, -1),
    ] {
        assert_eq!(key_coord(coord_key(c)), c);
    }
}

#[test]
fn coord_key_tells_coordinates_apart() {
    let a = coord_key(IVec3::new(1, 0, 0));
    let b = coord_key(IVec3::new(0, 1, 0));
    let c = coord_key(IVec3::new(0, 0, 1));
    let d = coord_key(IVec3::new(-1, 0, 0));
    assert!(a != b && a != c && b != c && a != d);
}
