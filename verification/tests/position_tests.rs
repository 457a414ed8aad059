use voxel_engine::collections::is_within_distance;
use voxel_engine::position::{IVec3, IVec3Ext, UVec3, UVec3Ext};

#[test]
fn test_index_round_trip() {
    for index in [0u32, 1, 31, 32, 1023, 1024, 17 * 1024 + 5 * 32 + 30, 32767] {
        assert_eq!(UVec3::from_index(index).to_index(), index);
    }
    let p = UVec3::new(3, 4, 5);
    assert_eq!(p.to_index(), 3 * 1024 + 4 * 32 + 5);
    assert_eq!(UVec3::from_index(p.to_index()), p);
}

#[test]
fn test_chunk_and_local_position() {
    let p = IVec3::new(-1, 33, -64);
    assert_eq!(p.to_chunk_pos(), IVec3::new(-1, 1, -2));
    assert_eq!(p.to_local_pos(), UVec3::new(31, 1, 0));
    let q = IVec3::new(i32::MIN, i32::MAX, 0);
    let c = q.to_chunk_pos();
    let l = q.to_local_pos();
    assert_eq!(c.x as i64 * 32 + l.x as i64, i32::MIN as i64);
    assert_eq!(c.y as i64 * 32 + l.y as i64, i32::MAX as i64);
    assert_eq!(c.z, 0);
    assert_eq!(l.z, 0);
}

#[test]
fn test_within_distance() {
    assert!(is_within_distance(&(1, -1, 0), (0, 0, 0), 1));
    assert!(!is_within_distance(&(2, 0, 0), (0, 0, 0), 1));
    assert!(!is_within_distance(&(0, 0, 0), (0, 0, 0), -1));
    assert!(!is_within_distance(&(i32::MIN, 0, 0), (i32::MAX, 0, 0), i32::MAX));
    assert!(is_within_distance(&(i32::MIN, 0, 0), (-1, 0, 0), i32::MAX));
}
