use voxel_engine::chunk::{Chunk, VoxelType};
use voxel_engine::constants::CHUNK_SIZE3_U;
use voxel_engine::io::{
    chunk_from_bytes, decode_chunk, encode_chunk, get_chunk_path, ChunkIoError,
    STORED_CHUNK_BYTES,
};
use voxel_engine::position::IVec3;

#[test]
fn test_chunk_path_format() {
    assert_eq!(get_chunk_path(IVec3::new(0, 0, 0)), "world/chunks/0_0_0.bin");
    assert_eq!(get_chunk_path(IVec3::new(1, -2, 30)), "world/chunks/1_-2_30.bin");
    assert_eq!(
        get_chunk_path(IVec3::new(i32::MIN, i32::MAX, -10)),
        "world/chunks/-2147483648_2147483647_-10.bin"
    );
    assert_eq!(get_chunk_path(IVec3::new(100, 9, -9)), format!("world/chunks/{}_{}_{}.bin", 100, 9, -9));
}

#[test]
fn test_encode_chunk_compresses_low_bytes() {
    let mut voxels = [0u32; CHUNK_SIZE3_U];
    voxels[0] = VoxelType::Grass.code();
    voxels[1] = 0x1234_5603;
    let chunk = Chunk { voxels };
    let frame = encode_chunk(&chunk);
    // A mostly empty chunk compresses well below its raw size.
    assert!(frame.len() < CHUNK_SIZE3_U);
    let content = zstd::decode_all(&frame[..]).expect("a zstd frame");
    assert_eq!(content.len(), CHUNK_SIZE3_U);
    assert_eq!(content[0], 2);
    assert_eq!(content[1], 0x03);
    assert!(content[2..].iter().all(|&b| b == 0));
}

#[test]
fn test_stored_chunk_is_not_readable() {
    let chunk = Chunk { voxels: [1u32; CHUNK_SIZE3_U] };
    let frame = encode_chunk(&chunk);
    assert_eq!(
        decode_chunk(&frame).err(),
        Some(ChunkIoError::SizeMismatch { got: CHUNK_SIZE3_U })
    );
}

#[test]
fn test_decode_chunk_rejects_non_frames() {
    assert_eq!(decode_chunk(&[1, 2, 3, 4, 5]).err(), Some(ChunkIoError::Decompression));
    assert_eq!(decode_chunk(&[]).err(), Some(ChunkIoError::Decompression));
}

#[test]
fn test_decode_chunk_reads_four_bytes_per_voxel() {
    let mut raw = vec![0u8; STORED_CHUNK_BYTES];
    raw[0..4].copy_from_slice(&3u32.to_ne_bytes());
    raw[4 * 100..4 * 101].copy_from_slice(&0xdead_beefu32.to_ne_bytes());
    let frame = zstd::encode_all(&raw[..], 3).expect("compression");
    let chunk = decode_chunk(&frame).expect("a full chunk");
    assert_eq!(chunk.voxels[0], 3);
    assert_eq!(chunk.voxels[100], 0xdead_beef);
    assert_eq!(chunk.voxels[1], 0);
    assert_eq!(chunk.get(voxel_engine::position::UVec3::new(0, 0, 0)), VoxelType::Stone);
}

#[test]
fn test_chunk_from_bytes_size_mismatch() {
    assert_eq!(
        chunk_from_bytes(&[0u8; 100]).err(),
        Some(ChunkIoError::SizeMismatch { got: 100 })
    );
    assert_eq!(
        chunk_from_bytes(&vec![0u8; STORED_CHUNK_BYTES + 4]).err(),
        Some(ChunkIoError::SizeMismatch { got: STORED_CHUNK_BYTES + 4 })
    );
}

#[test]
fn test_chunk_from_bytes_word_order() {
    let mut raw = vec![0u8; STORED_CHUNK_BYTES];
    raw[4 * 7] = 1;
    raw[4 * 7 + 3] = 2;
    let chunk = chunk_from_bytes(&raw).expect("a full chunk");
    let v = chunk.voxels[7];
    assert!(v == 0x0200_0001 || v == 0x0100_0002);
    assert_eq!(v, u32::from_ne_bytes([1, 0, 0, 2]));
}

#[test]
fn test_chunk_paths_differ() {
    // Signs and digit boundaries never make two positions share a file.
    let a = get_chunk_path(IVec3::new(1, 12, 3));
    let b = get_chunk_path(IVec3::new(11, 2, 3));
    let c = get_chunk_path(IVec3::new(-1, 12, 3));
    assert_ne!(a, b);
    assert_ne!(a, c);
    assert_ne!(b, c);
}

#[test]
fn test_chunk_from_bytes_one_byte_order() {
    let mut raw = vec![0u8; STORED_CHUNK_BYTES];
    for i in 0..CHUNK_SIZE3_U {
        raw[4 * i..4 * i + 4].copy_from_slice(&[i as u8, 0, 0, 7]);
    }
    let chunk = chunk_from_bytes(&raw).expect("a full chunk");
    for i in 0..CHUNK_SIZE3_U {
        assert_eq!(chunk.voxels[i], u32::from_ne_bytes([i as u8, 0, 0, 7]));
    }
}
