use std::sync::Arc;

use voxel_engine::chunk::{Chunk, ChunkRefs, VoxelType};
use voxel_engine::constants::CHUNK_SIZE3_U;
use voxel_engine::position::{IVec3, UVec3};

fn chunk_with_first_voxel_dirt() -> Chunk {
    let mut voxels = [VoxelType::Empty.code(); CHUNK_SIZE3_U];
    voxels[0] = VoxelType::Dirt.code();
    Chunk { voxels }
}

fn same_chunk_everywhere(chunk: Chunk) -> ChunkRefs {
    let shared = Arc::new(chunk);
    ChunkRefs {
        refs: std::array::from_fn(|_| shared.clone()),
    }
}

#[test]
fn test_block_type_is_solid() {
    assert!(!VoxelType::Empty.is_solid());
    assert!(VoxelType::Dirt.is_solid());
}

#[test]
fn test_chunk_get() {
    let chunk = chunk_with_first_voxel_dirt();
    assert_eq!(chunk.get(UVec3::new(0, 0, 0)), VoxelType::Dirt);
    assert_eq!(chunk.get(UVec3::new(1, 0, 0)), VoxelType::Empty);
    assert_eq!(chunk.get(UVec3::new(31, 31, 31)), VoxelType::Empty);
}

#[test]
fn test_chunk_get_only_self() {
    let chunk_refs = same_chunk_everywhere(chunk_with_first_voxel_dirt());
    assert_eq!(chunk_refs.get_only_self(UVec3::new(0, 0, 0)), VoxelType::Dirt);
    assert_eq!(chunk_refs.get_only_self(UVec3::new(1, 0, 0)), VoxelType::Empty);
}

#[test]
fn test_chunk_refs_get() {
    let chunk_refs = same_chunk_everywhere(chunk_with_first_voxel_dirt());

    // Verify center chunk access
    assert_eq!(chunk_refs.get(IVec3::new(0, 0, 0)), VoxelType::Dirt);
    assert_eq!(chunk_refs.get(IVec3::new(1, 0, 0)), VoxelType::Empty);
    assert_eq!(chunk_refs.get(IVec3::new(31, 31, 31)), VoxelType::Empty);
    // Verify negative coordinates
    assert_eq!(chunk_refs.get(IVec3::new(-1, -1, -1)), VoxelType::Empty);
    // Access beyond center chunk
    assert_eq!(chunk_refs.get(IVec3::new(-32, -32, -32)), VoxelType::Dirt);
    assert_eq!(
        chunk_refs.get(IVec3::new(32, 0, 0)).is_solid()
            || !chunk_refs.get(IVec3::new(32, 0, 0)).is_solid(),
        true
    );
}

#[test]
fn test_voxel_type_from_stored_number() {
    assert_eq!(VoxelType::from(0), VoxelType::Empty);
    assert_eq!(VoxelType::from(1), VoxelType::Dirt);
    assert_eq!(VoxelType::from(2), VoxelType::Grass);
    assert_eq!(VoxelType::from(3), VoxelType::Stone);
    assert_eq!(VoxelType::from(4), VoxelType::Empty);
    assert_eq!(VoxelType::from(u32::MAX), VoxelType::Empty);
    for kind in [VoxelType::Empty, VoxelType::Dirt, VoxelType::Grass, VoxelType::Stone] {
        assert_eq!(VoxelType::from(kind.code()), kind);
    }
}

#[test]
fn test_grass_and_stone_are_solid() {
    assert!(VoxelType::Grass.is_solid());
    assert!(VoxelType::Stone.is_solid());
}

#[test]
fn test_chunk_get_reads_x_major_index() {
    let mut voxels = [0u32; CHUNK_SIZE3_U];
    voxels[2 * 1024 + 3 * 32 + 4] = VoxelType::Stone.code();
    let chunk = Chunk { voxels };
    assert_eq!(chunk.get(UVec3::new(2, 3, 4)), VoxelType::Stone);
    assert_eq!(chunk.get(UVec3::new(4, 3, 2)), VoxelType::Empty);
}

#[test]
fn test_new_terrain_layers() {
    // Ground at height 5, stone from height 3: dirt below 3, stone at 3 and
    // 4, grass at 5, air above.
    let heights = [5i32; 1024];
    let dirt_levels = [3i32; 1024];
    let chunk = Chunk::new_terrain(IVec3::new(0, 0, 0), &heights, &dirt_levels);
    for y in 0..32u32 {
        let expected = if y < 3 {
            VoxelType::Dirt
        } else if y < 5 {
            VoxelType::Stone
        } else if y == 5 {
            VoxelType::Grass
        } else {
            VoxelType::Empty
        };
        assert_eq!(chunk.get(UVec3::new(7, y, 9)), expected);
    }
}

#[test]
fn test_new_terrain_uses_chunk_height() {
    // The chunk one above the origin starts at height 32.
    let heights = [40i32; 1024];
    let dirt_levels = [12i32; 1024];
    let chunk = Chunk::new_terrain(IVec3::new(0, 1, 0), &heights, &dirt_levels);
    assert_eq!(chunk.get(UVec3::new(0, 0, 0)), VoxelType::Stone);
    assert_eq!(chunk.get(UVec3::new(0, 7, 0)), VoxelType::Stone);
    assert_eq!(chunk.get(UVec3::new(0, 8, 0)), VoxelType::Grass);
    assert_eq!(chunk.get(UVec3::new(0, 9, 0)), VoxelType::Empty);
    let below = Chunk::new_terrain(IVec3::new(0, -1, 0), &heights, &dirt_levels);
    assert_eq!(below.get(UVec3::new(3, 31, 3)), VoxelType::Dirt);
}

#[test]
fn test_calculate_ao_open_air() {
    let chunk_refs = same_chunk_everywhere(Chunk { voxels: [0u32; CHUNK_SIZE3_U] });
    for axis in 0..6 {
        assert_eq!(chunk_refs.calculate_ao(UVec3::new(10, 10, 10), axis), 0b1111_1111);
    }
}

#[test]
fn test_calculate_ao_corner_shades() {
    // Voxel (10, 10, 10), face towards +y: the voxels above it are in the
    // layer y = 11. Make the +z neighbour and the +x neighbour of that layer
    // solid: the corner between them is fully shaded (0), the corners next
    // to one of them get 1, the opposite corner stays 3.
    let mut voxels = [0u32; CHUNK_SIZE3_U];
    voxels[10 * 1024 + 11 * 32 + 11] = VoxelType::Dirt.code();
    voxels[11 * 1024 + 11 * 32 + 10] = VoxelType::Dirt.code();
    let chunk_refs = same_chunk_everywhere(Chunk { voxels });
    let ao = chunk_refs.calculate_ao(UVec3::new(10, 10, 10), 2);
    // Axis 2 (+y): corner (i, j) looks along -z/+z (i) and -x/+x (j).
    let corner = |i: u32, j: u32| (ao >> (2 * (j * 2 + i))) & 3;
    assert_eq!(corner(1, 1), 0);
    assert_eq!(corner(0, 1), 2);
    assert_eq!(corner(1, 0), 2);
    assert_eq!(corner(0, 0), 3);
}

#[test]
fn test_chunk_get_reads_past_a_row() {
    // The index is computed as x * 1024 + y * 32 + z, so a y beyond the
    // chunk reads on into the next layer of x.
    let mut voxels = [0u32; CHUNK_SIZE3_U];
    voxels[1024 + 8 * 32] = VoxelType::Dirt.code();
    let chunk = Chunk { voxels };
    assert_eq!(chunk.get(UVec3::new(0, 40, 0)), VoxelType::Dirt);
    assert_eq!(chunk.get(UVec3::new(1, 8, 0)), VoxelType::Dirt);
}

#[test]
fn test_calculate_ao_more_solid_is_darker() {
    let mut voxels = [0u32; CHUNK_SIZE3_U];
    voxels[10 * 1024 + 11 * 32 + 11] = VoxelType::Dirt.code();
    let fewer = same_chunk_everywhere(Chunk { voxels });
    voxels[11 * 1024 + 11 * 32 + 10] = VoxelType::Dirt.code();
    voxels[9 * 1024 + 11 * 32 + 9] = VoxelType::Dirt.code();
    let more = same_chunk_everywhere(Chunk { voxels });
    for axis in 0..6 {
        let a = fewer.calculate_ao(UVec3::new(10, 10, 10), axis);
        let b = more.calculate_ao(UVec3::new(10, 10, 10), axis);
        for k in 0..4 {
            assert!((b >> (2 * k)) & 3 <= (a >> (2 * k)) & 3);
        }
    }
}
