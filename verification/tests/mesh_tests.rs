use std::sync::Arc;

use voxel_engine::chunk::{mesh, Chunk, ChunkRefs, Instance, VoxelType};
use voxel_engine::constants::CHUNK_SIZE3_U;

fn same_chunk_everywhere(chunk: Chunk) -> ChunkRefs {
    let shared = Arc::new(chunk);
    ChunkRefs {
        refs: std::array::from_fn(|_| shared.clone()),
    }
}

fn with_centre(centre: Chunk) -> ChunkRefs {
    let empty = Arc::new(Chunk { voxels: [0u32; CHUNK_SIZE3_U] });
    let centre = Arc::new(centre);
    ChunkRefs {
        refs: std::array::from_fn(|n| if n == 13 { centre.clone() } else { empty.clone() }),
    }
}

/// The fields of an instance, unpacked by the documented layout.
fn unpack(i: Instance) -> (u64, u64, u64, u64, u64, u64, u64) {
    let v = i.0;
    (
        v & 31,
        (v >> 5) & 31,
        (v >> 10) & 31,
        (v >> 15) & 31,
        (v >> 20) & 31,
        (v >> 25) & 255,
        v >> 33,
    )
}

#[test]
fn test_meshing_algorithm() {
    let mut voxels = [VoxelType::Empty.code(); CHUNK_SIZE3_U];
    voxels[0] = VoxelType::Dirt.code();
    let chunk = Chunk { voxels };
    let chunk_refs = same_chunk_everywhere(chunk);
    let faces = mesh(chunk_refs);
    // One visible face per direction, at the origin, 1x1, unshaded, dirt.
    for direction in faces.iter() {
        assert_eq!(direction, &vec![Instance(255 << 25)]);
    }
}

#[test]
fn test_mesh_empty_centre() {
    let chunk_refs = same_chunk_everywhere(Chunk { voxels: [0u32; CHUNK_SIZE3_U] });
    let faces = mesh(chunk_refs);
    for direction in faces.iter() {
        assert!(direction.is_empty());
    }
}

#[test]
fn test_mesh_merges_neighbouring_faces() {
    let mut voxels = [0u32; CHUNK_SIZE3_U];
    voxels[0] = VoxelType::Stone.code(); // (0, 0, 0)
    voxels[1] = VoxelType::Stone.code(); // (0, 0, 1)
    let faces = mesh(with_centre(Chunk { voxels }));
    let stone = (VoxelType::Stone.code() - 1) as u64;
    // +x and -x: both faces in one 1x2 quad.
    for axis in [0, 1] {
        assert_eq!(faces[axis].len(), 1);
        assert_eq!(unpack(faces[axis][0]), (0, 0, 0, 0, 1, 255, stone));
    }
    // +y and -y: one 2x1 quad.
    for axis in [2, 3] {
        assert_eq!(faces[axis].len(), 1);
        assert_eq!(unpack(faces[axis][0]), (0, 0, 0, 1, 0, 255, stone));
    }
    // +z: only the face of (0, 0, 1); -z: only that of (0, 0, 0).
    assert_eq!(faces[4], vec![Instance((1 << 10) | (255 << 25) | (stone << 33))]);
    assert_eq!(faces[5], vec![Instance((255 << 25) | (stone << 33))]);
}

#[test]
fn test_mesh_shaded_and_hidden_faces() {
    // Two stacked voxels of different kinds: the faces between them are
    // hidden, and the side faces get different textures, so they stay
    // apart; the top voxel's side faces are shaded by nothing.
    let mut voxels = [0u32; CHUNK_SIZE3_U];
    voxels[5 * 1024 + 5 * 32 + 5] = VoxelType::Dirt.code(); // (5, 5, 5)
    voxels[5 * 1024 + 6 * 32 + 5] = VoxelType::Grass.code(); // (5, 6, 5)
    let faces = mesh(with_centre(Chunk { voxels }));
    // Up: only the grass top; down: only the dirt bottom.
    assert_eq!(faces[2].len(), 1);
    assert_eq!(unpack(faces[2][0]), (5, 6, 5, 0, 0, 255, 1));
    assert_eq!(faces[3].len(), 1);
    assert_eq!(unpack(faces[3][0]), (5, 5, 5, 0, 0, 255, 0));
    // Sides: one instance per voxel, textures 0 and 1.
    for axis in [0, 1, 4, 5] {
        let mut textures: Vec<u64> = faces[axis].iter().map(|i| unpack(*i).6).collect();
        textures.sort();
        assert_eq!(textures, vec![0, 1]);
    }
}
