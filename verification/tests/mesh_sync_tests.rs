use std::sync::Arc;

use voxel_engine::chunk::{Chunk, Instance, VoxelType};
use voxel_engine::constants::CHUNK_SIZE3_U;
use voxel_engine::io::{IORequest, IOResponse};
use voxel_engine::mesh_sync::{pack_meshes, MeshedChunks};
use voxel_engine::position::IVec3;
use voxel_engine::world::WorldState;

fn chunk_with_one_voxel() -> Arc<Chunk> {
    let mut voxels = [0u32; CHUNK_SIZE3_U];
    voxels[5 * 1024 + 5 * 32 + 5] = VoxelType::Grass.code();
    Arc::new(Chunk { voxels })
}

/// A world of render distance 0 around the origin with every chunk of the
/// 3x3x3 area answered by the store.
fn loaded_world() -> WorldState {
    let mut world = WorldState::new(0);
    for request in world.update_load_area(IVec3::new(0, 0, 0)) {
        if let IORequest::LoadChunk(p) = request {
            world.process_io_response(IOResponse::ChunkLoaded(p, Some(chunk_with_one_voxel())));
        }
    }
    world
}

#[test]
fn test_mesh_missing_meshes_chunks_with_loaded_neighbours() {
    let world = loaded_world();
    let mut meshed = MeshedChunks::new();
    let added = meshed.mesh_missing(&world, IVec3::new(0, 0, 0), 1);
    // Only the centre has all its neighbours loaded.
    assert_eq!(added.len(), 1);
    let (pos, mesh) = &added[0];
    assert_eq!(*pos, IVec3::new(0, 0, 0));
    let mesh = mesh.as_ref().expect("the centre chunk has faces");
    for direction in mesh.iter() {
        assert_eq!(direction.len(), 1);
    }
    assert!(meshed.contains(IVec3::new(0, 0, 0)));
    assert!(!meshed.contains(IVec3::new(1, 0, 0)));
    // A second pass finds nothing new.
    assert!(meshed.mesh_missing(&world, IVec3::new(0, 0, 0), 1).is_empty());
}

#[test]
fn test_mesh_missing_keeps_empty_chunks_as_meshed() {
    let mut world = WorldState::new(0);
    for request in world.update_load_area(IVec3::new(0, 0, 0)) {
        if let IORequest::LoadChunk(p) = request {
            let empty = Arc::new(Chunk { voxels: [0u32; CHUNK_SIZE3_U] });
            world.process_io_response(IOResponse::ChunkLoaded(p, Some(empty)));
        }
    }
    let mut meshed = MeshedChunks::new();
    let added = meshed.mesh_missing(&world, IVec3::new(0, 0, 0), 0);
    assert_eq!(added.len(), 1);
    assert!(added[0].1.is_none());
    assert!(meshed.contains(IVec3::new(0, 0, 0)));
}

#[test]
fn test_drop_unloaded() {
    let mut world = loaded_world();
    let mut meshed = MeshedChunks::new();
    meshed.mesh_missing(&world, IVec3::new(0, 0, 0), 1);
    assert!(meshed.drop_unloaded(&world).is_empty());
    // Moving far away unloads everything.
    world.update_load_area(IVec3::new(100, 0, 0));
    assert_eq!(meshed.drop_unloaded(&world), vec![IVec3::new(0, 0, 0)]);
    assert!(!meshed.contains(IVec3::new(0, 0, 0)));
}

#[test]
fn test_pack_meshes_layout() {
    let a: [Vec<Instance>; 6] = [
        vec![Instance(1), Instance(2)],
        vec![],
        vec![Instance(3)],
        vec![],
        vec![],
        vec![Instance(4)],
    ];
    let b: [Vec<Instance>; 6] = [vec![], vec![], vec![], vec![Instance(5)], vec![], vec![]];
    let meshes = vec![(IVec3::new(1, 2, 3), &a), (IVec3::new(-1, 0, 0), &b)];
    let (instances, chunks) = pack_meshes(&meshes);
    assert_eq!(instances, vec![(1, 0), (2, 0), (3, 0), (4, 0), (5, 1)]);
    assert_eq!(
        chunks,
        vec![
            (IVec3::new(1, 2, 3), [2, 0, 1, 0, 0, 1]),
            (IVec3::new(-1, 0, 0), [0, 0, 0, 1, 0, 0]),
        ]
    );
    let (none, no_chunks) = pack_meshes(&Vec::new());
    assert!(none.is_empty() && no_chunks.is_empty());
}
