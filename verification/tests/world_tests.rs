use std::sync::Arc;

use voxel_engine::chunk::{Chunk, VoxelType};
use voxel_engine::constants::CHUNK_SIZE3_U;
use voxel_engine::io::{IORequest, IOResponse};
use voxel_engine::position::IVec3;
use voxel_engine::world::{generate_chunks, WorldRequest, WorldState};

fn loads(requests: &[IORequest]) -> Vec<IVec3> {
    requests
        .iter()
        .filter_map(|r| match r {
            IORequest::LoadChunk(p) => Some(*p),
            IORequest::SaveChunk { .. } => None,
        })
        .collect()
}

fn saves(requests: &[IORequest]) -> Vec<IVec3> {
    requests
        .iter()
        .filter_map(|r| match r {
            IORequest::SaveChunk { position, .. } => Some(*position),
            IORequest::LoadChunk(_) => None,
        })
        .collect()
}

fn solid_chunk() -> Arc<Chunk> {
    Arc::new(Chunk { voxels: [VoxelType::Stone.code(); CHUNK_SIZE3_U] })
}

/// Answers every load of `requests` with a chunk from the store.
fn answer_loads(world: &mut WorldState, requests: &[IORequest]) {
    for p in loads(requests) {
        assert!(world
            .process_io_response(IOResponse::ChunkLoaded(p, Some(solid_chunk())))
            .is_none());
    }
}

#[test]
fn test_new_world_is_empty() {
    let world = WorldState::new(4);
    assert_eq!(world.render_distance(), 4);
    assert!(!world.is_loaded(IVec3::new(0, 0, 0)));
    assert!(world.chunk_at(IVec3::new(0, 0, 0)).is_none());
    assert!(world.get_chunk_refs(IVec3::new(0, 0, 0)).is_none());
}

#[test]
fn test_update_load_area_asks_for_the_cube() {
    // Render distance 0 keeps one chunk more around the centre: 3x3x3.
    let mut world = WorldState::new(0);
    let requests = world.update_load_area(IVec3::new(10, -3, 7));
    assert!(saves(&requests).is_empty());
    let asked = loads(&requests);
    assert_eq!(asked.len(), 27);
    // x slowest, then z, then y.
    assert_eq!(asked[0], IVec3::new(9, -4, 6));
    assert_eq!(asked[1], IVec3::new(9, -3, 6));
    assert_eq!(asked[3], IVec3::new(9, -4, 7));
    assert_eq!(asked[26], IVec3::new(11, -2, 8));
    // Asking again while they are waiting asks for nothing.
    assert!(world.update_load_area(IVec3::new(10, -3, 7)).is_empty());
}

#[test]
fn test_loaded_chunks_fill_the_neighbourhood() {
    let mut world = WorldState::new(0);
    let requests = world.update_load_area(IVec3::new(0, 0, 0));
    answer_loads(&mut world, &requests);
    assert!(world.is_loaded(IVec3::new(-1, 1, 0)));
    let refs = world.get_chunk_refs(IVec3::new(0, 0, 0)).expect("all 27 loaded");
    assert_eq!(refs.refs[13].voxels[0], VoxelType::Stone.code());
    assert!(world.get_chunk_refs(IVec3::new(1, 0, 0)).is_none());
    // Everything is loaded: nothing more to ask.
    assert!(world.update_load_area(IVec3::new(0, 0, 0)).is_empty());
    assert!(world.voxel_solid_at(IVec3::new(5, 7, 31)));
    // A voxel counts only where its chunk has all its neighbours loaded.
    assert!(!world.voxel_solid_at(IVec3::new(5, -7, 31)));
    // Outside the loaded neighbourhood nothing is solid.
    assert!(!world.voxel_solid_at(IVec3::new(40, 0, 0)));
}

#[test]
fn test_missing_chunk_is_generated_then_saved() {
    let mut world = WorldState::new(0);
    let requests = world.update_load_area(IVec3::new(0, 0, 0));
    let p = loads(&requests)[5];
    let generate = world.process_io_response(IOResponse::ChunkLoaded(p, None));
    match generate {
        Some(WorldRequest::GenerateChunks { x, z, ys }) => {
            assert_eq!((x, z), (p.x, p.z));
            assert_eq!(ys, vec![p.y]);
        }
        None => panic!("a missing chunk that is waiting is generated"),
    }
    let out = world.process_generated(vec![(p, solid_chunk()), (IVec3::new(50, 50, 50), solid_chunk())]);
    // Only the waiting position is taken, and a save of it is asked.
    assert_eq!(saves(&out), vec![p]);
    assert!(world.is_loaded(p));
    assert!(!world.is_loaded(IVec3::new(50, 50, 50)));
    // A second copy of the same chunk is no longer wanted.
    assert!(world.process_generated(vec![(p, solid_chunk())]).is_empty());
    // Nor is it generated again.
    assert!(world.process_io_response(IOResponse::ChunkLoaded(p, None)).is_none());
    assert!(world.process_io_response(IOResponse::ChunkSaved(p)).is_none());
}

#[test]
fn test_moving_the_centre_saves_what_is_left_behind() {
    let mut world = WorldState::new(0);
    let requests = world.update_load_area(IVec3::new(0, 0, 0));
    answer_loads(&mut world, &requests);
    let requests = world.update_load_area(IVec3::new(2, 0, 0));
    // With the centre at x = 2 the area is x in 1..=3: the layers x = -1
    // and x = 0 are saved and dropped, the layers x = 2 and x = 3 are asked.
    let mut saved = saves(&requests);
    saved.sort_by_key(|p| (p.x, p.y, p.z));
    assert_eq!(saved.len(), 18);
    assert!(saved.iter().all(|p| p.x == -1 || p.x == 0));
    let asked = loads(&requests);
    assert_eq!(asked.len(), 18);
    assert!(asked.iter().all(|p| p.x == 2 || p.x == 3));
    // The saves come before the loads.
    assert!(matches!(requests[0], IORequest::SaveChunk { .. }));
    assert!(matches!(requests[35], IORequest::LoadChunk(_)));
    assert!(!world.is_loaded(IVec3::new(0, 0, 0)));
    assert!(world.is_loaded(IVec3::new(1, 0, 0)));
}

#[test]
fn test_clear_chunk() {
    let mut world = WorldState::new(0);
    assert!(world.clear_chunk(IVec3::new(0, 0, 0)).is_none());
    let requests = world.update_load_area(IVec3::new(0, 0, 0));
    answer_loads(&mut world, &requests);
    match world.clear_chunk(IVec3::new(0, 0, 0)) {
        Some(IORequest::SaveChunk { position, chunk }) => {
            assert_eq!(position, IVec3::new(0, 0, 0));
            assert!(chunk.voxels.iter().all(|&v| v == 0));
        }
        _ => panic!("a loaded chunk is cleared and saved"),
    }
    let centre = world.chunk_at(IVec3::new(0, 0, 0)).expect("still loaded");
    assert!(centre.voxels.iter().all(|&v| v == 0));
    assert!(!world.voxel_solid_at(IVec3::new(3, 3, 3)));
}

#[test]
fn test_late_answer_after_moving_away() {
    // A chunk that arrives after its position left the load area is dropped.
    let mut world = WorldState::new(0);
    let requests = world.update_load_area(IVec3::new(0, 0, 0));
    let far = IVec3::new(-1, -1, -1);
    assert!(loads(&requests).contains(&far));
    world.update_load_area(IVec3::new(10, 0, 0));
    assert!(world
        .process_io_response(IOResponse::ChunkLoaded(far, Some(solid_chunk())))
        .is_none());
    assert!(!world.is_loaded(far));
}

#[test]
fn test_generate_chunks_column() {
    let heights = [40i32; 1024];
    let dirt_levels = [12i32; 1024];
    let chunks = generate_chunks(3, -4, &vec![0, 1, 2], &heights, &dirt_levels);
    assert_eq!(chunks.len(), 3);
    for (n, (pos, chunk)) in chunks.iter().enumerate() {
        assert_eq!(*pos, IVec3::new(3, n as i32, -4));
        let expected = Chunk::new_terrain(*pos, &heights, &dirt_levels);
        assert!(chunk.voxels == expected.voxels);
    }
    // Ground at 40: the chunk at height 1 holds it at y = 8.
    assert_eq!(chunks[1].1.voxels[8 * 32], VoxelType::Grass.code());
    assert!(chunks[2].1.voxels.iter().all(|&v| v == 0));
}
