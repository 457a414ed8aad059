//! A voxel world: chunk storage, neighbourhood lookup, ambient occlusion,
//! face culling and greedy meshing, chunk (de)compression and the
//! load/unload bookkeeping of the world around a moving centre.

pub mod constants;
pub mod controls;
pub mod greedy;
pub mod position;
pub mod chunk;
pub mod collections;
pub mod mesh;
pub mod mesh_sync;
pub mod io;
pub mod world;
