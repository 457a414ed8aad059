use vstd::prelude::*;

verus! {

/// Edge length of a chunk, in voxels.
pub const CHUNK_SIZE: u32 = 32;

/// Edge length of a chunk, as an index type.
pub const CHUNK_SIZE_U: usize = 32;

/// Number of voxels in one layer of a chunk.
pub const CHUNK_SIZE2: u32 = 1024;

/// Number of voxels in one layer of a chunk, as an index type.
pub const CHUNK_SIZE2_U: usize = 1024;

/// Number of voxels in a chunk, as an index type.
pub const CHUNK_SIZE3_U: usize = 32768;

} // verus!
