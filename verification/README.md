# voxel_engine

A voxel world: chunks of 32x32x32 voxels, face culling, ambient occlusion
and greedy meshing into packed face instances, the bookkeeping of which
chunks are loaded, waiting or meshed around a moving centre, the camera's
movement keys, and the byte format of stored chunks.

- `src/` is the library, with proved contracts: every public function
  states what it returns, and the laws of the library (greedy meshing tiles
  a layer exactly, the mesh shows exactly the visible faces, index and
  position round trips, instance unpacking, ambient occlusion only darkens
  with more solid neighbours, distinct chunks get distinct files, the load
  area and the consistency of the world's bookkeeping) are proof functions.
- `app/` is the viewer around it: window and GPU (winit, wgpu), terrain
  noise (fastnoise-lite), chunk files on disk, and the threads that
  generate and store chunks. It reads its shader from `assets/main.wgsl`
  and its texture atlas from `assets/atlas.png`.
- `tests/` runs the library on concrete values.
