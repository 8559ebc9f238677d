# voxmap

A voxel renderer whose scene is a set of chunks, each a sparse octree that a
compute shader ray casts. The octree logic is a Verus library in `src/`;
the window, the GPU and floating-point work live in `app/`.

- `src/geometry.rs`: fixed-point coordinates (32 fractional bits), tile
  sizes, child slots and corners.
- `src/color.rs`: fixed-point colour intensities, their packing into GPU
  bytes, channel means.
- `src/tile.rs`: the mathematical model of a tile tree: well-formedness,
  lookup, insertion, bottom-up merging and pre-order flattening.
- `src/map.rs`: the executable octree (`CpuTileData`, `ChunkData`) and the
  flattened records (`GpuTileData`), each operation proved against the model.
- `src/laws.rs`: properties across operations (what a lookup returns after a
  write, coverage kept by writes and merges, nothing left to merge,
  idempotence, forward links of the flattened array).
- `src/model.rs`: chunk depth for a voxel model and loading its voxels.
- `src/input.rs`: keyboard state; `src/screen.rs`: screen size.
- `app/`: winit event loop, wgpu pipelines and buffers, `.vox` file
  reading, camera and sphere geometry in floating point.
