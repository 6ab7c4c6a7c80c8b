# svo_engine

A sparse voxel world, verified with Verus, and a small viewer around it.

## Layout

- `src/svo/` — the world model.
  - `coords.rs`: integer voxel coordinates, floor division, the split of a
    voxel into chunk, brick and in-brick coordinates, and the injective
    `u128` key of a coordinate that the hash maps use.
  - `brick.rs`: 8x8x8 bricks of densities and materials and their
    min/max summaries.
  - `pool.rs`: the brick pool with its free list.
  - `chunk.rs`: 64-voxel chunks, their brick slots and the summary pyramid
    (level 2, level 1, level 0) over them.
  - `world.rs`: the world: reading and writing voxels, importing `.vox`
    models, detaching voxels into a component.
  - `freshness.rs`: the bookkeeping that proves a batch import leaves every
    summary agreeing with the voxels.
  - `dynamic.rs`: detached components and their summaries.
  - `vox.rs`: the `.vox` format, as a specification over bytes and a parser
    proved against it.
- `src/chunks/` — the streaming window: a 5x5x5-chunk ring buffer of voxel
  colors around the camera, filled nearest-first under a CPU budget and
  handed out for upload under a byte budget.
- `src/chunk_manager/` — a single-chunk snapshot of the world's materials.
- `tests/` — tests of the library on concrete values.
- `app/` — the viewer: window, input, fly camera, GPU upload and passes.
  It loads the model from `assets/models/house.vox` and the WGSL shaders
  from `shaders/` at run time.
