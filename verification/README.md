# voxel_terrain

A voxel terrain engine whose core is written in Verus and proved against its
contracts.

## Layout

- `src/` — the verified library.
  - `terrain/` — blocks and their models, chunk storage (uniform or per block),
    chunk positions, packed light values and the flood fill of emitted light and
    skylight inside a chunk and across its faces, chunk face connectivity, load
    areas and the `Terrain` that loads, stores (in a `generational_arena::Arena`)
    and unloads chunks around them,
    block edits and chunk generation from sampled noise.
  - `renderer/terrain/` — what the GPU is given: which block faces are visible,
    how they merge into quads (greedy meshing) and with what smoothed light, the
    batches that group chunk meshes, which batches are drawn, and the visibility
    search through connected chunk faces.
  - `runtime/` — the prioritised task queue, frame timing and input state.
  - `util/` — integer vectors, grid sizes, face directions and an integer set.
- `tests/` — tests of the library on concrete values.
- `app/` — the program around the library: window-free main loop, worker threads
  for the task queue, noise sampling for generation, the fly camera, frustum tests,
  ray marching and vertex building, all of which use floating point or threads.
