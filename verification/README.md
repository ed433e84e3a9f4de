# voxel_engine

The core of a block-based voxel game and of its render-graph engine, written
in Verus: the library's functions carry contracts that the verifier proves.
A few items are trusted rather than proved; their contracts are believed,
not checked: `u64_from_ne_bytes` in `resource_location` (std's
`u64::from_ne_bytes`); in `schedule`, the `ordermap::OrderSet` that holds
the chunks waiting to be meshed, with the wrappers of its `new`, `insert`
and `iter`; and in `index_map`, `std::slice::IterMut` with the wrapper of
`<[T]>::iter_mut`.

## Layout

- `src/` — the verified library.
  - Containers: `index_map` (vectors indexed by typed indices), `gen_map`
    (generational slot map with handles that go stale), `enum_set` (sets of
    enum variants as bits), `gather`, `ref_or_owned` (a value taken by
    reference or owned).
  - Geometry and blocks: `grid` (directions, axes, quarter-turn rotations),
    `chunk` (block positions, compact palette indices, chunks with a
    palette), `world` (chunks by position, blocks by global position),
    `resource_location` (validated `namespace:path` names).
  - Meshing: `mesher` (texture transparency, ambient occlusion, variant
    seeds), `packed` (the bit layouts the shaders read), `meshing` (culling,
    mesh-shader blocks and models, the texture table), `quads` (instanced
    full faces by direction and pass), `model_resolve` (texture names through
    a model's parents), `blockstate`.
  - Render graph: `graph` (resolved resources, loops, total order),
    `compiled` and `compiler` (what a node's output takes, dirty tracking,
    caching), `resolver` (which producer each consumer and borrower gets),
    `handles`, `render_graph` (building a graph, compiling and planning
    runs), `dot` (the layout of a Graphviz drawing), `steps` (the engine's
    first graph), `label`.
  - Engine state: `materials` (reference-counted global materials),
    `inputs` (keys and buttons down), `schedule` (what the chunk thread
    generates and meshes next).
- `tests/` — tests of the library on concrete values.
- `app/` — the program around the library: terrain generation from noise,
  the chunk thread's loop, the mouse state, a type-indexed map and Graphviz
  output of resolved graphs.
