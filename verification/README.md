# mini_renderer

The integer core of a small software rasterizer, written in Verus and
verified: every public function whose result its signature does not
already fix carries a contract that Verus proves.

## Layout

- `src/graphics/topology.rs` — primitive assembly. The `Primitive` trait
  states, for each topology (point/line/triangle lists, strips, loops and
  fans), which vertex positions form each primitive; direct and indexed
  assembly and the primitive count are proved against it.
- `src/graphics/rasterizer.rs` — Bresenham line walking (`LineWalk`, whose
  output is proved to be exactly the in-tile pixels of the rounded ideal line,
  in order), face culling, frustum culling from clip outcodes and bounding-box
  clipping of triangles.
- `src/pipeline/parallel.rs` — the plan of a parallel draw: row-band heights,
  the choice between direct rasterization and binning, and `build_row_bins`,
  a counting sort of primitives into row bins, proved complete and ordered.
- `src/target.rs` — render targets, clearing and splitting into bands; each
  band is proved to read and write exactly its own rows of the target.
- `src/renderer.rs`, `src/graphics/primitive.rs` — renderer and primitive
  state.
- `app/` — the floating-point half: vectors, shaders, varying interpolation,
  screen-space set-up of primitives and the rayon-driven draw loop. It calls
  the library for every integer decision.
- `tests/` — tests of the library on concrete values.
