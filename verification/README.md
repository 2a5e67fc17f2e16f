# opengeometry

A building model for BIM: a generational arena, a cell complex of vertices,
edges, faces and cells, a set of constructions (materials, composites, layers
and layer groups), and the planner that decides how the construction layers
of the faces meeting at an edge are joined.

- `src/` is the library, written in Verus: every function carries a contract
  and is proved against it, and the laws of the model (ids are never reused
  for a live value, links read from data run both ways, each layer at a joint
  is joined once, ...) stand there as proof functions.
- `tests/` runs the library on concrete models.
- `app/` holds what computes on floating point (frames, angles, the offsets
  that a joint moves), the JSON shapes read with serde, and the wasm-bindgen
  interface.
