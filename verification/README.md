# cicada_server

The logic of a parametric-design engine server, written in Verus: the
functions under `src/` carry contracts and are proved against them, except
a few small wrappers (marked `external_body`) around calls into std and
blake3, whose contracts state what those calls are documented to do.

- `frames`, `bytes` — the binary display frames (batches, clears, mesh
  blobs, instances), their encoder and decoder, and the round-trip laws.
- `draw` — one output's value walked into its drawing (each drawable under
  its top-level slot) and drawn as frames: points, curve segments, and
  meshes instanced by value hash; the pick ids asked once up front.
- `display`, `budget` — pick ids, the size-bounded solid-mesh cache
  (least recently used first out), and the triangle budget's tier choice.
- `scrub`, `layout` — the scrub warm-up queue and automatic node layout
  (columns by longest dependency path, no auto node over another).
- `files`, `git`, `status`, `hunks`, `survey`, `runs` — the file browser's
  paths and listing order, and the git panel: porcelain-v2 status,
  diff hunks, node markers, commit and revert plans.
- `targets`, `walk`, `calls`, `expr` — which bindings a run computes, the
  lowering walk (Kahn's order, exclusions, the target cone), what feeds a
  call's ports and what names it binds, integer expressions.
- `notation`, `conform`, `summary` — script port types, checks on what a
  script returns, and the facts a value summary states.
- `socket`, `routes`, `protocol` — a client socket's handshake, message
  routing and lane choice; route-level decisions; the intent vocabulary.

`app/` holds the I/O around the library (running `git`, reading
directories, writing files atomically, the JSON shapes); `tests/` runs the
library on concrete cases.
