# frame_cache

The bookkeeping of a renderer that draws only the tiles of a frame that changed,
and of the script cache next to it, verified with Verus.

- `src/` is the verified library. Each public function states what it returns or
  changes; public proof functions state what holds across functions.
- `tests/` runs the library on concrete values.
- `app/` is ordinary Rust around it: calls to the graphics device, floating-point
  geometry, and pools that are shared behind locks.

The library reads scripts with the `swf` crate and keeps its bounded caches in
the hash maps of the `fnv` crate. The contracts of those calls are believed, not
proved; they stand in `src/action_cache.rs` and `src/bounded_cache.rs` as
functions marked `external_body`.
