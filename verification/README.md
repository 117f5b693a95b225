# tiny3d-core

The order-sensitive integer core of the tiny3d point-cloud library, verified
with Verus, and the floating-point library around it.

## Layout

- `src/` — the verified library (`tiny3d_core`):
  - `stdsort` — libstdc++ `std::sort` (introsort, heap sort fallback,
    insertion sorts): the result equals a specification of that algorithm
    step by step, so ties come out in the C++ order; it is sorted and keeps
    the multiset.
  - `stdhash` — libstdc++ `unordered_map<Vector3i, V>`: bucket counts from
    the prime table, per-bucket insertion and rehash order, so that iteration
    order is the C++ one; lookups, insertion, `reserve`, iteration. The
    contracts of `new`, `get`, `insert`, `get_mut_or_insert_with` and
    `reserve` also state their effect on `map_view()`, the key-to-value map
    the entries hold (`after_call`), and `lemma_lookup_after_calls` gives
    what a lookup returns after any sequence of calls; `can_grow_from`
    tests the capacity that growing needs.
  - `random` — `std::mt19937` and libstdc++ `uniform_int_distribution`
    (Lemire), with the engine slot behind `seed`, `snapshot_engine`,
    `restore_engine`.
  - `ply` — the PLY header grammar read from raw bytes, the readers' plans
    for vertex and face data, and the writer's headers and integer records;
    written headers read back.
  - `ply_data` — the walk through a PLY data section: which value comes
    next, at which byte offset, and where binary data ends too soon.
  - `io` — format selection from file names, `FileGeometry`, point
    compaction.
  - `orient` — union-find, Kruskal selection and breadth-first propagation
    order for consistent normal orientation.
  - `voxel` — grouping of points by voxel in voxel-map order.
  - `registration` — correspondence validation, RANSAC sample drawing and
    the selection of feature matches.
  - `gformat` — the text rules of C's `%g` (notation, trailing zeros,
    exponent) applied to a value's digits.
- `tests/` — tests of the library.
- `app/` — ordinary Rust around the library: point clouds, meshes, voxel
  grids, the KD-tree, eigen solvers, registration, PLY/XYZ value I/O and the
  process-wide random engine. It calls the library for everything listed
  above.
