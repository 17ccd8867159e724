# psychopath

The integer, bit-level and text-processing core of a physically based
renderer, written in Verus with its behaviour stated as contracts and
proved.

## Layout

- `src/` — the verified library:
  - `bitstack`, `hash`, `math`, `hilbert` — bit stacks, integer hashing,
    integer logarithms and powers of two, and the Hilbert curve with both
    directions of its conversion proved inverse.
  - `algorithm` — in-place partitioning (of one vector, or two in concert)
    and quick-select.
  - `ray` — the ray stack that schedules ray indices into lanes and tasks.
  - `accel` — acceleration structures: the recursive build of the binary
    BVH and its tree of nodes (proved to lay its nodes out in pre-order, with each
    object in exactly one leaf; the geometric decisions are the caller's
    closures), its collapse into a four-way tree, and the light tree, built
    and collapsed the same way.
  - `renderer`, `image` — the region and buckets of a render (proved to tile
    the region) and the registry of checked-out image blocks.
  - `mem_arena` — where arena allocations go and the arena's statistics.
  - `color`, `shading` — the byte layouts of compressed colors and surface
    closures, with proved round trips.
  - `data_tree`, `datatree`, `parse` — tokenizers and parsers for scene
    files, data trees built from reader events, number readers, and the
    checks and step-by-step readers of scene sections (settings, output,
    scene, assembly, surface shader, mesh surface).
- `tests/` — tests run against the compiled library.
- `app/` — the command-line front end: argument handling, file reading,
  the real memory arena, and the one floating-point computation it needs
  (the side of a bucket).
