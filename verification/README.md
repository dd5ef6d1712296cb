# epn_mod

The logic of an ESP overlay for a UE4 game (Echo Point Nova), verified with
Verus, and the overlay DLL around it.

## Layout

- `src/` — the verified library.
  - `reader.rs`: readers of game memory and name resolvers, handed in as
    closures; `is_reader` asks that a reader answer every address and give
    one answer per address, and `read_at` is what it gives.
  - `region_cache.rs`: readability checks (`is_readable`) with a FIFO cache
    of the last 32 committed regions, and the checked reads built on them.
    The system query (`VirtualQuery` in the DLL) and raw loads are handed in.
  - `memory.rs`: pointer chains through the object graph (world, level,
    actor array, classes, camera manager), `FName` resolution around the
    engine's `AppendString`, enemy classification by class-name prefix, and
    the alive/visible checks.
  - `features/filter.rs`: the `GObjects` walk, class lookup by name, and the
    SuperStruct inheritance filter with its caches.
  - `features/visuals.rs`: counting actors per class, the stable ranking of
    classes, the manual class selection and the per-actor class filter.
  - `text.rs`: string prefix and equality on UTF-8 bytes.
- `tests/` — tests of the library on made-up memory.
- `app/` — the DLL: hudhook and imgui, `VirtualQuery`, raw memory loads, the
  call into the engine, and everything with floats (camera, projection,
  distances, settings).
