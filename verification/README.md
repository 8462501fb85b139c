# nexus_ecs

An archetype-based entity component system whose core is verified with Verus.

- `src/` — the verified library:
  - `entity.rs`: packed 64-bit entity ids (slot index + generation) and the
    id allocator that recycles freed slots with a bumped generation;
  - `archetype.rs`: column storage of component bytes and archetype tables
    with swap-remove;
  - `world.rs`: the world (spawn, despawn, insert, remove, get, query) over
    byte-valued components keyed by `u64`, specified against a map from live
    entities to their components;
  - `query.rs`: the query result handed out pair by pair;
  - `scheduler.rs`: dependency-ordered system stages (Kahn's algorithm level
    by level), with cycle detection.
- `app/` — the thread-safe, typed front end: the world behind a read-write
  lock with Rust types as components, parallel stage dispatch with rayon,
  and the C ABI.
- `tests/` — scenario tests of the library.
