# tinypointers

A map from `u64` keys to non-zero `u32` handles whose slots are located by
tiny pointers: short (level, slot) pairs into a per-container hierarchy of
load-balancing buckets and overflow arrays. The library is written in Verus
and verified.

Layout:

- `src/map.rs` — `TinyPtrMap`: insert, get, remove, clear and the size
  queries, each with a contract over the map's view (`Map<u64, Handle>`),
  plus the laws that relate the operations.
- `src/container.rs` — `Container`: the level hierarchy, slot allocation,
  pointer dereferencing and freeing, modelled by `ContainerView`.
- `src/hashing.rs` — the `DefaultHasher`-based hashes that pick a key's
  container and bucket.
- `src/sizing.rs` — `ceil(log2(n))` and halving rounded up, in integers.
- `src/slots.rs` — first free slot and taken-slot counts of slot rows.
- `src/handle.rs` — `Handle`, a `u32` that is never zero.
