# cubby

A fixed-capacity store (`Cubby`) whose entries are reached through keys made of
an index and a random id, and a growable node manager (`NodeManager`) with the
same kind of keys. Both are written in Verus and proved against their contracts.

- `src/cubby.rs`: the store, its abstract model `CubbyModel`, and the proved
  laws (an add is read back through its key, a removed key is refused, a key
  with id 0 reaches no data, a refused key stays refused, freed indices are
  reused last-in first-out, a new store takes exactly its size in adds, `first`
  is the head of `find`, the invariant is kept).
- `src/keys.rs`: nodes, keys, the manager, its model `NodeManagerModel`, and the
  same kind of laws, plus: `add`, `remove` and `set_parent` keep an index freed
  exactly when its node is destroyed.
- `src/mutex.rs`, `src/rwlock.rs`: `build`, the store's constructor under the
  names of the two lock flavours; sharing between threads is left to the caller.
- `src/random.rs`: the calls of `rand::random` that draw ids.
- `tests/`: the scenarios, run against the compiled library.
