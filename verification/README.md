# DataSpringFlow

Dataset metadata with dependency graphs and content-hash consistency checks. Each
dataset is registered as `name@tag` with the hash of its content (the root of a Merkle
tree over its directory), the datasets it depends on and a busy status. Verifying a
dataset compares its content as it is now with the recorded hash, and a deep verification
does so for everything it depends on.

The library in `src/` is written in Verus and verified: every public function states what
it returns and changes. Stores sit behind a trait and may fail; where they do, a contract
states what holds whatever they answered, and for stores that never fail (the in-memory
store) it states the outcome exactly. `src/laws.rs` (with
`merkle::law_tree_hash_order_free`) states what holds across calls.

- `dataset` — metadata, busy status, single-dataset verification.
- `merkle` — the content hash of a walked tree; leaf hashing and reduction to the root.
- `diff` — what changed in a tree since its snapshot.
- `dag` — exploring the dependency graph, cycle checks, topological order, deep verdicts.
- `backend` — the store interface, an in-memory store, and the stack of private, local
  global and remote stores.
- `service` — registration, queries, status, deletion, verification.
- `api`, `web`, `frontend` — what the web interface shows, computed from the service.
- `config`, `utils`, `text`, `assoc` — configuration choices, validation, hex, strings.

`app/` is the command-line program around it: argument parsing, the configuration file,
the SQLite store, walking and reading directory trees. `tests/` runs the library.
