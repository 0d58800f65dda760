# holt

An adaptive radix tree over fixed-size blobs, verified with Verus.

- `src/api` is the public surface: the tree, its builder and configuration,
  tagged values, checkpoint images and errors.
- `src/layout` fixes the sizes and codes of what a blob holds.
- `src/engine` works on blobs: reading and writing nodes, lookups, puts,
  compaction, folding child blobs into their parent, copy-on-write forks, and
  the cache of learned routes.
- `src/store` holds blobs: the backend trait and its in-memory form, the buffer
  manager, the page and routing caches, the slot pool and the plan by which
  writes go to an I/O ring.
- `src/read_model` is an oracle for randomised runs: it draws actions from raw
  bytes and says what a tree has to answer.
- `app` is what does I/O: the slab of registered buffers, the ring, a tree kept
  in a file, a fuzz target and a small example.

Every function of `src` carries a contract that is proved against its body, save
for the few calls into `core` and `arbitrary` that are marked as trusted where
they are declared. Public proof functions next to the code state what holds
across calls: that a put is read back, that merging and forking keep every
answer, that caches stay within their budgets.
