# fasm_storage

Ordered byte-to-byte storage, scoped by directory, with its behaviour stated in
contracts and proved by Verus.

Every operation names a directory (a path of UTF-8 segments) and a key (any
bytes). Directories come into being with the first write into them; a scan of one
never yields another's keys; keys are ordered by byte value. Transactions see
their own writes, a commit applies them as one, and dropping a transaction is its
rollback.

## Layout

- `src/keyspace.rs`, `src/bytes.rs`, `src/key.rs`: the byte order, ranges, paths.
- `src/flatdir/`: the flat directory layout (tuple encoding, rows, allocator,
  directory operations) and the proofs about it.
- `src/flatengine.rs`: the layout as an engine over any raw view (`src/rawkv.rs`).
- `src/directory_laws.rs`: what holds of the operations together: a write is read
  back, changes no other directory, a removal takes exactly the subtree, and every
  operation keeps the store healthy, hence sound.
- `src/store.rs`, `src/nav.rs`, `src/commit.rs`, `src/scoped.rs`, `src/stream.rs`:
  the store traits, the pinned view, the streams.
- `src/btreemap.rs`, `src/durable/`, `src/indexeddb/`, `src/fdb.rs`: the backends.
- `tests/`: behaviour on concrete values.
- `app/`: the asynchronous traits and what talks to threads, files, a cluster or a
  browser.

## What is trusted

The proofs rest on the contracts of a few calls into other crates, each stated
beside the call: redb's transactions (`src/durable/table.rs`), rand's thread
generator (`src/flatdir/hca.rs`), and the standard library's UTF-8 check
(`src/bytes.rs`). Nothing of the allocator's choices is assumed beyond their range.
