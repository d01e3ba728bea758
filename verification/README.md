# lsmkv

A log-structured merge-tree key-value store whose engine is verified with Verus.

## Layout

- `src/` — the verified library.
  - `keys.rs`, `sorted.rs`: lexicographic key order, sorted pair sequences and the
    binary search / insertion they support.
  - `memtable.rs`: the in-memory table (a sorted vector viewed as a map).
  - `ints.rs`, `codec.rs`: little-endian integers and the bincode wire format
    (the calls into bincode sit behind trusted wrappers).
  - `wal.rs`: WAL frames, decoding a WAL file (a torn tail is dropped), WAL file names.
  - `compression.rs`, `sstable_builder.rs`, `sstable.rs`: the SSTable file format,
    building it from sorted entries (zstd behind trusted wrappers) and reading it.
  - `table_roundtrip.rs`: a built table reads back as the entries it was built from.
  - `db_kernel.rs`: the engine state (active, frozen and on-disk tables), group
    writes with rotation, reads through the layers, recovery from WAL files, and
    installation of flushed tables.
  - `flush.rs`, `options.rs`, `protocol.rs`, `error.rs`, `model.rs`: the flush
    task, configuration, client/server messages and shared types.
- `tests/` — tests of the library on concrete values.
- `app/` — the program around it: the async database handle with WAL file I/O
  and the background flusher (tokio), the TCP server and client, a load
  generator, and a thread pool.
