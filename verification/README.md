# lsm

A log-structured merge tree and a small schema-driven binary message
encoding, written in Verus.

- `src/` is the verified library.
  - `memtable`, `sstable_entry`, `sparse_index`, `sstable` (with
    `compaction` and `layout`), `lsm`, `wal`, `traits`, `byte_format` and
    `search`: the tree, its block, index and log formats, and the laws that
    tie them together (round trips of every format, lookups that find what
    was written, compaction that keeps every value).
  - `proto`: the wire format of the generated messages (`code`) and the
    generator that reads a schema and writes Rust code (`schema`).
  - Calls into `zstd`, `fastbloom`, `bincode` and `regex` go through small
    trusted wrappers whose contracts are stated next to them.
- `tests/` exercises the library on concrete values.
- `app/` holds the command-line generator and the file-backed tree: reading
  and writing files, and running the lookup loop over the library's steps.
