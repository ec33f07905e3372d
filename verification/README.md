# libsfs

An encrypted record store. A table of records (files, directories and links)
is kept as encrypted bookkeeping; file contents are encrypted with AES-256-GCM,
compressed with Snappy and kept in one backing file whose free extents are
tracked and merged.

- `src/` is the verified library (Verus): records and directories
  (`record.rs`), free-space bookkeeping (`fragments.rs`) and how merging and
  allocating keep free extents apart (`separation.rs`), the record table and
  its operations (`table.rs`), the calls into the cryptography, compression and
  hashing crates (`crypto.rs`), which records measuring a size looks at
  (`sizes.rs`) and which records deleting takes out (`deletion.rs`), the
  clock (`filetime.rs`), errors (`error.rs`),
  and properties that relate the operations (`laws.rs`).
- A directory keeps its entries as a vector of (name, id) pairs in insertion
  order, with no name twice, in place of a hash map from names to ids: Verus
  can prove what a vector of pairs holds after an insert or a removal, while
  for a hash map keyed by strings it proves next to nothing. The view of a
  directory is still the map from names to ids.
- `app/` is the store on disk: configuration, the backing file, reading and
  writing the bookkeeping with rkyv, and the error type that users see.
- `tests/` runs the library on concrete stores.
