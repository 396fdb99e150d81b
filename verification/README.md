# metashrew

Key-value indexing primitives for a WebAssembly indexer, with proved contracts.

- `src/byte_view.rs`: little-endian encodings of the unsigned integers and the
  `ByteView` trait, with their round-trip lemmas.
- `src/mask.rs`: single bits of byte masks and the 256-bit half masks.
- `src/search.rs`: the descent through mask halves (`binary_search`).
- `src/store.rs`: the cache of stored values, reads that name the key to
  fetch from the host when it is not cached (`Lookup`), pending writes and the flush
  message (protobuf field 1, repeated bytes).
- `src/index_pointer.rs`: keys built by appending words, and typed reads and
  writes through the store.
- `src/bst.rs`: marking and unmarking key paths in masks, and `seek_lower`.
- `src/compat.rs`, `src/support_compat.rs`, `src/stdio.rs`: the array-buffer
  layout in which bytes cross to the host.
- `src/utils.rs`: display of keys (`format_key`).
- `app/lib.rs`: the host imports, the process-wide store, input, logging.
