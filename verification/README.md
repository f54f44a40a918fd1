# iqdb

An embedded vector database whose core is verified with Verus.

`src/` is the verified library:

- `engine/` — the database core: the row store (ids unique, insert-or-replace
  in place), the index lifecycle decisions (when an IVF index must be
  rebuilt, what each write asks of the index, how a search is planned), and
  the `IQDC` persistence payload with its encoder, decoder and round-trip law.
- `config`, `handle`, `error`, `types` — configuration, the checks the handle
  makes before touching the core, errors, and the id / metadata / metric
  vocabulary.
- `record`, `vector`, `payload` — record ids, records, finite non-empty
  vectors (kept as `f32` bit patterns), and typed metadata maps kept in key
  order.
- `codec` — the framed on-disk format: the `IQDB` file header, length-prefixed
  and CRC-32-checked entries, and the tagged metadata encoding, with the laws
  that a frame reads back as written and that a torn frame is refused.
- `store`, `file_store` — the record map, and what opening a store computes
  from its snapshot and write-ahead log: replay up to the first corrupt frame,
  snapshot loading and writing, with their round-trip laws.
- `search` — exact top-k selection over scored records.
- `bytes` — little-endian encoding and a bounds-checked read cursor.
- `float` — floats carried by their IEEE-754 bits and compared as floats
  (a NaN equals nothing, the two zeros are equal).

`app/` is ordinary Rust around the library: the search indices, persistence
and cache (the `iqdb-*` crates), file I/O, locking, floating-point distances
and the async adapter.

`tests/` exercises the library from outside.
