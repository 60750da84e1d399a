# sourisdb

A tiny key-value store designed to be as small as possible when serialised. Its byte-level
formats are specified in Verus, and each reader is proved to give back what the matching
writer wrote, on the inputs that each law states (the laws name the few they leave out).

## Layout

- `src/` — the verified library.
  - `utilities/` — the read-only cursor, packed bits and the huffman coder.
  - `types/` — variable-size integers, timestamps, complex numbers and binary blobs with
    their run-length, LZ4 and huffman compressions.
  - `values.rs` — the values of a store and their serialisation; `store.rs` — the store, its
    serialised form (magic bytes, compression, huffman tree built from all its text) and the
    laws that tie serialisation and deserialisation together.
  - `json.rs` — JSON trees, and the conversions between them and values, with tagged kinds
    (addresses, blobs, time zones, timestamps, complex numbers) read back as themselves.
  - `sourisd/` — what the server does to its named databases for each request.
  - `daddy/` — a second, smaller format of integers that remember their Rust type.
- `tests/` — tests of the library, run against the compiled crate.
- `app/` — the command-line client and the HTTP server, which do I/O and locking around the
  library, and the moves between `serde_json` trees and the library's JSON trees.

Run `verus` on `src/lib.rs` to check the proofs.
