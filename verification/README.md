# sled (verified core)

A Verus library with the logic of a key-value tree's JSONL export and import,
and of a stack and a queue.

- `src/tree.rs`: `Tree`, an ordered map from byte strings to byte strings, and
  `Batch`, writes applied to a tree together.
- `src/byte_order.rs`: lexicographic order on byte strings.
- `src/base64_codec.rs`: the calls into the `base64` crate.
- `src/export_import.rs`: the records of an export and the import of records,
  with the law that importing an export restores it.
- `src/sync/`: `Stack` (last in, first out, with a pop counter) and `Queue`
  (first in, first out).
- `app/`: file reading and writing with `serde_json`, and the lock-protected
  shared stack and queue.
