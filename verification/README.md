# plast

Pretokenized dataset shards for language-model training: documents are
tokenized into shard files of 4-byte tokens, and shard files are memory-mapped
and served as zero-copy windows (batches of tokens, and teacher-forcing pairs
whose target is the input shifted by one token).

`src/` is the verified library (Verus):

- `shard_index.rs` — element counts and byte offsets of a shard sequence, the
  offset search behind batch lookup, and the window scan shared by the
  iterators; the stream model (all shard bytes concatenated) and its lemmas.
- `dataloader.rs` (exported also as `mmap_dataloader`) — the loader over
  `memmap2::Mmap` shards: batch lookup and chunk iterators as bytes, `u32` or
  `i32`.
- `mmap_dataloader_bytes.rs` — the same index over `bytes::Bytes` shards, with
  byte-window and teacher-forcing iterators.
- `pretokenizer.rs` — the on-disk record layout, shard rollover planning and
  shard file names.
- `shard_loader.rs` — dataset file order, reader selection by extension, and
  classification of reader error messages.
- `words.rs` — how bytes read as tokens in the machine's byte order.
- `bindings.rs` — declared outside types and the trusted wrappers over
  memmap2, bytes, bytemuck and std.
- `errors.rs` — the error types.

`app/` holds what needs files, threads, the tokenizer and Polars: opening and
mapping shard files, the pretokenization driver, dataset file reading, and the
library's errors with `Display`.
