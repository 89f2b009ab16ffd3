# lz4_flex

LZ4 block decompression, written and proved in Verus.

`block::decompress_scattered` decodes one block whose compressed bytes are spread
across several input fragments into several output buffers, without gathering the
input or staging the output. `block::decompress` and `block::decompress_into`
decode a contiguous block, and `block::compress` writes one.

- `src/block/format.rs` defines the block format: the bytes a block stands for.
- `src/block/outcome.rs` defines what decompression writes and how it ends, errors
  included, for every cut of the input and the output.
- `src/block/decompress_scattered.rs`, `fragment.rs`, `straddle.rs`, `cursor.rs` and
  `history.rs` hold the scattered decoder; `decompress.rs` the contiguous one.
- `src/block/search.rs` defines which matches the compressor picks.
- `src/block/laws.rs` states what holds of decompression as a whole; `soundness.rs`
  carries the proofs, and `encoding.rs` how sequences are written down.
- `app/` times the contiguous decoder against the scattered one.
