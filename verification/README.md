# compression_tool

A text compressor built from an LZ77 tokenizer with a two-level hash table,
an adaptive binary range coder, and a streaming rANS coder. The library in
`src/` is written in Verus: each public function carries a contract, and the
round trips are proved.

- `src/ans.rs` — the rANS frequency model (`AnsState`) and encoder
  (`ans_compress`), with the normalized frequency table stated exactly.
- `src/ans_decoder.rs` — the rANS decoder (`ans_decompress`) and the proof
  that decompressing a compressed stream returns the original bytes.
- `src/range_coder.rs` — the range encoder, the adaptive bit model, the
  binary-tree symbol model and the simple counting model.
- `src/lz77.rs` — the LZ77 tokenizer and decoder, with the proof that the
  tokens decode to the input.
- `src/compressor.rs` — the chunk compressor (LZ77 tokens coded with four
  tree models) and the framing of compressed chunks.
- `src/sums.rs` — sums of integer sequences.
- `app/main.rs` — the benchmark program: file input, timing, parallel chunk
  compression with rayon, and the printed report.
