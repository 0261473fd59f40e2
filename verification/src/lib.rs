//! A text compressor built from an LZ77 tokenizer, a binary range coder and
//! a streaming rANS coder, each stated and proved with Verus.

pub mod sums;
pub mod ans;
pub mod ans_decoder;
pub mod range_coder;
pub mod lz77;
pub mod compressor;
