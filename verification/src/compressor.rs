//! The chunk compressor: LZ77 tokens coded with the range coder and four tree
//! models; and the framing of compressed chunks.

use vstd::prelude::*;
use vstd::arithmetic::power2::{pow2, lemma2_to64};
use vstd::bytes::{spec_u32_to_le_bytes, u32_to_le_bytes, spec_u32_from_le_bytes, lemma_auto_spec_u32_to_from_le_bytes};
use vstd::std_specs::bits::u64_leading_zeros;
use crate::lz77::{Token, lz77_encode, lz77_tokens, lz77_from, matches_within};
use crate::range_coder::{
    CoderState, RangeEncoder, TreeModel, coder_ok, coder_bounded, flush, tree_encode, tree_ok,
    tree_depth, floor_log2, lemma_tree_codable, encode_bit_result, split_point, normalize, adapt,
    bit_at,
};

verus! {

/// The state of the chunk coder: the range coder, and the probabilities of the
/// type, literal, length and distance models.
pub type ChunkState = (CoderState, Seq<u32>, Seq<u32>, Seq<u32>, Seq<u32>);

/// The number of bits of `x` up to its highest set bit.
pub open spec fn bit_length(x: nat) -> nat
    decreases x,
{
    if x == 0 {
        0
    } else {
        1 + bit_length(x / 2)
    }
}

/// The length model's symbol for a match length: the excess over 4, at most 254.
pub open spec fn length_symbol(length: nat) -> nat {
    if length - 4 < 254 {
        (length - 4) as nat
    } else {
        254
    }
}

/// The distance model's symbol for a match distance: its bit length, at most 31.
pub open spec fn distance_symbol(distance: nat) -> nat {
    if bit_length(distance) < 31 {
        bit_length(distance)
    } else {
        31
    }
}

/// Codes one token: its type (0 for a literal, 1 for a match) with the type
/// model, then a literal's byte with the literal model, or a match's length and
/// distance symbols with the length and distance models.
pub open spec fn encode_token(st: ChunkState, t: Token) -> ChunkState {
    match t {
        Token::Literal(b) => {
            let ty = tree_encode(st.0, st.1, 1, 0, 1);
            let lit = tree_encode(ty.0, st.2, 1, b as nat, 8);
            (lit.0, ty.1, lit.1, st.3, st.4)
        },
        Token::Match { distance, length } => {
            let ty = tree_encode(st.0, st.1, 1, 1, 1);
            let ln = tree_encode(ty.0, st.3, 1, length_symbol(length as nat), 8);
            let ds = tree_encode(ln.0, st.4, 1, distance_symbol(distance as nat), 5);
            (ds.0, ty.1, st.2, ln.1, ds.1)
        },
    }
}

/// Codes `tokens` in order.
pub open spec fn encode_tokens(st: ChunkState, tokens: Seq<Token>) -> ChunkState
    decreases tokens.len(),
{
    if tokens.len() == 0 {
        st
    } else {
        encode_tokens(encode_token(st, tokens[0]), tokens.drop_first())
    }
}

/// A tree of `n` fresh node models.
pub open spec fn fresh_probs(n: nat) -> Seq<u32> {
    Seq::new(n, |i: int| 1024u32)
}

/// A fresh range coder and fresh type (2 symbols), literal (256), length (255)
/// and distance (32) models.
pub open spec fn initial_chunk_state() -> ChunkState {
    (
        (0nat, 0xFFFF_FFFFnat, Seq::<u8>::empty()),
        fresh_probs(4),
        fresh_probs(512),
        fresh_probs(512),
        fresh_probs(64),
    )
}

/// The compressed form of a chunk: its LZ77 tokens (window 1 MiB, matches of 4
/// to 258 bytes) coded in order from the initial state, and the coder flushed.
pub open spec fn compress_chunk_spec(data: Seq<u8>) -> Seq<u8> {
    let st = encode_tokens(initial_chunk_state(), lz77_tokens(data, 1048576, 4, 258));
    flush(st.0.0, st.0.2, 4).1
}

/// The chunks in order, each preceded by its length (taken modulo `2^32`) as 4
/// little-endian bytes.
pub open spec fn frame_spec(chunks: Seq<Seq<u8>>) -> Seq<u8>
    decreases chunks.len(),
{
    if chunks.len() == 0 {
        seq![]
    } else {
        frame_spec(chunks.drop_last()) + spec_u32_to_le_bytes(chunks.last().len() as u32) + chunks.last()
    }
}

/// Where the frame of chunk `i` starts: after the earlier chunks, each with its
/// 4-byte length.
pub open spec fn frame_offset(chunks: Seq<Seq<u8>>, i: int) -> int
    decreases i,
{
    if i <= 0 {
        0
    } else {
        frame_offset(chunks, i - 1) + 4 + chunks[i - 1].len()
    }
}

/// The framed stream splits back into its chunks: for chunks shorter than
/// `2^32`, the 4 bytes at each frame's start, read as a little-endian `u32`,
/// are that chunk's length, the chunk follows them, and nothing else is in the stream.
#[verifier::rlimit(40)]
pub proof fn lemma_frame_splits(chunks: Seq<Seq<u8>>)
    requires
        forall|i: int| 0 <= i < chunks.len() ==> #[trigger] chunks[i].len() <= u32::MAX,
    ensures
        frame_spec(chunks).len() == frame_offset(chunks, chunks.len() as int),
        forall|i: int|
            #![trigger chunks[i]]
            0 <= i < chunks.len() ==> spec_u32_from_le_bytes(
                frame_spec(chunks).subrange(frame_offset(chunks, i), frame_offset(chunks, i) + 4),
            ) == chunks[i].len() && frame_spec(chunks).subrange(
                frame_offset(chunks, i) + 4,
                frame_offset(chunks, i) + 4 + chunks[i].len(),
            ) == chunks[i],
    decreases chunks.len(),
{
    lemma_auto_spec_u32_to_from_le_bytes();
    if chunks.len() > 0 {
        let init = chunks.drop_last();
        let n = chunks.len() - 1;
        lemma_frame_offsets_agree(chunks, init, n);
        lemma_frame_splits(init);
        let f = frame_spec(chunks);
        let fi = frame_spec(init);
        let last = chunks.last();
        let hdr = spec_u32_to_le_bytes(last.len() as u32);
        assert(f == fi + hdr + last);
        assert forall|i: int|
            #![trigger chunks[i]]
            0 <= i < chunks.len() implies spec_u32_from_le_bytes(
                frame_spec(chunks).subrange(frame_offset(chunks, i), frame_offset(chunks, i) + 4),
            ) == chunks[i].len() && frame_spec(chunks).subrange(
                frame_offset(chunks, i) + 4,
                frame_offset(chunks, i) + 4 + chunks[i].len(),
            ) == chunks[i] by {
            let off = frame_offset(chunks, i);
            if i < n {
                assert(chunks[i] == init[i]);
                lemma_frame_offset_mono(init, i + 1, n);
                lemma_frame_offset_mono(init, 0, i);
                lemma_frame_offsets_agree(chunks, init, i);
                assert(f.subrange(off, off + 4) =~= fi.subrange(off, off + 4));
                assert(f.subrange(off + 4, off + 4 + chunks[i].len()) =~= fi.subrange(off + 4, off + 4 + chunks[i].len()));
            } else {
                assert(f.subrange(off, off + 4) =~= hdr);
                assert(f.subrange(off + 4, off + 4 + chunks[i].len()) =~= last);
            }
        }
    }
}

proof fn lemma_frame_offsets_agree(chunks: Seq<Seq<u8>>, init: Seq<Seq<u8>>, i: int)
    requires
        0 <= i <= init.len(),
        init.len() <= chunks.len(),
        forall|j: int| 0 <= j < init.len() ==> init[j] == chunks[j],
    ensures
        frame_offset(chunks, i) == frame_offset(init, i),
    decreases i,
{
    if i > 0 {
        lemma_frame_offsets_agree(chunks, init, i - 1);
    }
}

proof fn lemma_frame_offset_mono(chunks: Seq<Seq<u8>>, i: int, j: int)
    requires
        0 <= i <= j <= chunks.len(),
    ensures
        frame_offset(chunks, i) + 0 <= frame_offset(chunks, j),
        i >= 1 ==> frame_offset(chunks, i - 1) + 4 + chunks[i - 1].len() <= frame_offset(chunks, j),
    decreases j - i,
{
    if i < j {
        lemma_frame_offset_mono(chunks, i, j - 1);
        if i >= 1 && i == j - 1 {
        }
    }
}

/// The coder state after the type bit and a prefix `p` of a literal's bits,
/// with `unit = 2048 * k` the width that one value of the prefix spans: the
/// interval of the prefix, less the 1024 lost to rounding once a 1 has been seen.
spec fn literal_prefix_state(p: nat, k: nat) -> CoderState {
    if p == 0 {
        (0, (2048 * k - 1024) as nat, Seq::empty())
    } else {
        ((2048 * p * k - 1024) as nat, 2048 * k, Seq::empty())
    }
}

/// The coder state after the type bit and all 8 bits of the literal `x`.
spec fn literal_final_state(x: nat) -> CoderState {
    if x >= 2 {
        let l = x * 0x80_0000 - 1024;
        (((l * 256) % 0x1_0000_0000) as nat, 0x8000_0000, seq![((l / 0x100_0000) % 256) as u8])
    } else if x == 0 {
        (0, 0x7FFE_0000, seq![0u8])
    } else {
        (0x7FFE_0000, 0x7FFE_0000, seq![0u8])
    }
}

/// One literal bit at one half from a prefix state above the last two levels.
proof fn lemma_literal_step(p: nat, k: nat, bit: nat)
    requires
        k >= 0x8000,
        k % 2 == 0,
        bit <= 1,
    ensures
        encode_bit_result(literal_prefix_state(p, k), bit as u32, 1024) == literal_prefix_state(2 * p + bit, k / 2),
{
    let h = k / 2;
    assert(k == 2 * h);
    if p == 0 {
        assert((2048 * k - 1024) / 2048 == k - 1) by {
            vstd::arithmetic::div_mod::lemma_fundamental_div_mod_converse(2048 * k - 1024, 2048, k - 1, 1024);
        }
        assert(split_point((2048 * k - 1024) as nat, 1024) == 2048 * h - 1024);
        lemma_normalize_noop((0, (2048 * h - 1024) as nat, Seq::empty()));
        lemma_normalize_noop(((2048 * h - 1024) as nat, 2048 * h, Seq::empty()));
    } else {
        assert((2048 * k) / 2048 == k) by {
            vstd::arithmetic::div_mod::lemma_fundamental_div_mod_converse((2048 * k) as int, 2048, k as int, 0);
        }
        assert(split_point(2048 * k, 1024) == 2048 * h);
        assert(2048 * p * k == 2048 * (2 * p) * h) by (nonlinear_arith)
            requires
                k == 2 * h,
        ;
        assert(2048 * p * k >= 2048 * k) by (nonlinear_arith)
            requires
                p >= 1,
        ;
        assert(2048 * (2 * p + 1) * h == 2048 * p * k + 2048 * h) by (nonlinear_arith)
            requires
                k == 2 * h,
        ;
        lemma_normalize_noop(((2048 * p * k - 1024) as nat, 2048 * h, Seq::empty()));
        lemma_normalize_noop(((2048 * p * k - 1024 + 2048 * h) as nat, 2048 * h, Seq::empty()));
    }
}

proof fn lemma_normalize_noop(c: CoderState)
    requires
        c.1 >= 0x100_0000,
    ensures
        normalize(c) == c,
{
}

/// The last two literal bits, from the prefix state of the first six.
#[verifier::rlimit(30)]
proof fn lemma_literal_last_two(c: CoderState, probs: Seq<u32>, node: nat, sym: nat, p: nat)
    requires
        c == literal_prefix_state(p, 0x4000),
        p < 64,
        sym < 4,
        probs.len() == 512,
        1 <= node < 128,
        forall|i: int| node <= i < 512 ==> #[trigger] probs[i] == 1024,
    ensures
        tree_encode(c, probs, node, sym, 2).0 == literal_final_state(4 * p + sym),
{
    vstd::arithmetic::power2::lemma2_to64();
    let b1 = bit_at(sym, 1);
    assert(b1 == sym / 2);
    let c1 = encode_bit_result(c, b1 as u32, 1024);
    let probs1 = probs.update(node as int, adapt(1024, b1 as u32));
    let node1 = node * 2 + b1;
    let sym1 = sym % 2;
    assert(tree_encode(c, probs, node, sym, 2) == tree_encode(c1, probs1, node1, sym1, 1));
    assert(probs1[node1 as int] == 1024);
    let b0 = bit_at(sym1, 0);
    assert(b0 == sym % 2);
    let c2 = encode_bit_result(c1, b0 as u32, 1024);
    assert(tree_encode(c1, probs1, node1, sym1, 1) == tree_encode(
        c2,
        probs1.update(node1 as int, adapt(1024, b0 as u32)),
        node1 * 2 + b0,
        sym1 % pow2(0),
        0,
    ));
    assert(tree_encode(c1, probs1, node1, sym1, 1).0 == c2);
    let x = 4 * p + sym;
    assert(x == (2 * p + b1) * 2 + b0);
    if p == 0 {
        assert(split_point(0x1FF_FC00nat, 1024) == 0xFF_FC00nat);
        if b1 == 0 {
            // the range falls below 2^24 and one byte goes out
            let d = (0nat, 0xFF_FC00nat, Seq::<u8>::empty());
            assert(normalize(d) == normalize((0nat, 0xFFFC_0000nat, seq![0u8])));
            lemma_normalize_noop((0nat, 0xFFFC_0000nat, seq![0u8]));
            assert(c1 == (0nat, 0xFFFC_0000nat, seq![0u8]));
            assert(split_point(0xFFFC_0000, 1024) == 0x7FFE_0000);
            lemma_normalize_noop((0nat, 0x7FFE_0000nat, seq![0u8]));
            lemma_normalize_noop((0x7FFE_0000nat, 0x7FFE_0000nat, seq![0u8]));
        } else {
            lemma_normalize_noop((0xFF_FC00nat, 0x100_0000nat, Seq::empty()));
            assert(c1 == (0xFF_FC00nat, 0x100_0000nat, Seq::<u8>::empty()));
        }
    } else {
        assert(split_point(0x2000000, 1024) == 0x1000000);
        let lo = (2048 * p * 0x4000 - 1024) as nat;
        assert(2048 * p * 0x4000 == p * 0x2000000);
        lemma_normalize_noop((lo, 0x1000000, Seq::empty()));
        lemma_normalize_noop((lo + 0x1000000, 0x1000000, Seq::empty()));
    }
    if !(p == 0 && b1 == 0) {
        let lo1 = c1.0;
        assert(c1 == (lo1, 0x1000000nat, Seq::<u8>::empty()));
        assert(lo1 == (2 * p + b1) * 0x1000000 - 1024);
        assert(split_point(0x1000000, 1024) == 0x800000);
        let l = lo1 + b0 * 0x800000;
        assert(l == x * 0x80_0000 - 1024);
        let d = (l, 0x800000nat, Seq::<u8>::empty());
        assert(c2 == normalize(d));
        assert(normalize(d) == normalize((((l * 256) % 0x1_0000_0000) as nat, 0x8000_0000nat, seq![((l / 0x100_0000) % 256) as u8])));
        lemma_normalize_noop((((l * 256) % 0x1_0000_0000) as nat, 0x8000_0000nat, seq![((l / 0x100_0000) % 256) as u8]));
    }
}

/// The literal bits above the last two, one level at a time.
#[verifier::rlimit(30)]
proof fn lemma_literal_levels(c: CoderState, probs: Seq<u32>, node: nat, sym: nat, bl: nat, p: nat, k: nat)
    requires
        2 <= bl <= 8,
        k * 2048 == pow2(23 + bl),
        sym < pow2(bl),
        (p + 1) * pow2(bl) <= 256,
        c == literal_prefix_state(p, k),
        probs.len() == 512,
        1 <= node,
        (node + 1) * pow2(bl) <= 512,
        forall|i: int| node <= i < 512 ==> #[trigger] probs[i] == 1024,
    ensures
        tree_encode(c, probs, node, sym, bl).0 == literal_final_state(p * pow2(bl) + sym),
    decreases bl,
{
    vstd::arithmetic::power2::lemma2_to64();
    if bl == 2 {
        assert(pow2(bl) == 4);
        assert(p < 64);
        lemma_literal_last_two(c, probs, node, sym, p);
    } else {
        let b = (bl - 1) as nat;
        vstd::arithmetic::power2::lemma_pow2_unfold(bl);
        vstd::arithmetic::power2::lemma_pow2_unfold(23 + bl);
        vstd::arithmetic::power2::lemma_pow2_pos(b);
        let q = pow2(b);
        assert(pow2(bl) == 2 * q);
        let bit = bit_at(sym, b);
        assert(sym / q < 2) by {
            vstd::arithmetic::div_mod::lemma_multiply_divide_lt(sym as int, q as int, 2);
        }
        assert(bit == sym / q);
        assert(node < 512) by (nonlinear_arith)
            requires
                (node + 1) * (2 * q) <= 512,
                q >= 1,
        ;
        assert(probs[node as int] == 1024);
        vstd::arithmetic::power2::lemma_pow2_strictly_increases(25, 23 + bl);
        assert(k >= 0x8000);
        assert(k % 2 == 0) by {
            vstd::arithmetic::power2::lemma_pow2_unfold(22 + bl);
        }
        lemma_literal_step(p, k, bit);
        let probs1 = probs.update(node as int, adapt(1024, bit as u32));
        let node1 = node * 2 + bit;
        let sym1 = sym % q;
        vstd::arithmetic::div_mod::lemma_fundamental_div_mod(sym as int, q as int);
        assert(sym1 < q);
        assert(sym == bit * q + sym1) by (nonlinear_arith)
            requires
                sym == q * (sym / q) + sym % q,
                bit == sym / q,
                sym1 == sym % q,
        ;
        assert((node1 + 1) * q <= 512) by (nonlinear_arith)
            requires
                (node + 1) * (2 * q) <= 512,
                bit <= 1,
                node1 == node * 2 + bit,
        ;
        assert((2 * p + bit + 1) * q <= 256) by (nonlinear_arith)
            requires
                (p + 1) * (2 * q) <= 256,
                bit <= 1,
                q >= 1,
        ;
        assert((k / 2) * 2048 == pow2(23 + b));
        lemma_literal_levels(
            encode_bit_result(c, bit as u32, 1024),
            probs1,
            node1,
            sym1,
            b,
            2 * p + bit,
            k / 2,
        );
        assert((2 * p + bit) * q + sym1 == p * pow2(bl) + sym) by (nonlinear_arith)
            requires
                pow2(bl) == 2 * q,
                sym == bit * q + sym1,
        ;
    }
}

/// The four flushed bytes of a 32-bit `low`, top byte first.
proof fn lemma_flush_bytes(low: nat, out: Seq<u8>)
    requires
        low < 0x1_0000_0000,
    ensures
        flush(low, out, 4).1 == out + seq![
            ((low / 0x100_0000) % 256) as u8,
            ((low / 0x1_0000) % 256) as u8,
            ((low / 0x100) % 256) as u8,
            (low % 256) as u8,
        ],
{
    let l = low as u64;
    assert(((l * 256) % 0x1_0000_0000) / 0x100_0000 % 256 == (l / 0x1_0000) % 256) by (bit_vector)
        requires
            l < 0x1_0000_0000,
    ;
    assert(((((l * 256) % 0x1_0000_0000) * 256) % 0x1_0000_0000) / 0x100_0000 % 256 == (l / 0x100) % 256) by (bit_vector)
        requires
            l < 0x1_0000_0000,
    ;
    assert(((((((l * 256) % 0x1_0000_0000) * 256) % 0x1_0000_0000) * 256) % 0x1_0000_0000) / 0x100_0000 % 256 == l % 256) by (bit_vector)
        requires
            l < 0x1_0000_0000,
    ;
    let l1 = (low * 256) % 0x1_0000_0000;
    let l2 = (l1 * 256) % 0x1_0000_0000;
    let l3 = (l2 * 256) % 0x1_0000_0000;
    assert(flush(low, out, 4) == flush(l1, out.push(((low / 0x100_0000) % 256) as u8), 3));
    assert(flush(l1, out.push(((low / 0x100_0000) % 256) as u8), 3) == flush(l2, out.push(((low / 0x100_0000) % 256) as u8).push(((l1 / 0x100_0000) % 256) as u8), 2));
    assert(flush(l2, out.push(((low / 0x100_0000) % 256) as u8).push(((l1 / 0x100_0000) % 256) as u8), 2) == flush(l3, out.push(((low / 0x100_0000) % 256) as u8).push(((l1 / 0x100_0000) % 256) as u8).push(((l2 / 0x100_0000) % 256) as u8), 1));
    let fin = out.push(((low / 0x100_0000) % 256) as u8).push(((l1 / 0x100_0000) % 256) as u8).push(((l2 / 0x100_0000) % 256) as u8).push(((l3 / 0x100_0000) % 256) as u8);
    assert(flush(l3, out.push(((low / 0x100_0000) % 256) as u8).push(((l1 / 0x100_0000) % 256) as u8).push(((l2 / 0x100_0000) % 256) as u8), 1) == flush((l3 * 256) % 0x1_0000_0000, fin, 0));
    assert(fin =~= out + seq![
        ((low / 0x100_0000) % 256) as u8,
        ((low / 0x1_0000) % 256) as u8,
        ((low / 0x100) % 256) as u8,
        (low % 256) as u8,
    ]);
}

/// What a one-byte chunk compresses to: the coder after the type bit and the byte's 8 literal bits, flushed.
#[verifier::rlimit(30)]
proof fn lemma_single_literal_chunk(x: u8)
    ensures
        compress_chunk_spec(seq![x]) == flush(literal_final_state(x as nat).0, literal_final_state(x as nat).2, 4).1,
{
    let data = seq![x];
    let fast = Seq::new(65536, |i: int| 0u32);
    let good = Seq::new(0x10_0000, |i: int| 0u32);
    let chain = Seq::new(data.len(), |i: int| 0u32);
    assert(lz77_from(data, 1, fast, good, chain, 1048576, 4, 258) == Seq::<Token>::empty());
    assert(lz77_tokens(data, 1048576, 4, 258) =~= seq![Token::Literal(x)]);
    let toks = seq![Token::Literal(x)];
    let init = initial_chunk_state();
    assert(toks.drop_first() =~= Seq::<Token>::empty());
    assert(encode_tokens(init, toks) == encode_tokens(encode_token(init, toks[0]), Seq::<Token>::empty()));
    // the type bit
    vstd::arithmetic::power2::lemma2_to64();
    let c0 = init.0;
    assert(bit_at(0, 0) == 0);
    assert(split_point(0xFFFF_FFFF, 1024) == 0x7FFF_FC00);
    lemma_normalize_noop((0nat, 0x7FFF_FC00nat, Seq::<u8>::empty()));
    let c1 = encode_bit_result(c0, 0, 1024);
    assert(c1 == literal_prefix_state(0, 0x10_0000));
    let ty = tree_encode(c0, fresh_probs(4), 1, 0, 1);
    assert(ty == tree_encode(c1, fresh_probs(4).update(1, adapt(1024, 0)), 2, 0, 0));
    assert(ty.0 == c1);
    lemma_literal_levels(c1, fresh_probs(512), 1, x as nat, 8, 0, 0x10_0000);
}

/// The value of five bytes read big-endian.
spec fn be5(o: Seq<u8>) -> nat {
    o[0] as nat * 0x1_0000_0000 + o[1] as nat * 0x100_0000 + o[2] as nat * 0x1_0000 + o[3] as nat * 0x100
        + o[4] as nat
}

/// A one-byte chunk compresses to five bytes whose big-endian value grows with the byte.
proof fn lemma_single_literal_value(x: u8)
    ensures
        compress_chunk_spec(seq![x]).len() == 5,
        be5(compress_chunk_spec(seq![x])) == if x >= 2 {
            x * 0x8000_0000 - 0x4_0000
        } else {
            x * 0x7FFE_0000
        },
{
    lemma_single_literal_chunk(x);
    let f = literal_final_state(x as nat);
    lemma_flush_bytes(f.0, f.2);
    let o = compress_chunk_spec(seq![x]);
    let low = f.0;
    assert(low < 0x1_0000_0000);
    let a = low as u64;
    assert(a == ((a / 0x100_0000) % 256) * 0x100_0000 + ((a / 0x1_0000) % 256) * 0x1_0000 + ((a / 0x100) % 256) * 0x100 + a % 256) by (bit_vector)
        requires
            a < 0x1_0000_0000,
    ;
    assert(o[1] as nat * 0x100_0000 + o[2] as nat * 0x1_0000 + o[3] as nat * 0x100 + o[4] as nat == low);
    if x >= 2 {
        let l = (x * 0x80_0000 - 1024) as u64;
        assert(((l / 0x100_0000) % 256) * 0x1_0000_0000 + (l * 256) % 0x1_0000_0000 == l * 256) by (bit_vector)
            requires
                l < 0x8000_0000,
        ;
    }
}

/// A one-byte chunk's compressed form determines the byte: the literal model
/// codes all 8 bits of every byte value.
pub proof fn lemma_single_literal_chunks_differ(x: u8, y: u8)
    requires
        x != y,
    ensures
        compress_chunk_spec(seq![x]) != compress_chunk_spec(seq![y]),
{
    lemma_single_literal_value(x);
    lemma_single_literal_value(y);
}

proof fn lemma_bit_length(x: u64)
    ensures
        64 - u64_leading_zeros(x) == bit_length(x as nat),
    decreases x,
{
    reveal(u64_leading_zeros);
    if x != 0 {
        lemma_bit_length(x / 2);
    }
}

proof fn lemma_model_depths()
    ensures
        tree_depth(2) == 1,
        tree_depth(256) == 8,
        tree_depth(255) == 8,
        tree_depth(32) == 5,
        pow2(1) == 2,
        pow2(8) == 256,
        pow2(5) == 32,
{
    reveal_with_fuel(floor_log2, 9);
    lemma2_to64();
}

/// Compresses one chunk: see `compress_chunk_spec`.
pub fn compress_chunk(data: &[u8]) -> (out: Vec<u8>)
    requires
        data.len() <= isize::MAX,
    ensures
        out@ == compress_chunk_spec(data@),
{
    let tokens = lz77_encode(data, 1_048_576, 4, 258);
    proof {
        lemma_model_depths();
    }
    let mut enc = RangeEncoder::new();
    let mut type_model = TreeModel::new(2);
    let mut lit_model = TreeModel::new(256);
    let mut len_model = TreeModel::new(255);
    let mut dist_model = TreeModel::new(32);
    assert(type_model@.1 =~= fresh_probs(4));
    assert(lit_model@.1 =~= fresh_probs(512));
    assert(len_model@.1 =~= fresh_probs(512));
    assert(dist_model@.1 =~= fresh_probs(64));
    let ghost target = encode_tokens(initial_chunk_state(), tokens@);
    let mut i: usize = 0;
    assert(tokens@.skip(0) =~= tokens@);
    while i < tokens.len()
        invariant
            0 <= i <= tokens.len(),
            matches_within(tokens@, 1048576, 4, 258),
            tree_depth(2) == 1,
            tree_depth(256) == 8,
            tree_depth(255) == 8,
            tree_depth(32) == 5,
            type_model@.0 == 2,
            lit_model@.0 == 256,
            len_model@.0 == 255,
            dist_model@.0 == 32,
            tree_ok(type_model@),
            tree_ok(lit_model@),
            tree_ok(len_model@),
            tree_ok(dist_model@),
            coder_ok(enc@),
            coder_bounded(enc@),
            encode_tokens((enc@, type_model@.1, lit_model@.1, len_model@.1, dist_model@.1), tokens@.skip(i as int)) == target,
        decreases tokens.len() - i,
    {
        let ghost st: ChunkState = (enc@, type_model@.1, lit_model@.1, len_model@.1, dist_model@.1);
        assert(tokens@.skip(i as int)[0] == tokens@[i as int]);
        assert(tokens@.skip(i as int).drop_first() =~= tokens@.skip(i + 1));
        match &tokens[i] {
            Token::Literal(b) => {
                let sym = *b as usize;
                proof {
                    lemma_tree_codable(enc@, type_model@.1, 1, 0, 1);
                }
                type_model.encode_symbol(&mut enc, 0);
                type_model.update(0);
                proof {
                    lemma_tree_codable(enc@, lit_model@.1, 1, sym as nat, 8);
                }
                lit_model.encode_symbol(&mut enc, sym);
                lit_model.update(sym);
            },
            Token::Match { distance, length } => {
                assert(matches_within(tokens@, 1048576, 4, 258));
                assert(tokens@[i as int] == Token::Match { distance: *distance, length: *length });
                proof {
                    lemma_tree_codable(enc@, type_model@.1, 1, 1, 1);
                }
                type_model.encode_symbol(&mut enc, 1);
                type_model.update(1);
                let l0 = *length - 4;
                let l = if l0 < 254 {
                    l0
                } else {
                    254
                };
                proof {
                    lemma_tree_codable(enc@, len_model@.1, 1, l as nat, 8);
                }
                len_model.encode_symbol(&mut enc, l);
                len_model.update(l);
                let dist = *distance as u64;
                proof {
                    lemma_bit_length(dist);
                    vstd::std_specs::bits::axiom_u64_leading_zeros(dist);
                }
                let d0 = (64 - dist.leading_zeros()) as usize;
                let d = if d0 < 31 {
                    d0
                } else {
                    31
                };
                proof {
                    lemma_tree_codable(enc@, dist_model@.1, 1, d as nat, 5);
                }
                dist_model.encode_symbol(&mut enc, d);
                dist_model.update(d);
            },
        }
        i = i + 1;
    }
    enc.finish();
    proof {
        enc.lemma_output_view();
    }
    let out = enc.output.clone();
    assert(out@ =~= enc.output@);
    out
}

/// Concatenates the compressed chunks, each preceded by its length: see `frame_spec`.
pub fn frame_chunks(chunks: &Vec<Vec<u8>>) -> (out: Vec<u8>)
    ensures
        out@ == frame_spec(chunks@.map_values(|c: Vec<u8>| c@)),
{
    let ghost views = chunks@.map_values(|c: Vec<u8>| c@);
    let mut out: Vec<u8> = Vec::new();
    let mut i: usize = 0;
    assert(views.take(0) =~= Seq::<Seq<u8>>::empty());
    while i < chunks.len()
        invariant
            0 <= i <= chunks.len(),
            views == chunks@.map_values(|c: Vec<u8>| c@),
            out@ == frame_spec(views.take(i as int)),
        decreases chunks.len() - i,
    {
        let chunk = &chunks[i];
        let mut len_bytes = u32_to_le_bytes(chunk.len() as u32);
        out.append(&mut len_bytes);
        let mut j: usize = 0;
        let ghost head = out@;
        while j < chunk.len()
            invariant
                0 <= j <= chunk.len(),
                out@ == head + chunk@.take(j as int),
            decreases chunk.len() - j,
        {
            out.push(chunk[j]);
            assert(chunk@.take(j + 1) =~= chunk@.take(j as int).push(chunk@[j as int]));
            j = j + 1;
        }
        proof {
            assert(chunk@.take(chunk.len() as int) =~= chunk@);
            assert(views.take(i + 1).drop_last() =~= views.take(i as int));
            assert(views.take(i + 1).last() == chunk@);
        }
        i = i + 1;
    }
    assert(views.take(chunks.len() as int) =~= views);
    out
}

} // verus!
