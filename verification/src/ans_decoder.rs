//! Decoder of the streaming rANS coder, and its round trip with the encoder.

use vstd::prelude::*;
use vstd::arithmetic::div_mod::{lemma_fundamental_div_mod, lemma_fundamental_div_mod_converse};
use vstd::bytes::{spec_u32_from_le_bytes, spec_u32_to_le_bytes, u32_from_le_bytes, lemma_auto_spec_u32_to_from_le_bytes};
use crate::sums::{
    sum_u32, lemma_sum_u32_take_all, lemma_sum_u32_prefix_mono, lemma_sum_u32_elem_le,
    lemma_sum_u32_take_step,
};
use crate::ans::{
    AnsState, SCALE, SCALE_BITS, cumulative, is_cmf_of, renorm, code_step, ans_encode, u32s_le,
    ans_compress_spec, normalized_freqs, codes, lemma_renorm, lemma_encode_bounds,
    lemma_cumulative_bounds, lemma_normalized_freqs, lemma_occurrences_pos,
};

verus! {

/// The symbol whose interval among the first `n` holds `slot`, the last such if
/// several do; 0 if none does.
pub open spec fn symbol_at(freqs: Seq<u32>, slot: int, n: int) -> int
    decreases n,
{
    if n <= 0 {
        0
    } else if cumulative(freqs, n - 1) <= slot < cumulative(freqs, n) {
        n - 1
    } else {
        symbol_at(freqs, slot, n - 1)
    }
}

/// Reads bytes of `stream` from `pos` into the state while the state is below
/// `2^24` and bytes remain: gives the new state and position.
pub open spec fn refill(stream: Seq<u8>, x: nat, pos: nat) -> (nat, nat)
    decreases stream.len() - pos,
{
    if x < 0x100_0000 && pos < stream.len() {
        refill(stream, x * 256 + stream[pos as int] as nat, pos + 1)
    } else {
        (x, pos)
    }
}

/// The state after the decoding step from state `x`, before refilling.
pub open spec fn decode_step(freqs: Seq<u32>, x: nat) -> nat {
    let slot = x % 4096;
    let s = symbol_at(freqs, slot as int, 256);
    (freqs[s] * (x / 4096) + slot - cumulative(freqs, s)) as nat
}

/// The `k` bytes that the decoder gives from state `x` with the stream read up to `pos`.
pub open spec fn decode_symbols(stream: Seq<u8>, freqs: Seq<u32>, x: nat, pos: nat, k: nat) -> Seq<u8>
    decreases k,
{
    if k == 0 {
        seq![]
    } else {
        let s = symbol_at(freqs, (x % 4096) as int, 256);
        let r = refill(stream, decode_step(freqs, x), pos);
        seq![s as u8] + decode_symbols(stream, freqs, r.0, r.1, (k - 1) as nat)
    }
}

/// The 256 frequencies that the header of a compressed stream holds.
pub open spec fn header_freqs(compressed: Seq<u8>) -> Seq<u32> {
    Seq::new(256, |i: int| spec_u32_from_le_bytes(compressed.subrange(4 + 4 * i, 8 + 4 * i)))
}

/// A stream that the decoder takes without panicking: empty, or a full header
/// whose frequencies sum to at most `SCALE`.
pub open spec fn ans_stream_ok(compressed: Seq<u8>) -> bool {
    compressed.len() == 0 || (compressed.len() >= 1032 && sum_u32(header_freqs(compressed)) <= 4096)
}

/// What the decoder gives for `compressed`: nothing for an empty stream;
/// otherwise as many bytes as the header's length field says, decoded from the
/// header's state and frequencies, reading the rest of the stream as needed.
pub open spec fn ans_decompress_spec(compressed: Seq<u8>) -> Seq<u8> {
    if compressed.len() == 0 {
        seq![]
    } else {
        decode_symbols(
            compressed,
            header_freqs(compressed),
            spec_u32_from_le_bytes(compressed.subrange(1028, 1032)) as nat,
            1032,
            spec_u32_from_le_bytes(compressed.subrange(0, 4)) as nat,
        )
    }
}

/// Decompresses a stream made by `ans_compress`: see `ans_decompress_spec`.
pub fn ans_decompress(compressed: &[u8]) -> (out: Vec<u8>)
    requires
        ans_stream_ok(compressed@),
    ensures
        out@ == ans_decompress_spec(compressed@),
{
    if compressed.len() == 0 {
        return Vec::new();
    }
    let ghost c = compressed@;
    let original_len = u32_from_le_bytes(&compressed[0..4]) as usize;
    let mut freqs = vec![0u32; 256];
    let mut i: usize = 0;
    while i < 256
        invariant
            0 <= i <= 256,
            c == compressed@,
            c.len() >= 1032,
            freqs.len() == 256,
            forall|j: int| 0 <= j < i ==> #[trigger] freqs@[j] == header_freqs(c)[j],
        decreases 256 - i,
    {
        let f = u32_from_le_bytes(&compressed[4 + i * 4..8 + i * 4]);
        freqs.set(i, f);
        i = i + 1;
    }
    let ghost hf = header_freqs(c);
    assert(freqs@ =~= hf);
    let header: usize = 4 + 256 * 4;
    proof {
        lemma_sum_u32_take_all(hf);
    }
    let model = AnsState::from_freqs(freqs);
    // Read state
    let mut state = u32_from_le_bytes(&compressed[header..header + 4]) as u64;
    let mut pos = header + 4;
    // Build symbol lookup: slot -> symbol
    let mut sym_of = vec![0u8; SCALE as usize];
    let mut s: usize = 0;
    while s < 256
        invariant
            0 <= s <= 256,
            model.freqs@ == hf,
            hf.len() == 256,
            sum_u32(hf) <= 4096,
            is_cmf_of(model.cmf@, hf),
            sym_of.len() == 4096,
            forall|t: int| 0 <= t < 4096 ==> #[trigger] sym_of@[t] as int == symbol_at(hf, t, s as int),
        decreases 256 - s,
    {
        proof {
            lemma_sum_u32_prefix_mono(hf, s as int + 1, 256);
            lemma_sum_u32_prefix_mono(hf, s as int, s as int + 1);
            lemma_sum_u32_take_all(hf);
        }
        let lo = model.cmf[s];
        let hi = model.cmf[s + 1];
        let mut slot = lo;
        while slot < hi
            invariant
                lo <= slot <= hi <= 4096,
                lo == cumulative(hf, s as int),
                hi == cumulative(hf, s as int + 1),
                0 <= s < 256,
                sym_of.len() == 4096,
                forall|t: int|
                    0 <= t < 4096 ==> #[trigger] sym_of@[t] as int == if lo <= t < slot {
                        s as int
                    } else {
                        symbol_at(hf, t, s as int)
                    },
            decreases hi - slot,
        {
            sym_of.set(slot as usize, s as u8);
            slot = slot + 1;
        }
        s = s + 1;
    }
    let mut out: Vec<u8> = Vec::with_capacity(original_len);
    let ghost n = original_len as nat;
    assert(original_len as nat == spec_u32_from_le_bytes(c.subrange(0, 4)));
    while out.len() < original_len
        invariant
            SCALE == 4096,
            SCALE_BITS == 12,
            c == compressed@,
            model.freqs@ == hf,
            hf.len() == 256,
            sum_u32(hf) <= 4096,
            is_cmf_of(model.cmf@, hf),
            sym_of.len() == 4096,
            forall|t: int| 0 <= t < 4096 ==> #[trigger] sym_of@[t] as int == symbol_at(hf, t, 256),
            n == original_len,
            out.len() <= original_len,
            state < 0x1_0000_0000,
            pos <= c.len(),
            out@ + decode_symbols(c, hf, state as nat, pos as nat, (n - out.len()) as nat)
                == ans_decompress_spec(c),
        decreases original_len - out.len(),
    {
        let ghost x = state as nat;
        let slot = (state % SCALE as u64) as usize;
        let sym = sym_of[slot];
        proof {
            lemma_symbol_at(hf, slot as int, 256);
            lemma_sum_u32_elem_le(hf, sym as int);
            let sy = sym as int;
            lemma_cumulative_bounds(hf, sy);
        }
        out.push(sym);
        let f = model.freqs[sym as usize] as u64;
        let cm = model.cmf[sym as usize] as u64;
        proof {
            assert(state >> 12u64 == state / 4096) by (bit_vector);
            assert(f * (state / 4096) <= 4096 * (state / 4096)) by (nonlinear_arith)
                requires
                    f <= 4096,
            ;
            lemma_fundamental_div_mod(state as int, 4096);
        }
        // Reverse encode step
        state = f * (state >> SCALE_BITS as u64) + (state % SCALE as u64) - cm;
        assert(state as nat == decode_step(hf, x));
        // Refill from stream
        let ghost x1 = state as nat;
        let ghost p1 = pos as nat;
        while state < (SCALE as u64 * SCALE as u64) && pos < compressed.len()
            invariant
                SCALE == 4096,
                c == compressed@,
                state < 0x1_0000_0000,
                pos <= c.len(),
                refill(c, state as nat, pos as nat) == refill(c, x1, p1),
            decreases c.len() - pos,
        {
            let b = compressed[pos];
            proof {
                assert(state < 0x100_0000);
                assert(state < 0x100_0000 ==> (state << 8u64) | (b as u64) == state * 256 + b as u64) by (bit_vector);
            }
            state = (state << 8) | compressed[pos] as u64;
            pos = pos + 1;
        }
        proof {
            let ghost r = refill(c, x1, p1);
            assert(r == (state as nat, pos as nat));
            assert(out@ == out@.drop_last().push(sym));
            assert(decode_symbols(c, hf, x, p1, (n - out@.len() + 1) as nat) == seq![sym] + decode_symbols(c, hf, state as nat, pos as nat, (n - out@.len()) as nat));
            assert(out@.drop_last() + (seq![sym] + decode_symbols(c, hf, state as nat, pos as nat, (n - out@.len()) as nat)) =~= out@ + decode_symbols(c, hf, state as nat, pos as nat, (n - out@.len()) as nat));
        }
    }
    assert(out@ + decode_symbols(c, hf, state as nat, pos as nat, 0) =~= out@);
    out
}

/// The symbol found for a slot has its interval starting at or below the slot.
pub proof fn lemma_symbol_at(freqs: Seq<u32>, slot: int, n: int)
    requires
        0 <= slot,
        0 <= n <= 256,
    ensures
        0 <= symbol_at(freqs, slot, n) < 256,
        cumulative(freqs, symbol_at(freqs, slot, n)) <= slot,
    decreases n,
{
    if n > 0 {
        lemma_symbol_at(freqs, slot, n - 1);
    } else {
        assert(freqs.take(0) =~= Seq::<u32>::empty());
    }
}

/// A slot inside the interval of `s` is found to be `s`.
pub proof fn lemma_symbol_at_interval(freqs: Seq<u32>, slot: int, s: int, n: int)
    requires
        freqs.len() == 256,
        0 <= s < n <= 256,
        cumulative(freqs, s) <= slot < cumulative(freqs, s + 1),
    ensures
        symbol_at(freqs, slot, n) == s,
    decreases n,
{
    if n - 1 > s {
        lemma_sum_u32_prefix_mono(freqs, s + 1, n - 1);
        lemma_symbol_at_interval(freqs, slot, s, n - 1);
    }
}

/// Decoding inverts the coding step.
pub proof fn lemma_code_step_inverse(x: nat, f: nat, c: nat)
    requires
        1 <= f,
        c + f <= 4096,
    ensures
        code_step(x, f, c) / 4096 == x / f,
        code_step(x, f, c) % 4096 == c + x % f,
        f * (code_step(x, f, c) / 4096) + code_step(x, f, c) % 4096 - c == x,
{
    lemma_fundamental_div_mod(x as int, f as int);
    let q = x / f;
    let r = x % f;
    assert(0 <= r < f);
    lemma_fundamental_div_mod_converse(code_step(x, f, c) as int, 4096, q as int, (c + r) as int);
}

/// Reading back the bytes that renormalization pushed out restores the state
/// from before renormalization.
pub proof fn lemma_refill_renorm(stream: Seq<u8>, x0: nat, f: nat, p: nat)
    requires
        f >= 1,
        x0 < 0x1_0000_0000,
        p + renorm(x0, f).1.len() <= stream.len(),
        stream.subrange(p as int, (p + renorm(x0, f).1.len()) as int) == renorm(x0, f).1.reverse(),
    ensures
        refill(stream, renorm(x0, f).0, p) == refill(stream, x0, p + renorm(x0, f).1.len()),
    decreases x0,
{
    if x0 >= f * 1048576 {
        let r = renorm(x0 / 256, f);
        let e = renorm(x0, f).1;
        let q = p + r.1.len();
        assert(e == seq![(x0 % 256) as u8] + r.1);
        assert(e.reverse() =~= r.1.reverse() + seq![(x0 % 256) as u8]);
        assert(stream.subrange(p as int, q as int) =~= r.1.reverse()) by {
            assert(stream.subrange(p as int, q as int) =~= stream.subrange(p as int, (p + e.len()) as int).subrange(0, r.1.len() as int));
        }
        assert(stream[q as int] == (x0 % 256) as u8) by {
            assert(stream[q as int] == stream.subrange(p as int, (p + e.len()) as int)[r.1.len() as int]);
        }
        lemma_refill_renorm(stream, x0 / 256, f, p);
        assert((x0 / 256) * 256 + x0 % 256 == x0);
    }
}

/// The little-endian bytes of a table of values: four per value, in order.
pub proof fn lemma_u32s_le(s: Seq<u32>)
    ensures
        u32s_le(s).len() == 4 * s.len(),
        forall|i: int|
            0 <= i < s.len() ==> #[trigger] u32s_le(s).subrange(4 * i, 4 * i + 4)
                == spec_u32_to_le_bytes(s[i]),
    decreases s.len(),
{
    lemma_auto_spec_u32_to_from_le_bytes();
    if s.len() > 0 {
        let t = s.drop_last();
        lemma_u32s_le(t);
        let u = u32s_le(s);
        assert forall|i: int| 0 <= i < s.len() implies #[trigger] u.subrange(4 * i, 4 * i + 4)
            == spec_u32_to_le_bytes(s[i]) by {
            if i < t.len() {
                assert(u.subrange(4 * i, 4 * i + 4) =~= u32s_le(t).subrange(4 * i, 4 * i + 4));
            } else {
                assert(u.subrange(4 * i, 4 * i + 4) =~= spec_u32_to_le_bytes(s.last()));
            }
        }
    }
}

/// Decoding the pushed bytes of an encoding, from its final state, gives the data back.
pub proof fn lemma_decode_encoded(stream: Seq<u8>, freqs: Seq<u32>, data: Seq<u8>, p: nat)
    requires
        codes(freqs, data),
        p + ans_encode(freqs, data).1.len() == stream.len(),
        stream.subrange(p as int, stream.len() as int) == ans_encode(freqs, data).1.reverse(),
    ensures
        decode_symbols(stream, freqs, ans_encode(freqs, data).0, p, data.len()) == data,
    decreases data.len(),
{
    if data.len() > 0 {
        let d = data.drop_first();
        assert forall|k: int| 0 <= k < d.len() implies #[trigger] freqs[d[k] as int] > 0 by {
            assert(d[k] == data[k + 1]);
        }
        let rest = ans_encode(freqs, d);
        let s = data[0] as int;
        assert(freqs[data[0] as int] > 0);
        let f = freqs[s] as nat;
        let c = cumulative(freqs, s);
        lemma_cumulative_bounds(freqs, s);
        let r = renorm(rest.0, f);
        let x = code_step(r.0, f, c as nat);
        lemma_encode_bounds(freqs, d);
        lemma_renorm(rest.0, f);
        // the symbol is found from the slot
        lemma_code_step_inverse(r.0, f, c as nat);
        assert(r.0 % f < f) by {
            lemma_fundamental_div_mod(r.0 as int, f as int);
        }
        lemma_symbol_at_interval(freqs, (x % 4096) as int, s, 256);
        assert(decode_step(freqs, x) == r.0);
        // the pushed bytes are read back
        let st = ans_encode(freqs, data).1;
        assert(st == rest.1 + r.1);
        assert(st.reverse() =~= r.1.reverse() + rest.1.reverse());
        let q = p + r.1.len();
        assert(stream.subrange(p as int, q as int) =~= r.1.reverse()) by {
            assert(stream.subrange(p as int, q as int) =~= stream.subrange(p as int, stream.len() as int).subrange(0, r.1.len() as int));
        }
        assert(stream.subrange(q as int, stream.len() as int) =~= rest.1.reverse()) by {
            assert(stream.subrange(q as int, stream.len() as int) =~= stream.subrange(p as int, stream.len() as int).subrange(r.1.len() as int, st.len() as int));
        }
        lemma_refill_renorm(stream, rest.0, f, p);
        assert(refill(stream, rest.0, q) == (rest.0, q));
        lemma_decode_encoded(stream, freqs, d, q);
        assert(data =~= seq![data[0]] + d);
    }
}

/// Decompressing what the compressor gives returns the original data, and the
/// decompressor accepts it.
pub proof fn lemma_ans_roundtrip(data: Seq<u8>)
    requires
        data.len() <= u32::MAX,
    ensures
        ans_stream_ok(ans_compress_spec(data)),
        ans_decompress_spec(ans_compress_spec(data)) == data,
{
    if data.len() > 0 {
        lemma_auto_spec_u32_to_from_le_bytes();
        let freqs = normalized_freqs(data);
        lemma_normalized_freqs(data);
        assert forall|k: int| 0 <= k < data.len() implies #[trigger] freqs[data[k] as int] > 0 by {
            lemma_occurrences_pos(data, k);
        }
        let e = ans_encode(freqs, data);
        lemma_encode_bounds(freqs, data);
        let a = spec_u32_to_le_bytes(data.len() as u32);
        let u = u32s_le(freqs);
        let b = spec_u32_to_le_bytes(e.0 as u32);
        let c = ans_compress_spec(data);
        lemma_u32s_le(freqs);
        assert(c == a + u + b + e.1.reverse());
        assert(c.subrange(0, 4) =~= a);
        assert(c.subrange(1028, 1032) =~= b);
        assert(header_freqs(c) =~= freqs) by {
            assert forall|i: int| 0 <= i < 256 implies #[trigger] header_freqs(c)[i] == freqs[i] by {
                assert(c.subrange(4 + 4 * i, 8 + 4 * i) =~= u.subrange(4 * i, 4 * i + 4));
            }
        }
        assert(c.subrange(1032, c.len() as int) =~= e.1.reverse());
        lemma_decode_encoded(c, freqs, data, 1032);
    }
}

} // verus!
