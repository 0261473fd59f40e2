//! Frequency model and encoder of the streaming rANS coder.

use vstd::prelude::*;
use vstd::arithmetic::div_mod::{lemma_multiply_divide_le, lemma_fundamental_div_mod};
use vstd::bytes::{spec_u32_to_le_bytes, u32_to_le_bytes};
use crate::sums::{
    sum_u32, lemma_sum_u32_take_step, lemma_sum_u32_prefix_mono, lemma_sum_u32_take_all,
    lemma_sum_u32_update, lemma_sum_u32_elem_le, lemma_sum_u32_bounded,
};

verus! {

/// Number of bits of the probability scale.
pub const SCALE_BITS: u32 = 12;

/// The probability scale: normalized frequencies sum to this.
pub const SCALE: u32 = 4096;

/// A frequency table over the 256 byte values with its cumulative table.
pub struct AnsState {
    pub freqs: Vec<u32>,
    /// Cumulative mass function: `cmf[i]` is the sum of `freqs[..i]`.
    pub cmf: Vec<u32>,
}

/// The cumulative frequency of the symbols below `s`.
pub open spec fn cumulative(freqs: Seq<u32>, s: int) -> int {
    sum_u32(freqs.take(s))
}

/// `cmf` holds the 257 cumulative frequencies of `freqs`.
pub open spec fn is_cmf_of(cmf: Seq<u32>, freqs: Seq<u32>) -> bool {
    &&& cmf.len() == 257
    &&& forall|i: int| 0 <= i <= 256 ==> #[trigger] cmf[i] == cumulative(freqs, i)
}

/// How many times the byte `b` occurs in `data`.
pub open spec fn occurrences(data: Seq<u8>, b: u8) -> nat
    decreases data.len(),
{
    if data.len() == 0 {
        0
    } else {
        occurrences(data.drop_last(), b) + if data.last() == b {
            1nat
        } else {
            0nat
        }
    }
}

/// The byte histogram of `data`, as 32-bit counts.
pub open spec fn histogram(data: Seq<u8>) -> Seq<u32> {
    Seq::new(256, |s: int| occurrences(data, s as u8) as u32)
}

/// The share of `SCALE` that a symbol seen `count` times out of `total` gets
/// before rounding is repaired: rounded down, and at least 1 for a symbol that occurs.
pub open spec fn scaled_freq(count: u32, total: nat) -> u32 {
    if count == 0 {
        0
    } else {
        let q = (count * 4096) / (total as int);
        if q > 1 {
            q as u32
        } else {
            1
        }
    }
}

/// The frequencies of `data` before rounding is repaired.
pub open spec fn scaled_freqs(data: Seq<u8>) -> Seq<u32> {
    Seq::new(256, |s: int| scaled_freq(histogram(data)[s], data.len()))
}

/// Among the first `n` entries of `s` that exceed `threshold`, the index of the
/// largest one, the last such index where several are equal; -1 where none exceeds it.
pub open spec fn last_max_index(s: Seq<u32>, threshold: u32, n: int) -> int
    decreases n,
{
    if n <= 0 {
        -1
    } else {
        let j = last_max_index(s, threshold, n - 1);
        if s[n - 1] > threshold && (j < 0 || s[n - 1] >= s[j]) {
            n - 1
        } else {
            j
        }
    }
}

/// Takes one unit, `k` times over, from the largest frequency above 1 (the last
/// such where several are equal).
pub open spec fn shave(freqs: Seq<u32>, k: nat) -> Seq<u32>
    decreases k,
{
    if k == 0 {
        freqs
    } else {
        let j = last_max_index(freqs, 1, 256);
        shave(freqs.update(j, (freqs[j] - 1) as u32), (k - 1) as nat)
    }
}

/// The frequency table that the encoder builds for `data`: the scaled
/// frequencies, with the shortfall to `SCALE` given to the most frequent byte
/// (the last such where several are equal), or the excess over `SCALE` taken
/// back one unit at a time from the largest frequency above 1.
pub open spec fn normalized_freqs(data: Seq<u8>) -> Seq<u32> {
    let init = scaled_freqs(data);
    let s0 = sum_u32(init);
    if s0 < 4096 {
        let j = last_max_index(histogram(data), 0, 256);
        init.update(j, (init[j] + (4096 - s0)) as u32)
    } else {
        shave(init, (s0 - 4096) as nat)
    }
}

pub proof fn lemma_occurrences_le_len(data: Seq<u8>, b: u8)
    ensures
        occurrences(data, b) <= data.len(),
    decreases data.len(),
{
    if data.len() > 0 {
        lemma_occurrences_le_len(data.drop_last(), b);
    }
}

/// A byte that stands in `data` occurs in it.
pub proof fn lemma_occurrences_pos(data: Seq<u8>, i: int)
    requires
        0 <= i < data.len(),
    ensures
        occurrences(data, data[i]) > 0,
    decreases data.len(),
{
    if i < data.len() - 1 {
        lemma_occurrences_pos(data.drop_last(), i);
    }
}

pub proof fn lemma_last_max_index(s: Seq<u32>, t: u32, n: int)
    requires
        0 <= n <= s.len(),
    ensures
        -1 <= last_max_index(s, t, n) < n,
        last_max_index(s, t, n) >= 0 ==> s[last_max_index(s, t, n)] > t,
        (exists|i: int| 0 <= i < n && s[i] > t) ==> last_max_index(s, t, n) >= 0,
    decreases n,
{
    if n > 0 {
        lemma_last_max_index(s, t, n - 1);
        if exists|i: int| 0 <= i < n && s[i] > t {
            let i = choose|i: int| 0 <= i < n && s[i] > t;
            if i < n - 1 {
                assert(exists|i: int| 0 <= i < n - 1 && s[i] > t);
            }
        }
    }
}

/// Shaving a table whose sum exceeds `SCALE` by `k` brings the sum to `SCALE`
/// and keeps every positive frequency positive.
pub proof fn lemma_shave(f: Seq<u32>, k: nat)
    requires
        f.len() == 256,
        sum_u32(f) == 4096 + k,
    ensures
        shave(f, k).len() == 256,
        sum_u32(shave(f, k)) == 4096,
        forall|i: int| 0 <= i < 256 ==> (shave(f, k)[i] > 0) == (f[i] > 0),
    decreases k,
{
    if k > 0 {
        if forall|i: int| 0 <= i < 256 ==> f[i] <= 1 {
            lemma_sum_u32_bounded(f, 1);
        }
        lemma_last_max_index(f, 1, 256);
        let j = last_max_index(f, 1, 256);
        let g = f.update(j, (f[j] - 1) as u32);
        lemma_sum_u32_update(f, j, (f[j] - 1) as u32);
        lemma_shave(g, (k - 1) as nat);
        assert forall|i: int| 0 <= i < 256 implies (g[i] > 0) == (f[i] > 0) by {}
    }
}

/// The scaled frequencies are positive exactly for the bytes that occur.
pub proof fn lemma_scaled_freqs(data: Seq<u8>)
    requires
        data.len() <= u32::MAX,
    ensures
        scaled_freqs(data).len() == 256,
        forall|s: int|
            0 <= s < 256 ==> (#[trigger] scaled_freqs(data)[s] > 0) == (occurrences(data, s as u8)
                > 0),
{
    assert forall|s: int| 0 <= s < 256 implies (#[trigger] scaled_freqs(data)[s] > 0) == (
    occurrences(data, s as u8) > 0) by {
        let c = occurrences(data, s as u8);
        lemma_occurrences_le_len(data, s as u8);
        if c > 0 {
            assert(c * 4096 <= data.len() * 4096) by (nonlinear_arith)
                requires
                    c <= data.len(),
            ;
            lemma_multiply_divide_le((c * 4096) as int, data.len() as int, 4096);
        }
    }
}

/// Some byte occurs in nonempty data, so the most frequent byte is well defined.
pub proof fn lemma_most_frequent(data: Seq<u8>)
    requires
        0 < data.len() <= u32::MAX,
    ensures
        0 <= last_max_index(histogram(data), 0, 256) < 256,
        histogram(data)[last_max_index(histogram(data), 0, 256)] > 0,
{
    let h = histogram(data);
    lemma_occurrences_pos(data, 0);
    lemma_occurrences_le_len(data, data[0]);
    assert(h[data[0] as int] > 0);
    lemma_last_max_index(h, 0, 256);
}

/// The normalized frequencies sum to `SCALE` and are positive exactly for the
/// bytes that occur in `data`.
pub proof fn lemma_normalized_freqs(data: Seq<u8>)
    requires
        0 < data.len() <= u32::MAX,
    ensures
        normalized_freqs(data).len() == 256,
        sum_u32(normalized_freqs(data)) == 4096,
        forall|s: int|
            0 <= s < 256 ==> (#[trigger] normalized_freqs(data)[s] > 0) == (occurrences(
                data,
                s as u8,
            ) > 0),
{
    let init = scaled_freqs(data);
    let s0 = sum_u32(init);
    lemma_scaled_freqs(data);
    if s0 < 4096 {
        let h = histogram(data);
        lemma_most_frequent(data);
        let j = last_max_index(h, 0, 256);
        lemma_occurrences_le_len(data, j as u8);
        lemma_sum_u32_elem_le(init, j);
        lemma_sum_u32_update(init, j, (init[j] + (4096 - s0)) as u32);
        lemma_occurrences_le_len(data, j as u8);
        assert(init[j] > 0);
        assert forall|s: int| 0 <= s < 256 implies (#[trigger] normalized_freqs(data)[s] > 0) == (
        occurrences(data, s as u8) > 0) by {
            assert(scaled_freqs(data)[s] > 0 <==> occurrences(data, s as u8) > 0);
        }
    } else {
        lemma_shave(init, (s0 - 4096) as nat);
        assert forall|s: int| 0 <= s < 256 implies (#[trigger] normalized_freqs(data)[s] > 0) == (
        occurrences(data, s as u8) > 0) by {
            assert(scaled_freqs(data)[s] > 0 <==> occurrences(data, s as u8) > 0);
        }
    }
}

impl AnsState {
    /// Builds the normalized frequency model of `data`: see `normalized_freqs`.
    pub fn from_data(data: &[u8]) -> (st: Self)
        requires
            0 < data.len() <= u32::MAX,
        ensures
            st.freqs@ == normalized_freqs(data@),
            is_cmf_of(st.cmf@, st.freqs@),
            st.freqs.len() == 256,
            sum_u32(st.freqs@) == SCALE,
            forall|s: int|
                0 <= s < 256 ==> (#[trigger] st.freqs@[s] > 0) == (occurrences(data@, s as u8) > 0),
    {
        proof {
            lemma_normalized_freqs(data@);
        }
        let counts = count_bytes(data);
        let mut total: u32 = 0;
        let mut i: usize = 0;
        assert(counts@.take(0) =~= Seq::<u32>::empty());
        while i < 256
            invariant
                0 <= i <= 256,
                counts@ == histogram(data@),
                sum_u32(counts@) == data.len(),
                data.len() <= u32::MAX,
                total == sum_u32(counts@.take(i as int)),
            decreases 256 - i,
        {
            proof {
                lemma_sum_u32_take_step(counts@, i as int);
                lemma_sum_u32_prefix_mono(counts@, i as int + 1, 256);
                lemma_sum_u32_take_all(counts@);
            }
            total = total + counts[i];
            i = i + 1;
        }
        proof {
            lemma_sum_u32_take_all(counts@);
        }
        let ghost init = scaled_freqs(data@);
        // Normalize to SCALE
        let mut freqs = vec![0u32; 256];
        let mut sum: u32 = 0;
        let mut i: usize = 0;
        assert(init.take(0) =~= Seq::<u32>::empty());
        while i < 256
            invariant
                0 <= i <= 256,
                counts@ == histogram(data@),
                total == data.len(),
                0 < data.len() <= u32::MAX,
                init == scaled_freqs(data@),
                freqs.len() == 256,
                forall|j: int| 0 <= j < i ==> #[trigger] freqs@[j] == init[j],
                forall|j: int| i <= j < 256 ==> #[trigger] freqs@[j] == 0,
                sum == sum_u32(init.take(i as int)),
                sum <= i * 4096,
            decreases 256 - i,
        {
            proof {
                lemma_sum_u32_take_step(init, i as int);
            }
            if counts[i] > 0 {
                proof {
                    lemma_occurrences_le_len(data@, i as u8);
                    lemma_multiply_divide_le(counts[i as int] * 4096, total as int, 4096);
                }
                let q: u64 = (counts[i] as u64 * SCALE as u64) / total as u64;
                let f: u32 = if q > 1 {
                    q as u32
                } else {
                    1
                };
                freqs.set(i, f);
                sum = sum + f;
            }
            i = i + 1;
        }
        assert(freqs@ =~= init);
        proof {
            lemma_sum_u32_take_all(init);
        }
        let ghost s0 = sum as int;
        proof {
            lemma_most_frequent(data@);
            let j = last_max_index(counts@, 0, 256);
            assert(init.update(j, (init[j] + (sum - s0)) as u32) =~= init);
        }
        // Fix rounding: give the shortfall to the most frequent byte
        while sum < SCALE
            invariant
                counts@ == histogram(data@),
                0 < data.len() <= u32::MAX,
                init == scaled_freqs(data@),
                init.len() == 256,
                s0 == sum_u32(init),
                freqs.len() == 256,
                s0 < 4096 ==> sum <= 4096 && s0 <= sum && freqs@ == init.update(
                    last_max_index(counts@, 0, 256),
                    (init[last_max_index(counts@, 0, 256)] + (sum - s0)) as u32,
                ),
                s0 >= 4096 ==> sum == s0 && freqs@ == init,
            decreases SCALE - sum,
        {
            proof {
                lemma_most_frequent(data@);
                let j = last_max_index(counts@, 0, 256);
                lemma_sum_u32_elem_le(init, j);
            }
            let i = last_max_index_of(&counts, 0);
            let old_f = freqs[i];
            freqs.set(i, old_f + 1);
            sum = sum + 1;
            assert(freqs@ =~= init.update(
                last_max_index(counts@, 0, 256),
                (init[last_max_index(counts@, 0, 256)] + (sum - s0)) as u32,
            ));
        }
        proof {
            if s0 < 4096 {
                lemma_most_frequent(data@);
                let j = last_max_index(counts@, 0, 256);
                lemma_sum_u32_elem_le(init, j);
                lemma_sum_u32_update(init, j, (init[j] + (4096 - s0)) as u32);
            }
        }
        // Take the excess back from the largest frequencies
        while sum > SCALE
            invariant
                freqs.len() == 256,
                sum >= 4096,
                sum == sum_u32(freqs@),
                shave(freqs@, (sum - 4096) as nat) == normalized_freqs(data@),
            decreases sum,
        {
            proof {
                if forall|k: int| 0 <= k < 256 ==> freqs@[k] <= 1 {
                    lemma_sum_u32_bounded(freqs@, 1);
                }
                lemma_last_max_index(freqs@, 1, 256);
                let j = last_max_index(freqs@, 1, 256);
                lemma_sum_u32_update(freqs@, j, (freqs@[j] - 1) as u32);
            }
            let i = last_max_index_of(&freqs, 1);
            let old_f = freqs[i];
            freqs.set(i, old_f - 1);
            sum = sum - 1;
        }
        proof {
            lemma_sum_u32_take_all(freqs@);
        }
        let cmf = build_cmf(&freqs);
        AnsState { freqs, cmf }
    }

    /// Builds the model of the first 256 frequencies of `freqs`.
    pub fn from_freqs(freqs: Vec<u32>) -> (st: Self)
        requires
            freqs.len() >= 256,
            cumulative(freqs@, 256) <= u32::MAX,
        ensures
            st.freqs@ == freqs@,
            is_cmf_of(st.cmf@, freqs@),
    {
        let cmf = build_cmf(&freqs);
        AnsState { freqs, cmf }
    }
}

/// Renormalization before a symbol of frequency `f` is coded: the low bytes of
/// the state, lowest first, go out until the state is below `f * 2^20`.
/// Gives the reduced state and the bytes in the order they go out.
pub open spec fn renorm(x: nat, f: nat) -> (nat, Seq<u8>)
    decreases x,
{
    if f > 0 && x >= f * 1048576 {
        let r = renorm(x / 256, f);
        (r.0, seq![(x % 256) as u8] + r.1)
    } else {
        (x, seq![])
    }
}

/// The rANS coding step for a symbol of frequency `f` and cumulative frequency `c`.
pub open spec fn code_step(x: nat, f: nat, c: nat) -> nat {
    (x / f) * 4096 + c + x % f
}

/// The rANS encoder run over `data` from its last byte to its first, starting
/// from the state `SCALE`: gives the final state and the stack of bytes it
/// pushed, in push order.
pub open spec fn ans_encode(freqs: Seq<u32>, data: Seq<u8>) -> (nat, Seq<u8>)
    decreases data.len(),
{
    if data.len() == 0 {
        (4096, seq![])
    } else {
        let rest = ans_encode(freqs, data.drop_first());
        let s = data[0] as int;
        let f = freqs[s] as nat;
        let r = renorm(rest.0, f);
        (code_step(r.0, f, cumulative(freqs, s) as nat), rest.1 + r.1)
    }
}

/// The little-endian bytes of each value in turn.
pub open spec fn u32s_le(s: Seq<u32>) -> Seq<u8>
    decreases s.len(),
{
    if s.len() == 0 {
        seq![]
    } else {
        u32s_le(s.drop_last()) + spec_u32_to_le_bytes(s.last())
    }
}

/// The compressed form of `data`: nothing for empty data; otherwise its length,
/// the 256 normalized frequencies and the final coder state, each as 4
/// little-endian bytes, then the pushed bytes in reverse order.
pub open spec fn ans_compress_spec(data: Seq<u8>) -> Seq<u8> {
    if data.len() == 0 {
        seq![]
    } else {
        let freqs = normalized_freqs(data);
        let e = ans_encode(freqs, data);
        spec_u32_to_le_bytes(data.len() as u32) + u32s_le(freqs) + spec_u32_to_le_bytes(
            e.0 as u32,
        ) + e.1.reverse()
    }
}

/// `freqs` is a table whose frequencies sum to `SCALE` and that gives every byte of `data` a positive frequency.
pub open spec fn codes(freqs: Seq<u32>, data: Seq<u8>) -> bool {
    &&& freqs.len() == 256
    &&& sum_u32(freqs) == 4096
    &&& forall|k: int| 0 <= k < data.len() ==> #[trigger] freqs[data[k] as int] > 0
}

pub proof fn lemma_renorm(x: nat, f: nat)
    requires
        f >= 1,
    ensures
        renorm(x, f).0 < f * 1048576,
        renorm(x, f).0 <= x,
        renorm(x, f).1.len() == 0 ==> renorm(x, f).0 == x,
        renorm(x, f).1.len() > 0 ==> renorm(x, f).0 >= f * 4096,
    decreases x,
{
    if x >= f * 1048576 {
        lemma_renorm(x / 256, f);
        assert(x / 256 >= f * 4096);
    }
}

pub proof fn lemma_code_step(x: nat, f: nat, c: nat)
    requires
        1 <= f,
        c + f <= 4096,
        4096 <= x < f * 1048576,
    ensures
        x <= code_step(x, f, c) < 0x1_0000_0000,
        x >= f * 4096 ==> code_step(x, f, c) >= 0x100_0000,
{
    let q = x / f;
    let r = x % f;
    lemma_fundamental_div_mod(x as int, f as int);
    assert(0 <= r < f);
    assert(q < 1048576) by (nonlinear_arith)
        requires
            x == f * q + r,
            x < f * 1048576,
            0 <= r,
            f >= 1,
    ;
    assert(q >= 0) by (nonlinear_arith)
        requires
            x == f * q + r,
            0 <= r < f,
            x >= 0,
    ;
    assert(f * q <= 4096 * q) by (nonlinear_arith)
        requires
            f <= 4096,
            q >= 0,
    ;
    if x >= f * 4096 {
        assert(q >= 4096) by (nonlinear_arith)
            requires
                x == f * q + r,
                x >= f * 4096,
                r < f,
                f >= 1,
        ;
    }
}

/// Every state the encoder reaches lies in `[SCALE, 2^32)`, and a state below
/// `2^24` means that no byte has been pushed yet.
pub proof fn lemma_encode_bounds(freqs: Seq<u32>, data: Seq<u8>)
    requires
        codes(freqs, data),
    ensures
        4096 <= ans_encode(freqs, data).0 < 0x1_0000_0000,
        ans_encode(freqs, data).0 < 0x100_0000 ==> ans_encode(freqs, data).1.len() == 0,
    decreases data.len(),
{
    if data.len() > 0 {
        let d = data.drop_first();
        assert forall|k: int| 0 <= k < d.len() implies #[trigger] freqs[d[k] as int] > 0 by {
            assert(d[k] == data[k + 1]);
        }
        lemma_encode_bounds(freqs, d);
        let rest = ans_encode(freqs, d);
        let s = data[0] as int;
        assert(freqs[data[0] as int] > 0);
        let f = freqs[s] as nat;
        let c = cumulative(freqs, s);
        lemma_cumulative_bounds(freqs, s);
        lemma_renorm(rest.0, f);
        let r = renorm(rest.0, f);
        assert(r.0 >= 4096) by (nonlinear_arith)
            requires
                r.1.len() > 0 ==> r.0 >= f * 4096,
                r.1.len() == 0 ==> r.0 == rest.0,
                rest.0 >= 4096,
                f >= 1,
        ;
        lemma_code_step(r.0, f, c as nat);
    }
}

/// In a table that sums to at most `SCALE`, each symbol's interval lies within `[0, SCALE]`.
pub proof fn lemma_cumulative_bounds(freqs: Seq<u32>, s: int)
    requires
        freqs.len() == 256,
        sum_u32(freqs) <= 4096,
        0 <= s < 256,
    ensures
        0 <= cumulative(freqs, s),
        cumulative(freqs, s + 1) == cumulative(freqs, s) + freqs[s],
        cumulative(freqs, s) + freqs[s] <= 4096,
{
    lemma_sum_u32_take_step(freqs, s);
    lemma_sum_u32_prefix_mono(freqs, s + 1, 256);
    lemma_sum_u32_prefix_mono(freqs, 0, s);
    lemma_sum_u32_take_all(freqs);
    assert(freqs.take(0) =~= Seq::<u32>::empty());
}

/// The histogram of `data`.
fn count_bytes(data: &[u8]) -> (counts: Vec<u32>)
    requires
        data.len() <= u32::MAX,
    ensures
        counts@ == histogram(data@),
        sum_u32(counts@) == data.len(),
{
    let mut counts = vec![0u32; 256];
    let mut i: usize = 0;
    assert(counts@ =~= Seq::new(256, |s: int| 0u32));
    proof {
        lemma_sum_zeros(256);
    }
    while i < data.len()
        invariant
            0 <= i <= data.len(),
            data.len() <= u32::MAX,
            counts.len() == 256,
            forall|s: int| 0 <= s < 256 ==> #[trigger] counts@[s] == occurrences(data@.take(i as int), s as u8),
            sum_u32(counts@) == i,
        decreases data.len() - i,
    {
        let b = data[i];
        proof {
            assert(data@.take(i + 1).drop_last() =~= data@.take(i as int));
            lemma_sum_u32_elem_le(counts@, b as int);
            lemma_sum_u32_update(counts@, b as int, (counts@[b as int] + 1) as u32);
        }
        let c = counts[b as usize];
        counts.set(b as usize, c + 1);
        i = i + 1;
    }
    assert(data@.take(data.len() as int) =~= data@);
    assert(counts@ =~= histogram(data@));
    counts
}

proof fn lemma_sum_zeros(n: nat)
    ensures
        sum_u32(Seq::new(n, |s: int| 0u32)) == 0,
    decreases n,
{
    if n > 0 {
        assert(Seq::new(n, |s: int| 0u32).drop_last() =~= Seq::new((n - 1) as nat, |s: int| 0u32));
        lemma_sum_zeros((n - 1) as nat);
    }
}

/// The index of the largest entry of `v` above `threshold`, the last such where several are equal.
fn last_max_index_of(v: &Vec<u32>, threshold: u32) -> (r: usize)
    requires
        v.len() == 256,
        exists|i: int| 0 <= i < 256 && v@[i] > threshold,
    ensures
        r as int == last_max_index(v@, threshold, 256),
        r < 256,
        v@[r as int] > threshold,
{
    let mut best: usize = 0;
    let mut found = false;
    let mut i: usize = 0;
    while i < 256
        invariant
            0 <= i <= 256,
            v.len() == 256,
            found == (last_max_index(v@, threshold, i as int) >= 0),
            found ==> best as int == last_max_index(v@, threshold, i as int),
        decreases 256 - i,
    {
        proof {
            lemma_last_max_index(v@, threshold, i as int);
        }
        if v[i] > threshold && (!found || v[i] >= v[best]) {
            best = i;
            found = true;
        }
        i = i + 1;
    }
    proof {
        lemma_last_max_index(v@, threshold, 256);
    }
    best
}

/// The cumulative table of the first 256 entries of `freqs`.
fn build_cmf(freqs: &Vec<u32>) -> (cmf: Vec<u32>)
    requires
        freqs.len() >= 256,
        cumulative(freqs@, 256) <= u32::MAX,
    ensures
        is_cmf_of(cmf@, freqs@),
{
    let mut cmf = vec![0u32; 257];
    assert(freqs@.take(0) =~= Seq::<u32>::empty());
    let mut i: usize = 0;
    while i < 256
        invariant
            0 <= i <= 256,
            freqs.len() >= 256,
            cumulative(freqs@, 256) <= u32::MAX,
            cmf.len() == 257,
            forall|j: int| 0 <= j <= i ==> #[trigger] cmf@[j] == cumulative(freqs@, j),
        decreases 256 - i,
    {
        proof {
            lemma_sum_u32_take_step(freqs@, i as int);
            lemma_sum_u32_prefix_mono(freqs@, i as int + 1, 256);
        }
        let next = cmf[i] + freqs[i];
        cmf.set(i + 1, next);
        i = i + 1;
    }
    cmf
}

/// Compresses `data` with the streaming rANS coder: see `ans_compress_spec`.
pub fn ans_compress(data: &[u8]) -> (out: Vec<u8>)
    requires
        data.len() <= u32::MAX,
    ensures
        out@ == ans_compress_spec(data@),
{
    if data.len() == 0 {
        return Vec::new();
    }
    let model = AnsState::from_data(data);
    let ghost freqs = model.freqs@;
    proof {
        assert forall|k: int| 0 <= k < data@.len() implies #[trigger] freqs[data@[k] as int] > 0 by {
            lemma_occurrences_pos(data@, k);
        }
    }
    // Encode backwards into a stack
    let mut state: u64 = SCALE as u64;
    let mut stack: Vec<u8> = Vec::new();
    let n = data.len();
    let mut i = n;
    assert(data@.subrange(n as int, n as int) =~= Seq::<u8>::empty());
    while i > 0
        invariant
            0 <= i <= n,
            n == data.len(),
            freqs == model.freqs@,
            codes(freqs, data@),
            is_cmf_of(model.cmf@, freqs),
            (state as nat, stack@) == ans_encode(freqs, data@.subrange(i as int, n as int)),
        decreases i,
    {
        proof {
            let d = data@.subrange(i as int, n as int);
            assert forall|k: int| 0 <= k < d.len() implies #[trigger] freqs[d[k] as int] > 0 by {
                assert(d[k] == data@[i + k]);
            }
            lemma_encode_bounds(freqs, d);
            assert(state < 0x1_0000_0000);
        }
        i = i - 1;
        let sym = data[i] as usize;
        let f = model.freqs[sym] as u64;
        let c = model.cmf[sym] as u64;
        let ghost x0 = state as nat;
        let ghost st0 = stack@;
        proof {
            assert(f > 0);
            lemma_cumulative_bounds(freqs, sym as int);
            assert(f << 20u64 == f * 1048576) by (bit_vector)
                requires
                    f < 0x1_0000_0000,
            ;
        }
        // Renormalize
        let max_state = f << (32 - SCALE_BITS) as u64;
        let ghost mut pushed: Seq<u8> = Seq::empty();
        while state >= max_state
            invariant
                f >= 1,
                max_state == f * 1048576,
                stack@ == st0 + pushed,
                renorm(x0, f as nat) == (renorm(state as nat, f as nat).0, pushed + renorm(
                    state as nat,
                    f as nat,
                ).1),
            decreases state,
        {
            let x = state;
            stack.push(state as u8);
            state = state >> 8;
            proof {
                assert(x as u8 == x % 256) by (bit_vector);
                assert(x >> 8 == x / 256) by (bit_vector);
                assert(renorm(x as nat, f as nat) == (renorm(state as nat, f as nat).0, seq![(x % 256) as u8] + renorm(state as nat, f as nat).1));
                assert(pushed + (seq![(x % 256) as u8] + renorm(state as nat, f as nat).1) =~= (pushed.push((x % 256) as u8)) + renorm(state as nat, f as nat).1);
                pushed = pushed.push((x % 256) as u8);
            }
        }
        proof {
            let d = data@.subrange(i as int, n as int);
            assert(d.drop_first() =~= data@.subrange(i + 1, n as int));
            assert(pushed + renorm(state as nat, f as nat).1 =~= pushed);
            lemma_renorm(x0, f as nat);
            assert(state as nat == renorm(x0, f as nat).0);
            assert(state / f <= state) by (nonlinear_arith)
                requires
                    f >= 1,
            ;
        }
        // Encode
        state = (state / f) * SCALE as u64 + c + (state % f);
    }
    assert(data@.subrange(0, n as int) =~= data@);
    let ghost e = ans_encode(freqs, data@);
    proof {
        lemma_encode_bounds(freqs, data@);
    }
    // Header, then the state, then the stack in reverse, which is decode order
    let mut out: Vec<u8> = Vec::new();
    let mut len_bytes = u32_to_le_bytes(n as u32);
    out.append(&mut len_bytes);
    let mut k: usize = 0;
    assert(freqs.take(0) =~= Seq::<u32>::empty());
    while k < 256
        invariant
            0 <= k <= 256,
            model.freqs@ == freqs,
            freqs.len() == 256,
            out@ == spec_u32_to_le_bytes(n as u32) + u32s_le(freqs.take(k as int)),
        decreases 256 - k,
    {
        let mut fb = u32_to_le_bytes(model.freqs[k]);
        out.append(&mut fb);
        proof {
            assert(freqs.take(k + 1).drop_last() =~= freqs.take(k as int));
        }
        k = k + 1;
    }
    assert(freqs.take(256) =~= freqs);
    let mut state_bytes = u32_to_le_bytes(state as u32);
    out.append(&mut state_bytes);
    let ghost head = out@;
    let mut j = stack.len();
    while j > 0
        invariant
            0 <= j <= stack.len(),
            out@ == head + stack@.subrange(j as int, stack@.len() as int).reverse(),
        decreases j,
    {
        j = j - 1;
        out.push(stack[j]);
        proof {
            assert(stack@.subrange(j as int, stack@.len() as int).reverse() =~= stack@.subrange(j + 1, stack@.len() as int).reverse().push(stack@[j as int]));
        }
    }
    assert(stack@.subrange(0, stack@.len() as int) =~= stack@);
    assert(out@ =~= ans_compress_spec(data@));
    out
}

} // verus!
