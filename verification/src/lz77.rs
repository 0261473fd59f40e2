//! LZ77 tokenizer with a two-level hash table, and its decoder.

use vstd::prelude::*;
use vstd::bytes::{
    spec_u64_from_le_bytes, spec_u64_to_le_bytes, spec_u64_to_le_bytes_open,
    spec_u64_to_le_bytes_to_open, lemma_auto_spec_u64_to_from_le_bytes, u64_from_le_bytes,
};
use vstd::std_specs::bits::{u64_trailing_zeros, axiom_u64_trailing_zeros};
use vstd::bytes::{spec_u32_from_le_bytes, u32_from_le_bytes};

verus! {

/// A token of the LZ77 stream: a byte as it is, or a copy of `length` bytes
/// from `distance` bytes back.
#[derive(Debug, Clone, Copy)]
pub enum Token {
    Literal(u8),
    Match { distance: usize, length: usize },
}

/// Appends `length` bytes to `out`, each copied from `distance` bytes before
/// the end; the copy may overlap the bytes it appends.
pub open spec fn copy_back(out: Seq<u8>, distance: nat, length: nat) -> Seq<u8>
    decreases length,
{
    if length == 0 {
        out
    } else {
        copy_back(out.push(out[out.len() - distance]), distance, (length - 1) as nat)
    }
}

/// The output after decoding one token onto `out`.
pub open spec fn apply_token(out: Seq<u8>, t: Token) -> Seq<u8> {
    match t {
        Token::Literal(b) => out.push(b),
        Token::Match { distance, length } => copy_back(out, distance as nat, length as nat),
    }
}

/// A token can be decoded after `len` bytes: a copy reaches no further back
/// than the start, and a nonempty copy starts at least one byte back.
pub open spec fn token_ok(len: nat, t: Token) -> bool {
    match t {
        Token::Literal(_) => true,
        Token::Match { distance, length } => distance <= len && (length > 0 ==> distance >= 1),
    }
}

/// The output after decoding `tokens` in order onto `out`.
pub open spec fn decode_from(out: Seq<u8>, tokens: Seq<Token>) -> Seq<u8>
    decreases tokens.len(),
{
    if tokens.len() == 0 {
        out
    } else {
        decode_from(apply_token(out, tokens[0]), tokens.drop_first())
    }
}

/// Every token of `tokens` can be decoded when it comes, decoding onto `out`.
pub open spec fn decodable(out: Seq<u8>, tokens: Seq<Token>) -> bool
    decreases tokens.len(),
{
    tokens.len() == 0 || (token_ok(out.len(), tokens[0]) && decodable(
        apply_token(out, tokens[0]),
        tokens.drop_first(),
    ))
}

/// The bytes that `tokens` decode to.
pub open spec fn lz77_decode_spec(tokens: Seq<Token>) -> Seq<u8> {
    decode_from(Seq::empty(), tokens)
}

/// Decodes `tokens`: see `lz77_decode_spec`.
pub fn lz77_decode(tokens: &[Token]) -> (output: Vec<u8>)
    requires
        decodable(Seq::empty(), tokens@),
    ensures
        output@ == lz77_decode_spec(tokens@),
{
    let mut output: Vec<u8> = Vec::new();
    let mut i: usize = 0;
    assert(tokens@.skip(0) =~= tokens@);
    while i < tokens.len()
        invariant
            0 <= i <= tokens.len(),
            decodable(output@, tokens@.skip(i as int)),
            decode_from(output@, tokens@.skip(i as int)) == lz77_decode_spec(tokens@),
        decreases tokens.len() - i,
    {
        let ghost rest = tokens@.skip(i as int);
        assert(rest[0] == tokens@[i as int]);
        assert(rest.drop_first() =~= tokens@.skip(i + 1));
        match &tokens[i] {
            Token::Literal(b) => output.push(*b),
            Token::Match { distance, length } => {
                let d = *distance;
                let len = *length;
                let start = output.len() - d;
                let ghost out0 = output@;
                let mut j: usize = 0;
                while j < len
                    invariant
                        0 <= j <= len,
                        len > 0 ==> d >= 1,
                        start + d == out0.len(),
                        output@.len() == out0.len() + j,
                        copy_back(output@, d as nat, (len - j) as nat) == copy_back(out0, d as nat, len as nat),
                    decreases len - j,
                {
                    let cur = output.len();
                    assert(start + j < cur);
                    let byte = output[start + j];
                    output.push(byte);
                    j = j + 1;
                }
            },
        }
        i = i + 1;
    }
    output
}

/// The number of equal bytes at `a + i` and `b + i`, `a + i + 1` and `b + i + 1`,
/// and so on, counting from `i` and stopping at `limit`.
pub open spec fn common_len(data: Seq<u8>, a: int, b: int, i: nat, limit: nat) -> nat
    decreases limit - i,
{
    if i < limit && data[a + i] == data[b + i] {
        common_len(data, a, b, i + 1, limit)
    } else {
        i
    }
}

/// The length of the match between the bytes at `cand` and those at `pos`: the
/// number of equal leading bytes, at most `max_match` and at most what is left after `pos`.
pub open spec fn match_len(data: Seq<u8>, cand: int, pos: int, max_match: nat) -> nat {
    let left = data.len() - pos;
    let limit = if max_match <= left {
        max_match
    } else {
        left as nat
    };
    common_len(data, cand, pos, 0, limit)
}

pub proof fn lemma_common_len(data: Seq<u8>, a: int, b: int, i: nat, limit: nat)
    requires
        i <= limit,
    ensures
        i <= common_len(data, a, b, i, limit) <= limit,
        forall|k: int| i <= k < common_len(data, a, b, i, limit) ==> #[trigger] data[a + k] == data[b + k],
        common_len(data, a, b, i, limit) < limit ==> data[a + common_len(data, a, b, i, limit)] != data[b + common_len(data, a, b, i, limit)],
    decreases limit - i,
{
    if i < limit && data[a + i] == data[b + i] {
        lemma_common_len(data, a, b, i + 1, limit);
    }
}

/// Counting on from a point below which all bytes are known to match.
pub proof fn lemma_common_len_skip(data: Seq<u8>, a: int, b: int, i: nat, j: nat, limit: nat)
    requires
        i <= j <= limit,
        forall|k: int| i <= k < j ==> #[trigger] data[a + k] == data[b + k],
    ensures
        common_len(data, a, b, i, limit) == common_len(data, a, b, j, limit),
    decreases j - i,
{
    if i < j {
        lemma_common_len_skip(data, a, b, i + 1, j, limit);
    }
}

proof fn lemma_byte_zero_bit(x: u64, m: u64, j: u64)
    by (bit_vector)
    requires
        m < 8,
        8 * m <= j < 8 * m + 8,
        (x >> (8 * m)) & 0xff == 0,
    ensures
        (x >> j) & 1 == 0,
{
}

proof fn lemma_byte_from_bits(x: u64, m: u64)
    by (bit_vector)
    requires
        m < 8,
        (x >> (8 * m)) & 1 == 0,
        (x >> (8 * m + 1)) & 1 == 0,
        (x >> (8 * m + 2)) & 1 == 0,
        (x >> (8 * m + 3)) & 1 == 0,
        (x >> (8 * m + 4)) & 1 == 0,
        (x >> (8 * m + 5)) & 1 == 0,
        (x >> (8 * m + 6)) & 1 == 0,
        (x >> (8 * m + 7)) & 1 == 0,
    ensures
        (x >> (8 * m)) & 0xff == 0,
{
}

proof fn lemma_xor_byte(a: u64, b: u64, m: u64)
    by (bit_vector)
    requires
        m < 8,
    ensures
        ((a >> (8 * m)) & 0xff == (b >> (8 * m)) & 0xff) <==> (((a ^ b) >> (8 * m)) & 0xff == 0),
{
}

/// Byte `m` of the little-endian value of eight bytes is the byte at `m`.
proof fn lemma_le_byte(s: Seq<u8>, m: u64)
    requires
        s.len() == 8,
        m < 8,
    ensures
        s[m as int] == ((spec_u64_from_le_bytes(s) >> (8 * m)) & 0xff) as u8,
{
    lemma_auto_spec_u64_to_from_le_bytes();
    let x = spec_u64_from_le_bytes(s);
    spec_u64_to_le_bytes_to_open(x);
    assert(spec_u64_to_le_bytes_open(x) == s);
    assert(x & 0xff == (x >> 0u64) & 0xff) by (bit_vector);
}

/// Comparing eight bytes at once as little-endian words: the number of
/// trailing zero bits of the difference, over 8, is the number of equal
/// leading bytes.
pub proof fn lemma_first_difference(s: Seq<u8>, t: Seq<u8>)
    requires
        s.len() == 8,
        t.len() == 8,
    ensures
        (spec_u64_from_le_bytes(s) == spec_u64_from_le_bytes(t)) == (s == t),
        spec_u64_from_le_bytes(s) != spec_u64_from_le_bytes(t) ==> {
            let k = u64_trailing_zeros(spec_u64_from_le_bytes(s) ^ spec_u64_from_le_bytes(t)) / 8;
            &&& k < 8
            &&& s[k as int] != t[k as int]
            &&& forall|i: int| 0 <= i < k ==> s[i] == t[i]
        },
{
    lemma_auto_spec_u64_to_from_le_bytes();
    let a = spec_u64_from_le_bytes(s);
    let b = spec_u64_from_le_bytes(t);
    if s == t {
        assert(a == b);
    }
    if a == b {
        assert(spec_u64_to_le_bytes(a) == s);
    }
    if a != b {
        let x = a ^ b;
        assert(x != 0) by (bit_vector)
            requires
                a != b,
                x == a ^ b,
        ;
        axiom_u64_trailing_zeros(x);
        let tz = u64_trailing_zeros(x) as u64;
        assert(tz < 64);
        let k = tz / 8;
        // bytes below k agree: their bits are all below tz
        assert forall|i: int| 0 <= i < k implies s[i] == t[i] by {
            let m = i as u64;
            assert(8 * m + 7 < tz);
            assert((x >> (8 * m)) & 1 == 0);
            assert((x >> (8 * m + 1)) & 1 == 0);
            assert((x >> (8 * m + 2)) & 1 == 0);
            assert((x >> (8 * m + 3)) & 1 == 0);
            assert((x >> (8 * m + 4)) & 1 == 0);
            assert((x >> (8 * m + 5)) & 1 == 0);
            assert((x >> (8 * m + 6)) & 1 == 0);
            assert((x >> (8 * m + 7)) & 1 == 0);
            lemma_byte_from_bits(x, m);
            lemma_xor_byte(a, b, m);
            lemma_le_byte(s, m);
            lemma_le_byte(t, m);
        }
        // byte k differs: it holds bit tz, which is set
        assert(s[k as int] != t[k as int]) by {
            lemma_xor_byte(a, b, k);
            lemma_le_byte(s, k);
            lemma_le_byte(t, k);
            let ab = (a >> (8 * k)) & 0xff;
            let bb = (b >> (8 * k)) & 0xff;
            assert(ab < 256 && bb < 256) by (bit_vector)
                requires
                    ab == (a >> (8 * k)) & 0xff,
                    bb == (b >> (8 * k)) & 0xff,
            ;
            assert(8 * k <= tz < 8 * k + 8);
            if s[k as int] == t[k as int] {
                assert(ab == bb);
                lemma_byte_zero_bit(x, k, tz);
                assert((x >> tz) & 1 == 1);
            }
        }
    }
}

/// The length of the match between the bytes at `candidate` and those at `pos`:
/// see `match_len`. Compares eight bytes at a time while it can.
fn match_length(data: &[u8], candidate: usize, pos: usize, max_match: usize) -> (length: usize)
    requires
        candidate < pos < data.len(),
        data.len() <= isize::MAX,
    ensures
        length == match_len(data@, candidate as int, pos as int, max_match as nat),
        length <= max_match,
        pos + length <= data.len(),
{
    let ghost left = data.len() - pos;
    let ghost limit: nat = if max_match <= left { max_match as nat } else { left as nat };
    let mut length: usize = 0;
    // Match 8 bytes at a time using u64
    while length + 8 <= max_match && pos + length + 8 <= data.len()
        invariant_except_break
            candidate < pos < data.len(),
            data.len() <= isize::MAX,
            limit == (if max_match <= data.len() - pos { max_match as nat } else { (data.len() - pos) as nat }),
            length <= limit,
            common_len(data@, candidate as int, pos as int, length as nat, limit) == match_len(data@, candidate as int, pos as int, max_match as nat),
        ensures
            length <= limit,
            common_len(data@, candidate as int, pos as int, length as nat, limit) == match_len(data@, candidate as int, pos as int, max_match as nat),
        decreases data.len() - length,
    {
        let s = &data[pos + length..pos + length + 8];
        let t = &data[candidate + length..candidate + length + 8];
        let a = u64_from_le_bytes(s);
        let b = u64_from_le_bytes(t);
        proof {
            lemma_first_difference(s@, t@);
        }
        if a != b {
            let k = (a ^ b).trailing_zeros() as usize / 8;
            proof {
                assert forall|i: int| length <= i < length + k implies #[trigger] data@[candidate + i] == data@[pos + i] by {
                    assert(s@[i - length] == t@[i - length]);
                }
                assert(data@[candidate + length + k] != data@[pos + length + k]) by {
                    assert(s@[k as int] != t@[k as int]);
                }
                lemma_common_len_skip(data@, candidate as int, pos as int, length as nat, (length + k) as nat, limit);
            }
            length += k;
            break;
        }
        proof {
            assert forall|i: int| length <= i < length + 8 implies #[trigger] data@[candidate + i] == data@[pos + i] by {
                assert(s@[i - length] == t@[i - length]);
            }
            lemma_common_len_skip(data@, candidate as int, pos as int, length as nat, (length + 8) as nat, limit);
        }
        length += 8;
    }
    while length < max_match && pos + length < data.len() && data[candidate + length] == data[pos + length]
        invariant
            candidate < pos < data.len(),
            limit == (if max_match <= data.len() - pos { max_match as nat } else { (data.len() - pos) as nat }),
            length <= limit,
            common_len(data@, candidate as int, pos as int, length as nat, limit) == match_len(data@, candidate as int, pos as int, max_match as nat),
        decreases data.len() - length,
    {
        length += 1;
    }
    proof {
        lemma_common_len(data@, candidate as int, pos as int, length as nat, limit);
    }
    length
}

// ── LZ77 with two-level hash table ───────────────────────────────────────────

const FAST_SIZE: usize = 65536;
const FAST_MASK: usize = 0xFFFF;
const GOOD_SIZE: usize = 0x10_0000;
const GOOD_MASK: usize = 0xF_FFFF;

/// The slot of the fast table for the four bytes at `p`: a multiplicative hash
/// of their little-endian value, 16 bits wide.
pub open spec fn hash4(data: Seq<u8>, p: int) -> nat {
    let v = spec_u32_from_le_bytes(data.subrange(p, p + 4));
    (((v.wrapping_mul(0x9E3779B9u32) >> 16u32) as usize) & 0xFFFFusize) as nat
}

/// The slot of the good table for the eight bytes at `p`: a multiplicative hash
/// of their little-endian value, 20 bits wide.
pub open spec fn hash8(data: Seq<u8>, p: int) -> nat {
    let v = spec_u64_from_le_bytes(data.subrange(p, p + 8));
    (((v.wrapping_mul(0x517CC1B727220A95u64) >> 44u64) as usize) & 0xF_FFFFusize) as nat
}

/// The match found through the good table, whose entry is `good_cand`
/// (a position plus one, or 0 for none): its length and distance, or `(0, 0)`.
pub open spec fn search_good(data: Seq<u8>, good_cand: nat, pos: int, window: nat, max_match: nat) -> (nat, nat) {
    if good_cand > 0 {
        let cand = good_cand - 1;
        let dist = pos - cand;
        if dist <= window {
            let l = match_len(data, cand, pos, max_match);
            if l > 0 {
                (l, dist as nat)
            } else {
                (0, 0)
            }
        } else {
            (0, 0)
        }
    } else {
        (0, 0)
    }
}

/// Walks the hash chain from `cand` for up to 16 candidates, keeping the first
/// longest match; stops beyond the window, at a match of 64 bytes or more, or
/// at the end of the chain.
pub open spec fn search_chain(
    data: Seq<u8>,
    chain: Seq<u32>,
    pos: int,
    cand: int,
    steps: nat,
    best: (nat, nat),
    window: nat,
    max_match: nat,
) -> (nat, nat)
    decreases 16 - steps,
{
    if steps >= 16 {
        best
    } else {
        let dist = pos - cand;
        if dist > window {
            best
        } else {
            let l = match_len(data, cand, pos, max_match);
            let b2 = if l > best.0 {
                (l, dist as nat)
            } else {
                best
            };
            if b2.0 >= 64 || chain[cand] == 0 {
                b2
            } else {
                search_chain(data, chain, pos, chain[cand] - 1, steps + 1, b2, window, max_match)
            }
        }
    }
}

/// The best match for the bytes at `pos`, from the good table and then the fast table's chain.
pub open spec fn best_match(
    data: Seq<u8>,
    pos: int,
    fast: Seq<u32>,
    good: Seq<u32>,
    chain: Seq<u32>,
    window: nat,
    max_match: nat,
) -> (nat, nat) {
    let fast_cand = fast[hash4(data, pos) as int];
    let best = search_good(data, good[hash8(data, pos) as int] as nat, pos, window, max_match);
    if fast_cand > 0 {
        search_chain(data, chain, pos, fast_cand - 1, 0, best, window, max_match)
    } else {
        best
    }
}

/// A match for the bytes at `pos` that is either none, `(0, 0)`, or the match
/// with the bytes `best.1` back, which lie within the data before `pos`.
pub open spec fn found_match(data: Seq<u8>, pos: int, best: (nat, nat), max_match: nat) -> bool {
    best.0 == 0 || (1 <= best.1 <= pos && best.0 == match_len(data, pos - best.1, pos, max_match))
}

/// The hash tables at position `pos`: every entry names a position before
/// `pos` (plus one), and each chain link names an earlier position (plus one).
pub open spec fn tables_ok(data: Seq<u8>, pos: nat, fast: Seq<u32>, good: Seq<u32>, chain: Seq<u32>) -> bool {
    &&& fast.len() == 65536
    &&& good.len() == 0x10_0000
    &&& chain.len() == data.len()
    &&& forall|i: int| 0 <= i < 65536 ==> #[trigger] fast[i] <= pos
    &&& forall|i: int| 0 <= i < 0x10_0000 ==> #[trigger] good[i] <= pos
    &&& forall|q: int| 0 <= q < data.len() ==> #[trigger] chain[q] <= q
}

/// The tokens from `pos` on: the last eight bytes as literals; before them, a
/// match when the best match found is at least `min_match` long, else a literal.
/// After each search the chain links `pos` to the fast table's entry, and both
/// tables are pointed at `pos`.
pub open spec fn lz77_from(
    data: Seq<u8>,
    pos: nat,
    fast: Seq<u32>,
    good: Seq<u32>,
    chain: Seq<u32>,
    window: nat,
    min_match: nat,
    max_match: nat,
) -> Seq<Token>
    decreases data.len() - pos,
    when min_match >= 1
{
    if pos >= data.len() {
        Seq::empty()
    } else if pos + 8 >= data.len() {
        seq![Token::Literal(data[pos as int])] + lz77_from(data, pos + 1, fast, good, chain, window, min_match, max_match)
    } else {
        let hf = hash4(data, pos as int) as int;
        let hg = hash8(data, pos as int) as int;
        let best = best_match(data, pos as int, fast, good, chain, window, max_match);
        let chain2 = chain.update(pos as int, fast[hf]);
        let fast2 = fast.update(hf, (pos + 1) as u32);
        let good2 = good.update(hg, (pos + 1) as u32);
        if best.0 >= min_match {
            proof {
                lemma_best_match_len(data, pos as int, fast, good, chain, window, max_match);
            }
            seq![Token::Match { distance: best.1 as usize, length: best.0 as usize }] + lz77_from(
                data,
                pos + best.0,
                fast2,
                good2,
                chain2,
                window,
                min_match,
                max_match,
            )
        } else {
            seq![Token::Literal(data[pos as int])] + lz77_from(data, pos + 1, fast2, good2, chain2, window, min_match, max_match)
        }
    }
}

/// The tokens that `lz77_encode` gives for `data`, starting from empty tables.
pub open spec fn lz77_tokens(data: Seq<u8>, window: nat, min_match: nat, max_match: nat) -> Seq<Token> {
    lz77_from(
        data,
        0,
        Seq::new(65536, |i: int| 0u32),
        Seq::new(0x10_0000, |i: int| 0u32),
        Seq::new(data.len(), |i: int| 0u32),
        window,
        min_match,
        max_match,
    )
}

pub proof fn lemma_match_len(data: Seq<u8>, cand: int, pos: int, max_match: nat)
    requires
        0 <= pos <= data.len(),
    ensures
        match_len(data, cand, pos, max_match) <= max_match,
        pos + match_len(data, cand, pos, max_match) <= data.len(),
        forall|k: int| 0 <= k < match_len(data, cand, pos, max_match) ==> #[trigger] data[cand + k] == data[pos + k],
{
    let left = data.len() - pos;
    let limit: nat = if max_match <= left { max_match } else { left as nat };
    lemma_common_len(data, cand, pos, 0, limit);
}

/// A match length found at `pos` is at most what is left of the data.
pub proof fn lemma_best_match_len(
    data: Seq<u8>,
    pos: int,
    fast: Seq<u32>,
    good: Seq<u32>,
    chain: Seq<u32>,
    window: nat,
    max_match: nat,
)
    requires
        0 <= pos <= data.len(),
    ensures
        pos + best_match(data, pos, fast, good, chain, window, max_match).0 <= data.len(),
{
    let fast_cand = fast[hash4(data, pos) as int];
    let gc = good[hash8(data, pos) as int] as nat;
    if gc > 0 {
        lemma_match_len(data, gc - 1, pos, max_match);
    }
    if fast_cand > 0 {
        lemma_search_chain_len(data, chain, pos, fast_cand - 1, 0, search_good(data, gc, pos, window, max_match), window, max_match);
    }
}

proof fn lemma_search_chain_len(
    data: Seq<u8>,
    chain: Seq<u32>,
    pos: int,
    cand: int,
    steps: nat,
    best: (nat, nat),
    window: nat,
    max_match: nat,
)
    requires
        0 <= pos <= data.len(),
        pos + best.0 <= data.len(),
    ensures
        pos + search_chain(data, chain, pos, cand, steps, best, window, max_match).0 <= data.len(),
    decreases 16 - steps,
{
    if steps < 16 && pos - cand <= window {
        lemma_match_len(data, cand, pos, max_match);
        let l = match_len(data, cand, pos, max_match);
        let b2 = if l > best.0 { (l, (pos - cand) as nat) } else { best };
        if !(b2.0 >= 64 || chain[cand] == 0) {
            lemma_search_chain_len(data, chain, pos, chain[cand] - 1, steps + 1, b2, window, max_match);
        }
    }
}

/// The fast table's slot for the four bytes at `p`: see `hash4`.
fn hash4_at(data: &[u8], p: usize) -> (h: usize)
    requires
        p + 4 <= data.len(),
    ensures
        h == hash4(data@, p as int),
        h < 65536,
{
    let v = u32_from_le_bytes(&data[p..p + 4]);
    let w = (v.wrapping_mul(0x9E3779B9) >> 16) as usize;
    assert(w & 0xFFFFusize <= 0xFFFFusize) by (bit_vector);
    w & FAST_MASK
}

/// The good table's slot for the eight bytes at `p`: see `hash8`.
fn hash8_at(data: &[u8], p: usize) -> (h: usize)
    requires
        p + 8 <= data.len(),
    ensures
        h == hash8(data@, p as int),
        h < 0x10_0000,
{
    let v = u64_from_le_bytes(&data[p..p + 8]);
    let w = (v.wrapping_mul(0x517CC1B727220A95) >> 44) as usize;
    assert(w & 0xF_FFFFusize <= 0xF_FFFFusize) by (bit_vector);
    w & GOOD_MASK
}

/// Splits `data` into literals and matches: see `lz77_tokens`. Matches are at
/// least `min_match` and at most `max_match` long and reach at most
/// `window_size` back; the tokens decode to `data`.
pub fn lz77_encode(data: &[u8], window_size: usize, min_match: usize, max_match: usize) -> (tokens: Vec<Token>)
    requires
        data.len() <= isize::MAX,
        min_match >= 1,
    ensures
        tokens@ == lz77_tokens(data@, window_size as nat, min_match as nat, max_match as nat),
        matches_within(tokens@, window_size as nat, min_match as nat, max_match as nat),
        decodable(Seq::empty(), tokens@),
        lz77_decode_spec(tokens@) == data@,
{
    let mut tokens: Vec<Token> = Vec::with_capacity(data.len() / 4);
    let mut fast_table = vec![0u32; FAST_SIZE];
    let mut good_table = vec![0u32; GOOD_SIZE];
    let mut chain = vec![0u32; data.len()];
    assert(fast_table@ =~= Seq::new(65536, |i: int| 0u32));
    assert(good_table@ =~= Seq::new(0x10_0000, |i: int| 0u32));
    assert(chain@ =~= Seq::new(data.len() as nat, |i: int| 0u32));
    let ghost w = window_size as nat;
    let ghost mn = min_match as nat;
    let ghost mx = max_match as nat;
    let ghost target = lz77_tokens(data@, w, mn, mx);
    proof {
        lemma_lz77_roundtrip(data@, w, mn, mx);
        lemma_lz77_from_within(
            data@,
            0,
            Seq::new(65536, |i: int| 0u32),
            Seq::new(0x10_0000, |i: int| 0u32),
            Seq::new(data.len() as nat, |i: int| 0u32),
            w,
            mn,
            mx,
        );
    }
    let mut pos: usize = 0;
    assert(tokens@ + target =~= target);
    while pos < data.len()
        invariant
            data.len() <= isize::MAX,
            min_match >= 1,
            w == window_size,
            mn == min_match,
            mx == max_match,
            pos <= data.len(),
            tables_ok(data@, pos as nat, fast_table@, good_table@, chain@),
            tokens@ + lz77_from(data@, pos as nat, fast_table@, good_table@, chain@, w, mn, mx) == target,
        decreases data.len() - pos,
    {
        let ghost rest = lz77_from(data@, pos as nat, fast_table@, good_table@, chain@, w, mn, mx);
        if pos + 8 >= data.len() {
            tokens.push(Token::Literal(data[pos]));
            proof {
                assert(tokens@ + lz77_from(data@, (pos + 1) as nat, fast_table@, good_table@, chain@, w, mn, mx) =~= target);
            }
            pos += 1;
        } else {
            let hf = hash4_at(data, pos);
            let hg = hash8_at(data, pos);
            let fast_cand = fast_table[hf] as usize;
            let good_cand = good_table[hg] as usize;
            let mut best_distance: usize = 0;
            let mut best_length: usize = 0;
            // Check 8-byte hash (likely longer match)
            if good_cand > 0 {
                let candidate = good_cand - 1;
                let distance = pos - candidate;
                if distance <= window_size {
                    let length = match_length(data, candidate, pos, max_match);
                    if length > best_length {
                        best_length = length;
                        best_distance = distance;
                    }
                }
            }
            assert((best_length as nat, best_distance as nat) == search_good(data@, good_table@[hg as int] as nat, pos as int, w, mx));
            let ghost gbest = (best_length as nat, best_distance as nat);
            // Check 4-byte hash chain
            if fast_cand > 0 {
                let mut candidate = fast_cand - 1;
                let mut steps: usize = 0;
                let ghost chain_target = search_chain(data@, chain@, pos as int, candidate as int, 0, gbest, w, mx);
                loop
                    invariant_except_break
                        data.len() <= isize::MAX,
                        pos + 8 < data.len(),
                        candidate < pos,
                        steps < 16,
                        w == window_size,
                        mx == max_match,
                        tables_ok(data@, pos as nat, fast_table@, good_table@, chain@),
                        search_chain(data@, chain@, pos as int, candidate as int, steps as nat, (best_length as nat, best_distance as nat), w, mx) == chain_target,
                    ensures
                        (best_length as nat, best_distance as nat) == chain_target,
                    decreases 16 - steps,
                {
                    let distance = pos - candidate;
                    if distance > window_size {
                        break;
                    }
                    let length = match_length(data, candidate, pos, max_match);
                    if length > best_length {
                        best_length = length;
                        best_distance = distance;
                    }
                    if best_length >= 64 {
                        break;
                    }
                    if chain[candidate] == 0 {
                        break;
                    }
                    proof {
                        assert(chain@[candidate as int] <= candidate);
                    }
                    candidate = chain[candidate] as usize - 1;
                    steps += 1;
                    assert(search_chain(data@, chain@, pos as int, candidate as int, steps as nat, (best_length as nat, best_distance as nat), w, mx) == chain_target);
                    if steps >= 16 {
                        assert(search_chain(data@, chain@, pos as int, candidate as int, steps as nat, (best_length as nat, best_distance as nat), w, mx) == (best_length as nat, best_distance as nat));
                        break;
                    }
                }
            }
            assert((best_length as nat, best_distance as nat) == best_match(data@, pos as int, fast_table@, good_table@, chain@, w, mx));
            proof {
                lemma_best_match_len(data@, pos as int, fast_table@, good_table@, chain@, w, mx);
            }
            // Update tables
            let link = fast_table[hf];
            chain.set(pos, link);
            fast_table.set(hf, (pos + 1) as u32);
            good_table.set(hg, (pos + 1) as u32);
            if best_length >= min_match {
                tokens.push(Token::Match { distance: best_distance, length: best_length });
                proof {
                    assert(tokens@ + lz77_from(data@, (pos + best_length) as nat, fast_table@, good_table@, chain@, w, mn, mx) =~= target);
                }
                pos += best_length;
            } else {
                tokens.push(Token::Literal(data[pos]));
                proof {
                    assert(tokens@ + lz77_from(data@, (pos + 1) as nat, fast_table@, good_table@, chain@, w, mn, mx) =~= target);
                }
                pos += 1;
            }
        }
    }
    assert(tokens@ =~= target);
    tokens
}

/// The good table's match is none or a match with earlier data.
proof fn lemma_search_good_found(data: Seq<u8>, good_cand: nat, pos: int, window: nat, max_match: nat)
    requires
        good_cand <= pos,
    ensures
        found_match(data, pos, search_good(data, good_cand, pos, window, max_match), max_match),
{
}

/// Walking the chain from an earlier position keeps the match found a match with earlier data.
proof fn lemma_search_chain_found(
    data: Seq<u8>,
    chain: Seq<u32>,
    pos: int,
    cand: int,
    steps: nat,
    best: (nat, nat),
    window: nat,
    max_match: nat,
)
    requires
        0 <= cand < pos <= data.len(),
        chain.len() == data.len(),
        forall|q: int| 0 <= q < data.len() ==> #[trigger] chain[q] <= q,
        found_match(data, pos, best, max_match),
    ensures
        found_match(data, pos, search_chain(data, chain, pos, cand, steps, best, window, max_match), max_match),
    decreases 16 - steps,
{
    if steps < 16 && pos - cand <= window {
        let l = match_len(data, cand, pos, max_match);
        let b2 = if l > best.0 { (l, (pos - cand) as nat) } else { best };
        if !(b2.0 >= 64 || chain[cand] == 0) {
            assert(chain[cand] <= cand);
            lemma_search_chain_found(data, chain, pos, chain[cand] - 1, steps + 1, b2, window, max_match);
        }
    }
}

/// The bytes of the literal tokens of `tokens`, in order.
pub open spec fn literals_of(tokens: Seq<Token>) -> Seq<u8>
    decreases tokens.len(),
{
    if tokens.len() == 0 {
        seq![]
    } else {
        let rest = literals_of(tokens.drop_last());
        match tokens.last() {
            Token::Literal(b) => rest.push(b),
            Token::Match { .. } => rest,
        }
    }
}

/// The bytes of the literal tokens of `tokens`, in order.
pub fn literal_bytes(tokens: &[Token]) -> (literals: Vec<u8>)
    ensures
        literals@ == literals_of(tokens@),
{
    let mut literals: Vec<u8> = Vec::new();
    let mut i: usize = 0;
    assert(tokens@.take(0) =~= Seq::<Token>::empty());
    while i < tokens.len()
        invariant
            0 <= i <= tokens.len(),
            literals@ == literals_of(tokens@.take(i as int)),
        decreases tokens.len() - i,
    {
        assert(tokens@.take(i + 1).drop_last() =~= tokens@.take(i as int));
        if let Token::Literal(b) = &tokens[i] {
            literals.push(*b);
        }
        i = i + 1;
    }
    assert(tokens@.take(tokens.len() as int) =~= tokens@);
    literals
}

/// Copying a match from `d` bytes back extends the decoded prefix by the matched bytes.
pub proof fn lemma_copy_back(data: Seq<u8>, q: int, d: nat, l: nat)
    requires
        1 <= d <= q,
        q + l <= data.len(),
        forall|k: int| 0 <= k < l ==> #[trigger] data[q - d + k] == data[q + k],
    ensures
        copy_back(data.take(q), d, l) == data.take(q + l),
    decreases l,
{
    if l > 0 {
        let out = data.take(q);
        assert(data[q - d + 0] == data[q + 0]);
        assert(out.push(out[out.len() - d]) =~= data.take(q + 1));
        assert forall|k: int| 0 <= k < l - 1 implies #[trigger] data[(q + 1) - d + k] == data[(q + 1) + k] by {
            assert(data[q - d + (k + 1)] == data[q + (k + 1)]);
        }
        lemma_copy_back(data, q + 1, d, (l - 1) as nat);
    }
}

/// Decoding the tokens from `pos` on, after the data before `pos`, gives the data back.
pub proof fn lemma_lz77_from_roundtrip(
    data: Seq<u8>,
    pos: nat,
    fast: Seq<u32>,
    good: Seq<u32>,
    chain: Seq<u32>,
    window: nat,
    min_match: nat,
    max_match: nat,
)
    requires
        min_match >= 1,
        pos <= data.len() <= usize::MAX,
        tables_ok(data, pos, fast, good, chain),
    ensures
        decodable(data.take(pos as int), lz77_from(data, pos, fast, good, chain, window, min_match, max_match)),
        decode_from(data.take(pos as int), lz77_from(data, pos, fast, good, chain, window, min_match, max_match)) == data,
    decreases data.len() - pos,
{
    let toks = lz77_from(data, pos, fast, good, chain, window, min_match, max_match);
    if pos >= data.len() {
        assert(data.take(pos as int) =~= data);
    } else if pos + 8 >= data.len() {
        lemma_lz77_from_roundtrip(data, pos + 1, fast, good, chain, window, min_match, max_match);
        assert(data.take(pos as int).push(data[pos as int]) =~= data.take(pos as int + 1));
        assert(toks.drop_first() =~= lz77_from(data, pos + 1, fast, good, chain, window, min_match, max_match));
    } else {
        let hf = hash4(data, pos as int) as int;
        let hg = hash8(data, pos as int) as int;
        assert(hf < 65536) by {
            let v = spec_u32_from_le_bytes(data.subrange(pos as int, pos as int + 4));
            let w = (v.wrapping_mul(0x9E3779B9u32) >> 16u32) as usize;
            assert(w & 0xFFFFusize <= 0xFFFFusize) by (bit_vector);
        }
        assert(hg < 0x10_0000) by {
            let v = spec_u64_from_le_bytes(data.subrange(pos as int, pos as int + 8));
            let w = (v.wrapping_mul(0x517CC1B727220A95u64) >> 44u64) as usize;
            assert(w & 0xF_FFFFusize <= 0xF_FFFFusize) by (bit_vector);
        }
        let best = best_match(data, pos as int, fast, good, chain, window, max_match);
        lemma_best_match_len(data, pos as int, fast, good, chain, window, max_match);
        // the match found is with earlier data
        let fast_cand = fast[hf];
        let gbest = search_good(data, good[hg] as nat, pos as int, window, max_match);
        lemma_search_good_found(data, good[hg] as nat, pos as int, window, max_match);
        if fast_cand > 0 {
            lemma_search_chain_found(data, chain, pos as int, fast_cand - 1, 0, gbest, window, max_match);
        }
        assert(found_match(data, pos as int, best, max_match));
        let chain2 = chain.update(pos as int, fast[hf]);
        let fast2 = fast.update(hf, (pos + 1) as u32);
        let good2 = good.update(hg, (pos + 1) as u32);
        if best.0 >= min_match {
            let np = pos + best.0;
            assert(tables_ok(data, np, fast2, good2, chain2));
            lemma_lz77_from_roundtrip(data, np, fast2, good2, chain2, window, min_match, max_match);
            lemma_match_len(data, pos - best.1, pos as int, max_match);
            lemma_copy_back(data, pos as int, best.1, best.0);
            assert(toks[0] == Token::Match { distance: best.1 as usize, length: best.0 as usize });
            assert(toks.drop_first() =~= lz77_from(data, np, fast2, good2, chain2, window, min_match, max_match));
        } else {
            assert(tables_ok(data, pos + 1, fast2, good2, chain2));
            lemma_lz77_from_roundtrip(data, pos + 1, fast2, good2, chain2, window, min_match, max_match);
            assert(data.take(pos as int).push(data[pos as int]) =~= data.take(pos as int + 1));
            assert(toks.drop_first() =~= lz77_from(data, pos + 1, fast2, good2, chain2, window, min_match, max_match));
        }
    }
}

/// Every match among `tokens` is `min_match` to `max_match` bytes long and
/// reaches 1 to `window` bytes back.
pub open spec fn matches_within(tokens: Seq<Token>, window: nat, min_match: nat, max_match: nat) -> bool {
    forall|i: int|
        0 <= i < tokens.len() ==> match #[trigger] tokens[i] {
            Token::Literal(_) => true,
            Token::Match { distance, length } => min_match <= length <= max_match && 1 <= distance <= window,
        }
}

/// A match found is none, or within the window and at most `max_match` long.
pub open spec fn match_bounded(best: (nat, nat), window: nat, max_match: nat) -> bool {
    best.0 == 0 || (best.1 <= window && best.0 <= max_match)
}

proof fn lemma_search_chain_bounded(
    data: Seq<u8>,
    chain: Seq<u32>,
    pos: int,
    cand: int,
    steps: nat,
    best: (nat, nat),
    window: nat,
    max_match: nat,
)
    requires
        0 <= cand < pos <= data.len(),
        chain.len() == data.len(),
        forall|q: int| 0 <= q < data.len() ==> #[trigger] chain[q] <= q,
        match_bounded(best, window, max_match),
    ensures
        match_bounded(search_chain(data, chain, pos, cand, steps, best, window, max_match), window, max_match),
    decreases 16 - steps,
{
    if steps < 16 && pos - cand <= window {
        lemma_match_len(data, cand, pos, max_match);
        let l = match_len(data, cand, pos, max_match);
        let b2 = if l > best.0 { (l, (pos - cand) as nat) } else { best };
        if !(b2.0 >= 64 || chain[cand] == 0) {
            assert(chain[cand] <= cand);
            lemma_search_chain_bounded(data, chain, pos, chain[cand] - 1, steps + 1, b2, window, max_match);
        }
    }
}

/// The tokens from `pos` on keep their matches within the bounds asked for.
pub proof fn lemma_lz77_from_within(
    data: Seq<u8>,
    pos: nat,
    fast: Seq<u32>,
    good: Seq<u32>,
    chain: Seq<u32>,
    window: nat,
    min_match: nat,
    max_match: nat,
)
    requires
        min_match >= 1,
        pos <= data.len() <= usize::MAX,
        tables_ok(data, pos, fast, good, chain),
    ensures
        matches_within(lz77_from(data, pos, fast, good, chain, window, min_match, max_match), window, min_match, max_match),
    decreases data.len() - pos,
{
    let toks = lz77_from(data, pos, fast, good, chain, window, min_match, max_match);
    if pos >= data.len() {
    } else if pos + 8 >= data.len() {
        let rest = lz77_from(data, pos + 1, fast, good, chain, window, min_match, max_match);
        lemma_lz77_from_within(data, pos + 1, fast, good, chain, window, min_match, max_match);
        assert forall|i: int| 0 < i < toks.len() implies toks[i] == rest[i - 1] by {}
    } else {
        let hf = hash4(data, pos as int) as int;
        let hg = hash8(data, pos as int) as int;
        assert(hf < 65536) by {
            let v = spec_u32_from_le_bytes(data.subrange(pos as int, pos as int + 4));
            let w = (v.wrapping_mul(0x9E3779B9u32) >> 16u32) as usize;
            assert(w & 0xFFFFusize <= 0xFFFFusize) by (bit_vector);
        }
        assert(hg < 0x10_0000) by {
            let v = spec_u64_from_le_bytes(data.subrange(pos as int, pos as int + 8));
            let w = (v.wrapping_mul(0x517CC1B727220A95u64) >> 44u64) as usize;
            assert(w & 0xF_FFFFusize <= 0xF_FFFFusize) by (bit_vector);
        }
        let best = best_match(data, pos as int, fast, good, chain, window, max_match);
        lemma_best_match_len(data, pos as int, fast, good, chain, window, max_match);
        let fast_cand = fast[hf];
        let gbest = search_good(data, good[hg] as nat, pos as int, window, max_match);
        lemma_search_good_found(data, good[hg] as nat, pos as int, window, max_match);
        if good[hg] > 0 {
            lemma_match_len(data, good[hg] - 1, pos as int, max_match);
        }
        assert(match_bounded(gbest, window, max_match));
        if fast_cand > 0 {
            lemma_search_chain_found(data, chain, pos as int, fast_cand - 1, 0, gbest, window, max_match);
            lemma_search_chain_bounded(data, chain, pos as int, fast_cand - 1, 0, gbest, window, max_match);
        }
        assert(found_match(data, pos as int, best, max_match));
        assert(match_bounded(best, window, max_match));
        let chain2 = chain.update(pos as int, fast[hf]);
        let fast2 = fast.update(hf, (pos + 1) as u32);
        let good2 = good.update(hg, (pos + 1) as u32);
        let np: nat = if best.0 >= min_match { pos + best.0 } else { pos + 1 };
        assert(tables_ok(data, np, fast2, good2, chain2));
        let rest = lz77_from(data, np, fast2, good2, chain2, window, min_match, max_match);
        lemma_lz77_from_within(data, np, fast2, good2, chain2, window, min_match, max_match);
        assert forall|i: int| 0 < i < toks.len() implies toks[i] == rest[i - 1] by {}
    }
}

/// The tokens of `lz77_encode` decode to the data they were made from.
pub proof fn lemma_lz77_roundtrip(data: Seq<u8>, window: nat, min_match: nat, max_match: nat)
    requires
        min_match >= 1,
        data.len() <= usize::MAX,
    ensures
        decodable(Seq::empty(), lz77_tokens(data, window, min_match, max_match)),
        lz77_decode_spec(lz77_tokens(data, window, min_match, max_match)) == data,
{
    assert(data.take(0) =~= Seq::<u8>::empty());
    lemma_lz77_from_roundtrip(
        data,
        0,
        Seq::new(65536, |i: int| 0u32),
        Seq::new(0x10_0000, |i: int| 0u32),
        Seq::new(data.len(), |i: int| 0u32),
        window,
        min_match,
        max_match,
    );
}

} // verus!
