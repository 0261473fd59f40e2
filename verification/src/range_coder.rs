//! Range coder with adaptive binary probability models.

use vstd::prelude::*;
use vstd::arithmetic::power2::{pow2, lemma_pow2_unfold, lemma_pow2_pos, lemma_pow2_strictly_increases};
use vstd::bits::{lemma_usize_shr_is_div, lemma_usize_shl_is_mul, lemma_usize_low_bits_mask_is_mod};
use vstd::layout::unsigned_int_max_values;
use crate::sums::{
    sum_u64, lemma_sum_u64_take_step, lemma_sum_u64_update,
    lemma_sum_u64_prefix_mono, lemma_sum_u64_take_all,
};

verus! {

// ── Range Encoder ─────────────────────────────────────────────────────────────

/// The state of a range coder: `(low, range, output)`.
pub type CoderState = (nat, nat, Seq<u8>);

/// A coder state that the encoder can hold: a normalized range of at least
/// `2^24`, and `low` and `range` within 64 bits.
pub open spec fn coder_ok(c: CoderState) -> bool {
    &&& 0x100_0000 <= c.1 <= u64::MAX
    &&& c.0 <= u64::MAX
}

/// A coder state whose interval ends below `2^33`: the state of an encoder
/// that has only been given probabilities of at most 1.
pub open spec fn coder_bounded(c: CoderState) -> bool {
    c.0 + c.1 < 0x2_0000_0000
}

/// Pushes out the top byte of the 32-bit `low` while the range is below `2^24`,
/// scaling both up by a byte each time.
pub open spec fn normalize(c: CoderState) -> CoderState
    decreases (if c.1 < 0x100_0000 { 0x100_0000 - c.1 } else { 0 }),
{
    if 0 < c.1 < 0x100_0000 {
        normalize(
            ((c.0 * 256) % 0x1_0000_0000, c.1 * 256, c.2.push(((c.0 / 0x100_0000) % 256) as u8)),
        )
    } else {
        c
    }
}

/// The part of the range given to a 0 bit that has probability `prob / 2048`.
pub open spec fn split_point(range: nat, prob: u32) -> nat {
    (range / 2048) * (prob as nat)
}

/// The coder state after coding `bit` (any nonzero value codes a 1) with
/// probability `prob / 2048` that the bit is 0.
pub open spec fn encode_bit_result(c: CoderState, bit: u32, prob: u32) -> CoderState {
    let mid = split_point(c.1, prob);
    if bit == 0 {
        normalize((c.0, mid, c.2))
    } else {
        normalize((c.0 + mid, (c.1 - mid) as nat, c.2))
    }
}

/// The encoder can code `bit` with `prob` from state `c`: the arithmetic stays
/// within 64 bits and the part of the range left for the bit is not empty.
pub open spec fn bit_codable(c: CoderState, bit: u32, prob: u32) -> bool {
    let mid = split_point(c.1, prob);
    &&& mid <= u64::MAX
    &&& if bit == 0 {
        mid > 0
    } else {
        mid < c.1 && c.0 + mid <= u64::MAX
    }
}

/// Pushes out the top byte of the 32-bit `low` `k` times.
pub open spec fn flush(low: nat, out: Seq<u8>, k: nat) -> (nat, Seq<u8>)
    decreases k,
{
    if k == 0 {
        (low, out)
    } else {
        flush((low * 256) % 0x1_0000_0000, out.push(((low / 0x100_0000) % 256) as u8), (k - 1) as nat)
    }
}

/// Normalization leaves a range of at least `2^24`, only appends to the output,
/// and leaves an already normalized state alone.
pub proof fn lemma_normalize(c: CoderState)
    requires
        0 < c.1 <= u64::MAX,
        c.0 <= u64::MAX,
    ensures
        coder_ok(normalize(c)),
        normalize(c).2.len() >= c.2.len(),
        normalize(c).2.subrange(0, c.2.len() as int) == c.2,
        c.1 >= 0x100_0000 ==> normalize(c) == c,
        c.1 < 0x100_0000 ==> normalize(c).0 < 0x1_0000_0000 && normalize(c).1 < 0x1_0000_0000,
        coder_bounded(c) ==> coder_bounded(normalize(c)),
    decreases (if c.1 < 0x100_0000 { 0x100_0000 - c.1 } else { 0 }),
{
    if c.1 < 0x100_0000 {
        let d = ((c.0 * 256) % 0x1_0000_0000, c.1 * 256, c.2.push(((c.0 / 0x100_0000) % 256) as u8));
        lemma_normalize(d);
        assert forall|i: int| 0 <= i < c.2.len() implies normalize(c).2[i] == c.2[i] by {
            assert(normalize(d).2.subrange(0, d.2.len() as int)[i] == d.2[i]);
        }
        assert(normalize(c).2.subrange(0, c.2.len() as int) =~= c.2);
    } else {
        assert(c.2.subrange(0, c.2.len() as int) =~= c.2);
    }
}

/// Coding a bit only appends to the output.
pub proof fn lemma_encode_bit_appends(c: CoderState, bit: u32, prob: u32)
    requires
        coder_ok(c),
        bit_codable(c, bit, prob),
    ensures
        coder_ok(encode_bit_result(c, bit, prob)),
        encode_bit_result(c, bit, prob).2.len() >= c.2.len(),
        encode_bit_result(c, bit, prob).2.subrange(0, c.2.len() as int) == c.2,
{
    let mid = split_point(c.1, prob);
    if bit == 0 {
        lemma_normalize((c.0, mid, c.2));
    } else {
        lemma_normalize((c.0 + mid, (c.1 - mid) as nat, c.2));
    }
}

/// With a probability strictly between 0 and 1, any bit can be coded from a
/// bounded state, and the state stays bounded.
pub proof fn lemma_encode_bit_bounded(c: CoderState, bit: u32, prob: u32)
    requires
        coder_ok(c),
        coder_bounded(c),
        1 <= prob <= 2047,
    ensures
        bit_codable(c, bit, prob),
        coder_ok(encode_bit_result(c, bit, prob)),
        coder_bounded(encode_bit_result(c, bit, prob)),
        encode_bit_result(c, bit, prob).2.subrange(0, c.2.len() as int) == c.2,
{
    let q = c.1 / 2048;
    assert(q >= 1);
    assert(q * 2048 <= c.1);
    assert(q * prob >= q) by (nonlinear_arith)
        requires
            prob >= 1,
            q >= 0,
    ;
    assert(q * prob <= q * 2047) by (nonlinear_arith)
        requires
            prob <= 2047,
            q >= 0,
    ;
    let mid = split_point(c.1, prob);
    if bit == 0 {
        lemma_normalize((c.0, mid, c.2));
    } else {
        lemma_normalize((c.0 + mid, (c.1 - mid) as nat, c.2));
    }
}

/// Range encoder: codes bits into bytes, given for each bit its probability of being 0.
pub struct RangeEncoder {
    pub(crate) low: u64,
    pub(crate) range: u64,
    pub output: Vec<u8>,
}

impl View for RangeEncoder {
    type V = CoderState;

    closed spec fn view(&self) -> CoderState {
        (self.low as nat, self.range as nat, self.output@)
    }
}

impl RangeEncoder {
    /// The output of the coder state is the output vector.
    pub(crate) proof fn lemma_output_view(&self)
        ensures
            self@.2 == self.output@,
    {
    }

    /// A fresh encoder: `low` 0, the full 32-bit range, no output.
    pub fn new() -> (enc: Self)
        ensures
            enc@ == (0nat, 0xFFFF_FFFFnat, Seq::<u8>::empty()),
            coder_ok(enc@),
            coder_bounded(enc@),
    {
        RangeEncoder { low: 0, range: 0xFFFF_FFFF, output: Vec::new() }
    }

    /// Codes one bit with probability `prob / 2048` that it is 0.
    pub fn encode_bit(&mut self, bit: u32, prob: u32)
        requires
            coder_ok(old(self)@),
            bit_codable(old(self)@, bit, prob),
        ensures
            coder_ok(final(self)@),
            final(self)@ == encode_bit_result(old(self)@, bit, prob),
    {
        proof {
            let r = self.range;
            assert(r >> 11u64 == r / 2048) by (bit_vector);
        }
        let mid = (self.range >> 11) * prob as u64;
        if bit == 0 {
            self.range = mid;
        } else {
            self.low = self.low + mid;
            self.range = self.range - mid;
        }
        let ghost start: CoderState = (self.low as nat, self.range as nat, self.output@);
        proof {
            lemma_normalize(start);
        }
        // Normalize
        while self.range < 0x100_0000
            invariant
                0 < self.range,
                normalize((self.low as nat, self.range as nat, self.output@)) == normalize(start),
            decreases (if self.range < 0x100_0000 { 0x100_0000 - self.range } else { 0 }),
        {
            let low = self.low;
            let range = self.range;
            proof {
                assert((low >> 24u64) as u8 == (low / 0x100_0000) % 256) by (bit_vector);
                assert((low << 8u64) & 0xFFFF_FFFFu64 == (low * 256) % 0x1_0000_0000) by (bit_vector);
                assert((range << 8u64) & 0xFFFF_FFFFu64 == range * 256) by (bit_vector)
                    requires
                        range < 0x100_0000,
                ;
            }
            self.output.push((self.low >> 24) as u8);
            self.low = (self.low << 8) & 0xFFFF_FFFF;
            self.range = (self.range << 8) & 0xFFFF_FFFF;
        }
    }

    /// Pushes out the four bytes of `low`, top byte first.
    pub fn finish(&mut self)
        requires
            coder_ok(old(self)@),
        ensures
            coder_ok(final(self)@),
            final(self)@.0 < 0x1_0000_0000,
            final(self)@.1 == old(self)@.1,
            (final(self)@.0, final(self)@.2) == flush(old(self)@.0, old(self)@.2, 4),
    {
        let mut k: u32 = 0;
        while k < 4
            invariant
                0 <= k <= 4,
                self.range == old(self).range,
                k > 0 ==> self.low < 0x1_0000_0000,
                flush(self.low as nat, self.output@, (4 - k) as nat) == flush(old(self)@.0, old(self)@.2, 4),
            decreases 4 - k,
        {
            let low = self.low;
            proof {
                assert((low >> 24u64) as u8 == (low / 0x100_0000) % 256) by (bit_vector);
                assert((low << 8u64) & 0xFFFF_FFFFu64 == (low * 256) % 0x1_0000_0000) by (bit_vector);
                assert((low << 8u64) & 0xFFFF_FFFFu64 < 0x1_0000_0000) by (bit_vector);
            }
            self.output.push((self.low >> 24) as u8);
            self.low = (self.low << 8) & 0xFFFF_FFFF;
            k = k + 1;
        }
    }
}

// ── Bit probability model ─────────────────────────────────────────────────────

/// The probability scale of the bit models.
pub const PROB_MAX: u32 = 2048;

/// The starting probability of a 0 bit: one half.
pub const PROB_INIT: u32 = 1024;

/// The probability of a 0 after seeing `bit`: moved a 32nd of the way toward
/// `PROB_MAX` after a 0, toward 0 after a 1.
pub open spec fn adapt(prob: u32, bit: u32) -> u32 {
    if bit == 0 {
        (prob + (2048 - prob) / 32) as u32
    } else {
        (prob - prob / 32) as u32
    }
}

/// Adaptation keeps a probability strictly between 0 and 1.
pub proof fn lemma_adapt_bounds(prob: u32, bit: u32)
    requires
        1 <= prob <= 2047,
    ensures
        1 <= adapt(prob, bit) <= 2047,
{
}

/// Adaptation moves the probability of a 0 toward the bit just seen: after a 0
/// it never goes down and goes up while below 2017 (a 32nd of the gap to
/// `PROB_MAX` is then at least 1), staying at most `PROB_MAX`; after a 1 it never
/// goes up and goes down from 32 on.
pub proof fn lemma_adapt_direction(prob: u32)
    ensures
        prob <= 2048 ==> prob <= adapt(prob, 0) <= 2048,
        prob < 2017 ==> adapt(prob, 0) > prob,
        forall|bit: u32| bit != 0 ==> #[trigger] adapt(prob, bit) <= prob,
        forall|bit: u32| bit != 0 && prob >= 32 ==> #[trigger] adapt(prob, bit) < prob,
{
}

/// Tracks the probability of a 0 bit (out of `PROB_MAX`) and adapts after every bit.
pub struct BitModel {
    pub prob: u32,
}

impl BitModel {
    /// A model at one half.
    pub fn new() -> (m: Self)
        ensures
            m.prob == 1024,
    {
        BitModel { prob: PROB_INIT }
    }

    /// Codes `bit` with the model's probability, then adapts the probability to it.
    pub fn encode(&mut self, enc: &mut RangeEncoder, bit: u32)
        requires
            coder_ok(old(enc)@),
            bit_codable(old(enc)@, bit, old(self).prob),
            bit == 0 ==> old(self).prob <= 2048,
        ensures
            coder_ok(final(enc)@),
            final(enc)@ == encode_bit_result(old(enc)@, bit, old(self).prob),
            final(self).prob == adapt(old(self).prob, bit),
    {
        enc.encode_bit(bit, self.prob);
        // Adapt: move prob toward what we just saw
        let p = self.prob;
        if bit == 0 {
            proof {
                let d = (2048 - p) as u32;
                assert(d >> 5u32 == d / 32) by (bit_vector);
            }
            self.prob = self.prob + ((PROB_MAX - self.prob) >> 5);
        } else {
            proof {
                assert(p >> 5u32 == p / 32) by (bit_vector);
            }
            self.prob = self.prob - (self.prob >> 5);
        }
    }
}

// ── Multi-symbol model using binary tree of BitModels ─────────────────────────

/// The position of the highest set bit of `x` (0 for 0 and 1).
pub open spec fn floor_log2(x: nat) -> nat
    decreases x,
{
    if x <= 1 {
        0
    } else {
        1 + floor_log2(x / 2)
    }
}

/// The number of bits that a symbol below `n` is coded with: the exponent of
/// the least power of two that is at least `n`.
pub open spec fn tree_depth(n: nat) -> nat {
    if n <= 1 {
        0
    } else {
        floor_log2((n - 1) as nat) + 1
    }
}

pub proof fn lemma_floor_log2(x: nat)
    requires
        x >= 1,
    ensures
        pow2(floor_log2(x)) <= x < pow2(floor_log2(x) + 1),
        floor_log2(x) < x,
    decreases x,
{
    lemma_pow2_unfold(floor_log2(x) + 1);
    if x > 1 {
        lemma_floor_log2(x / 2);
        lemma_pow2_unfold(floor_log2(x));
        lemma_pow2_unfold(floor_log2(x / 2) + 1);
    } else {
        lemma_pow2_unfold(1);
        assert(pow2(0) == 1) by {
            vstd::arithmetic::power2::lemma2_to64();
        }
    }
}

/// `2^tree_depth(n)` is the least power of two that is at least `n` (what
/// `usize::next_power_of_two` gives), so `tree_depth(n)` is its number of trailing zeros.
pub proof fn lemma_tree_depth(n: nat)
    ensures
        n <= pow2(tree_depth(n)),
        n >= 1 ==> pow2(tree_depth(n)) < 2 * n,
        tree_depth(n) <= n,
{
    vstd::arithmetic::power2::lemma2_to64();
    if n > 1 {
        lemma_floor_log2((n - 1) as nat);
        lemma_pow2_unfold(tree_depth(n));
    }
}

/// The bit of `sym` at position `b`.
pub open spec fn bit_at(sym: nat, b: nat) -> nat {
    (sym / pow2(b)) % 2
}

/// Codes the low `bits_left` bits of `sym`, highest first, each with the model
/// at its node of the tree, starting at `node`; each model adapts after its
/// bit. Gives the coder state and the models' probabilities afterwards.
pub open spec fn tree_encode(c: CoderState, probs: Seq<u32>, node: nat, sym: nat, bits_left: nat) -> (CoderState, Seq<u32>)
    decreases bits_left,
{
    if bits_left == 0 {
        (c, probs)
    } else {
        let b = (bits_left - 1) as nat;
        let bit = bit_at(sym, b);
        let p = probs[node as int];
        tree_encode(
            encode_bit_result(c, bit as u32, p),
            probs.update(node as int, adapt(p, bit as u32)),
            node * 2 + bit,
            sym % pow2(b),
            b,
        )
    }
}

/// Every bit that `tree_encode` codes is codable when it comes.
pub open spec fn tree_codable(c: CoderState, probs: Seq<u32>, node: nat, sym: nat, bits_left: nat) -> bool
    decreases bits_left,
{
    if bits_left == 0 {
        true
    } else {
        let b = (bits_left - 1) as nat;
        let bit = bit_at(sym, b);
        let p = probs[node as int];
        &&& bit_codable(c, bit as u32, p)
        &&& tree_codable(
            encode_bit_result(c, bit as u32, p),
            probs.update(node as int, adapt(p, bit as u32)),
            node * 2 + bit,
            sym % pow2(b),
            b,
        )
    }
}

/// The tree of a model over `num_sym` symbols: one model per node of a
/// complete binary tree with `2^tree_depth(num_sym)` leaves, each probability
/// strictly between 0 and 1.
pub open spec fn tree_ok(t: (nat, Seq<u32>)) -> bool {
    &&& 2 * pow2(tree_depth(t.0)) <= usize::MAX
    &&& t.1.len() == 2 * pow2(tree_depth(t.0))
    &&& forall|i: int| 0 <= i < t.1.len() ==> 1 <= #[trigger] t.1[i] <= 2047
}

/// From a bounded coder state, a tree whose probabilities lie strictly between
/// 0 and 1 codes every bit, and leaves the coder bounded and the probabilities in range.
pub proof fn lemma_tree_codable(c: CoderState, probs: Seq<u32>, node: nat, sym: nat, bits_left: nat)
    requires
        coder_ok(c),
        coder_bounded(c),
        forall|i: int| 0 <= i < probs.len() ==> 1 <= #[trigger] probs[i] <= 2047,
        1 <= node,
        (node + 1) * pow2(bits_left) <= probs.len(),
    ensures
        tree_codable(c, probs, node, sym, bits_left),
        coder_ok(tree_encode(c, probs, node, sym, bits_left).0),
        coder_bounded(tree_encode(c, probs, node, sym, bits_left).0),
        tree_encode(c, probs, node, sym, bits_left).1.len() == probs.len(),
        forall|i: int|
            0 <= i < probs.len() ==> 1 <= #[trigger] tree_encode(c, probs, node, sym, bits_left).1[i] <= 2047,
    decreases bits_left,
{
    if bits_left > 0 {
        let b = (bits_left - 1) as nat;
        let bit = bit_at(sym, b);
        lemma_pow2_unfold(bits_left);
        lemma_pow2_pos(b);
        assert(node < probs.len()) by (nonlinear_arith)
            requires
                (node + 1) * (2 * pow2(b)) <= probs.len(),
                pow2(b) >= 1,
                node >= 1,
        ;
        let p = probs[node as int];
        lemma_encode_bit_bounded(c, bit as u32, p);
        lemma_adapt_bounds(p, bit as u32);
        let probs2 = probs.update(node as int, adapt(p, bit as u32));
        assert(bit <= 1);
        assert((node * 2 + bit + 1) * pow2(b) <= probs.len()) by (nonlinear_arith)
            requires
                (node + 1) * (2 * pow2(b)) <= probs.len(),
                bit <= 1,
                pow2(b) >= 1,
        ;
        lemma_tree_codable(encode_bit_result(c, bit as u32, p), probs2, node * 2 + bit, sym % pow2(b), b);
    }
}

/// The number of bits that a symbol below `n` is coded with.
fn tree_depth_of(n: usize) -> (d: usize)
    ensures
        d == tree_depth(n as nat),
{
    if n <= 1 {
        return 0;
    }
    let mut x = n - 1;
    let mut k: usize = 1;
    proof {
        lemma_floor_log2((n - 1) as nat);
    }
    while x > 1
        invariant
            1 <= x <= n - 1,
            n > 1,
            k + floor_log2(x as nat) == floor_log2((n - 1) as nat) + 1,
            floor_log2((n - 1) as nat) < n - 1,
        decreases x,
    {
        proof {
            lemma_floor_log2(x as nat);
        }
        x = x / 2;
        k = k + 1;
    }
    k
}

/// A model over `num_sym` symbols that codes a symbol as the bits of its index,
/// highest first, each bit with the adaptive model at its node of a binary tree.
pub struct TreeModel {
    bits: Vec<BitModel>,
    num_sym: usize,
}

impl View for TreeModel {
    type V = (nat, Seq<u32>);

    /// The number of symbols and the probabilities of the node models.
    closed spec fn view(&self) -> (nat, Seq<u32>) {
        (self.num_sym as nat, self.bits@.map_values(|m: BitModel| m.prob))
    }
}

impl TreeModel {
    /// A model over `num_symbols` symbols with every node at one half; node 0 is unused.
    pub fn new(num_symbols: usize) -> (t: Self)
        requires
            2 * pow2(tree_depth(num_symbols as nat)) <= usize::MAX,
        ensures
            t@ == (num_symbols as nat, Seq::new(2 * pow2(tree_depth(num_symbols as nat)), |i: int| 1024u32)),
            tree_ok(t@),
    {
        let d = tree_depth_of(num_symbols);
        proof {
            unsigned_int_max_values();
            lemma_pow2_pos(d as nat);
            if d + 1 >= usize::BITS {
                lemma_pow2_unfold(d as nat + 1);
                if d + 1 > usize::BITS {
                    lemma_pow2_strictly_increases(usize::BITS as nat, d as nat + 1);
                }
            }
            lemma_usize_shl_is_mul(1, d);
        }
        // Allocate a complete binary tree sized to the next power of two: nodes
        // are indexed from 1 and go up to 2 * leaves - 1 (bits[0] is unused).
        let leaves: usize = 1usize << d;
        let size = leaves * 2;
        let mut bits: Vec<BitModel> = Vec::new();
        let mut i: usize = 0;
        while i < size
            invariant
                0 <= i <= size,
                bits.len() == i,
                forall|j: int| 0 <= j < i ==> (#[trigger] bits@[j]).prob == 1024,
            decreases size - i,
        {
            bits.push(BitModel::new());
            i = i + 1;
        }
        let t = TreeModel { bits, num_sym: num_symbols };
        assert(t@.1 =~= Seq::new(2 * pow2(tree_depth(num_symbols as nat)), |i: int| 1024u32));
        t
    }

    /// Codes `symbol`: its low `tree_depth(num_sym)` bits, highest first, each
    /// with the model at its node, which then adapts. See `tree_encode`.
    pub fn encode(&mut self, enc: &mut RangeEncoder, symbol: usize)
        requires
            tree_ok(old(self)@),
            coder_ok(old(enc)@),
            tree_codable(old(enc)@, old(self)@.1, 1, symbol as nat, tree_depth(old(self)@.0)),
        ensures
            tree_ok(final(self)@),
            coder_ok(final(enc)@),
            final(self)@.0 == old(self)@.0,
            (final(enc)@, final(self)@.1) == tree_encode(old(enc)@, old(self)@.1, 1, symbol as nat, tree_depth(old(self)@.0)),
    {
        let ghost depth = tree_depth(self.num_sym as nat);
        let mut node = 1usize;
        let mut bits_left = tree_depth_of(self.num_sym);
        let mut sym = symbol;
        proof {
            unsigned_int_max_values();
            lemma_pow2_pos(depth);
            lemma_pow2_unfold(depth + 1);
            if depth + 1 >= usize::BITS {
                if depth + 1 > usize::BITS {
                    lemma_pow2_strictly_increases(usize::BITS as nat, depth + 1);
                }
            }
            assert(pow2(depth) == pow2((depth - bits_left) as nat) * pow2(bits_left as nat)) by {
                assert(depth - bits_left == 0);
                vstd::arithmetic::power2::lemma2_to64();
            }
        }
        let ghost target = tree_encode(enc@, self@.1, 1, symbol as nat, depth);
        while bits_left > 0
            invariant
                self.num_sym == old(self).num_sym,
                depth == tree_depth(self.num_sym as nat),
                bits_left <= depth,
                depth + 1 < usize::BITS,
                tree_ok(self@),
                coder_ok(enc@),
                1 <= node,
                (node + 1) * pow2(bits_left as nat) <= self.bits.len(),
                tree_codable(enc@, self@.1, node as nat, sym as nat, bits_left as nat),
                tree_encode(enc@, self@.1, node as nat, sym as nat, bits_left as nat) == target,
            decreases bits_left,
        {
            let ghost c = enc@;
            let ghost probs = self@.1;
            bits_left = bits_left - 1;
            let ghost b = bits_left as nat;
            proof {
                lemma_usize_shr_is_div(sym, bits_left);
                let y = sym >> bits_left;
                assert(y & 1 == y % 2) by (bit_vector);
                lemma_pow2_unfold(b + 1);
                lemma_pow2_pos(b);
                assert(node < self.bits.len()) by (nonlinear_arith)
                    requires
                        (node + 1) * (2 * pow2(b)) <= self.bits.len(),
                        pow2(b) >= 1,
                        node >= 1,
                ;
            }
            let bit = (sym >> bits_left) & 1;
            assert(bit as nat == bit_at(sym as nat, b));
            let p = self.bits[node].prob;
            assert(p == probs[node as int]);
            let mut m = BitModel { prob: p };
            m.encode(enc, bit as u32);
            self.bits.set(node, m);
            assert(self@.1 =~= probs.update(node as int, adapt(p, bit as u32)));
            proof {
                assert((node * 2 + bit + 1) * pow2(b) <= self.bits.len()) by (nonlinear_arith)
                    requires
                        (node + 1) * (2 * pow2(b)) <= self.bits.len(),
                        bit <= 1,
                        pow2(b) >= 1,
                ;
                assert(node * 2 + bit + 1 <= self.bits.len() && pow2(b) <= self.bits.len()) by (nonlinear_arith)
                    requires
                        (node * 2 + bit + 1) * pow2(b) <= self.bits.len(),
                        node >= 1,
                        pow2(b) >= 1,
                ;
                lemma_usize_shl_is_mul(1, bits_left);
                lemma_usize_low_bits_mask_is_mod(sym, b);
                lemma_adapt_bounds(p, bit as u32);
            }
            node = node * 2 + bit;
            sym &= (1 << bits_left) - 1;
        }
    }

    /// Codes `symbol` with the tree: see `encode`.
    pub fn encode_symbol(&mut self, enc: &mut RangeEncoder, symbol: usize)
        requires
            tree_ok(old(self)@),
            coder_ok(old(enc)@),
            tree_codable(old(enc)@, old(self)@.1, 1, symbol as nat, tree_depth(old(self)@.0)),
        ensures
            tree_ok(final(self)@),
            coder_ok(final(enc)@),
            final(self)@.0 == old(self)@.0,
            (final(enc)@, final(self)@.1) == tree_encode(old(enc)@, old(self)@.1, 1, symbol as nat, tree_depth(old(self)@.0)),
    {
        self.encode(enc, symbol);
    }

    /// Does nothing: the node models adapt as they code.
    pub fn update(&mut self, _symbol: usize)
        ensures
            final(self)@ == old(self)@,
    {
    }
}

// ── Adaptive Model (simple frequency, for compatibility) ──────────────────────

/// The coder state after coding the low `n` bits of `symbol`, highest first,
/// each with probability `prob`.
pub open spec fn encode_msb_bits(c: CoderState, symbol: nat, n: nat, prob: u32) -> CoderState
    decreases n,
{
    if n == 0 {
        c
    } else {
        encode_msb_bits(encode_bit_result(c, bit_at(symbol, (n - 1) as nat) as u32, prob), symbol, (n - 1) as nat, prob)
    }
}

/// Every bit that `encode_msb_bits` codes is codable when it comes.
pub open spec fn msb_codable(c: CoderState, symbol: nat, n: nat, prob: u32) -> bool
    decreases n,
{
    if n == 0 {
        true
    } else {
        &&& bit_codable(c, bit_at(symbol, (n - 1) as nat) as u32, prob)
        &&& msb_codable(encode_bit_result(c, bit_at(symbol, (n - 1) as nat) as u32, prob), symbol, (n - 1) as nat, prob)
    }
}

/// From a bounded coder state every bit can be coded at one half, and the state stays bounded.
pub proof fn lemma_msb_codable(c: CoderState, symbol: nat, n: nat)
    requires
        coder_ok(c),
        coder_bounded(c),
    ensures
        msb_codable(c, symbol, n, 1024),
        coder_ok(encode_msb_bits(c, symbol, n, 1024)),
        coder_bounded(encode_msb_bits(c, symbol, n, 1024)),
    decreases n,
{
    if n > 0 {
        let bit = bit_at(symbol, (n - 1) as nat) as u32;
        lemma_encode_bit_bounded(c, bit, 1024);
        lemma_msb_codable(encode_bit_result(c, bit, 1024), symbol, (n - 1) as nat);
    }
}

/// Each count halved, rounding up.
pub open spec fn halve_counts(counts: Seq<u64>) -> Seq<u64> {
    Seq::new(counts.len(), |i: int| ((counts[i] + 1) / 2) as u64)
}

/// Symbol counts with their running total.
pub struct AdaptiveModel {
    pub counts: Vec<u64>,
    pub total: u64,
}

impl AdaptiveModel {
    /// Every count at 1, and the total at the number of symbols.
    pub fn new(num_symbols: usize) -> (m: Self)
        ensures
            m.counts@ == Seq::new(num_symbols as nat, |i: int| 1u64),
            m.total == num_symbols,
            m.total == sum_u64(m.counts@),
    {
        let total = num_symbols as u64;
        let counts = vec![1u64; num_symbols];
        assert(counts@ =~= Seq::new(num_symbols as nat, |i: int| 1u64));
        proof {
            lemma_sum_ones(num_symbols as nat);
        }
        AdaptiveModel { counts, total }
    }

    /// Codes the low 8 bits of `symbol`, highest first, each at one half.
    pub fn encode_symbol(&self, enc: &mut RangeEncoder, symbol: usize)
        requires
            symbol < self.counts.len(),
            self.total > 0,
            self.counts@[symbol as int] * 2048 <= u64::MAX,
            sum_u64(self.counts@.take(symbol as int)) <= u64::MAX,
            coder_ok(old(enc)@),
            msb_codable(old(enc)@, symbol as nat, 8, 1024),
        ensures
            coder_ok(final(enc)@),
            final(enc)@ == encode_msb_bits(old(enc)@, symbol as nat, 8, 1024),
    {
        let mut low: u64 = 0;
        let mut k: usize = 0;
        assert(self.counts@.take(0) =~= Seq::<u64>::empty());
        while k < symbol
            invariant
                0 <= k <= symbol < self.counts.len(),
                sum_u64(self.counts@.take(symbol as int)) <= u64::MAX,
                low == sum_u64(self.counts@.take(k as int)),
            decreases symbol - k,
        {
            proof {
                lemma_sum_u64_take_step(self.counts@, k as int);
                lemma_sum_u64_prefix_mono(self.counts@, k as int + 1, symbol as int);
            }
            low = low + self.counts[k];
            k = k + 1;
        }
        // Encode as series of bits using the range encoder
        let p0 = ((PROB_MAX as u64 * self.counts[symbol]) / self.total) as u32;
        let _ = p0;
        // Simple: encode each bit of symbol index
        let bits = 8usize;
        let mut i = bits;
        while i > 0
            invariant
                0 <= i <= 8,
                PROB_MAX == 2048,
                coder_ok(enc@),
                msb_codable(enc@, symbol as nat, i as nat, 1024),
                encode_msb_bits(enc@, symbol as nat, i as nat, 1024) == encode_msb_bits(old(enc)@, symbol as nat, 8, 1024),
            decreases i,
        {
            i = i - 1;
            proof {
                lemma_usize_shr_is_div(symbol, i);
                let y = symbol >> i;
                assert(y & 1 == y % 2) by (bit_vector);
            }
            let bit = (symbol >> i) & 1;
            assert(bit as nat == bit_at(symbol as nat, i as nat));
            enc.encode_bit(bit as u32, PROB_MAX / 2);
        }
        let _ = low;
    }

    /// Counts `symbol`; once the total passes `2^20`, halves every count
    /// (rounding up) and recomputes the total.
    pub fn update(&mut self, symbol: usize)
        requires
            symbol < old(self).counts.len(),
            old(self).counts@[symbol as int] < u64::MAX,
            old(self).total < u64::MAX,
            old(self).total + 1 > 0x10_0000 ==> {
                let c = old(self).counts@.update(symbol as int, (old(self).counts@[symbol as int] + 1) as u64);
                &&& forall|i: int| 0 <= i < c.len() ==> #[trigger] c[i] < u64::MAX
                &&& sum_u64(halve_counts(c)) <= u64::MAX
            },
        ensures
            ({
                let c = old(self).counts@.update(symbol as int, (old(self).counts@[symbol as int] + 1) as u64);
                if old(self).total + 1 > 0x10_0000 {
                    &&& final(self).counts@ == halve_counts(c)
                    &&& final(self).total == sum_u64(halve_counts(c))
                } else {
                    &&& final(self).counts@ == c
                    &&& final(self).total == old(self).total + 1
                }
            }),
            old(self).total == sum_u64(old(self).counts@) ==> final(self).total == sum_u64(final(self).counts@),
    {
        let c0 = self.counts[symbol];
        self.counts.set(symbol, c0 + 1);
        self.total = self.total + 1;
        proof {
            lemma_sum_u64_update(old(self).counts@, symbol as int, (c0 + 1) as u64);
            assert(1u64 << 20u64 == 0x10_0000) by (bit_vector);
        }
        if self.total > 1 << 20 {
            let ghost c = self.counts@;
            self.total = 0;
            let mut k: usize = 0;
            assert(halve_counts(c).take(0) =~= Seq::<u64>::empty());
            while k < self.counts.len()
                invariant
                    0 <= k <= self.counts.len(),
                    self.counts.len() == c.len(),
                    forall|i: int| 0 <= i < c.len() ==> #[trigger] c[i] < u64::MAX,
                    sum_u64(halve_counts(c)) <= u64::MAX,
                    forall|i: int| 0 <= i < k ==> #[trigger] self.counts@[i] == halve_counts(c)[i],
                    forall|i: int| k <= i < c.len() ==> #[trigger] self.counts@[i] == c[i],
                    self.total == sum_u64(halve_counts(c).take(k as int)),
                decreases self.counts.len() - k,
            {
                proof {
                    lemma_sum_u64_take_step(halve_counts(c), k as int);
                    lemma_sum_u64_prefix_mono(halve_counts(c), k as int + 1, c.len() as int);
                    lemma_sum_u64_take_all(halve_counts(c));
                }
                let v = self.counts[k];
                let h = (v + 1) / 2;
                self.counts.set(k, h);
                self.total = self.total + h;
                k = k + 1;
            }
            assert(self.counts@ =~= halve_counts(c));
            proof {
                lemma_sum_u64_take_all(halve_counts(c));
            }
        }
    }
}

proof fn lemma_sum_ones(n: nat)
    ensures
        sum_u64(Seq::new(n, |i: int| 1u64)) == n,
    decreases n,
{
    if n > 0 {
        assert(Seq::new(n, |i: int| 1u64).drop_last() =~= Seq::new((n - 1) as nat, |i: int| 1u64));
        lemma_sum_ones((n - 1) as nat);
    }
}

} // verus!
