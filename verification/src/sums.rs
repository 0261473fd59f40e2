//! Sums of integer sequences, and the facts about them that the coders use.

use vstd::prelude::*;

verus! {

/// The sum of a sequence of 32-bit values, taken as a mathematical integer.
pub open spec fn sum_u32(s: Seq<u32>) -> int
    decreases s.len(),
{
    if s.len() == 0 {
        0
    } else {
        sum_u32(s.drop_last()) + s.last()
    }
}

/// The sum of a sequence of 64-bit values, taken as a mathematical integer.
pub open spec fn sum_u64(s: Seq<u64>) -> int
    decreases s.len(),
{
    if s.len() == 0 {
        0
    } else {
        sum_u64(s.drop_last()) + s.last()
    }
}

/// Extending a prefix by one element adds that element to the sum.
pub proof fn lemma_sum_u32_take_step(s: Seq<u32>, i: int)
    requires
        0 <= i < s.len(),
    ensures
        sum_u32(s.take(i + 1)) == sum_u32(s.take(i)) + s[i],
{
    assert(s.take(i + 1).drop_last() =~= s.take(i));
}

/// Replacing one element changes the sum by the difference.
pub proof fn lemma_sum_u32_update(s: Seq<u32>, j: int, v: u32)
    requires
        0 <= j < s.len(),
    ensures
        sum_u32(s.update(j, v)) == sum_u32(s) - s[j] + v,
    decreases s.len(),
{
    if j == s.len() - 1 {
        assert(s.update(j, v).drop_last() =~= s.drop_last());
    } else {
        lemma_sum_u32_update(s.drop_last(), j, v);
        assert(s.update(j, v).drop_last() =~= s.drop_last().update(j, v));
    }
}

/// Prefix sums never decrease.
pub proof fn lemma_sum_u32_prefix_mono(s: Seq<u32>, i: int, j: int)
    requires
        0 <= i <= j <= s.len(),
    ensures
        sum_u32(s.take(i)) <= sum_u32(s.take(j)),
    decreases j - i,
{
    if i < j {
        lemma_sum_u32_prefix_mono(s, i, j - 1);
        lemma_sum_u32_take_step(s, j - 1);
    }
}

/// The whole sequence is its own longest prefix.
pub proof fn lemma_sum_u32_take_all(s: Seq<u32>)
    ensures
        sum_u32(s.take(s.len() as int)) == sum_u32(s),
{
    assert(s.take(s.len() as int) =~= s);
}

/// A prefix sum is at most the whole sum.
pub proof fn lemma_sum_u32_prefix_le(s: Seq<u32>, i: int)
    requires
        0 <= i <= s.len(),
    ensures
        0 <= sum_u32(s.take(i)) <= sum_u32(s),
{
    lemma_sum_u32_prefix_mono(s, 0, i);
    lemma_sum_u32_prefix_mono(s, i, s.len() as int);
    lemma_sum_u32_take_all(s);
    assert(s.take(0) =~= Seq::<u32>::empty());
}

/// Each element is at most the sum.
pub proof fn lemma_sum_u32_elem_le(s: Seq<u32>, i: int)
    requires
        0 <= i < s.len(),
    ensures
        s[i] <= sum_u32(s),
{
    lemma_sum_u32_take_step(s, i);
    lemma_sum_u32_prefix_le(s, i);
    lemma_sum_u32_prefix_le(s, i + 1);
}

/// A sequence whose elements are all at most `b` sums to at most `b` times its length.
pub proof fn lemma_sum_u32_bounded(s: Seq<u32>, b: int)
    requires
        forall|i: int| 0 <= i < s.len() ==> s[i] <= b,
    ensures
        sum_u32(s) <= b * s.len(),
    decreases s.len(),
{
    if s.len() > 0 {
        lemma_sum_u32_bounded(s.drop_last(), b);
        assert(b * s.len() == b * s.drop_last().len() + b) by (nonlinear_arith)
            requires
                s.drop_last().len() + 1 == s.len(),
        ;
    }
}

/// Extending a prefix by one element adds that element to the sum.
pub proof fn lemma_sum_u64_take_step(s: Seq<u64>, i: int)
    requires
        0 <= i < s.len(),
    ensures
        sum_u64(s.take(i + 1)) == sum_u64(s.take(i)) + s[i],
{
    assert(s.take(i + 1).drop_last() =~= s.take(i));
}

/// Replacing one element changes the sum by the difference.
pub proof fn lemma_sum_u64_update(s: Seq<u64>, j: int, v: u64)
    requires
        0 <= j < s.len(),
    ensures
        sum_u64(s.update(j, v)) == sum_u64(s) - s[j] + v,
    decreases s.len(),
{
    if j == s.len() - 1 {
        assert(s.update(j, v).drop_last() =~= s.drop_last());
    } else {
        lemma_sum_u64_update(s.drop_last(), j, v);
        assert(s.update(j, v).drop_last() =~= s.drop_last().update(j, v));
    }
}

/// Prefix sums never decrease.
pub proof fn lemma_sum_u64_prefix_mono(s: Seq<u64>, i: int, j: int)
    requires
        0 <= i <= j <= s.len(),
    ensures
        sum_u64(s.take(i)) <= sum_u64(s.take(j)),
    decreases j - i,
{
    if i < j {
        lemma_sum_u64_prefix_mono(s, i, j - 1);
        lemma_sum_u64_take_step(s, j - 1);
    }
}

/// The whole sequence is its own longest prefix.
pub proof fn lemma_sum_u64_take_all(s: Seq<u64>)
    ensures
        sum_u64(s.take(s.len() as int)) == sum_u64(s),
{
    assert(s.take(s.len() as int) =~= s);
}

} // verus!
