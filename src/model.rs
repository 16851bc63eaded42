//! Mathematical model of a sketch's register and counter arrays, with the
//! lemmas that relate the cached aggregates to it.

use crate::bits::weight;
use vstd::arithmetic::power2::{lemma2_to64, lemma2_to64_rest, lemma_pow2_strictly_increases, pow2};
use vstd::prelude::*;

verus! {

/// Number of registers equal to zero.
pub open spec fn zero_count(s: Seq<u8>) -> nat
    decreases s.len(),
{
    if s.len() == 0 {
        0
    } else {
        zero_count(s.drop_last()) + if s.last() == 0 { 1nat } else { 0nat }
    }
}

/// Sum of `2^(-s[i])` over all registers, in units of `2^(-64)`.
pub open spec fn weight_sum(s: Seq<u8>) -> nat
    decreases s.len(),
{
    if s.len() == 0 {
        0
    } else {
        weight_sum(s.drop_last()) + weight(s.last() as int)
    }
}

/// The highest index holding a nonzero counter, or 0 when there is none.
pub open spec fn top(c: Seq<u8>) -> int
    decreases c.len(),
{
    if c.len() == 0 {
        0
    } else if c.last() > 0 {
        c.len() - 1
    } else {
        top(c.drop_last())
    }
}

/// The highest index `i` with `1 <= i <= k` and `c[i] > 0`, or 0 when there
/// is none.
pub open spec fn highest_below(c: Seq<u8>, k: int) -> int
    decreases k,
{
    if k <= 0 {
        0
    } else if c[k] > 0 {
        k
    } else {
        highest_below(c, k - 1)
    }
}

/// Largest register value a sketch of precision `p` can hold.
pub open spec fn max_rho(p: nat) -> int {
    65 - p
}

/// Number of deletion counters kept for each register: one per value that
/// the register can take.
pub open spec fn slots(p: nat) -> int {
    66 - p
}

pub proof fn lemma_zero_count_update(s: Seq<u8>, i: int, v: u8)
    requires
        0 <= i < s.len(),
    ensures
        zero_count(s.update(i, v)) + (if s[i] == 0 { 1int } else { 0int }) == zero_count(s) + (
        if v == 0 { 1int } else { 0int }),
    decreases s.len(),
{
    let t = s.update(i, v);
    if i == s.len() - 1 {
        assert(t.drop_last() =~= s.drop_last());
    } else {
        assert(t.drop_last() =~= s.drop_last().update(i, v));
        lemma_zero_count_update(s.drop_last(), i, v);
    }
}

pub proof fn lemma_weight_sum_update(s: Seq<u8>, i: int, v: u8)
    requires
        0 <= i < s.len(),
    ensures
        weight_sum(s.update(i, v)) + weight(s[i] as int) == weight_sum(s) + weight(v as int),
    decreases s.len(),
{
    let t = s.update(i, v);
    if i == s.len() - 1 {
        assert(t.drop_last() =~= s.drop_last());
    } else {
        assert(t.drop_last() =~= s.drop_last().update(i, v));
        lemma_weight_sum_update(s.drop_last(), i, v);
    }
}

pub proof fn lemma_zero_count_bound(s: Seq<u8>)
    ensures
        zero_count(s) <= s.len(),
        zero_count(s) == s.len() <==> (forall|i: int| 0 <= i < s.len() ==> s[i] == 0),
    decreases s.len(),
{
    if s.len() > 0 {
        lemma_zero_count_bound(s.drop_last());
        if zero_count(s) == s.len() {
            assert forall|i: int| 0 <= i < s.len() implies s[i] == 0 by {
                if i < s.len() - 1 {
                    assert(s[i] == s.drop_last()[i]);
                }
            }
        }
        if forall|i: int| 0 <= i < s.len() ==> s[i] == 0 {
            assert forall|i: int| 0 <= i < s.drop_last().len() implies s.drop_last()[i] == 0 by {
                assert(s[i] == 0);
            }
        }
    }
}

pub proof fn lemma_weight_le(r: int)
    requires
        0 <= r <= 64,
    ensures
        1 <= weight(r) <= pow2(64),
        pow2(64) == 0x1_0000_0000_0000_0000,
{
    lemma2_to64();
    lemma2_to64_rest();
    if r > 0 {
        lemma_pow2_strictly_increases((64 - r) as nat, 64);
    }
    if r < 64 {
        lemma_pow2_strictly_increases(0, (64 - r) as nat);
    }
}

pub proof fn lemma_weight_sum_bound(s: Seq<u8>)
    requires
        forall|i: int| 0 <= i < s.len() ==> s[i] <= 64,
    ensures
        weight_sum(s) <= s.len() * 0x1_0000_0000_0000_0000,
    decreases s.len(),
{
    if s.len() > 0 {
        assert forall|i: int| 0 <= i < s.drop_last().len() implies s.drop_last()[i] <= 64 by {
            assert(s[i] <= 64);
        }
        lemma_weight_sum_bound(s.drop_last());
        lemma_weight_le(s.last() as int);
    }
}

/// `m` registers, all zero.
pub open spec fn zeros(m: nat) -> Seq<u8> {
    Seq::new(m, |i: int| 0u8)
}

pub proof fn lemma_zeros_aggregates(m: nat)
    ensures
        zero_count(zeros(m)) == m,
        weight_sum(zeros(m)) == m * 0x1_0000_0000_0000_0000,
    decreases m,
{
    lemma_weight_le(0);
    if m > 0 {
        assert(zeros(m).drop_last() =~= zeros((m - 1) as nat));
        lemma_zeros_aggregates((m - 1) as nat);
    }
}

/// Aggregates of a prefix grow by the next element.
pub proof fn lemma_prefix_step(s: Seq<u8>, i: int)
    requires
        0 <= i < s.len(),
    ensures
        zero_count(s.take(i + 1)) == zero_count(s.take(i)) + if s[i] == 0 { 1nat } else { 0nat },
        weight_sum(s.take(i + 1)) == weight_sum(s.take(i)) + weight(s[i] as int),
{
    assert(s.take(i + 1).drop_last() =~= s.take(i));
}

pub proof fn lemma_top_bounds(c: Seq<u8>)
    ensures
        0 <= top(c),
        c.len() > 0 ==> top(c) < c.len(),
        top(c) > 0 ==> c[top(c)] > 0,
        forall|j: int| top(c) < j < c.len() ==> c[j] == 0,
    decreases c.len(),
{
    if c.len() > 0 && c.last() == 0 {
        lemma_top_bounds(c.drop_last());
        assert forall|j: int| top(c) < j < c.len() implies c[j] == 0 by {
            if j < c.len() - 1 {
                assert(c[j] == c.drop_last()[j]);
            }
        }
    }
}

/// `top` is the index of the last nonzero counter above zero.
pub proof fn lemma_top_is(c: Seq<u8>, t: int)
    requires
        0 <= t < c.len(),
        t == 0 || c[t] > 0,
        forall|j: int| t < j < c.len() ==> c[j] == 0,
    ensures
        top(c) == t,
    decreases c.len(),
{
    if c.last() == 0 {
        if t == c.len() - 1 {
            assert(t == 0);
            assert(c.drop_last().len() == 0);
            assert(top(c.drop_last()) == 0);
        } else {
            assert forall|j: int| t < j < c.drop_last().len() implies c.drop_last()[j] == 0 by {
                assert(c[j] == 0);
            }
            lemma_top_is(c.drop_last(), t);
        }
    } else if t < c.len() - 1 {
        assert(c[c.len() - 1] == 0);
    }
}

/// `highest_below` finds the last nonzero counter at or below `k`.
pub proof fn lemma_highest_below(c: Seq<u8>, k: int)
    requires
        0 <= k < c.len(),
    ensures
        0 <= highest_below(c, k) <= k,
        highest_below(c, k) > 0 ==> c[highest_below(c, k)] > 0,
        forall|j: int| highest_below(c, k) < j <= k ==> c[j] == 0,
    decreases k,
{
    if k > 0 && c[k] == 0 {
        lemma_highest_below(c, k - 1);
    }
}

} // verus!
