//! Morris-style deletion counters: exact below a pivot of 128, and above it
//! a step taken with probability `2^-(counter - 128)`.
//!
//! Every function here takes the uniform 64-bit draw as an argument, so its
//! result is fixed for each draw.

use vstd::arithmetic::power2::{lemma2_to64, lemma2_to64_rest, pow2};
use vstd::bits::lemma_u64_shl_is_mul;
use vstd::prelude::*;

verus! {

/// Above this value a counter moves only with probability `2^-(c - PIVOT)`.
pub const PIVOT: u8 = 128;

/// Whether the draw `d` grants a step of probability `2^-power`: `d` is a
/// multiple of `2^power`. No draw grants a power of 64 or more.
pub open spec fn chance(power: int, d: u64) -> bool {
    power < 64 && d as int % pow2(power as nat) as int == 0
}

/// Decides a step of probability `2^-power` from the draw `d`.
pub fn is_change_power(power: u32, d: u64) -> (r: bool)
    requires
        power >= 1,
    ensures
        r == chance(power as int, d),
{
    if power >= 64 {
        return false;
    }
    proof {
        lemma2_to64();
        lemma2_to64_rest();
        lemma_u64_shl_is_mul(1, power as u64);
    }
    d % (1u64 << power as u64) == 0
}

/// A counter after one insertion.
pub open spec fn incremented(c: u8, d: u64) -> u8 {
    if c <= PIVOT {
        (c + 1) as u8
    } else if chance(c - PIVOT, d) {
        (c + 1) as u8
    } else {
        c
    }
}

/// A counter after one removal.
pub open spec fn decremented(c: u8, d: u64) -> u8 {
    if c == 0 {
        0
    } else if c <= PIVOT {
        (c - 1) as u8
    } else if chance(c - PIVOT, d) {
        (c - 1) as u8
    } else {
        c
    }
}

/// The counter `to` after a union with `from`: the exact sum while it stays
/// at or below the pivot, else one probabilistic step up.
pub open spec fn merged_for_union(to: u8, from: u8, d: u64) -> u8 {
    if to + from > PIVOT {
        if chance(to + from - PIVOT, d) {
            (to + 1) as u8
        } else {
            to
        }
    } else {
        (to + from) as u8
    }
}

/// The counter `to` after an intersection with `from`: the same saturating
/// add as for a union (only the slot it is applied to differs).
pub open spec fn merged_for_intersect(to: u8, from: u8, d: u64) -> u8 {
    merged_for_union(to, from, d)
}

/// Computes `incremented(c, d)`.
pub fn increment(c: u8, d: u64) -> (r: u8)
    ensures
        r == incremented(c, d),
        c < r ==> r == c + 1,
        r >= c,
{
    if c <= PIVOT {
        c + 1
    } else if is_change_power((c - PIVOT) as u32, d) {
        c + 1
    } else {
        c
    }
}

/// Computes `decremented(c, d)`.
pub fn decrement(c: u8, d: u64) -> (r: u8)
    ensures
        r == decremented(c, d),
        r <= c,
        c > 0 && r < c ==> r == c - 1,
{
    if c == 0 {
        0
    } else if c <= PIVOT {
        c - 1
    } else if is_change_power((c - PIVOT) as u32, d) {
        c - 1
    } else {
        c
    }
}

/// Computes `merged_for_union(to, from, d)`.
pub fn merge_for_union(to: u8, from: u8, d: u64) -> (r: u8)
    ensures
        r == merged_for_union(to, from, d),
        r >= to,
{
    let total = to as u32 + from as u32;
    if total > PIVOT as u32 {
        if is_change_power(total - PIVOT as u32, d) {
            to + 1
        } else {
            to
        }
    } else {
        to + from
    }
}

/// Computes `merged_for_intersect(to, from, d)`.
pub fn merge_for_intersect(to: u8, from: u8, d: u64) -> (r: u8)
    ensures
        r == merged_for_intersect(to, from, d),
        r >= to,
{
    merge_for_union(to, from, d)
}

} // verus!
