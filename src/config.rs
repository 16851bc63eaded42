//! Choice of precision from an error rate.
//!
//! For an error rate `e`, the precision is `p = ceil(2 * log2(1.04 / e))`,
//! the least `p` with `2^p >= (1.04 / e)^2`. With `e = n / d` that is the
//! least `p` with `2^p * n^2 * 10000 >= 10816 * d^2`, decided here exactly.

use vstd::arithmetic::power2::{lemma2_to64, lemma_pow2_strictly_increases, pow2};
use vstd::prelude::*;

verus! {

/// Smallest precision the sketch supports.
pub const MIN_PRECISION: u8 = 4;

/// Largest precision the sketch supports.
pub const MAX_PRECISION: u8 = 16;

/// Why a sketch could not be configured.
#[derive(Debug, Clone, Copy, PartialEq, Eq, Structural)]
pub enum ConfigError {
    /// The error rate is not strictly between 0 and 1.
    ErrorRateOutOfRange,
    /// The precision the error rate asks for is outside `[4, 16]`.
    PrecisionOutOfRange,
}

/// Whether precision `p` reaches the error rate `n / d`.
pub open spec fn reaches(n: nat, d: nat, p: nat) -> bool {
    pow2(p) * (n * n * 10000) >= 10816 * (d * d)
}

/// Whether `n / d` is a valid error rate: strictly between 0 and 1.
pub open spec fn valid_rate(n: nat, d: nat) -> bool {
    0 < n < d
}

/// Whether `p` is the supported precision chosen for the error rate `n / d`:
/// the least precision that reaches it, within `[4, 16]`.
pub open spec fn chosen(n: nat, d: nat, p: nat) -> bool {
    &&& MIN_PRECISION <= p <= MAX_PRECISION
    &&& reaches(n, d, p)
    &&& !reaches(n, d, (p - 1) as nat)
}

/// What configuring with the error rate `n / d` gives: the chosen precision,
/// or the error that explains why there is none.
pub open spec fn configured(n: nat, d: nat, r: Result<u8, ConfigError>) -> bool {
    match r {
        Ok(p) => valid_rate(n, d) && chosen(n, d, p as nat),
        Err(ConfigError::ErrorRateOutOfRange) => !valid_rate(n, d),
        Err(ConfigError::PrecisionOutOfRange) => valid_rate(n, d) && forall|p: nat|
            !#[trigger] chosen(n, d, p),
    }
}

/// A finer precision reaches every error rate a coarser one reaches.
pub proof fn lemma_reaches_monotone(n: nat, d: nat, a: nat, b: nat)
    requires
        a <= b,
        reaches(n, d, a),
    ensures
        reaches(n, d, b),
{
    if a < b {
        lemma_pow2_strictly_increases(a, b);
    }
    let x = n * n * 10000;
    assert(pow2(b) * x >= pow2(a) * x) by (nonlinear_arith)
        requires
            pow2(b) >= pow2(a),
    ;
}

/// Precision for the error rate `numerator / denominator`.
pub fn precision_for_error_rate(numerator: u32, denominator: u32) -> (r: Result<u8, ConfigError>)
    ensures
        configured(numerator as nat, denominator as nat, r),
{
    if numerator == 0 || numerator >= denominator {
        return Err(ConfigError::ErrorRateOutOfRange);
    }
    let n = numerator as u128;
    let d = denominator as u128;
    assert(n * n <= 0xffff_ffffu128 * 0xffff_ffffu128) by (nonlinear_arith)
        requires
            n <= 0xffff_ffffu128,
    ;
    assert(d * d <= 0xffff_ffffu128 * 0xffff_ffffu128) by (nonlinear_arith)
        requires
            d <= 0xffff_ffffu128,
    ;
    let lhs = n * n * 10000;
    let rhs = 10816 * (d * d);
    let mut scaled: u128 = lhs;
    let mut p: u8 = 0;
    proof {
        lemma2_to64();
    }
    while p <= MAX_PRECISION && scaled < rhs
        invariant
            p <= MAX_PRECISION + 1,
            lhs == n * n * 10000,
            rhs == 10816 * (d * d),
            0 < n < d <= u32::MAX,
            scaled == pow2(p as nat) * lhs,
            pow2(p as nat) <= pow2(17),
            pow2(17) == 0x20000,
            forall|q: nat| q < p ==> !reaches(n as nat, d as nat, q),
        decreases MAX_PRECISION + 1 - p,
    {
        proof {
            assert(pow2((p + 1) as nat) == 2 * pow2(p as nat)) by {
                vstd::arithmetic::power2::lemma_pow2_unfold((p + 1) as nat);
            }
            if p < MAX_PRECISION {
                lemma_pow2_strictly_increases((p + 1) as nat, 17);
            }
            assert(scaled * 2 <= 0x40000 * (0xffff_ffffu128 * 0xffff_ffffu128 * 10000)) by (nonlinear_arith)
                requires
                    scaled == pow2(p as nat) * lhs,
                    pow2(p as nat) <= 0x20000,
                    lhs == n * n * 10000,
                    n <= 0xffff_ffffu128,
            ;
            assert(scaled * 2 == pow2((p + 1) as nat) * lhs) by (nonlinear_arith)
                requires
                    scaled == pow2(p as nat) * lhs,
                    pow2((p + 1) as nat) == 2 * pow2(p as nat),
            ;
        }
        scaled = scaled * 2;
        p = p + 1;
    }
    if p > MAX_PRECISION {
        proof {
            assert forall|q: nat| !#[trigger] chosen(n as nat, d as nat, q) by {
                if chosen(n as nat, d as nat, q) {
                    lemma_reaches_monotone(n as nat, d as nat, q, MAX_PRECISION as nat);
                }
            }
        }
        return Err(ConfigError::PrecisionOutOfRange);
    }
    if p < MIN_PRECISION {
        proof {
            if p < 3 {
                lemma_pow2_strictly_increases(p as nat, 3);
            }
            assert(pow2(3) * lhs >= scaled) by (nonlinear_arith)
                requires
                    scaled == pow2(p as nat) * lhs,
                    pow2(3) >= pow2(p as nat),
            ;
            assert forall|q: nat| !#[trigger] chosen(n as nat, d as nat, q) by {
                if chosen(n as nat, d as nat, q) {
                    lemma_reaches_monotone(n as nat, d as nat, 3, (q - 1) as nat);
                }
            }
        }
        return Err(ConfigError::PrecisionOutOfRange);
    }
    Ok(p)
}

} // verus!
