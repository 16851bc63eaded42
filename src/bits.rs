//! Bit-level helpers: the binary64 encoding of `2^(-r)`, the fixed-point
//! weight of a register, and the rho of a hash.

use vstd::arithmetic::power2::{lemma2_to64, lemma2_to64_rest, pow2};
use vstd::bits::lemma_u64_shl_is_mul;
use vstd::prelude::*;
use vstd::std_specs::bits::{axiom_u64_leading_zeros, u64_leading_zeros};

verus! {

/// The IEEE-754 binary64 encoding of `2^(-r)` for `0 <= r <= 64`: sign bit
/// clear, biased exponent `1023 - r`, fraction zero.
pub open spec fn binary64_pow2_neg(r: nat) -> nat {
    ((1023 - r) * pow2(52)) as nat
}

/// The bit pattern of the `f64` equal to `2^(-r)`, built without a call to
/// `powi`: all ones minus `r`, whose low ten bits are moved into the exponent.
pub fn pow2neg_bits(r: u8) -> (bits: u64)
    requires
        r <= 64,
    ensures
        bits as nat == binary64_pow2_neg(r as nat),
{
    let x = u64::MAX - r as u64;
    let bits = x << 54u64 >> 2u64;
    let rr = r as u64;
    let e = 1023 - rr;
    assert(bits == e << 52u64) by (bit_vector)
        requires
            rr <= 64,
            e == 1023 - rr,
            x == 0xffff_ffff_ffff_ffffu64 - rr,
            bits == x << 54u64 >> 2u64,
    ;
    proof {
        lemma2_to64();
        lemma2_to64_rest();
        assert(e * pow2(52) <= u64::MAX) by (nonlinear_arith)
            requires
                e <= 1023,
                pow2(52) == 0x10000000000000,
        ;
        lemma_u64_shl_is_mul(e, 52);
    }
    bits
}

/// The weight `2^(-r)` of a register holding `r`, in units of `2^(-64)`.
pub open spec fn weight(r: int) -> nat {
    pow2((64 - r) as nat)
}

/// Computes `weight(r)`.
pub fn weight_of(r: u8) -> (w: u128)
    requires
        r <= 64,
    ensures
        w as nat == weight(r as int),
{
    proof {
        lemma2_to64();
        lemma2_to64_rest();
    }
    if r == 0 {
        0x1_0000_0000_0000_0000u128
    } else {
        let s = 64 - r as u64;
        proof {
            lemma_u64_shl_is_mul(1, s);
        }
        (1u64 << s) as u128
    }
}

/// One plus the number of leading zeros of the tail `x >> p` within its
/// `64 - p` significant bits.
pub open spec fn rho_of(x: u64, p: u8) -> int {
    u64_leading_zeros(x >> p) - p + 1
}

/// The rho of the hash `x` in a sketch of precision `p`.
pub fn get_rho(x: u64, p: u8) -> (rho: u8)
    requires
        1 <= p < 64,
    ensures
        rho as int == rho_of(x, p),
        1 <= rho <= 65 - p,
{
    let w = x >> p;
    let lz = w.leading_zeros();
    proof {
        axiom_u64_leading_zeros(w);
        let l = u64_leading_zeros(w);
        if l < p {
            let k = (63 - l) as u64;
            let pp = p as u64;
            assert((x >> pp) >> k & 1u64 == 0u64) by (bit_vector)
                requires
                    64 - pp <= k < 64,
                    1 <= pp < 64,
            ;
        }
    }
    (lz as u8) - p + 1
}

} // verus!
