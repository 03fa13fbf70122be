//! Exact integer model of IEEE 754 double-precision bit patterns.
//!
//! A sample is carried as the `u64` bit pattern of a 64-bit float. Its
//! magnitude is modelled exactly as the natural number
//! `mantissa * 2^exp2`, which equals the float's absolute value scaled
//! by `2^1074`. Because the scale factor is common to every sample,
//! ratios of magnitudes — all the normalizer needs — are unchanged.

use vstd::prelude::*;

verus! {

use vstd::arithmetic::power2::pow2;
use vstd::arithmetic::power2::lemma_pow2_adds;
use vstd::arithmetic::power2::lemma_pow2_pos;
use vstd::arithmetic::power2::lemma_pow2_strictly_increases;
use vstd::arithmetic::power2::lemma2_to64;
use vstd::arithmetic::div_mod::lemma_fundamental_div_mod;

/// Divisor that isolates the sign bit: `2^63`.
pub const SIGN_DIV: u64 = 0x8000_0000_0000_0000;

/// Divisor that isolates the biased exponent within the magnitude bits: `2^52`.
pub const FRAC_DIV: u64 = 0x10_0000_0000_0000;

/// Smallest magnitude-bits value whose exponent field is all ones: `0x7FF * 2^52`.
/// Magnitude bits at or above it belong to an infinity or a NaN.
pub const MAG_NONFINITE: u64 = 0x7FF0_0000_0000_0000;

/// The sign bit of a pattern: `0` for non-negative floats, `1` for negative.
pub open spec fn sign_bit(b: u64) -> u64 {
    b / SIGN_DIV
}

/// The 63 magnitude bits: exponent and fraction, sign removed.
pub open spec fn magbits(b: u64) -> u64 {
    b % SIGN_DIV
}

/// The 11-bit biased exponent field.
pub open spec fn biased_exp(b: u64) -> u64 {
    magbits(b) / FRAC_DIV
}

/// The 52-bit fraction field.
pub open spec fn fraction(b: u64) -> u64 {
    magbits(b) % FRAC_DIV
}

/// The pattern encodes a finite float (not an infinity, not a NaN).
pub open spec fn is_finite(b: u64) -> bool {
    biased_exp(b) < 0x7FF
}

/// The pattern encodes a NaN.
pub open spec fn is_nan(b: u64) -> bool {
    biased_exp(b) == 0x7FF && fraction(b) != 0
}

/// The integral significand: the fraction with the implicit leading bit
/// restored for normal numbers. Always below `2^53`.
pub open spec fn mantissa(b: u64) -> nat {
    if biased_exp(b) == 0 {
        fraction(b) as nat
    } else {
        (fraction(b) + FRAC_DIV) as nat
    }
}

/// The power of two that, together with `mantissa`, gives the magnitude
/// scaled by `2^1074`: subnormals sit at scale `2^0`, normals at
/// `2^(biased_exp - 1)`.
pub open spec fn exp2(b: u64) -> nat {
    if biased_exp(b) == 0 {
        0
    } else {
        (biased_exp(b) - 1) as nat
    }
}

/// The float's absolute value times `2^1074`, as an exact natural number.
pub open spec fn scaled_mag(b: u64) -> nat {
    mantissa(b) * pow2(exp2(b))
}

/// The magnitude bits split exactly into exponent and fraction fields.
pub proof fn lemma_magbits_split(b: u64)
    ensures
        magbits(b) == biased_exp(b) * FRAC_DIV + fraction(b),
        fraction(b) < FRAC_DIV,
        biased_exp(b) <= 0x7FF,
        magbits(b) < SIGN_DIV,
        mantissa(b) < 0x20_0000_0000_0000,
        sign_bit(b) <= 1,
{
    lemma_fundamental_div_mod(magbits(b) as int, FRAC_DIV as int);
}

/// Two patterns with the same magnitude bits have the same scaled magnitude.
pub proof fn lemma_magbits_eq_scaled(a: u64, b: u64)
    requires
        magbits(a) == magbits(b),
    ensures
        scaled_mag(a) == scaled_mag(b),
{
}

/// The scaled magnitude vanishes exactly when the magnitude bits do.
pub proof fn lemma_scaled_mag_zero(b: u64)
    ensures
        (scaled_mag(b) == 0) == (magbits(b) == 0),
{
    lemma_magbits_split(b);
    lemma_pow2_pos(exp2(b));
    let m = mantissa(b);
    let p = pow2(exp2(b));
    if magbits(b) == 0 {
        assert(m == 0);
        assert(m * p == 0) by (nonlinear_arith)
            requires m == 0,
        ;
    } else {
        assert(m >= 1);
        assert(m * p >= 1 * p) by (nonlinear_arith)
            requires m >= 1, p >= 1,
        ;
    }
}

/// Magnitude bits at or above `MAG_NONFINITE` mark exactly the
/// non-finite patterns.
pub proof fn lemma_nonfinite_magbits(b: u64)
    ensures
        (magbits(b) >= MAG_NONFINITE) == !is_finite(b),
{
    lemma_magbits_split(b);
}

/// Strictly larger magnitude bits mean a strictly larger scaled
/// magnitude, for finite patterns.
pub proof fn lemma_scaled_mag_strict(a: u64, b: u64)
    requires
        is_finite(a),
        is_finite(b),
        magbits(a) < magbits(b),
    ensures
        scaled_mag(a) < scaled_mag(b),
{
    lemma_magbits_split(a);
    lemma_magbits_split(b);
    let ea = biased_exp(a);
    let eb = biased_exp(b);
    let ma = mantissa(a);
    let mb = mantissa(b);
    let pa = pow2(exp2(a));
    let pb = pow2(exp2(b));
    lemma_pow2_pos(exp2(a));
    lemma_pow2_pos(exp2(b));
    if ea == eb {
        assert(fraction(a) < fraction(b));
        assert(ma < mb);
        assert(ma * pb < mb * pb) by (nonlinear_arith)
            requires ma < mb, pb >= 1,
        ;
    } else {
        assert(ea < eb) by {
            if ea > eb {
                assert(biased_exp(a) * FRAC_DIV >= (biased_exp(b) + 1) * FRAC_DIV);
            }
        };
        assert(eb >= 1);
        assert(mb >= FRAC_DIV);
        if ea == 0 {
            lemma2_to64();
            assert(pa == 1);
            assert(ma * 1 == ma);
            assert(ma < FRAC_DIV);
            assert(mb * pb >= FRAC_DIV) by (nonlinear_arith)
                requires mb >= FRAC_DIV as nat, pb >= 1,
            ;
        } else {
            let d = pow2((eb - ea) as nat);
            lemma_pow2_adds((ea - 1) as nat, (eb - ea) as nat);
            assert(pb == pa * d);
            lemma2_to64();
            lemma_pow2_strictly_increases(0, (eb - ea) as nat);
            assert(d >= 2);
            assert(ma * pa < mb * (pa * d)) by (nonlinear_arith)
                requires
                    ma < 0x20_0000_0000_0000,
                    mb >= 0x10_0000_0000_0000,
                    pa >= 1,
                    d >= 2,
            ;
        }
    }
}

/// For finite patterns, the order of the magnitude bits is the order of
/// the magnitudes themselves.
pub proof fn lemma_magbits_orders(a: u64, b: u64)
    requires
        is_finite(a),
        is_finite(b),
    ensures
        (magbits(a) <= magbits(b)) == (scaled_mag(a) <= scaled_mag(b)),
{
    if magbits(a) == magbits(b) {
        lemma_magbits_eq_scaled(a, b);
    } else if magbits(a) < magbits(b) {
        lemma_scaled_mag_strict(a, b);
    } else {
        lemma_scaled_mag_strict(b, a);
    }
}

/// Splits a pattern into its exact integer components: mantissa, power
/// of two, and sign.
pub fn decompose(b: u64) -> (r: (u64, u64, bool))
    ensures
        r.0 as nat == mantissa(b),
        r.1 as nat == exp2(b),
        r.2 == (sign_bit(b) == 1),
{
    let mag: u64 = b % SIGN_DIV;
    let e: u64 = mag / FRAC_DIV;
    let f: u64 = mag % FRAC_DIV;
    let neg: bool = b / SIGN_DIV == 1;
    proof {
        lemma_magbits_split(b);
    }
    if e == 0 {
        (f, 0, neg)
    } else {
        (f + FRAC_DIV, e - 1, neg)
    }
}

} // verus!
