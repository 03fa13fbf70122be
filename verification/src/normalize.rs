//! Peak detection and fixed-point rescaling of a flattened sample row.
//!
//! Every sample is an IEEE 754 double carried as its bit pattern. The
//! peak is the sample of largest absolute value; each sample `v` is
//! mapped to `trunc_toward_zero(v * 32767 / peak)`, computed exactly on
//! the integer magnitudes, so the result equals the mathematical
//! quotient truncated toward zero.

use vstd::prelude::*;

verus! {

use vstd::arithmetic::power2::pow2;
use vstd::arithmetic::power2::lemma_pow2_adds;
use vstd::arithmetic::power2::lemma_pow2_pos;
use vstd::arithmetic::power2::lemma_pow2_strictly_increases;
use vstd::arithmetic::power2::lemma2_to64;
use vstd::arithmetic::power2::lemma2_to64_rest;
use vstd::arithmetic::mul::lemma_mul_inequality;
use vstd::arithmetic::mul::lemma_mul_inequality_converse;
use vstd::arithmetic::mul::lemma_mul_nonnegative;
use vstd::arithmetic::div_mod::lemma_basic_div;
use vstd::arithmetic::div_mod::lemma_div_denominator;
use vstd::arithmetic::div_mod::lemma_div_multiples_vanish;
use vstd::arithmetic::div_mod::lemma_div_is_ordered;
use vstd::arithmetic::div_mod::lemma_small_mod;
use crate::float_bits::SIGN_DIV;
use crate::float_bits::MAG_NONFINITE;
use crate::float_bits::sign_bit;
use crate::float_bits::magbits;
use crate::float_bits::exp2;
use crate::float_bits::scaled_mag;
use crate::float_bits::is_finite;
use crate::float_bits::decompose;
use crate::float_bits::lemma_magbits_split;
use crate::float_bits::lemma_magbits_orders;
use crate::float_bits::lemma_scaled_mag_zero;
use crate::float_bits::lemma_nonfinite_magbits;
use crate::PipelineError;

/// Largest magnitude representable in a signed 16-bit sample; the
/// normalization target.
pub const SCALE_MAX: u64 = 32767;

/// The largest magnitude bits over a sequence of sample patterns
/// (`0` for the empty sequence).
pub open spec fn peak_magbits(f: Seq<u64>) -> u64
    decreases f.len(),
{
    if f.len() == 0 {
        0
    } else {
        let rest = peak_magbits(f.drop_last());
        if magbits(f.last()) > rest {
            magbits(f.last())
        } else {
            rest
        }
    }
}

/// Every sample in the sequence encodes a finite float.
pub open spec fn all_finite(f: Seq<u64>) -> bool {
    forall|k: int| 0 <= k < f.len() ==> is_finite(#[trigger] f[k])
}

/// The normalizer succeeds exactly on these inputs: non-empty, all
/// samples finite, and a nonzero peak magnitude.
pub open spec fn norm_ok(f: Seq<u64>) -> bool {
    &&& f.len() > 0
    &&& all_finite(f)
    &&& peak_magbits(f) != 0
}

/// A sample scaled against a peak pattern: the magnitude ratio times
/// `32767`, truncated toward zero, with the sample's sign applied.
pub open spec fn scale_spec(b: u64, peak: u64) -> int {
    let q = (scaled_mag(b) * SCALE_MAX) as int / (scaled_mag(peak) as int);
    if sign_bit(b) == 1 {
        -q
    } else {
        q
    }
}

/// The normalizer's output as a sequence of mathematical integers.
pub open spec fn normalize_spec(f: Seq<u64>) -> Seq<int> {
    Seq::new(f.len(), |k: int| scale_spec(f[k], peak_magbits(f)))
}

/// No sample's magnitude bits exceed the peak's.
pub proof fn lemma_peak_is_bound(f: Seq<u64>)
    ensures
        forall|k: int| 0 <= k < f.len() ==> magbits(#[trigger] f[k]) <= peak_magbits(f),
    decreases f.len(),
{
    if f.len() > 0 {
        lemma_peak_is_bound(f.drop_last());
        assert forall|k: int| 0 <= k < f.len() implies magbits(#[trigger] f[k]) <= peak_magbits(f) by {
            if k < f.len() - 1 {
                assert(f.drop_last()[k] == f[k]);
            }
        }
    }
}

/// Some sample attains the peak magnitude bits.
pub proof fn lemma_peak_is_attained(f: Seq<u64>)
    requires
        f.len() > 0,
    ensures
        exists|k: int| 0 <= k < f.len() && magbits(#[trigger] f[k]) == peak_magbits(f),
    decreases f.len(),
{
    let rest = f.drop_last();
    if f.len() == 1 {
        assert(magbits(f[0]) == peak_magbits(f));
    } else if magbits(f.last()) > peak_magbits(rest) {
        assert(magbits(f[f.len() - 1]) == peak_magbits(f));
    } else {
        lemma_peak_is_attained(rest);
        let k = choose|k: int| 0 <= k < rest.len() && magbits(#[trigger] rest[k]) == peak_magbits(rest);
        assert(magbits(f[k]) == peak_magbits(f));
    }
}

/// The peak stays below the non-finite threshold exactly when every
/// sample is finite.
pub proof fn lemma_peak_finite(f: Seq<u64>)
    ensures
        (peak_magbits(f) < MAG_NONFINITE) == all_finite(f),
{
    if peak_magbits(f) < MAG_NONFINITE {
        lemma_peak_is_bound(f);
        assert forall|k: int| 0 <= k < f.len() implies is_finite(#[trigger] f[k]) by {
            lemma_nonfinite_magbits(f[k]);
        }
    } else {
        lemma_peak_is_attained(f);
        let k = choose|k: int| 0 <= k < f.len() && magbits(#[trigger] f[k]) == peak_magbits(f);
        lemma_nonfinite_magbits(f[k]);
        assert(!is_finite(f[k]));
    }
}

/// `2^e` as a 128-bit integer.
fn pow2_u128(e: u64) -> (r: u128)
    requires
        e <= 120,
    ensures
        r as nat == pow2(e as nat),
{
    let mut r: u128 = 1;
    let mut i: u64 = 0;
    proof {
        lemma2_to64();
    }
    while i < e
        invariant
            i <= e,
            e <= 120,
            r as nat == pow2(i as nat),
        decreases e - i,
    {
        proof {
            lemma2_to64();
            lemma2_to64_rest();
            lemma_pow2_adds(60, 60);
            assert(pow2(120) == 0x1000000000000000 * 0x1000000000000000);
            lemma_pow2_adds(i as nat, 1);
            if ((i + 1) as nat) < 120 {
                lemma_pow2_strictly_increases((i + 1) as nat, 120);
            }
            assert(pow2((i + 1) as nat) == pow2(i as nat) * 2);
            assert(pow2((i + 1) as nat) <= pow2(120));
        }
        r = r * 2;
        i = i + 1;
    }
    r
}

/// The largest magnitude bits over the samples, by a linear scan.
fn find_peak(f: &Vec<u64>) -> (r: u64)
    ensures
        r == peak_magbits(f@),
{
    let mut peak: u64 = 0;
    let mut i: usize = 0;
    while i < f.len()
        invariant
            i <= f@.len(),
            peak == peak_magbits(f@.take(i as int)),
        decreases f@.len() - i,
    {
        let m: u64 = f[i] % SIGN_DIV;
        proof {
            assert(f@.take(i as int + 1).drop_last() =~= f@.take(i as int));
            assert(f@.take(i as int + 1).last() == f@[i as int]);
        }
        if m > peak {
            peak = m;
        }
        i = i + 1;
    }
    proof {
        assert(f@.take(f@.len() as int) =~= f@);
    }
    peak
}

/// Dividing by a common positive left factor leaves a truncated
/// quotient unchanged: `(p * a) / (p * b) == a / b`.
proof fn lemma_cancel_common_factor(a: int, b: int, p: int)
    requires
        a >= 0,
        b >= 1,
        p >= 1,
    ensures
        (p * a) / (p * b) == a / b,
{
    lemma_mul_nonnegative(p, a);
    lemma_div_denominator(p * a, p, b);
    lemma_div_multiples_vanish(a, p);
}

/// The truncated magnitude quotient `|b| * 32767 / |peak|`, computed
/// exactly from the integer decompositions.
fn mag_quotient(b: u64, peak: u64) -> (q: u64)
    requires
        is_finite(b),
        is_finite(peak),
        magbits(b) <= magbits(peak),
        magbits(peak) != 0,
    ensures
        q as int == (scaled_mag(b) * SCALE_MAX) as int / (scaled_mag(peak) as int),
        q <= SCALE_MAX,
{
    proof {
        lemma_magbits_orders(b, peak);
        lemma_scaled_mag_zero(peak);
        lemma_magbits_split(b);
        lemma_magbits_split(peak);
        lemma_pow2_pos(exp2(b));
        lemma_pow2_pos(exp2(peak));
        lemma2_to64();
        lemma2_to64_rest();
    }
    let ghost k: int = SCALE_MAX as int;
    let ghost svi: int = scaled_mag(b) as int;
    let ghost spi: int = scaled_mag(peak) as int;
    let ghost pvi: int = pow2(exp2(b)) as int;
    let ghost ppi: int = pow2(exp2(peak)) as int;
    let (mv, ev, _) = decompose(b);
    let (mp, ep, _) = decompose(peak);
    let ghost mvi: int = mv as int;
    let ghost mpi: int = mp as int;
    proof {
        assert(svi == mvi * pvi);
        assert(spi == mpi * ppi);
        assert(svi <= spi);
        assert(spi >= 1);
        assert(mpi >= 1) by {
            if mpi == 0 {
                assert(spi == 0) by (nonlinear_arith)
                    requires spi == mpi * ppi, mpi == 0,
                ;
            }
        };
        assert(mvi < 0x20_0000_0000_0000);
        assert(mpi < 0x20_0000_0000_0000);
    }
    let q128: u128;
    if mv == 0 {
        proof {
            assert(svi == 0) by (nonlinear_arith)
                requires svi == mvi * pvi, mvi == 0,
            ;
            lemma_basic_div(0, spi);
            assert((svi * k) / spi == 0);
        }
        q128 = 0;
    } else if ev >= ep {
        let s = ev - ep;
        let ghost psi: int = pow2(s as nat) as int;
        proof {
            lemma_pow2_adds(ep as nat, s as nat);
            lemma_pow2_pos(s as nat);
            assert(pvi == ppi * psi);
            assert(svi == (mvi * psi) * ppi) by (nonlinear_arith)
                requires svi == mvi * (ppi * psi),
            ;
            lemma_mul_inequality_converse(mvi * psi, mpi, ppi);
            assert(mvi * psi <= mpi);
            if s >= 53 {
                if s > 53 {
                    lemma_pow2_strictly_increases(53, s as nat);
                }
                assert(psi >= pow2(53));
                assert(mvi * psi >= psi) by (nonlinear_arith)
                    requires mvi >= 1, psi >= 0,
                ;
                assert(false);
            }
            lemma_mul_inequality(mvi * psi, mpi, k);
        }
        let sh = pow2_u128(s);
        let num: u128 = (mv as u128) * sh * 32767;
        q128 = num / (mp as u128);
        proof {
            assert(num as int == (mvi * psi) * k);
            lemma_mul_nonnegative(mvi * psi, k);
            lemma_cancel_common_factor((mvi * psi) * k, mpi, ppi);
            assert(svi * k == ppi * ((mvi * psi) * k)) by (nonlinear_arith)
                requires svi == (mvi * psi) * ppi,
            ;
            assert(spi == ppi * mpi) by (nonlinear_arith)
                requires spi == mpi * ppi,
            ;
            assert((svi * k) / spi == ((mvi * psi) * k) / mpi);
            assert(q128 as int == (svi * k) / spi);
        }
    } else {
        let s = ep - ev;
        let ghost psi: int = pow2(s as nat) as int;
        proof {
            lemma_pow2_adds(ev as nat, s as nat);
            lemma_pow2_pos(s as nat);
            assert(ppi == pvi * psi);
        }
        if s >= 68 {
            proof {
                lemma_pow2_adds(60, 8);
                assert(pow2(68) == 0x1000000000000000 * 0x100);
                if s > 68 {
                    lemma_pow2_strictly_increases(68, s as nat);
                }
                assert(psi >= 0x10_0000_0000_0000_0000);
                assert(mvi * k < 0x10_0000_0000_0000_0000) by (nonlinear_arith)
                    requires mvi < 0x20_0000_0000_0000, k == 32767,
                ;
                assert(svi * k == (mvi * k) * pvi) by (nonlinear_arith)
                    requires svi == mvi * pvi,
                ;
                assert((mvi * k) * pvi < psi * pvi) by (nonlinear_arith)
                    requires mvi * k < psi, pvi >= 1,
                ;
                assert(psi * pvi <= mpi * (pvi * psi)) by (nonlinear_arith)
                    requires mpi >= 1, pvi >= 1, psi >= 1,
                ;
                assert(svi * k < spi);
                lemma_mul_nonnegative(svi, k);
                lemma_basic_div(svi * k, spi);
                assert((svi * k) / spi == 0);
            }
            q128 = 0;
        } else {
            proof {
                lemma_pow2_adds(60, 7);
                assert(pow2(67) == 0x1000000000000000 * 0x80);
                if s < 67 {
                    lemma_pow2_strictly_increases(s as nat, 67);
                }
                assert(psi <= 0x8_0000_0000_0000_0000);
                assert(mpi * psi <= 0x20_0000_0000_0000 * 0x8_0000_0000_0000_0000) by (nonlinear_arith)
                    requires
                        0 <= mpi < 0x20_0000_0000_0000,
                        0 <= psi <= 0x8_0000_0000_0000_0000,
                ;
                assert(mpi * psi >= 1) by (nonlinear_arith)
                    requires mpi >= 1, psi >= 1,
                ;
            }
            let sh = pow2_u128(s);
            let num: u128 = (mv as u128) * 32767;
            let denom: u128 = (mp as u128) * sh;
            q128 = num / denom;
            proof {
                assert(num as int == mvi * k);
                assert(denom as int == mpi * psi);
                lemma_mul_nonnegative(mvi, k);
                lemma_cancel_common_factor(mvi * k, mpi * psi, pvi);
                assert(svi * k == pvi * (mvi * k)) by (nonlinear_arith)
                    requires svi == mvi * pvi,
                ;
                assert(spi == pvi * (mpi * psi)) by (nonlinear_arith)
                    requires spi == mpi * (pvi * psi),
                ;
                assert((svi * k) / spi == (mvi * k) / (mpi * psi));
                assert(q128 as int == (svi * k) / spi);
            }
        }
    }
    proof {
        assert(q128 as int == (svi * k) / spi);
        lemma_mul_nonnegative(svi, k);
        lemma_mul_inequality(svi, spi, k);
        lemma_div_is_ordered(svi * k, spi * k, spi);
        lemma_div_multiples_vanish(k, spi);
        assert((svi * k) / spi <= k);
        assert((scaled_mag(b) * SCALE_MAX) as int == svi * k);
    }
    q128 as u64
}

/// One sample rescaled against the peak: the truncated quotient with
/// the sample's sign.
fn scale_one(b: u64, peak: u64) -> (r: i32)
    requires
        is_finite(b),
        is_finite(peak),
        sign_bit(peak) == 0,
        magbits(b) <= magbits(peak),
        magbits(peak) != 0,
    ensures
        r as int == scale_spec(b, peak),
        -32767 <= r as int <= 32767,
{
    let q = mag_quotient(b, peak);
    let qi: i32 = q as i32;
    let neg: bool = b / SIGN_DIV == 1;
    proof {
        lemma_magbits_split(b);
    }
    if neg {
        -qi
    } else {
        qi
    }
}

/// Rescales a flattened sample sequence so the peak magnitude maps to
/// `32767`, truncating toward zero, or reports why it cannot.
///
/// Fails with `NormalizationError` exactly when the input is empty,
/// holds a non-finite sample (NaN or infinity), or is all zeros.
pub fn normalize(f: &Vec<u64>) -> (r: Result<Vec<i32>, PipelineError>)
    ensures
        match r {
            Ok(n) => {
                &&& norm_ok(f@)
                &&& n@.len() == f@.len()
                &&& forall|k: int| 0 <= k < n@.len() ==> (#[trigger] n@[k]) as int == normalize_spec(f@)[k]
            },
            Err(e) => e == PipelineError::NormalizationError && !norm_ok(f@),
        },
{
    if f.len() == 0 {
        return Err(PipelineError::NormalizationError);
    }
    let peak = find_peak(f);
    proof {
        lemma_peak_finite(f@);
    }
    if peak == 0 || peak >= MAG_NONFINITE {
        return Err(PipelineError::NormalizationError);
    }
    proof {
        lemma_peak_is_bound(f@);
        lemma_small_mod(peak as nat, SIGN_DIV as nat);
        assert(magbits(peak) == peak);
    }
    let mut out: Vec<i32> = Vec::new();
    let mut i: usize = 0;
    while i < f.len()
        invariant
            i <= f@.len(),
            out@.len() == i,
            norm_ok(f@),
            peak == peak_magbits(f@),
            magbits(peak) == peak,
            is_finite(peak),
            sign_bit(peak) == 0,
            forall|k: int| 0 <= k < i ==> (#[trigger] out@[k]) as int == scale_spec(f@[k], peak),
        decreases f@.len() - i,
    {
        proof {
            lemma_peak_is_bound(f@);
        }
        let v = scale_one(f[i], peak);
        out.push(v);
        i = i + 1;
    }
    Ok(out)
}

/// Full-scale law: a sample that attains the peak magnitude is mapped
/// to an integer of absolute value exactly `32767`.
pub proof fn lemma_peak_full_scale(f: Seq<u64>, j: int)
    requires
        norm_ok(f),
        0 <= j < f.len(),
        magbits(f[j]) == peak_magbits(f),
    ensures
        normalize_spec(f)[j] == 32767 || normalize_spec(f)[j] == -32767,
{
    let peak = peak_magbits(f);
    lemma_magbits_split(peak);
    lemma_small_mod(peak as nat, SIGN_DIV as nat);
    assert(magbits(peak) == peak);
    crate::float_bits::lemma_magbits_eq_scaled(f[j], peak);
    lemma_scaled_mag_zero(peak);
    let sp = scaled_mag(peak);
    lemma_div_multiples_vanish(SCALE_MAX as int, sp as int);
    assert(sp * SCALE_MAX == (sp as int) * (SCALE_MAX as int)) by (nonlinear_arith);
    assert((scaled_mag(f[j]) * SCALE_MAX) as int / (sp as int) == SCALE_MAX);
}

} // verus!
