//! Unit scaler: folds a raw rate into a human-readable magnitude by
//! repeated division along a prefix ladder.
//!
//! A rate is kept as an exact rational `num / den` (bytes or bits per
//! second) rather than a float. A zero denominator stands for the
//! non-finite rates the first run produces: `0/0` is the undefined rate
//! (printed `NaN`), `n/0` with `n > 0` the infinite one (printed `inf`).
//! The scaler never divides a non-finite rate: it hands it back unscaled
//! with an empty prefix.

use vstd::prelude::*;

use crate::digits::{dec_rep, push_dec_u128};
use crate::stats::clone_bytes;

verus! {

/// An exact rate: `num / den`, non-finite when `den == 0`.
#[derive(Debug, Clone, Copy, PartialEq, Eq, Structural)]
pub struct ScaledValue {
    pub num: u128,
    pub den: u128,
}

/// `f^k`.
pub open spec fn pow_of(f: nat, k: nat) -> nat
    decreases k,
{
    if k == 0 {
        1
    } else {
        f * pow_of(f, (k - 1) as nat)
    }
}

pub proof fn lemma_pow_mono(f: nat, a: nat, b: nat)
    requires
        f >= 1,
        a <= b,
    ensures
        pow_of(f, a) <= pow_of(f, b),
        pow_of(f, a) >= 1,
    decreases b,
{
    if a == 0 {
        if b > 0 {
            lemma_pow_mono(f, 0, (b - 1) as nat);
            assert(pow_of(f, b) == f * pow_of(f, (b - 1) as nat));
            assert(f * pow_of(f, (b - 1) as nat) >= pow_of(f, (b - 1) as nat)) by (nonlinear_arith)
                requires
                    f >= 1,
                    pow_of(f, (b - 1) as nat) >= 0,
            ;
        }
    } else {
        lemma_pow_mono(f, (a - 1) as nat, (b - 1) as nat);
        assert(f * pow_of(f, (a - 1) as nat) <= f * pow_of(f, (b - 1) as nat)) by (nonlinear_arith)
            requires
                f >= 1,
                pow_of(f, (a - 1) as nat) <= pow_of(f, (b - 1) as nat),
        ;
        assert(f * pow_of(f, (a - 1) as nat) >= 1) by (nonlinear_arith)
            requires
                f >= 1,
                pow_of(f, (a - 1) as nat) >= 1,
        ;
    }
}

/// How many divisions the ladder walk performs: it stops as soon as the
/// current value no longer exceeds the factor, or the ladder runs out.
pub open spec fn scale_steps(num: nat, den: nat, factor: nat, rem: nat) -> nat
    decreases rem,
{
    if rem == 0 || num <= factor * den {
        0
    } else {
        1 + scale_steps(num, den * factor, factor, (rem - 1) as nat)
    }
}

/// Walks `value` down the prefix ladder: while the value exceeds
/// `factor` and prefixes remain, divide by `factor` and advance. The
/// returned prefix is the last one reached, or empty if no division
/// happened. A non-finite value is returned untouched.
pub fn scale(value: ScaledValue, prefixes: &Vec<Vec<u8>>, factor: u64) -> (r: (
    ScaledValue,
    Vec<u8>,
))
    requires
        factor >= 1,
        value.den * pow_of(factor as nat, prefixes@.len()) <= u128::MAX,
    ensures
        value.den == 0 ==> r.0 == value && r.1@ == Seq::<u8>::empty(),
        value.den != 0 ==> {
            let k = scale_steps(
                value.num as nat,
                value.den as nat,
                factor as nat,
                prefixes@.len(),
            );
            &&& r.0.num == value.num
            &&& r.0.den == value.den * pow_of(factor as nat, k)
            &&& k == 0 ==> r.1@ == Seq::<u8>::empty()
            &&& k > 0 ==> r.1@ == prefixes@[k - 1]@
        },
{
    if value.den == 0 {
        return (value, Vec::new());
    }
    let ghost f = factor as nat;
    let ghost plen = prefixes@.len();
    let ghost total = scale_steps(value.num as nat, value.den as nat, f, plen);
    let num = value.num;
    let mut den = value.den;
    let mut idx: usize = 0;
    let mut prefix: Vec<u8> = Vec::new();
    while idx < prefixes.len()
        invariant_except_break
            0 <= idx <= plen,
            plen == prefixes@.len(),
            factor >= 1,
            f == factor as nat,
            den == value.den * pow_of(f, idx as nat),
            value.den >= 1,
            value.den * pow_of(f, plen) <= u128::MAX,
            total == idx + scale_steps(num as nat, den as nat, f, (plen - idx) as nat),
            idx == 0 ==> prefix@ == Seq::<u8>::empty(),
            idx > 0 ==> prefix@ == prefixes@[idx - 1]@,
        ensures
            total == idx,
            den == value.den * pow_of(f, idx as nat),
            idx == 0 ==> prefix@ == Seq::<u8>::empty(),
            idx > 0 ==> idx <= plen && prefix@ == prefixes@[idx - 1]@,
        decreases plen - idx,
    {
        proof {
            lemma_pow_mono(f, idx as nat + 1, plen);
            assert(pow_of(f, idx as nat + 1) == f * pow_of(f, idx as nat));
            assert(value.den * pow_of(f, idx as nat + 1) <= value.den * pow_of(f, plen))
                by (nonlinear_arith)
                requires
                    pow_of(f, idx as nat + 1) <= pow_of(f, plen),
                    value.den >= 1,
            ;
            assert(value.den * (pow_of(f, idx as nat) * f) == value.den * pow_of(f, idx as nat)
                * f) by (nonlinear_arith);
            assert(value.den * pow_of(f, idx as nat + 1) == den * f) by (nonlinear_arith)
                requires
                    den == value.den * pow_of(f, idx as nat),
                    pow_of(f, idx as nat + 1) == f * pow_of(f, idx as nat),
            ;
        }
        if num <= (factor as u128) * den {
            proof {
                assert(scale_steps(num as nat, den as nat, f, (plen - idx) as nat) == 0);
            }
            break ;
        }
        let ghost old_den = den as nat;
        den = den * (factor as u128);
        prefix = clone_bytes(&prefixes[idx]);
        proof {
            assert(den as nat == old_den * f);
            assert(scale_steps(num as nat, old_den, f, (plen - idx) as nat) == 1 + scale_steps(
                num as nat,
                old_den * f,
                f,
                (plen - idx - 1) as nat,
            ));
        }
        idx = idx + 1;
    }
    (ScaledValue { num, den }, prefix)
}

/// Scaling a zero rate performs no division at all: the value stays
/// zero and the prefix stays empty, whatever the ladder and factor.
pub proof fn lemma_scale_zero(den: nat, factor: nat, rem: nat)
    ensures
        scale_steps(0, den, factor, rem) == 0,
{
}

/// A value just past `factor` squared runs a two-step ladder to its end:
/// both divisions happen, the second prefix is reached, and the scaled
/// value no longer exceeds the factor.
pub proof fn lemma_scale_exhausts_ladder(factor: nat)
    requires
        factor >= 2,
    ensures
        scale_steps(factor * factor + 1, 1, factor, 2) == 2,
        factor * factor + 1 <= factor * (1 * factor * factor),
{
    let n = factor * factor + 1;
    assert(factor * factor + 1 > factor * 1) by (nonlinear_arith)
        requires
            factor >= 2,
    ;
    assert(factor * factor + 1 > factor * (1 * factor)) by (nonlinear_arith)
        requires
            factor >= 2,
    ;
    assert(factor * factor + 1 <= factor * (1 * factor * factor)) by (nonlinear_arith)
        requires
            factor >= 2,
    ;
    assert(scale_steps(n, 1, factor, 2) == 1 + scale_steps(n, 1 * factor, factor, 1));
    assert(scale_steps(n, 1 * factor, factor, 1) == 1 + scale_steps(n, 1 * factor * factor, factor,
        0));
}

/// Half-even rounding of `100 * num / den` to an integer count of
/// hundredths.
pub open spec fn rounded_centi(num: nat, den: nat) -> nat {
    let t = 100 * num;
    let q = t / den;
    let rem = t % den;
    if 2 * rem > den || (2 * rem == den && q % 2 == 1) {
        q + 1
    } else {
        q
    }
}

/// The digits of a rate, to two decimal places: `NaN` and `inf` for the
/// non-finite rates, else the half-even-rounded decimal.
pub open spec fn spec_format_scaled(num: nat, den: nat) -> Seq<u8> {
    if den == 0 {
        if num == 0 {
            seq![78u8, 97, 78]  // NaN
        } else {
            seq![105u8, 110, 102]  // inf
        }
    } else {
        let rc = rounded_centi(num, den);
        dec_rep(rc / 100) + seq![46u8] + seq![(48 + (rc % 100) / 10) as u8, (48 + rc % 10) as u8]
    }
}

/// Renders a rate with two decimal places.
#[verifier::rlimit(60)]
pub fn format_scaled(v: ScaledValue) -> (r: Vec<u8>)
    requires
        100 * v.num <= u128::MAX,
    ensures
        r@ == spec_format_scaled(v.num as nat, v.den as nat),
{
    let mut out: Vec<u8> = Vec::new();
    if v.den == 0 {
        if v.num == 0 {
            out.push(78);
            out.push(97);
            out.push(78);
            proof {
                assert(out@ =~= spec_format_scaled(v.num as nat, v.den as nat));
            }
        } else {
            out.push(105);
            out.push(110);
            out.push(102);
            proof {
                assert(out@ =~= spec_format_scaled(v.num as nat, v.den as nat));
            }
        }
        return out;
    }
    let t = 100 * v.num;
    let q = t / v.den;
    let rem = t % v.den;
    let round_up = rem > v.den - rem || (rem == v.den - rem && q % 2 == 1);
    proof {
        assert(rem < v.den);
        assert((rem > v.den - rem) == (2 * rem > v.den));
        assert((rem == v.den - rem) == (2 * rem == v.den));
        if round_up {
            assert(q * v.den + rem == t) by (nonlinear_arith)
                requires
                    v.den > 0,
                    q == t / v.den,
                    rem == t % v.den,
            ;
            assert(q * v.den >= q) by (nonlinear_arith)
                requires
                    v.den >= 1,
                    q >= 0,
            ;
            assert(rem >= 1);
        }
    }
    let rc: u128 = if round_up {
        q + 1
    } else {
        q
    };
    assert(rc == rounded_centi(v.num as nat, v.den as nat));
    push_dec_u128(rc / 100, &mut out);
    out.push(46);
    let frac = rc % 100;
    out.push(48 + (frac / 10) as u8);
    out.push(48 + (frac % 10) as u8);
    proof {
        assert(rc % 100 % 10 == rc % 10);
        assert(out@ =~= spec_format_scaled(v.num as nat, v.den as nat));
    }
    out
}

/// The byte rate over an interval, as an exact rational.
pub fn bytes_rate(count: u64, interval_ms: u64) -> (r: ScaledValue)
    ensures
        r.num == count * 1000,
        r.den == interval_ms,
{
    ScaledValue { num: (count as u128) * 1000, den: interval_ms as u128 }
}

/// The bit rate over an interval, as an exact rational.
pub fn bits_rate(count: u64, interval_ms: u64) -> (r: ScaledValue)
    ensures
        r.num == count * 8000,
        r.den == interval_ms,
{
    ScaledValue { num: (count as u128) * 8000, den: interval_ms as u128 }
}

/// The binary ladder: Ki, Mi, Gi, Ti.
pub fn binary_prefixes() -> (r: Vec<Vec<u8>>)
    ensures
        r@.len() == 4,
        r@[0]@ == seq![75u8, 105],
        r@[1]@ == seq![77u8, 105],
        r@[2]@ == seq![71u8, 105],
        r@[3]@ == seq![84u8, 105],
{
    let mut r: Vec<Vec<u8>> = Vec::new();
    let mut p: Vec<u8> = Vec::new();
    p.push(75);
    p.push(105);
    r.push(p);
    let mut p: Vec<u8> = Vec::new();
    p.push(77);
    p.push(105);
    r.push(p);
    let mut p: Vec<u8> = Vec::new();
    p.push(71);
    p.push(105);
    r.push(p);
    let mut p: Vec<u8> = Vec::new();
    p.push(84);
    p.push(105);
    r.push(p);
    proof {
        assert(r@[0]@ =~= seq![75u8, 105]);
        assert(r@[1]@ =~= seq![77u8, 105]);
        assert(r@[2]@ =~= seq![71u8, 105]);
        assert(r@[3]@ =~= seq![84u8, 105]);
    }
    r
}

/// The decimal ladder: K, M, G, T.
pub fn decimal_prefixes() -> (r: Vec<Vec<u8>>)
    ensures
        r@.len() == 4,
        r@[0]@ == seq![75u8],
        r@[1]@ == seq![77u8],
        r@[2]@ == seq![71u8],
        r@[3]@ == seq![84u8],
{
    let mut r: Vec<Vec<u8>> = Vec::new();
    let mut p: Vec<u8> = Vec::new();
    p.push(75);
    r.push(p);
    let mut p: Vec<u8> = Vec::new();
    p.push(77);
    r.push(p);
    let mut p: Vec<u8> = Vec::new();
    p.push(71);
    r.push(p);
    let mut p: Vec<u8> = Vec::new();
    p.push(84);
    r.push(p);
    proof {
        assert(r@[0]@ =~= seq![75u8]);
        assert(r@[1]@ =~= seq![77u8]);
        assert(r@[2]@ =~= seq![71u8]);
        assert(r@[3]@ =~= seq![84u8]);
    }
    r
}

} // verus!
