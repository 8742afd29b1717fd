//! Fixed-point numbers and the decaying power of ten.
//!
//! A fixed-point value counts millionths: the integer `1_500_000_000` stands
//! for the rating `1500.0`. This module provides the one transcendental-ish
//! ingredient of the Elo formula, `10^(-t)` for a nonnegative fixed-point
//! exponent `t`, computed by binary expansion of the fractional part of `t`
//! against precomputed coefficients `round(SCALE * 10^(-1/2^k))`.

use vstd::prelude::*;

verus! {

/// One unit of a fixed-point value is `1/SCALE`.
pub const SCALE: i64 = 1_000_000;

/// Coefficient for the `k`-th fractional bit: `round(SCALE * 10^(-1/2^k))`.
pub open spec fn frac_coeff(k: int) -> int {
    if k == 1 {
        316228
    } else if k == 2 {
        562341
    } else if k == 3 {
        749894
    } else if k == 4 {
        865964
    } else if k == 5 {
        930572
    } else if k == 6 {
        964662
    } else if k == 7 {
        982172
    } else if k == 8 {
        991046
    } else if k == 9 {
        995513
    } else if k == 10 {
        997754
    } else if k == 11 {
        998876
    } else if k == 12 {
        999438
    } else if k == 13 {
        999719
    } else if k == 14 {
        999859
    } else if k == 15 {
        999930
    } else if k == 16 {
        999965
    } else if k == 17 {
        999982
    } else if k == 18 {
        999991
    } else if k == 19 {
        999996
    } else {
        999998
    }
}

fn frac_coeff_at(k: usize) -> (c: i64)
    requires
        1 <= k <= 20,
    ensures
        c == frac_coeff(k as int),
        0 < c < SCALE,
{
    match k {
        1 => 316228,
        2 => 562341,
        3 => 749894,
        4 => 865964,
        5 => 930572,
        6 => 964662,
        7 => 982172,
        8 => 991046,
        9 => 995513,
        10 => 997754,
        11 => 998876,
        12 => 999438,
        13 => 999719,
        14 => 999859,
        15 => 999930,
        16 => 999965,
        17 => 999982,
        18 => 999991,
        19 => 999996,
        _ => 999998,
    }
}

/// Remaining steps of the binary-expansion product, from bit `k` up to bit 20:
/// doubles the fractional remainder `rem` and multiplies `acc` by the bit's
/// coefficient whenever a bit of `rem / SCALE` is set.
pub open spec fn pow10_frac_rec(acc: int, rem: int, k: int) -> int
    decreases 21 - k when k <= 21
{
    if k < 1 || k > 20 {
        acc
    } else {
        let doubled = 2 * rem;
        if doubled >= SCALE {
            pow10_frac_rec(acc * frac_coeff(k) / (SCALE as int), doubled - SCALE, k + 1)
        } else {
            pow10_frac_rec(acc, doubled, k + 1)
        }
    }
}

/// `10^(-fr/SCALE) * SCALE`, for a fractional exponent `0 <= fr < SCALE`,
/// to 20 binary digits of the exponent.
pub open spec fn pow10_frac(fr: int) -> int {
    pow10_frac_rec(SCALE as int, fr, 1)
}

/// `x` divided by `10^ip`, by repeated integer division.
pub open spec fn div_pow10(x: int, ip: int) -> int
    decreases ip when ip >= 0
{
    if ip <= 0 {
        x
    } else {
        div_pow10(x / 10, ip - 1)
    }
}

/// `10^(-t/SCALE) * SCALE` for a nonnegative fixed-point exponent `t`:
/// the fractional-part product, shifted down by the integer part. Once the
/// integer part reaches 13 the true value is below one millionth, hence 0.
pub open spec fn pow10_neg(t: int) -> int {
    let ip = t / (SCALE as int);
    let fr = t % (SCALE as int);
    if ip >= 13 {
        0
    } else {
        div_pow10(pow10_frac(fr), ip)
    }
}

proof fn lemma_pow10_frac_rec_bounds(acc: int, rem: int, k: int)
    requires
        0 <= acc,
        k <= 21,
    ensures
        0 <= pow10_frac_rec(acc, rem, k) <= acc,
    decreases 21 - k,
{
    if k < 1 || k > 20 {
    } else {
        let doubled = 2 * rem;
        if doubled >= SCALE {
            let c = frac_coeff(k);
            assert(acc * c <= acc * (SCALE as int)) by (nonlinear_arith)
                requires
                    0 <= acc,
                    0 < c <= SCALE,
            ;
            assert(0 <= acc * c) by (nonlinear_arith)
                requires
                    0 <= acc,
                    0 < c,
            ;
            let next = acc * c / (SCALE as int);
            assert(next <= acc * (SCALE as int) / (SCALE as int)) by {
                vstd::arithmetic::div_mod::lemma_div_is_ordered(
                    acc * c,
                    acc * (SCALE as int),
                    SCALE as int,
                );
            }
            assert(acc * (SCALE as int) / (SCALE as int) == acc) by {
                vstd::arithmetic::div_mod::lemma_div_by_multiple(acc, SCALE as int);
            }
            assert(0 <= next) by {
                vstd::arithmetic::div_mod::lemma_div_pos_is_pos(acc * c, SCALE as int);
            }
            lemma_pow10_frac_rec_bounds(next, doubled - SCALE, k + 1);
        } else {
            lemma_pow10_frac_rec_bounds(acc, doubled, k + 1);
        }
    }
}

proof fn lemma_div_pow10_bounds(x: int, ip: int)
    requires
        0 <= x,
        0 <= ip,
    ensures
        0 <= div_pow10(x, ip) <= x,
    decreases ip,
{
    if ip <= 0 {
    } else {
        vstd::arithmetic::div_mod::lemma_div_pos_is_pos(x, 10);
        vstd::arithmetic::div_mod::lemma_div_nonincreasing(x, 10);
        lemma_div_pow10_bounds(x / 10, ip - 1);
    }
}

/// `pow10_neg` stays within `[0, SCALE]`: the decaying power of ten is a
/// fraction of one.
pub proof fn lemma_pow10_neg_bounds(t: int)
    requires
        0 <= t,
    ensures
        0 <= pow10_neg(t) <= SCALE,
{
    let ip = t / (SCALE as int);
    let fr = t % (SCALE as int);
    vstd::arithmetic::div_mod::lemma_div_pos_is_pos(t, SCALE as int);
    if ip < 13 {
        lemma_pow10_frac_rec_bounds(SCALE as int, fr, 1);
        lemma_div_pow10_bounds(pow10_frac(fr), ip);
    }
}

/// With a zero fractional remainder no bit is ever set, so the accumulator
/// passes through untouched.
pub proof fn lemma_pow10_frac_rec_zero(acc: int, k: int)
    requires
        k <= 21,
    ensures
        pow10_frac_rec(acc, 0, k) == acc,
    decreases 21 - k,
{
    if k < 1 || k > 20 {
    } else {
        lemma_pow10_frac_rec_zero(acc, k + 1);
    }
}

/// An exponent of zero gives exactly one: `pow10_neg(0) == SCALE`.
pub proof fn lemma_pow10_neg_zero()
    ensures
        pow10_neg(0) == SCALE,
{
    lemma_pow10_frac_rec_zero(SCALE as int, 1);
}

/// `10^(-t/SCALE) * SCALE`, rounded down, for a nonnegative fixed-point
/// exponent `t`, to 20 binary digits of the exponent.
pub fn pow10_neg_fp(t: i64) -> (r: i64)
    requires
        0 <= t,
    ensures
        r == pow10_neg(t as int),
        0 <= r <= SCALE,
{
    proof {
        lemma_pow10_neg_bounds(t as int);
    }
    let ip: i64 = t / SCALE;
    let fr: i64 = t % SCALE;
    if ip >= 13 {
        return 0;
    }
    let mut acc: i64 = SCALE;
    let mut rem: i64 = fr;
    let mut k: usize = 1;
    while k <= 20
        invariant
            1 <= k <= 21,
            0 <= rem < SCALE,
            0 <= acc <= SCALE,
            pow10_frac(fr as int) == pow10_frac_rec(acc as int, rem as int, k as int),
        decreases 21 - k,
    {
        let c = frac_coeff_at(k);
        let doubled: i64 = rem * 2;
        if doubled >= SCALE {
            proof {
                assert(acc * c <= (SCALE as int) * (SCALE as int)) by (nonlinear_arith)
                    requires
                        0 <= acc <= SCALE,
                        0 <= c <= SCALE,
                ;
                assert(0 <= acc * c) by (nonlinear_arith)
                    requires
                        0 <= acc,
                        0 <= c,
                ;
                assert(acc * c / (SCALE as int) <= acc) by {
                    vstd::arithmetic::div_mod::lemma_div_is_ordered(
                        acc as int * c as int,
                        acc as int * (SCALE as int),
                        SCALE as int,
                    );
                    vstd::arithmetic::div_mod::lemma_div_by_multiple(acc as int, SCALE as int);
                    assert(acc * c <= acc * (SCALE as int)) by (nonlinear_arith)
                        requires
                            0 <= acc,
                            0 < c <= SCALE,
                    ;
                }
                vstd::arithmetic::div_mod::lemma_div_pos_is_pos(acc as int * c as int, SCALE as int);
            }
            rem = doubled - SCALE;
            acc = (acc * c) / SCALE;
        } else {
            rem = doubled;
        }
        k = k + 1;
    }
    let mut i: i64 = 0;
    let mut v: i64 = acc;
    while i < ip
        invariant
            0 <= i <= ip,
            ip < 13,
            0 <= v <= SCALE,
            div_pow10(pow10_frac(fr as int), ip as int) == div_pow10(v as int, ip - i),
        decreases ip - i,
    {
        proof {
            vstd::arithmetic::div_mod::lemma_div_pos_is_pos(v as int, 10);
        }
        v = v / 10;
        i = i + 1;
    }
    v
}

} // verus!
