//! Log-domain probability scores.  Probabilities are never materialized:
//! the pipeline carries their natural logarithms as integers in
//! micro-nats (`PROB_SCALE` steps per nat), so emission and transition
//! weights combine by exact integer addition.

use vstd::prelude::*;

verus! {

/// Scale of all stored logarithms: one micro-nat.
pub const PROB_SCALE: i64 = 1_000_000;

/// The lower clamp of an emission log-probability: the natural log of
/// the smallest positive double, in micro-nats.  An emission is never
/// smaller than that floor, so `EP_LOG_FLOOR <= ln(emission) <= 0`.
pub const EP_LOG_FLOOR: i64 = -708_396_419;

/// `ln 2` in micro-nats, rounded down.
pub const LN2_MICRO: u64 = 693_147;

/// 2^32, the fixed-point unit of the base-2 logarithm iteration.
pub const FP_ONE: u128 = 4_294_967_296;

/// 2^33.
pub const FP_TWO: u128 = 8_589_934_592;

/// How many fractional bits of the base-2 logarithm are extracted.
pub const FRAC_BITS: u64 = 20;

/// The lowest value `ln_ratio` can return, in micro-nats.
pub const TP_LOG_FLOOR: i64 = -45_100_000;

/// 2^n.
pub open spec fn two_to(n: nat) -> int
    decreases n,
{
    if n == 0 {
        1
    } else {
        2 * two_to((n - 1) as nat)
    }
}

/// The emission log-probability of a candidate at perpendicular distance
/// `dist` under GPS error `gps_err`: the log of a zero-mean Gaussian,
/// `-dist^2 / (2 gps_err^2)` in micro-nats, clamped below at the log of
/// the smallest positive probability the model distinguishes.
pub open spec fn ep_log_spec(dist: int, gps_err: int) -> int {
    let v = dist * dist * (PROB_SCALE as int) / (2 * gps_err * gps_err);
    if v >= -(EP_LOG_FLOOR as int) {
        EP_LOG_FLOOR as int
    } else {
        -v
    }
}

/// Emission log-probability; see `ep_log_spec`.
pub fn ep_log(dist: u64, gps_err: u64) -> (r: i64)
    requires
        dist <= 12_000_000_000,
        1 <= gps_err <= crate::MAX_EDGE_LENGTH,
    ensures
        r == ep_log_spec(dist as int, gps_err as int),
        EP_LOG_FLOOR <= r <= 0,
        dist == 0 ==> r == 0,
{
    proof {
        let d: int = dist as int;
        let e: int = gps_err as int;
        assert(0 <= d * d <= 144_000_000_000_000_000_000 && d * d * (PROB_SCALE as int)
            <= 144_000_000_000_000_000_000 * 1_000_000int) by (nonlinear_arith)
            requires
                0 <= d <= 12_000_000_000,
                PROB_SCALE == 1_000_000,
        ;
        assert(2 <= 2 * e && 2 * e <= 200_000_000_000int && 2 <= (2 * e) * e && (2 * e) * e
            <= 200_000_000_000int * 100_000_000_000int) by (nonlinear_arith)
            requires
                1 <= e <= 100_000_000_000int,
        ;
    }
    let num: u128 = (dist as u128) * (dist as u128) * (PROB_SCALE as u128);
    let den: u128 = 2 * (gps_err as u128) * (gps_err as u128);
    let v: u128 = num / den;
    if v >= 708_396_419 {
        EP_LOG_FLOOR
    } else {
        proof {
            vstd::arithmetic::div_mod::lemma_div_pos_is_pos(num as int, den as int);
        }
        -(v as i64)
    }
}

/// Normalization: the mantissa is halved, counting steps, until it
/// falls under 2^33.
pub open spec fn lr_norm(x: int, k: int) -> (int, int)
    decreases x,
{
    if x < FP_TWO as int {
        (x, k)
    } else {
        lr_norm(x / 2, k + 1)
    }
}

/// `two_to` grows with its exponent.
proof fn lemma_two_to_monotone(m: nat, n: nat)
    requires
        m <= n,
    ensures
        two_to(m) <= two_to(n),
        two_to(m) >= 1,
    decreases n,
{
    if m < n {
        lemma_two_to_monotone(m, (n - 1) as nat);
    } else if m > 0 {
        lemma_two_to_monotone((m - 1) as nat, (m - 1) as nat);
    }
}

/// Fractional-bit extraction: the mantissa in `[2^32, 2^33)` is squared
/// `i` more times; each squaring that overflows the range emits a 1 bit.
pub open spec fn lr_frac(x: int, i: nat, acc: int) -> (int, int)
    decreases i,
{
    if i == 0 {
        (x, acc)
    } else {
        let y = x * x / (FP_ONE as int);
        if y >= FP_TWO as int {
            lr_frac(y / 2, (i - 1) as nat, acc * 2 + 1)
        } else {
            lr_frac(y, (i - 1) as nat, acc * 2)
        }
    }
}

/// The base-2 logarithm of `b / a` in fixed point with `FRAC_BITS`
/// fractional bits, as the normalization and bit-extraction iterations
/// compute it.
pub open spec fn log2_fp_spec(a: int, b: int) -> int {
    let x0 = b * (FP_ONE as int) / a;
    let nk = lr_norm(x0, 0);
    let xf = lr_frac(nk.0, FRAC_BITS as nat, 0);
    nk.1 * two_to(FRAC_BITS as nat) + xf.1
}

/// The natural logarithm of `a / b` for `1 <= a <= b`, in micro-nats:
/// minus the fixed-point base-2 logarithm of `b / a` times `ln 2`.
pub open spec fn ln_ratio_spec(a: int, b: int) -> int {
    -(log2_fp_spec(a, b) * (LN2_MICRO as int) / two_to(FRAC_BITS as nat))
}

/// `ln(a/b)` in micro-nats for `1 <= a <= b`, by binary-digit extraction
/// of `log2(b/a)`.
pub fn ln_ratio(a: u64, b: u64) -> (r: i64)
    requires
        1 <= a <= b,
    ensures
        r == ln_ratio_spec(a as int, b as int),
        TP_LOG_FLOOR <= r <= 0,
        a == b ==> r == 0,
{
    proof {
        let bi: int = b as int;
        let f: int = FP_ONE as int;
        assert(bi * f <= 0xffff_ffff_ffff_ffff * 4_294_967_296int) by (nonlinear_arith)
            requires
                0 <= bi <= 0xffff_ffff_ffff_ffff,
                f == 4_294_967_296,
        ;
    }
    let x0: u128 = (b as u128) * FP_ONE / (a as u128);
    proof {
        vstd::arithmetic::div_mod::lemma_div_pos_is_pos(x0 as int, a as int);
        vstd::arithmetic::mul::lemma_mul_inequality(a as int, b as int, FP_ONE as int);
        vstd::arithmetic::div_mod::lemma_div_is_ordered(
            (a as int) * (FP_ONE as int),
            (b as int) * (FP_ONE as int),
            a as int,
        );
        assert((a as int) * (FP_ONE as int) / (a as int) == FP_ONE as int) by {
            vstd::arithmetic::div_mod::lemma_div_by_multiple(FP_ONE as int, a as int);
            assert((a as int) * (FP_ONE as int) == (FP_ONE as int) * (a as int))
                by (nonlinear_arith);
        }
        vstd::arithmetic::div_mod::lemma_div_is_ordered_by_denominator(
            (b as int) * (FP_ONE as int),
            1,
            a as int,
        );
        vstd::arithmetic::div_mod::lemma_div_basics_1((b as int) * (FP_ONE as int));
        vstd::arithmetic::power2::lemma2_to64();
    }
    let mut x: u128 = x0;
    let mut k: u64 = 0;
    while x >= FP_TWO
        invariant
            FP_ONE <= x <= x0,
            x0 < 79_228_162_514_264_337_593_543_950_336u128,
            0 <= k <= 64,
            (x as int) * vstd::arithmetic::power2::pow2(k as nat) <= x0 as int,
            lr_norm(x as int, k as int) == lr_norm(x0 as int, 0),
            x0 == FP_ONE ==> x == FP_ONE && k == 0,
        decreases x,
    {
        proof {
            vstd::arithmetic::power2::lemma2_to64();
            let p = vstd::arithmetic::power2::pow2(k as nat);
            if k == 64 {
                assert((x as int) * p >= 8_589_934_592 * 18_446_744_073_709_551_616int)
                    by (nonlinear_arith)
                    requires
                        x as int >= 8_589_934_592,
                        p == 18_446_744_073_709_551_616int,
                ;
                assert(false);
            }
            vstd::arithmetic::power2::lemma_pow2_unfold((k + 1) as nat);
            vstd::arithmetic::div_mod::lemma_div_pos_is_pos(x as int, 2);
            vstd::arithmetic::div_mod::lemma_fundamental_div_mod(x as int, 2);
            assert(((x as int) / 2) * (2 * p) <= (x as int) * p) by (nonlinear_arith)
                requires
                    ((x as int) / 2) * 2 <= x as int,
                    p >= 0,
            ;
            assert(vstd::arithmetic::power2::pow2((k + 1) as nat) == 2 * p);
        }
        x = x / 2;
        k = k + 1;
    }
    assert(lr_norm(x0 as int, 0) == (x as int, k as int));
    let ghost xn = x;
    let mut acc: u64 = 0;
    let mut i: u64 = 0;
    while i < FRAC_BITS
        invariant
            FP_ONE <= x < FP_TWO,
            0 <= i <= FRAC_BITS,
            acc as int + 1 <= two_to(i as nat),
            xn == FP_ONE ==> x == FP_ONE && acc == 0,
            lr_frac(x as int, (FRAC_BITS - i) as nat, acc as int) == lr_frac(
                xn as int,
                FRAC_BITS as nat,
                0,
            ),
        decreases FRAC_BITS - i,
    {
        proof {
            assert((x as int) * (x as int) < (FP_TWO as int) * (FP_TWO as int))
                by (nonlinear_arith)
                requires
                    0 <= x as int,
                    (x as int) < FP_TWO as int,
            ;
            assert((x as int) * (x as int) >= (FP_ONE as int) * (FP_ONE as int))
                by (nonlinear_arith)
                requires
                    x as int >= FP_ONE as int,
            ;
            assert((FP_ONE as int) * (FP_ONE as int) / (FP_ONE as int) == FP_ONE as int) by {
                vstd::arithmetic::div_mod::lemma_div_by_multiple(FP_ONE as int, FP_ONE as int);
                assert((FP_ONE as int) * (FP_ONE as int) == (FP_ONE as int) * (FP_ONE as int));
            }
            vstd::arithmetic::div_mod::lemma_div_is_ordered(
                (FP_ONE as int) * (FP_ONE as int),
                (x as int) * (x as int),
                FP_ONE as int,
            );
        }
        proof {
            lemma_two_to_monotone(i as nat, FRAC_BITS as nat);
            reveal_with_fuel(two_to, 21);
            assert(acc < 1_048_576);
        }
        let y: u128 = x * x / FP_ONE;
        if y >= FP_TWO {
            x = y / 2;
            acc = acc * 2 + 1;
            proof {
                vstd::arithmetic::div_mod::lemma_div_pos_is_pos(y as int, 2);
                assert(y as int / 2 < FP_TWO as int);
                assert(y as int / 2 >= FP_ONE as int);
            }
        } else {
            x = y;
            acc = acc * 2;
        }
        i = i + 1;
    }
    proof {
        reveal_with_fuel(two_to, 21);
        assert(two_to(FRAC_BITS as nat) == 1_048_576);
    }
    let log2fp: u64 = k * 1_048_576 + acc;
    proof {
        assert(log2fp <= 68_157_439);
        assert((log2fp as int) * (LN2_MICRO as int) <= 68_157_439 * 693_147int)
            by (nonlinear_arith)
            requires
                0 <= log2fp as int <= 68_157_439,
                LN2_MICRO == 693_147,
        ;
    }
    let micro: u64 = log2fp * LN2_MICRO / 1_048_576;
    proof {
        vstd::arithmetic::div_mod::lemma_div_is_ordered(
            (log2fp as int) * (LN2_MICRO as int),
            68_157_439 * 693_147int,
            1_048_576,
        );
        vstd::arithmetic::div_mod::lemma_div_pos_is_pos((log2fp as int) * (LN2_MICRO as int), 1_048_576);
        assert(68_157_439 * 693_147int / 1_048_576 <= 45_100_000);
        assert(log2_fp_spec(a as int, b as int) == log2fp as int);
    }
    -(micro as i64)
}

/// Adds an emission and a transition weight onto a cumulative score,
/// saturating at the lowest representable score.
pub open spec fn score_add3(base: int, e: int, t: int) -> int {
    if base + e + t < i64::MIN as int {
        i64::MIN as int
    } else {
        base + e + t
    }
}

/// Exact saturating sum of a cumulative score and two weights.
pub fn add_scores(base: i64, e: i64, t: i64) -> (r: i64)
    requires
        base <= 0,
        EP_LOG_FLOOR <= e <= 0,
        TP_LOG_FLOOR <= t <= 0,
    ensures
        r == score_add3(base as int, e as int, t as int),
        r <= 0,
{
    let s: i128 = (base as i128) + (e as i128) + (t as i128);
    if s < (i64::MIN as i128) {
        i64::MIN
    } else {
        s as i64
    }
}

} // verus!
