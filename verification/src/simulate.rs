//! The Monte Carlo path simulator: daily growth factors drawn under a
//! geometric Brownian motion model, and cumulative price paths built from
//! them. All arithmetic is fixed point in micro-units; the exponential and
//! the square root are exact integer constructions with documented
//! saturation, so every path entry stays strictly positive and in range.

use vstd::prelude::*;
use vstd::arithmetic::div_mod::lemma_div_is_ordered;
use vstd::arithmetic::div_mod::lemma_div_multiples_vanish;

use crate::estimator::calculate_drift;
use crate::estimator::clamp_spec;
use crate::estimator::div_trunc;
use crate::rng::gen_index;
use crate::stock::Stock;
use crate::PredictError;
use crate::EXP_ARG_CLAMP_MICROS;
use crate::EXP_CAP_MICROS;
use crate::E_MICROS;
use crate::MAX_CLOSE_MICROS;
use crate::MAX_RECORDS;
use crate::MAX_VARIANCE_MICROS;
use crate::MICROS;
use crate::PATH_CAP_MICROS;
use crate::RETURN_CLAMP_MICROS;

use rand::rngs::StdRng;

verus! {

/// The integer square root, as a mathematical function.
pub open spec fn spec_isqrt(x: int) -> int
    decreases x,
{
    if x <= 0 {
        0
    } else {
        let p = spec_isqrt(x - 1);
        if (p + 1) * (p + 1) <= x {
            p + 1
        } else {
            p
        }
    }
}

/// `spec_isqrt` is the largest integer whose square is at most `x`.
pub proof fn lemma_spec_isqrt(x: int)
    requires
        x >= 0,
    ensures
        spec_isqrt(x) >= 0,
        spec_isqrt(x) * spec_isqrt(x) <= x,
        x < (spec_isqrt(x) + 1) * (spec_isqrt(x) + 1),
    decreases x,
{
    if x > 0 {
        lemma_spec_isqrt(x - 1);
        let p = spec_isqrt(x - 1);
        if (p + 1) * (p + 1) <= x {
            assert((p + 1) * (p + 1) < (p + 2) * (p + 2)) by (nonlinear_arith)
                requires
                    p >= 0,
            ;
        }
    }
}

/// Two integers bracketing the same square are equal.
proof fn lemma_isqrt_unique(a: int, b: int, x: int)
    requires
        a >= 0,
        b >= 0,
        a * a <= x,
        x < (a + 1) * (a + 1),
        b * b <= x,
        x < (b + 1) * (b + 1),
    ensures
        a == b,
{
    if a < b {
        assert((a + 1) * (a + 1) <= b * b) by (nonlinear_arith)
            requires
                0 <= a,
                a + 1 <= b,
        ;
        assert(false);
    }
    if b < a {
        assert((b + 1) * (b + 1) <= a * a) by (nonlinear_arith)
            requires
                0 <= b,
                b + 1 <= a,
        ;
        assert(false);
    }
}

/// The integer square root: the largest `r` with `r * r <= x`.
fn isqrt(x: u128) -> (r: u64)
    requires
        x <= 1_600_000_000_000_000 - 1,
    ensures
        r as int == spec_isqrt(x as int),
        (r as int) * (r as int) <= x as int,
        (x as int) < ((r as int) + 1) * ((r as int) + 1),
        r < 40_000_000,
{
    let mut lo: u64 = 0;
    let mut hi: u64 = 40_000_000;
    proof {
        assert((40_000_000 as int) * (40_000_000 as int) == 1_600_000_000_000_000int)
            by (nonlinear_arith);
    }
    while lo + 1 < hi
        invariant
            lo < hi <= 40_000_000,
            (lo as int) * (lo as int) <= x as int,
            (x as int) < (hi as int) * (hi as int),
        decreases hi - lo,
    {
        let mid: u64 = lo + (hi - lo) / 2;
        proof {
            assert((mid as int) * (mid as int) <= 1_600_000_000_000_000int) by (nonlinear_arith)
                requires
                    0 <= mid as int <= 40_000_000,
            ;
        }
        if (mid as u128) * (mid as u128) <= x {
            lo = mid;
        } else {
            hi = mid;
        }
    }
    proof {
        lemma_spec_isqrt(x as int);
        lemma_isqrt_unique(lo as int, spec_isqrt(x as int), x as int);
    }
    lo
}

/// One saturating multiplicative step of the exponential: scale by `e`,
/// held below the cap.
pub open spec fn exp_step(a: int) -> int {
    let v = a * (E_MICROS as int) / (MICROS as int);
    if v > EXP_CAP_MICROS as int {
        EXP_CAP_MICROS as int
    } else {
        v
    }
}

/// `k` saturating steps of the exponential applied to `base`.
pub open spec fn exp_pow(base: int, k: nat) -> int
    decreases k,
{
    if k == 0 {
        base
    } else {
        exp_step(exp_pow(base, (k - 1) as nat))
    }
}

/// The fractional part of the exponential: a four-term series in
/// micro-units, exact integer divisions throughout.
pub open spec fn exp_frac(r: int) -> int {
    let m = MICROS as int;
    m + r + r * r / (2 * m) + r * r * r / (6 * m * m) + r * r * r * r / (24 * m * m * m)
}

/// The fixed-point exponential of a non-negative argument in micro-units.
pub open spec fn spec_exp_pos(x: int) -> int
    recommends
        x >= 0,
{
    exp_pow(exp_frac(x % (MICROS as int)), (x / (MICROS as int)) as nat)
}

/// The fixed-point exponential: arguments saturate at plus or minus
/// `EXP_ARG_CLAMP_MICROS`, negative arguments invert the positive value,
/// and the result is floored at one micro-unit, hence always positive.
pub open spec fn spec_exp(x: int) -> int {
    let c = clamp_spec(x, -(EXP_ARG_CLAMP_MICROS as int), EXP_ARG_CLAMP_MICROS as int);
    if c >= 0 {
        spec_exp_pos(c)
    } else {
        let inv = (MICROS as int) * (MICROS as int) / spec_exp_pos(-c);
        if inv < 1 {
            1
        } else {
            inv
        }
    }
}

/// The exponential of a non-negative, saturated argument.
fn exp_pos(m: i64) -> (r: u64)
    requires
        0 <= m <= EXP_ARG_CLAMP_MICROS,
    ensures
        r as int == spec_exp_pos(m as int),
        1 <= r as int <= EXP_CAP_MICROS as int,
{
    let q: u64 = (m as u64) / (MICROS as u64);
    let rem: u64 = (m as u64) % (MICROS as u64);
    proof {
        assert(q as int == (m as int) / (MICROS as int));
        assert(rem as int == (m as int) % (MICROS as int));
        assert(q <= 18);
        assert(rem < 1_000_000);
    }
    proof {
        assert((rem as int) * (rem as int) < 1_000_000_000_000int) by (nonlinear_arith)
            requires
                0 <= (rem as int) < 1_000_000,
        ;
    }
    let r2: u128 = (rem as u128) * (rem as u128);
    proof {
        assert((r2 as int) * (rem as int) < 1_000_000_000_000_000_000int) by (nonlinear_arith)
            requires
                0 <= (r2 as int) < 1_000_000_000_000,
                0 <= (rem as int) < 1_000_000,
        ;
    }
    let r3: u128 = r2 * (rem as u128);
    proof {
        assert((r3 as int) * (rem as int) < 1_000_000_000_000_000_000_000_000int)
            by (nonlinear_arith)
            requires
                0 <= (r3 as int) < 1_000_000_000_000_000_000,
                0 <= (rem as int) < 1_000_000,
        ;
    }
    let r4: u128 = r3 * (rem as u128);
    let t2: u64 = (r2 / 2_000_000u128) as u64;
    let t3: u64 = (r3 / 6_000_000_000_000u128) as u64;
    let t4: u64 = (r4 / 24_000_000_000_000_000_000u128) as u64;
    proof {
        lemma_div_is_ordered(r2 as int, 1_000_000_000_000int, 2_000_000int);
        lemma_div_is_ordered(r3 as int, 1_000_000_000_000_000_000int, 6_000_000_000_000int);
        lemma_div_is_ordered(
            r4 as int,
            1_000_000_000_000_000_000_000_000int,
            24_000_000_000_000_000_000int,
        );
    }
    let frac: u64 = (MICROS as u64) + rem + t2 + t3 + t4;
    proof {
        assert(frac as int == exp_frac(rem as int));
        assert(1 <= frac as int <= EXP_CAP_MICROS as int);
    }
    let mut acc: u64 = frac;
    let mut i: u64 = 0;
    while i < q
        invariant
            i <= q <= 18,
            acc as int == exp_pow(frac as int, i as nat),
            1 <= acc as int <= EXP_CAP_MICROS as int,
        decreases q - i,
    {
        let wide: u128 = (acc as u128) * (E_MICROS as u128);
        proof {
            assert((acc as int) * (E_MICROS as int) <= 300_000_000_000_000_000_000int)
                by (nonlinear_arith)
                requires
                    0 <= acc as int <= 100_000_000_000_000int,
                    E_MICROS as int == 2_718_281,
            ;
            assert((acc as int) * (E_MICROS as int) >= 2_718_281int) by (nonlinear_arith)
                requires
                    acc as int >= 1,
                    E_MICROS as int == 2_718_281,
            ;
            lemma_div_is_ordered(2_718_281int, (acc as int) * (E_MICROS as int), MICROS as int);
        }
        let v: u128 = wide / (MICROS as u128);
        let next: u64 = if v > EXP_CAP_MICROS as u128 {
            EXP_CAP_MICROS
        } else {
            v as u64
        };
        proof {
            assert(next as int == exp_step(acc as int));
        }
        acc = next;
        i = i + 1;
    }
    acc
}

/// The fixed-point exponential in micro-units, positive for every argument.
pub fn exp_micros(x: i64) -> (r: u64)
    ensures
        r as int == spec_exp(x as int),
        1 <= r as int <= EXP_CAP_MICROS as int,
{
    let c: i64 = if x < -EXP_ARG_CLAMP_MICROS {
        -EXP_ARG_CLAMP_MICROS
    } else if x > EXP_ARG_CLAMP_MICROS {
        EXP_ARG_CLAMP_MICROS
    } else {
        x
    };
    if c >= 0 {
        exp_pos(c)
    } else {
        let p: u64 = exp_pos(-c);
        let unit_sq: u64 = 1_000_000_000_000;
        let d: u64 = unit_sq / p;
        proof {
            assert(unit_sq as int == (MICROS as int) * (MICROS as int));
            lemma_div_is_ordered(unit_sq as int, EXP_CAP_MICROS as int, p as int);
        }
        if d == 0 {
            1
        } else {
            d
        }
    }
}

/// One standard-normal draw in micro-units, as the centred sum of twelve
/// uniform draws on [0, 1] — the classical integer approximation of a
/// normal variate; its mean is 0 and its variance 1. Bounded by six units
/// in magnitude.
fn draw_normal_micros(rng: &mut StdRng) -> (z: i64)
    ensures
        -6 * MICROS <= z <= 6 * MICROS,
{
    let mut acc: i64 = 0;
    let mut i: usize = 0;
    while i < 12
        invariant
            i <= 12,
            0 <= acc <= (i as int) * (MICROS as int),
        decreases 12 - i,
    {
        let u: usize = gen_index(rng, (MICROS as usize) + 1);
        acc = acc + (u as i64);
        i = i + 1;
    }
    acc - 6 * MICROS
}

/// The growth factor a single draw yields: the fixed-point exponential of
/// the drift plus the sigma-scaled draw, where sigma is the integer square
/// root of the variance lifted to squared micro-units.
pub open spec fn factor_of(drift: int, variance: int, z: int) -> int {
    spec_exp(drift + div_trunc(spec_isqrt(variance * (MICROS as int)) * z, MICROS as int))
}

/// Whether `v` is the growth factor some bounded standard-normal draw
/// yields under the given drift and variance.
pub open spec fn is_factor(drift: int, variance: int, v: int) -> bool {
    exists|z: int|
        -6 * (MICROS as int) <= z <= 6 * (MICROS as int) && v == factor_of(drift, variance, z)
}

/// The matrix of daily growth factors for the simulation: one row per
/// simulated day, one column per independent trial, each entry
/// `exp(drift + sigma * z)` in micro-units for a fresh standard-normal
/// draw `z`. Every entry is strictly positive whatever the randomness
/// source returns. Fails with `InvalidParameterError` exactly when the
/// horizon or the trial count is zero or the variance is negative.
pub fn calculate_daily_returns(
    drift: i64,
    variance: i64,
    days: usize,
    trials: usize,
    rng: &mut StdRng,
) -> (r: Result<Vec<Vec<u64>>, PredictError>)
    requires
        -(RETURN_CLAMP_MICROS + MAX_VARIANCE_MICROS) <= drift <= RETURN_CLAMP_MICROS,
        variance <= MAX_VARIANCE_MICROS,
    ensures
        match r {
            Ok(m) => days >= 1 && trials >= 1 && variance >= 0 && m@.len() == days && (forall|
                d: int,
            |
                0 <= d < m@.len() ==> #[trigger] m@[d]@.len() == trials && forall|t: int|
                    0 <= t < m@[d]@.len() ==> 1 <= #[trigger] m@[d]@[t] <= EXP_CAP_MICROS) && (forall|
                d: int,
                t: int,
            |
                0 <= d < m@.len() && 0 <= t < trials ==> is_factor(
                    drift as int,
                    variance as int,
                    (#[trigger] m@[d]@[t]) as int,
                )),
            Err(e) => e == PredictError::InvalidParameterError && (days == 0 || trials == 0
                || variance < 0),
        },
{
    if days == 0 || trials == 0 || variance < 0 {
        return Err(PredictError::InvalidParameterError);
    }
    let wide_var: u128 = (variance as u128) * (MICROS as u128);
    let sigma: u64 = isqrt(wide_var);
    let mut m: Vec<Vec<u64>> = Vec::new();
    let mut d: usize = 0;
    while d < days
        invariant
            m@.len() == d,
            d <= days,
            variance >= 0,
            sigma as int == spec_isqrt((variance as int) * (MICROS as int)),
            sigma < 40_000_000,
            -(RETURN_CLAMP_MICROS + MAX_VARIANCE_MICROS) <= drift <= RETURN_CLAMP_MICROS,
            forall|d2: int|
                0 <= d2 < m@.len() ==> #[trigger] m@[d2]@.len() == trials && forall|t2: int|
                    0 <= t2 < m@[d2]@.len() ==> 1 <= #[trigger] m@[d2]@[t2] <= EXP_CAP_MICROS,
            forall|d2: int, t2: int|
                0 <= d2 < m@.len() && 0 <= t2 < trials ==> is_factor(
                    drift as int,
                    variance as int,
                    (#[trigger] m@[d2]@[t2]) as int,
                ),
        decreases days - d,
    {
        let mut row: Vec<u64> = Vec::new();
        let mut t: usize = 0;
        while t < trials
            invariant
                row@.len() == t,
                t <= trials,
                variance >= 0,
                sigma as int == spec_isqrt((variance as int) * (MICROS as int)),
                sigma < 40_000_000,
                -(RETURN_CLAMP_MICROS + MAX_VARIANCE_MICROS) <= drift <= RETURN_CLAMP_MICROS,
                forall|t2: int| 0 <= t2 < row@.len() ==> 1 <= #[trigger] row@[t2] <= EXP_CAP_MICROS,
                forall|t2: int|
                    0 <= t2 < row@.len() ==> is_factor(
                        drift as int,
                        variance as int,
                        (#[trigger] row@[t2]) as int,
                    ),
            decreases trials - t,
        {
            let z: i64 = draw_normal_micros(rng);
            let zm: u64 = if z >= 0 {
                z as u64
            } else {
                (-z) as u64
            };
            proof {
                assert((sigma as int) * (zm as int) <= 240_000_000_000_000int) by (nonlinear_arith)
                    requires
                        0 <= (sigma as int) < 40_000_000,
                        0 <= zm as int <= 6_000_000,
                ;
            }
            let shift: u64 = (((sigma as u128) * (zm as u128)) / (MICROS as u128)) as u64;
            proof {
                lemma_div_is_ordered(
                    (sigma as int) * (zm as int),
                    240_000_000_000_000int,
                    MICROS as int,
                );
            }
            let arg: i64 = if z >= 0 {
                drift + (shift as i64)
            } else {
                drift - (shift as i64)
            };
            proof {
                if z >= 0 {
                    assert((sigma as int) * (z as int) == (sigma as int) * (zm as int));
                    assert(arg as int == drift + div_trunc((sigma as int) * (z as int), MICROS as int));
                } else {
                    assert((sigma as int) * (z as int) == -((sigma as int) * (zm as int)))
                        by (nonlinear_arith)
                        requires
                            z as int == -(zm as int),
                    ;
                    assert(arg as int == drift + div_trunc((sigma as int) * (z as int), MICROS as int));
                }
            }
            let f: u64 = exp_micros(arg);
            row.push(f);
            proof {
                assert(is_factor(drift as int, variance as int, (row@[row@.len() - 1]) as int)) by {
                    assert((row@[row@.len() - 1]) as int == factor_of(
                        drift as int,
                        variance as int,
                        z as int,
                    ));
                }
            }
            t = t + 1;
        }
        let ghost rowv = row@;
        proof {
            assert forall|t2: int| 0 <= t2 < rowv.len() implies is_factor(
                drift as int,
                variance as int,
                (#[trigger] rowv[t2]) as int,
            ) by {
                assert(rowv[t2] == row@[t2]);
            }
        }
        m.push(row);
        proof {
            assert forall|d2: int, t2: int|
                0 <= d2 < m@.len() && 0 <= t2 < trials implies is_factor(
                drift as int,
                variance as int,
                (#[trigger] m@[d2]@[t2]) as int,
            ) by {
                if d2 == m@.len() - 1 {
                    assert(m@[d2]@ == rowv);
                    assert(m@[d2]@[t2] == rowv[t2]);
                }
            }
        }
        d = d + 1;
    }
    Ok(m)
}

/// One propagation step of a price path: the previous price scaled by a
/// growth factor, saturated into [1, `PATH_CAP_MICROS`].
pub open spec fn path_step(prev: int, f: int) -> int {
    let raw = prev * f / (MICROS as int);
    if raw < 1 {
        1
    } else if raw > PATH_CAP_MICROS as int {
        PATH_CAP_MICROS as int
    } else {
        raw
    }
}

/// Whether `v` arises from `prev` by one step under some growth factor of
/// the simulator's range.
pub open spec fn is_path_step(prev: int, v: int) -> bool {
    exists|f: int| 1 <= f <= EXP_CAP_MICROS as int && v == path_step(prev, f)
}

/// The simulated price paths: row 0 repeats the last known close across
/// all trial columns, and each later row multiplies the previous one by
/// that day's growth factor, saturating into [1, `PATH_CAP_MICROS`] so
/// that every entry stays strictly positive. Fails with
/// `InsufficientHistoryError` exactly when fewer than two records are
/// given, and with `InvalidParameterError` exactly when the horizon or the
/// trial count is zero.
pub fn calculate_price_paths(
    stocks: &Vec<Stock>,
    days: usize,
    trials: usize,
    rng: &mut StdRng,
) -> (r: Result<Vec<Vec<u64>>, PredictError>)
    requires
        stocks@.len() <= MAX_RECORDS,
        forall|i: int| 0 <= i < stocks@.len() ==> 1 <= #[trigger] stocks@[i].close <= MAX_CLOSE_MICROS,
    ensures
        match r {
            Ok(p) => stocks@.len() >= 2 && days >= 1 && trials >= 1 && p@.len() == days
                && (forall|d: int| 0 <= d < p@.len() ==> #[trigger] p@[d]@.len() == trials)
                && (forall|t: int|
                    0 <= t < trials ==> #[trigger] p@[0]@[t]
                        == stocks@[stocks@.len() - 1].close as u64)
                && (forall|d: int, t: int|
                    0 <= d < p@.len() && 0 <= t < p@[d]@.len() ==> 1 <= #[trigger] p@[d]@[t]
                        <= PATH_CAP_MICROS)
                && (forall|d: int, t: int|
                    1 <= d < p@.len() && 0 <= t < trials ==> is_path_step(
                        p@[d - 1]@[t] as int,
                        (#[trigger] p@[d]@[t]) as int,
                    )),
            Err(e) => (e == PredictError::InsufficientHistoryError && stocks@.len() < 2) || (e
                == PredictError::InvalidParameterError && stocks@.len() >= 2 && (days == 0
                || trials == 0)),
        },
{
    let dv: (i64, i64) = match calculate_drift(stocks) {
        Ok(v) => v,
        Err(e) => {
            return Err(e);
        },
    };
    let factors: Vec<Vec<u64>> = match calculate_daily_returns(dv.0, dv.1, days, trials, rng) {
        Ok(v) => v,
        Err(e) => {
            return Err(e);
        },
    };
    let last: u64 = stocks[stocks.len() - 1].close as u64;
    let mut paths: Vec<Vec<u64>> = Vec::new();
    let mut first: Vec<u64> = Vec::new();
    let mut t0: usize = 0;
    while t0 < trials
        invariant
            first@.len() == t0,
            t0 <= trials,
            1 <= last <= MAX_CLOSE_MICROS as u64,
            forall|t2: int| 0 <= t2 < first@.len() ==> #[trigger] first@[t2] == last,
        decreases trials - t0,
    {
        first.push(last);
        t0 = t0 + 1;
    }
    paths.push(first);
    let mut d: usize = 1;
    while d < days
        invariant
            1 <= d <= days,
            paths@.len() == d,
            1 <= last <= MAX_CLOSE_MICROS as u64,
            factors@.len() == days,
            trials >= 1,
            forall|d2: int|
                0 <= d2 < factors@.len() ==> #[trigger] factors@[d2]@.len() == trials
                    && forall|t2: int|
                    0 <= t2 < factors@[d2]@.len() ==> 1 <= #[trigger] factors@[d2]@[t2]
                        <= EXP_CAP_MICROS,
            forall|d2: int| 0 <= d2 < paths@.len() ==> #[trigger] paths@[d2]@.len() == trials,
            forall|t2: int| 0 <= t2 < trials ==> #[trigger] paths@[0]@[t2] == last,
            forall|d2: int, t2: int|
                0 <= d2 < paths@.len() && 0 <= t2 < paths@[d2]@.len() ==> 1 <= #[trigger] paths@[d2]@[t2]
                    <= PATH_CAP_MICROS,
            forall|d2: int, t2: int|
                1 <= d2 < paths@.len() && 0 <= t2 < trials ==> is_path_step(
                    paths@[d2 - 1]@[t2] as int,
                    (#[trigger] paths@[d2]@[t2]) as int,
                ),
        decreases days - d,
    {
        let mut row: Vec<u64> = Vec::new();
        let mut t: usize = 0;
        while t < trials
            invariant
                row@.len() == t,
                t <= trials,
                1 <= d < days,
                paths@.len() == d,
                factors@.len() == days,
                forall|d2: int|
                    0 <= d2 < factors@.len() ==> #[trigger] factors@[d2]@.len() == trials
                        && forall|t2: int|
                        0 <= t2 < factors@[d2]@.len() ==> 1 <= #[trigger] factors@[d2]@[t2]
                            <= EXP_CAP_MICROS,
                forall|d2: int| 0 <= d2 < paths@.len() ==> #[trigger] paths@[d2]@.len() == trials,
                forall|d2: int, t2: int|
                    0 <= d2 < paths@.len() && 0 <= t2 < paths@[d2]@.len() ==> 1 <= #[trigger] paths@[d2]@[t2]
                        <= PATH_CAP_MICROS,
                forall|d2: int, t2: int|
                    1 <= d2 < paths@.len() && 0 <= t2 < trials ==> is_path_step(
                        paths@[d2 - 1]@[t2] as int,
                        (#[trigger] paths@[d2]@[t2]) as int,
                    ),
                forall|t2: int| 0 <= t2 < row@.len() ==> 1 <= #[trigger] row@[t2] <= PATH_CAP_MICROS,
                forall|t2: int|
                    0 <= t2 < row@.len() ==> is_path_step(
                        paths@[d - 1]@[t2] as int,
                        (#[trigger] row@[t2]) as int,
                    ),
            decreases trials - t,
        {
            proof {
                assert(factors@[d as int]@.len() == trials);
                assert(1 <= factors@[d as int]@[t as int] <= EXP_CAP_MICROS);
                assert(1 <= paths@[d - 1]@[t as int] <= PATH_CAP_MICROS);
            }
            let prev: u64 = paths[d - 1][t];
            let f: u64 = factors[d][t];
            proof {
                assert((prev as int) * (f as int) <= 100_000_000_000_000_000_000_000_000_000int)
                    by (nonlinear_arith)
                    requires
                        0 <= prev as int <= 1_000_000_000_000_000int,
                        0 <= f as int <= 100_000_000_000_000int,
                ;
            }
            let raw: u128 = ((prev as u128) * (f as u128)) / (MICROS as u128);
            let v: u64 = if raw == 0 {
                1
            } else if raw > PATH_CAP_MICROS as u128 {
                PATH_CAP_MICROS
            } else {
                raw as u64
            };
            row.push(v);
            proof {
                assert(is_path_step(paths@[d - 1]@[t as int] as int, (row@[row@.len() - 1]) as int))
                    by {
                    assert((row@[row@.len() - 1]) as int == path_step(
                        paths@[d - 1]@[t as int] as int,
                        f as int,
                    ));
                }
            }
            t = t + 1;
        }
        let ghost rowv = row@;
        proof {
            assert forall|t2: int| 0 <= t2 < rowv.len() implies is_path_step(
                paths@[d - 1]@[t2] as int,
                (#[trigger] rowv[t2]) as int,
            ) by {
                assert(rowv[t2] == row@[t2]);
            }
        }
        paths.push(row);
        proof {
            assert forall|d2: int, t2: int|
                1 <= d2 < paths@.len() && 0 <= t2 < trials implies is_path_step(
                paths@[d2 - 1]@[t2] as int,
                (#[trigger] paths@[d2]@[t2]) as int,
            ) by {
                if d2 == paths@.len() - 1 {
                    assert(paths@[d2]@ == rowv);
                    assert(paths@[d2]@[t2] == rowv[t2]);
                }
            }
        }
        d = d + 1;
    }
    Ok(paths)
}

/// The sum of a row of path entries.
pub open spec fn sum_row(s: Seq<u64>) -> int
    decreases s.len(),
{
    if s.len() == 0 {
        0
    } else {
        sum_row(s.drop_last()) + s.last()
    }
}

/// The expected terminal price: the arithmetic mean of the final row of
/// the simulated paths.
pub fn expected_terminal_price(paths: &Vec<Vec<u64>>) -> (r: Result<u64, PredictError>)
    requires
        forall|d: int, t: int|
            0 <= d < paths@.len() && 0 <= t < paths@[d]@.len() ==> 1 <= #[trigger] paths@[d]@[t]
                <= PATH_CAP_MICROS,
    ensures
        match r {
            Ok(v) => paths@.len() >= 1 && paths@.last()@.len() >= 1 && v as int == sum_row(
                paths@.last()@,
            ) / (paths@.last()@.len() as int) && 1 <= v <= PATH_CAP_MICROS,
            Err(e) => e == PredictError::InvalidParameterError && (paths@.len() == 0
                || paths@.last()@.len() == 0),
        },
{
    if paths.len() == 0 {
        return Err(PredictError::InvalidParameterError);
    }
    let li: usize = paths.len() - 1;
    let n: usize = paths[li].len();
    if n == 0 {
        return Err(PredictError::InvalidParameterError);
    }
    let ghost rv = paths@[li as int]@;
    proof {
        assert(rv == paths@.last()@);
    }
    let mut acc: u128 = 0;
    let mut i: usize = 0;
    while i < n
        invariant
            li as int == paths@.len() - 1,
            n == rv.len(),
            rv == paths@[li as int]@,
            rv == paths@.last()@,
            paths@.len() >= 1,
            forall|d: int, t: int|
                0 <= d < paths@.len() && 0 <= t < paths@[d]@.len() ==> 1 <= #[trigger] paths@[d]@[t]
                    <= PATH_CAP_MICROS,
            i <= n,
            acc == sum_row(rv.take(i as int)),
            (i as int) <= acc <= (i as int) * (PATH_CAP_MICROS as int),
        decreases n - i,
    {
        proof {
            assert(rv.take(i as int + 1).drop_last() =~= rv.take(i as int));
            assert(rv.take(i as int + 1).last() == rv[i as int]);
            assert(1 <= rv[i as int] <= PATH_CAP_MICROS);
        }
        let entry: u64 = paths[li][i];
        acc = acc + (entry as u128);
        i = i + 1;
    }
    proof {
        assert(rv.take(n as int) =~= rv);
    }
    let q: u128 = acc / (n as u128);
    proof {
        lemma_div_is_ordered(n as int, acc as int, n as int);
        lemma_div_multiples_vanish(1int, n as int);
        lemma_div_is_ordered(acc as int, (n as int) * (PATH_CAP_MICROS as int), n as int);
        lemma_div_multiples_vanish(PATH_CAP_MICROS as int, n as int);
        assert((n as int) * (PATH_CAP_MICROS as int) == (PATH_CAP_MICROS as int) * (n as int));
        assert(1 <= q as int <= PATH_CAP_MICROS as int);
    }
    Ok(q as u64)
}

} // verus!
