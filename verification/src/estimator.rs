//! The drift/volatility estimator: daily returns of the close-price series,
//! their arithmetic mean and population variance, and the Ito-corrected
//! drift used by the Monte Carlo simulator.
//!
//! A daily return is the simple ratio change `(close - prev) / prev` held in
//! micro-units. The simple form is chosen over the logarithmic one because
//! it stays exact in fixed-point arithmetic; returns saturate at
//! `RETURN_CLAMP_MICROS` in magnitude so that every later sum is in range.

use vstd::prelude::*;
use vstd::arithmetic::div_mod::lemma_div_is_ordered;
use vstd::arithmetic::div_mod::lemma_div_multiples_vanish;

use crate::stock::Stock;
use crate::PredictError;
use crate::MAX_CLOSE_MICROS;
use crate::MAX_RECORDS;
use crate::MAX_VARIANCE_MICROS;
use crate::MICROS;
use crate::RETURN_CLAMP_MICROS;

verus! {

/// `x` held into `[lo, hi]`.
pub open spec fn clamp_spec(x: int, lo: int, hi: int) -> int {
    if x < lo {
        lo
    } else if x > hi {
        hi
    } else {
        x
    }
}

/// Integer division that rounds toward zero, as the fixed-point model does.
pub open spec fn div_trunc(a: int, b: int) -> int
    recommends
        b > 0,
{
    if a >= 0 {
        a / b
    } else {
        -((-a) / b)
    }
}

/// The saturated simple daily return, in micro-units, of a step from close
/// price `prev` to close price `cur` (both in micro-units).
pub open spec fn spec_return(prev: int, cur: int) -> int
    recommends
        prev > 0,
{
    clamp_spec(
        div_trunc((cur - prev) * (MICROS as int), prev),
        -(RETURN_CLAMP_MICROS as int),
        RETURN_CLAMP_MICROS as int,
    )
}

/// The return series of a record sequence: one entry per record but the
/// first, each derived from the step off the preceding record's close.
pub open spec fn spec_returns(stocks: Seq<Stock>) -> Seq<int>
    recommends
        stocks.len() >= 1,
{
    Seq::new((stocks.len() - 1) as nat, |i: int| spec_return(stocks[i].close as int, stocks[i + 1].close as int))
}

pub open spec fn sum_seq(s: Seq<int>) -> int
    decreases s.len(),
{
    if s.len() == 0 {
        0
    } else {
        sum_seq(s.drop_last()) + s.last()
    }
}

/// The arithmetic mean of the series, rounded toward zero.
pub open spec fn spec_mean(s: Seq<int>) -> int
    recommends
        s.len() > 0,
{
    div_trunc(sum_seq(s), s.len() as int)
}

pub open spec fn sum_sq_dev(s: Seq<int>, m: int) -> int
    decreases s.len(),
{
    if s.len() == 0 {
        0
    } else {
        sum_sq_dev(s.drop_last(), m) + (s.last() - m) * (s.last() - m)
    }
}

/// The population variance of the series in micro-units: the mean squared
/// deviation, rescaled from squared micro-units, saturated far above any
/// value a saturated return series can reach.
pub open spec fn spec_variance(s: Seq<int>) -> int
    recommends
        s.len() > 0,
{
    let raw = sum_sq_dev(s, spec_mean(s)) / (s.len() * (MICROS as int));
    if raw > MAX_VARIANCE_MICROS as int {
        MAX_VARIANCE_MICROS as int
    } else {
        raw
    }
}

/// The risk-neutral drift: the mean return less half the variance.
pub open spec fn spec_drift(s: Seq<int>) -> int
    recommends
        s.len() > 0,
{
    spec_mean(s) - spec_variance(s) / 2
}

/// Lifts an executable return series to the mathematical one.
pub open spec fn as_ints(s: Seq<i64>) -> Seq<int> {
    Seq::new(s.len(), |i: int| s[i] as int)
}

/// One saturated simple return step.
fn one_return(prev: i64, cur: i64) -> (r: i64)
    requires
        1 <= prev <= MAX_CLOSE_MICROS,
        1 <= cur <= MAX_CLOSE_MICROS,
    ensures
        r == spec_return(prev as int, cur as int),
        -RETURN_CLAMP_MICROS <= r <= RETURN_CLAMP_MICROS,
{
    if cur >= prev {
        let num: i64 = cur - prev;
        let prod: u128 = (num as u128) * (MICROS as u128);
        let q: u128 = prod / (prev as u128);
        proof {
            assert((cur - prev) * (MICROS as int) == (num as int) * (MICROS as int));
            assert(div_trunc((cur - prev) * (MICROS as int), prev as int) == q as int);
        }
        if q >= RETURN_CLAMP_MICROS as u128 {
            RETURN_CLAMP_MICROS
        } else {
            q as i64
        }
    } else {
        let num: i64 = prev - cur;
        let prod: u128 = (num as u128) * (MICROS as u128);
        let q: u128 = prod / (prev as u128);
        proof {
            assert((cur - prev) * (MICROS as int) == -((num as int) * (MICROS as int)));
            assert(div_trunc((cur - prev) * (MICROS as int), prev as int) == -(q as int));
        }
        if q >= RETURN_CLAMP_MICROS as u128 {
            -RETURN_CLAMP_MICROS
        } else {
            -(q as i64)
        }
    }
}

/// The saturated simple daily returns of the record series, oldest first.
/// The result is a deterministic function of the close prices alone; with
/// fewer than two records no return is defined.
pub fn simple_returns(stocks: &Vec<Stock>) -> (r: Result<Vec<i64>, PredictError>)
    requires
        stocks@.len() <= MAX_RECORDS,
        forall|i: int| 0 <= i < stocks@.len() ==> 1 <= #[trigger] stocks@[i].close <= MAX_CLOSE_MICROS,
    ensures
        match r {
            Ok(rs) => stocks@.len() >= 2 && rs@.len() == stocks@.len() - 1
                && as_ints(rs@) == spec_returns(stocks@)
                && forall|i: int| 0 <= i < rs@.len()
                    ==> -RETURN_CLAMP_MICROS <= #[trigger] rs@[i] <= RETURN_CLAMP_MICROS,
            Err(e) => e == PredictError::InsufficientHistoryError && stocks@.len() < 2,
        },
{
    if stocks.len() < 2 {
        return Err(PredictError::InsufficientHistoryError);
    }
    let n: usize = stocks.len();
    let mut rs: Vec<i64> = Vec::new();
    let mut i: usize = 0;
    while i < n - 1
        invariant
            2 <= n == stocks@.len() <= MAX_RECORDS,
            forall|k: int| 0 <= k < stocks@.len() ==> 1 <= #[trigger] stocks@[k].close <= MAX_CLOSE_MICROS,
            i <= n - 1,
            rs@.len() == i,
            forall|k: int| 0 <= k < i as int
                ==> #[trigger] rs@[k] == spec_return(stocks@[k].close as int, stocks@[k + 1].close as int),
            forall|k: int| 0 <= k < i as int
                ==> -RETURN_CLAMP_MICROS <= #[trigger] rs@[k] <= RETURN_CLAMP_MICROS,
        decreases n - i,
    {
        let ret: i64 = one_return(stocks[i].close, stocks[i + 1].close);
        rs.push(ret);
        i = i + 1;
    }
    proof {
        assert(as_ints(rs@) =~= spec_returns(stocks@));
    }
    Ok(rs)
}

/// The exact sum of a saturated return series.
fn sum_returns(rs: &Vec<i64>) -> (s: i64)
    requires
        rs@.len() <= MAX_RECORDS,
        forall|i: int| 0 <= i < rs@.len()
            ==> -RETURN_CLAMP_MICROS <= #[trigger] rs@[i] <= RETURN_CLAMP_MICROS,
    ensures
        s == sum_seq(as_ints(rs@)),
        -(rs@.len() * RETURN_CLAMP_MICROS) <= s <= rs@.len() * RETURN_CLAMP_MICROS,
{
    let n: usize = rs.len();
    let mut acc: i64 = 0;
    let mut i: usize = 0;
    while i < n
        invariant
            n == rs@.len() <= MAX_RECORDS,
            forall|k: int| 0 <= k < rs@.len()
                ==> -RETURN_CLAMP_MICROS <= #[trigger] rs@[k] <= RETURN_CLAMP_MICROS,
            i <= n,
            acc == sum_seq(as_ints(rs@).take(i as int)),
            -((i as int) * RETURN_CLAMP_MICROS) <= acc <= (i as int) * RETURN_CLAMP_MICROS,
        decreases n - i,
    {
        proof {
            assert(as_ints(rs@).take(i as int + 1).drop_last() =~= as_ints(rs@).take(i as int));
            assert(as_ints(rs@).take(i as int + 1).last() == rs@[i as int] as int);
        }
        acc = acc + rs[i];
        i = i + 1;
    }
    proof {
        assert(as_ints(rs@).take(n as int) =~= as_ints(rs@));
    }
    acc
}

/// The truncated mean of a saturated return series.
fn mean_returns(rs: &Vec<i64>) -> (m: i64)
    requires
        1 <= rs@.len() <= MAX_RECORDS,
        forall|i: int| 0 <= i < rs@.len()
            ==> -RETURN_CLAMP_MICROS <= #[trigger] rs@[i] <= RETURN_CLAMP_MICROS,
    ensures
        m == spec_mean(as_ints(rs@)),
        -RETURN_CLAMP_MICROS <= m <= RETURN_CLAMP_MICROS,
{
    let n: usize = rs.len();
    let s: i64 = sum_returns(rs);
    let mag: u128 = if s >= 0 {
        s as u128
    } else {
        (-s) as u128
    };
    let q: u128 = mag / (n as u128);
    proof {
        lemma_div_is_ordered(mag as int, (n as int) * (RETURN_CLAMP_MICROS as int), n as int);
        lemma_div_multiples_vanish(RETURN_CLAMP_MICROS as int, n as int);
        assert((n as int) * (RETURN_CLAMP_MICROS as int) == (RETURN_CLAMP_MICROS as int) * (n as int));
        assert(q as int <= RETURN_CLAMP_MICROS as int);
    }
    if s >= 0 {
        q as i64
    } else {
        -(q as i64)
    }
}

/// Estimates drift and variance from the record series. The result is a
/// deterministic pure function of the return series: two calls on one
/// dataset return identical values. Fails exactly when fewer than two
/// records are given, since no return is then defined.
pub fn calculate_drift(stocks: &Vec<Stock>) -> (r: Result<(i64, i64), PredictError>)
    requires
        stocks@.len() <= MAX_RECORDS,
        forall|i: int| 0 <= i < stocks@.len() ==> 1 <= #[trigger] stocks@[i].close <= MAX_CLOSE_MICROS,
    ensures
        match r {
            Ok(dv) => stocks@.len() >= 2
                && dv.0 == spec_drift(spec_returns(stocks@))
                && dv.1 == spec_variance(spec_returns(stocks@))
                && 0 <= dv.1 <= MAX_VARIANCE_MICROS
                && -(RETURN_CLAMP_MICROS + MAX_VARIANCE_MICROS) <= dv.0 <= RETURN_CLAMP_MICROS,
            Err(e) => e == PredictError::InsufficientHistoryError && stocks@.len() < 2,
        },
{
    let rs: Vec<i64> = match simple_returns(stocks) {
        Ok(v) => v,
        Err(e) => {
            return Err(e);
        },
    };
    let n: usize = rs.len();
    let mean: i64 = mean_returns(&rs);
    let mut acc: u128 = 0;
    let mut i: usize = 0;
    while i < n
        invariant
            1 <= n == rs@.len() <= MAX_RECORDS,
            forall|k: int| 0 <= k < rs@.len()
                ==> -RETURN_CLAMP_MICROS <= #[trigger] rs@[k] <= RETURN_CLAMP_MICROS,
            -RETURN_CLAMP_MICROS <= mean <= RETURN_CLAMP_MICROS,
            i <= n,
            acc == sum_sq_dev(as_ints(rs@).take(i as int), mean as int),
            acc <= (i as int) * 400_000_000_000_000int,
        decreases n - i,
    {
        let d: i64 = rs[i] - mean;
        let ad: i64 = if d >= 0 {
            d
        } else {
            -d
        };
        proof {
            let x: int = rs@[i as int] - mean as int;
            let a: int = ad as int;
            assert(a == x || a == -x);
            assert(x * x == a * a) by (nonlinear_arith)
                requires
                    a == x || a == -x,
            ;
            assert(a * a <= 400_000_000_000_000int) by (nonlinear_arith)
                requires
                    0 <= a <= 20_000_000,
            ;
            assert(as_ints(rs@).take(i as int + 1).drop_last() =~= as_ints(rs@).take(i as int));
            assert(as_ints(rs@).take(i as int + 1).last() == rs@[i as int] as int);
        }
        let sq: u128 = (ad as u128) * (ad as u128);
        acc = acc + sq;
        i = i + 1;
    }
    proof {
        assert(as_ints(rs@).take(n as int) =~= as_ints(rs@));
    }
    let denom: u128 = (n as u128) * (MICROS as u128);
    let raw: u128 = acc / denom;
    let variance: i64 = if raw > MAX_VARIANCE_MICROS as u128 {
        MAX_VARIANCE_MICROS
    } else {
        raw as i64
    };
    let half_var: i64 = ((variance as u64) / 2) as i64;
    let drift: i64 = mean - half_var;
    proof {
        assert(as_ints(rs@) == spec_returns(stocks@));
        assert(variance == spec_variance(spec_returns(stocks@)));
        assert(half_var == spec_variance(spec_returns(stocks@)) / 2);
    }
    Ok((drift, variance))
}

} // verus!
