//! The prediction orchestrator: labels the historical series, runs the
//! Monte Carlo pipeline once for an expected price, repeats the forest
//! pipeline over independent runs, and aggregates the directional verdict
//! with its confidence.

use vstd::prelude::*;
use vstd::arithmetic::div_mod::lemma_div_is_ordered;
use vstd::arithmetic::div_mod::lemma_div_multiples_vanish;

use crate::forest::run_forest;
use crate::simulate::calculate_price_paths;
use crate::simulate::expected_terminal_price;
use crate::stock::Stock;
use crate::stock::Tomorrow;
use crate::PredictError;
use crate::HALF_MICROS;
use crate::MAX_CLOSE_MICROS;
use crate::MAX_RECORDS;
use crate::MICROS;
use crate::NUM_DAYS;
use crate::NUM_RUNS;
use crate::NUM_TRIALS;
use crate::PATH_CAP_MICROS;

use rand::rngs::StdRng;

verus! {

/// What labelling makes of the record at position `j`: every field but the
/// label kept, the label derived from the step to the next close — a rise
/// where the next close is at least this one — and the last record left as
/// the unlabeled prediction target.
pub open spec fn relabeled(orig: Seq<Stock>, j: int, s: Stock) -> bool {
    s.date == orig[j].date && s.open == orig[j].open && s.high == orig[j].high && s.low
        == orig[j].low && s.close == orig[j].close && s.adj_close == orig[j].adj_close && s.volume
        == orig[j].volume && s.tomorrow == (if j < orig.len() - 1 {
        if orig[j].close <= orig[j + 1].close {
            Tomorrow::Increase
        } else {
            Tomorrow::Decrease
        }
    } else {
        Tomorrow::Predict
    })
}

/// Derives every record's label from the close-price step to its
/// successor; the last record becomes the unlabeled prediction target.
/// Every other field of every record is kept.
pub fn label_stocks(stocks: Vec<Stock>) -> (r: Vec<Stock>)
    ensures
        r@.len() == stocks@.len(),
        forall|j: int| 0 <= j < r@.len() ==> relabeled(stocks@, j, #[trigger] r@[j]),
{
    let n: usize = stocks.len();
    let mut input: Vec<Stock> = stocks;
    let ghost orig = input@;
    let mut out: Vec<Stock> = Vec::new();
    let mut i: usize = 0;
    while i < n
        invariant
            n == orig.len(),
            i <= n,
            input@ == orig.skip(i as int),
            out@.len() == i,
            forall|j: int| 0 <= j < i as int ==> relabeled(orig, j, #[trigger] out@[j]),
        decreases n - i,
    {
        let mut s: Stock = input.remove(0);
        proof {
            assert(orig.skip(i as int)[0] == orig[i as int]);
            assert(orig.skip(i as int).remove(0) =~= orig.skip(i as int + 1));
        }
        if input.len() > 0 {
            proof {
                assert(orig.skip(i as int + 1)[0] == orig[i as int + 1]);
            }
            let next_close: i64 = input[0].get_close();
            if s.get_close() <= next_close {
                s.set_tomorrow(Tomorrow::Increase);
            } else {
                s.set_tomorrow(Tomorrow::Decrease);
            }
        } else {
            s.set_tomorrow(Tomorrow::Predict);
        }
        out.push(s);
        i = i + 1;
    }
    out
}

/// How many of the collected runs voted for a rise.
pub open spec fn count_increase(rs: Seq<(Tomorrow, u64)>) -> int
    decreases rs.len(),
{
    if rs.len() == 0 {
        0
    } else {
        count_increase(rs.drop_last()) + if rs.last().0 == Tomorrow::Increase {
            1int
        } else {
            0int
        }
    }
}

/// The sum of the collected runs' reported accuracies.
pub open spec fn sum_accuracy(rs: Seq<(Tomorrow, u64)>) -> int
    decreases rs.len(),
{
    if rs.len() == 0 {
        0
    } else {
        sum_accuracy(rs.drop_last()) + rs.last().1
    }
}

/// Unanimous rise runs at accuracy one count and sum accordingly.
pub proof fn lemma_unanimous_runs(rs: Seq<(Tomorrow, u64)>)
    requires
        forall|k: int| 0 <= k < rs.len() ==> #[trigger] rs[k] == (Tomorrow::Increase, MICROS as u64),
    ensures
        count_increase(rs) == rs.len(),
        sum_accuracy(rs) == rs.len() * (MICROS as int),
    decreases rs.len(),
{
    if rs.len() > 0 {
        assert(forall|k: int|
            0 <= k < rs.drop_last().len() ==> #[trigger] rs.drop_last()[k] == rs[k]);
        lemma_unanimous_runs(rs.drop_last());
    }
}

/// A unanimous run collection aggregates to a rise at confidence one.
pub proof fn lemma_unanimous_mean(rs: Seq<(Tomorrow, u64)>)
    requires
        rs.len() >= 1,
        forall|k: int| 0 <= k < rs.len() ==> #[trigger] rs[k] == (Tomorrow::Increase, MICROS as u64),
    ensures
        2 * count_increase(rs) >= rs.len(),
        sum_accuracy(rs) / (rs.len() as int) == MICROS as int,
{
    lemma_unanimous_runs(rs);
    lemma_div_multiples_vanish(MICROS as int, rs.len() as int);
    assert((rs.len() as int) * (MICROS as int) == (MICROS as int) * (rs.len() as int));
}

/// What labelling guarantees of the labeled series: close prices are
/// kept, every record but the last carries a label, and a close series
/// that never falls labels every such record a rise.
pub proof fn lemma_labeled_facts(stocks: Seq<Stock>, labeled: Seq<Stock>)
    requires
        labeled.len() == stocks.len(),
        forall|j: int| 0 <= j < labeled.len() ==> relabeled(stocks, j, #[trigger] labeled[j]),
    ensures
        forall|j: int| 0 <= j < labeled.len() ==> (#[trigger] labeled[j]).close == stocks[j].close,
        forall|j: int|
            0 <= j < labeled.len() - 1 ==> (#[trigger] labeled[j]).tomorrow != Tomorrow::Predict,
        (forall|i: int|
            0 <= i < stocks.len() - 1 ==> (#[trigger] stocks[i]).close <= stocks[i + 1].close)
            ==> (forall|j: int|
            0 <= j < labeled.len() - 1 ==> (#[trigger] labeled[j]).tomorrow == Tomorrow::Increase),
{
    if forall|i: int|
        0 <= i < stocks.len() - 1 ==> (#[trigger] stocks[i]).close <= stocks[i + 1].close {
        assert forall|j: int|
            0 <= j < labeled.len() - 1 implies (#[trigger] labeled[j]).tomorrow
                == Tomorrow::Increase by {
            assert(relabeled(stocks, j, labeled[j]));
            assert(stocks[j].close <= stocks[j + 1].close);
        }
    }
}

/// Aggregates the collected per-run verdicts: the direction is the
/// majority of rise votes, a tie falling to a rise, and the confidence is
/// the mean of the per-run reported accuracies.
pub fn aggregate_runs(results: &Vec<(Tomorrow, u64)>) -> (r: (Tomorrow, u64))
    requires
        1 <= results@.len() <= 1_000,
        forall|k: int|
            0 <= k < results@.len() ==> HALF_MICROS as u64 <= (#[trigger] results@[k]).1
                <= MICROS as u64,
    ensures
        r.0 == (if 2 * count_increase(results@) >= results@.len() {
            Tomorrow::Increase
        } else {
            Tomorrow::Decrease
        }),
        r.1 as int == sum_accuracy(results@) / (results@.len() as int),
        r.0 != Tomorrow::Predict,
        HALF_MICROS as u64 <= r.1 <= MICROS as u64,
{
    let n: usize = results.len();
    let mut inc: usize = 0;
    let mut acc_sum: u64 = 0;
    let mut k: usize = 0;
    while k < n
        invariant
            1 <= n == results@.len() <= 1_000,
            forall|k2: int|
                0 <= k2 < results@.len() ==> HALF_MICROS as u64 <= (#[trigger] results@[k2]).1
                    <= MICROS as u64,
            k <= n,
            inc as int == count_increase(results@.take(k as int)),
            inc <= k,
            acc_sum as int == sum_accuracy(results@.take(k as int)),
            (k as int) * (HALF_MICROS as int) <= acc_sum as int <= (k as int) * (MICROS as int),
        decreases n - k,
    {
        proof {
            assert(results@.take(k as int + 1).drop_last() =~= results@.take(k as int));
            assert(results@.take(k as int + 1).last() == results@[k as int]);
        }
        let entry: (Tomorrow, u64) = results[k];
        if entry.0 == Tomorrow::Increase {
            inc = inc + 1;
        }
        acc_sum = acc_sum + entry.1;
        k = k + 1;
    }
    proof {
        assert(results@.take(n as int) =~= results@);
    }
    let confidence: u64 = ((acc_sum as u128) / (n as u128)) as u64;
    proof {
        lemma_div_is_ordered((n as int) * (HALF_MICROS as int), acc_sum as int, n as int);
        lemma_div_multiples_vanish(HALF_MICROS as int, n as int);
        assert((n as int) * (HALF_MICROS as int) == (HALF_MICROS as int) * (n as int));
        lemma_div_is_ordered(acc_sum as int, (n as int) * (MICROS as int), n as int);
        lemma_div_multiples_vanish(MICROS as int, n as int);
        assert((n as int) * (MICROS as int) == (MICROS as int) * (n as int));
    }
    let direction: Tomorrow = if 2 * inc >= n {
        Tomorrow::Increase
    } else {
        Tomorrow::Decrease
    };
    (direction, confidence)
}

/// One complete forecast: the direction, its confidence as a fraction of
/// one in micro-units, and the simulator's expected terminal price in
/// micro-units.
#[derive(Debug)]
pub struct Prediction {
    pub direction: Tomorrow,
    pub confidence_micros: u64,
    pub expected_price_micros: u64,
}

/// The full pipeline on an unlabeled record series: label it, simulate
/// price paths over `days` and `trials` once for the expected terminal
/// price, then run the split/fit/evaluate/predict cycle `runs` independent
/// times, invert below-chance runs, and report the majority direction
/// (ties fall to a rise) with the mean reported accuracy as confidence.
/// The direction is always real, the confidence always lies in [1/2, 1],
/// and the expected price is always strictly positive. Each error comes on
/// exactly one class of inputs; with at least three records and a positive
/// horizon and trial count the pipeline always succeeds, and on a series
/// whose closes never fall it reports a rise with confidence one, whatever
/// the randomness source returns.
/// Collects the verdicts of `runs` independent forest runs over a labeled
/// series. Fails exactly when the series is too short to leave a training
/// record after the holdout and the split; on three or more records it
/// always succeeds, and when every training record is a rise every run
/// reports a rise at accuracy one.
fn collect_runs(labeled: &Vec<Stock>, runs: usize, rng: &mut StdRng) -> (r: Result<
    Vec<(Tomorrow, u64)>,
    PredictError,
>)
    requires
        2 <= labeled@.len() <= MAX_RECORDS,
        1 <= runs <= 1_000,
        forall|j: int|
            0 <= j < labeled@.len() - 1 ==> (#[trigger] labeled@[j]).tomorrow != Tomorrow::Predict,
    ensures
        match r {
            Ok(rs) => labeled@.len() >= 3 && rs@.len() == runs && (forall|k: int|
                0 <= k < rs@.len() ==> HALF_MICROS as u64 <= (#[trigger] rs@[k]).1
                    <= MICROS as u64) && ((forall|j: int|
                0 <= j < labeled@.len() - 1 ==> (#[trigger] labeled@[j]).tomorrow
                    == Tomorrow::Increase) ==> forall|k: int|
                0 <= k < rs@.len() ==> #[trigger] rs@[k] == (Tomorrow::Increase, MICROS as u64)),
            Err(e) => e == PredictError::ModelFitError && labeled@.len() == 2,
        },
        labeled@.len() >= 3 ==> r is Ok,
{
    let mut results: Vec<(Tomorrow, u64)> = Vec::new();
    let mut run: usize = 0;
    while run < runs
        invariant
            2 <= labeled@.len() <= MAX_RECORDS,
            1 <= runs <= 1_000,
            run <= runs,
            results@.len() == run,
            run > 0 ==> labeled@.len() >= 3,
            forall|j: int|
                0 <= j < labeled@.len() - 1 ==> (#[trigger] labeled@[j]).tomorrow
                    != Tomorrow::Predict,
            forall|k2: int|
                0 <= k2 < results@.len() ==> HALF_MICROS as u64 <= (#[trigger] results@[k2]).1
                    <= MICROS as u64,
            (forall|j: int|
                0 <= j < labeled@.len() - 1 ==> (#[trigger] labeled@[j]).tomorrow
                    == Tomorrow::Increase) ==> forall|k2: int|
                0 <= k2 < results@.len() ==> #[trigger] results@[k2] == (
                Tomorrow::Increase,
                MICROS as u64,
            ),
        decreases runs - run,
    {
        let la: (Tomorrow, u64) = match run_forest(labeled, rng) {
            Ok(v) => v,
            Err(_) => {
                proof {
                    if labeled@.len() >= 3 {
                        assert(false);
                    }
                }
                return Err(PredictError::ModelFitError);
            },
        };
        let ghost old_results = results@;
        results.push(la);
        proof {
            if forall|j: int|
                0 <= j < labeled@.len() - 1 ==> (#[trigger] labeled@[j]).tomorrow
                    == Tomorrow::Increase {
                assert(la == (Tomorrow::Increase, MICROS as u64));
                assert forall|k2: int| 0 <= k2 < results@.len() implies #[trigger] results@[k2]
                    == (Tomorrow::Increase, MICROS as u64) by {
                    if k2 < old_results.len() {
                        assert(results@[k2] == old_results[k2]);
                    } else {
                        assert(results@[k2] == la);
                    }
                }
            }
        }
        run = run + 1;
    }
    Ok(results)
}

#[verifier::rlimit(100)]
#[verifier::spinoff_prover]
pub fn predict_stocks(
    stocks: Vec<Stock>,
    runs: usize,
    days: usize,
    trials: usize,
    rng: &mut StdRng,
) -> (r: Result<Prediction, PredictError>)
    requires
        stocks@.len() <= MAX_RECORDS,
        forall|i: int| 0 <= i < stocks@.len() ==> 1 <= #[trigger] stocks@[i].close <= MAX_CLOSE_MICROS,
        1 <= runs <= 1_000,
    ensures
        match r {
            Ok(p) => stocks@.len() >= 3 && days >= 1 && trials >= 1 && p.direction
                != Tomorrow::Predict && HALF_MICROS as u64 <= p.confidence_micros <= MICROS as u64
                && 1 <= p.expected_price_micros <= PATH_CAP_MICROS,
            Err(e) => (e == PredictError::InsufficientHistoryError && stocks@.len() < 2) || (e
                == PredictError::InvalidParameterError && stocks@.len() >= 2 && (days == 0
                || trials == 0)) || (e == PredictError::ModelFitError && stocks@.len() == 2
                && days >= 1 && trials >= 1),
        },
        stocks@.len() >= 3 && days >= 1 && trials >= 1 ==> r is Ok,
        stocks@.len() == 2 && days >= 1 && trials >= 1 ==> r == Err::<Prediction, PredictError>(
            PredictError::ModelFitError,
        ),
        stocks@.len() >= 3 && days >= 1 && trials >= 1 && (forall|i: int|
            0 <= i < stocks@.len() - 1 ==> (#[trigger] stocks@[i]).close <= stocks@[i + 1].close)
            ==> match r {
            Ok(p) => p.direction == Tomorrow::Increase && p.confidence_micros == MICROS as u64,
            Err(_) => false,
        },
{
    let labeled: Vec<Stock> = label_stocks(stocks);
    proof {
        lemma_labeled_facts(stocks@, labeled@);
        assert(forall|i: int|
            0 <= i < labeled@.len() ==> 1 <= (#[trigger] labeled@[i]).close <= MAX_CLOSE_MICROS);
    }
    let paths: Vec<Vec<u64>> = match calculate_price_paths(&labeled, days, trials, rng) {
        Ok(p) => p,
        Err(e) => {
            return Err(e);
        },
    };
    let expected: u64 = match expected_terminal_price(&paths) {
        Ok(v) => v,
        Err(_) => {
            proof {
                assert(false);
            }
            return Err(PredictError::InvalidParameterError);
        },
    };
    let results: Vec<(Tomorrow, u64)> = match collect_runs(&labeled, runs, rng) {
        Ok(rs) => rs,
        Err(e) => {
            return Err(e);
        },
    };
    let agg: (Tomorrow, u64) = aggregate_runs(&results);
    proof {
        if forall|i: int|
            0 <= i < stocks@.len() - 1 ==> (#[trigger] stocks@[i]).close <= stocks@[i + 1].close {
            lemma_unanimous_mean(results@);
        }
    }
    Ok(
        Prediction {
            direction: agg.0,
            confidence_micros: agg.1,
            expected_price_micros: expected,
        },
    )
}

/// The forecast under the default configuration: ten independent runs, a
/// thirty-day horizon and fifty thousand trials. With at least three
/// records it always succeeds; on a series whose closes never fall it
/// reports a rise with confidence one.
pub fn predict(stocks: Vec<Stock>, rng: &mut StdRng) -> (r: Result<Prediction, PredictError>)
    requires
        stocks@.len() <= MAX_RECORDS,
        forall|i: int| 0 <= i < stocks@.len() ==> 1 <= #[trigger] stocks@[i].close <= MAX_CLOSE_MICROS,
    ensures
        match r {
            Ok(p) => stocks@.len() >= 3 && p.direction != Tomorrow::Predict && HALF_MICROS as u64
                <= p.confidence_micros <= MICROS as u64 && 1 <= p.expected_price_micros
                <= PATH_CAP_MICROS,
            Err(e) => (e == PredictError::InsufficientHistoryError && stocks@.len() < 2) || (e
                == PredictError::ModelFitError && stocks@.len() == 2),
        },
        stocks@.len() >= 3 ==> r is Ok,
        stocks@.len() == 2 ==> r == Err::<Prediction, PredictError>(PredictError::ModelFitError),
        stocks@.len() >= 3 && (forall|i: int|
            0 <= i < stocks@.len() - 1 ==> (#[trigger] stocks@[i]).close <= stocks@[i + 1].close)
            ==> match r {
            Ok(p) => p.direction == Tomorrow::Increase && p.confidence_micros == MICROS as u64,
            Err(_) => false,
        },
{
    predict_stocks(stocks, NUM_RUNS, NUM_DAYS, NUM_TRIALS, rng)
}

} // verus!
