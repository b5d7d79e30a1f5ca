//! The random forest: bootstrap-aggregated decision trees with feature
//! subsampling, majority voting, test-set accuracy, and the per-run
//! below-chance inversion heuristic.

use vstd::prelude::*;
use vstd::arithmetic::div_mod::lemma_div_is_ordered;
use vstd::arithmetic::div_mod::lemma_div_multiples_vanish;
use vstd::arithmetic::div_mod::lemma_fundamental_div_mod;

use crate::rng::gen_index;
use crate::split::lemma_partition_member;
use crate::split::spec_train_count;
use crate::split::split_data;
use crate::stock::spec_features;
use crate::stock::Stock;
use crate::stock::Tomorrow;
use crate::tree::copy_row;
use crate::tree::fit_tree;
use crate::tree::predict_tree;
use crate::tree::rows_wf;
use crate::tree::tree_decide;
use crate::tree::tree_wf;
use crate::tree::Row;
use crate::tree::Tree;
use crate::PredictError;
use crate::HALF_MICROS;
use crate::MAX_DEPTH;
use crate::MAX_RECORDS;
use crate::MICROS;
use crate::FEATURE_SUBSET;
use crate::NUM_TREES;
use crate::TRAIN_FRACTION_MICROS;

use rand::rngs::StdRng;

verus! {

/// How many records of a sequence carry a training label.
pub open spec fn count_labeled(stocks: Seq<Stock>) -> int
    decreases stocks.len(),
{
    if stocks.len() == 0 {
        0
    } else {
        count_labeled(stocks.drop_last()) + if stocks.last().tomorrow == Tomorrow::Predict {
            0int
        } else {
            1int
        }
    }
}

/// Whether a training row is the faithful image of a labeled record: the
/// record's feature vector, and a rise label exactly for a rise record.
pub open spec fn row_from(r: Row, s: Stock) -> bool {
    r.features@ == spec_features(s) && s.tomorrow != Tomorrow::Predict && (r.label <==> s.tomorrow
        == Tomorrow::Increase)
}

/// Zero or more labeled records always count within bounds.
pub proof fn lemma_count_labeled_bounds(stocks: Seq<Stock>)
    ensures
        0 <= count_labeled(stocks) <= stocks.len(),
    decreases stocks.len(),
{
    if stocks.len() > 0 {
        lemma_count_labeled_bounds(stocks.drop_last());
    }
}

/// In a fully labeled sequence every record counts.
pub proof fn lemma_all_labeled_count(stocks: Seq<Stock>)
    requires
        forall|i: int| 0 <= i < stocks.len() ==> (#[trigger] stocks[i]).tomorrow != Tomorrow::Predict,
    ensures
        count_labeled(stocks) == stocks.len(),
    decreases stocks.len(),
{
    if stocks.len() > 0 {
        assert(forall|i: int|
            0 <= i < stocks.drop_last().len() ==> #[trigger] stocks.drop_last()[i] == stocks[i]);
        lemma_all_labeled_count(stocks.drop_last());
    }
}

/// The exact shape of the training table: the rows are, in input order,
/// one faithful image of each labeled record, with the unlabeled records
/// passed over.
pub open spec fn table_matches(stocks: Seq<Stock>, rows: Seq<Row>) -> bool
    decreases stocks.len(),
{
    if stocks.len() == 0 {
        rows.len() == 0
    } else if stocks.last().tomorrow == Tomorrow::Predict {
        table_matches(stocks.drop_last(), rows)
    } else {
        rows.len() > 0 && row_from(rows.last(), stocks.last()) && table_matches(
            stocks.drop_last(),
            rows.drop_last(),
        )
    }
}

/// Builds the training table: one row per labeled record, in input order,
/// holding its feature vector and whether it rose. The one unlabeled
/// prediction target is never included, so a sentinel can never be
/// mistaken for a label, and every row is the image of some labeled
/// record.
pub fn construct_table(stocks: &Vec<Stock>) -> (rows: Vec<Row>)
    requires
        stocks@.len() <= MAX_RECORDS,
    ensures
        rows_wf(rows@),
        rows@.len() == count_labeled(stocks@),
        rows@.len() <= stocks@.len(),
        table_matches(stocks@, rows@),
        forall|k: int|
            0 <= k < rows@.len() ==> exists|j: int|
                0 <= j < stocks@.len() && row_from(#[trigger] rows@[k], stocks@[j]),
{
    let n: usize = stocks.len();
    let mut rows: Vec<Row> = Vec::new();
    let mut i: usize = 0;
    while i < n
        invariant
            n == stocks@.len() <= MAX_RECORDS,
            i <= n,
            rows_wf(rows@),
            rows@.len() == count_labeled(stocks@.take(i as int)),
            rows@.len() <= i,
            table_matches(stocks@.take(i as int), rows@),
            forall|k: int|
                0 <= k < rows@.len() ==> exists|j: int|
                    0 <= j < stocks@.len() && row_from(#[trigger] rows@[k], stocks@[j]),
        decreases n - i,
    {
        proof {
            assert(stocks@.take(i as int + 1).drop_last() =~= stocks@.take(i as int));
            assert(stocks@.take(i as int + 1).last() == stocks@[i as int]);
        }
        let ghost old_rows = rows@;
        let label: Tomorrow = stocks[i].get_label();
        if label == Tomorrow::Increase {
            let features: Vec<i64> = stocks[i].get_array();
            rows.push(Row { features, label: true });
            proof {
                assert(row_from(rows@[rows@.len() - 1], stocks@[i as int]));
                assert(rows@.drop_last() =~= old_rows);
            }
        } else if label == Tomorrow::Decrease {
            let features: Vec<i64> = stocks[i].get_array();
            rows.push(Row { features, label: false });
            proof {
                assert(row_from(rows@[rows@.len() - 1], stocks@[i as int]));
                assert(rows@.drop_last() =~= old_rows);
            }
        }
        i = i + 1;
    }
    proof {
        assert(stocks@.take(n as int) =~= stocks@);
    }
    rows
}

/// An unordered ensemble of independently trained trees, plus the feature
/// subset size they were trained with; immutable once fitted.
#[derive(Debug)]
pub struct RandomForest {
    pub trees: Vec<Tree>,
    pub feature_subset: usize,
}

pub open spec fn forest_wf(f: RandomForest) -> bool {
    f.trees@.len() <= 10_000 && forall|i: int| 0 <= i < f.trees@.len() ==> tree_wf(
        #[trigger] f.trees@[i],
    )
}

/// How many trees of the ensemble vote for a rise on a feature vector.
pub open spec fn up_votes(trees: Seq<Tree>, f: Seq<i64>) -> int
    decreases trees.len(),
{
    if trees.len() == 0 {
        0
    } else {
        up_votes(trees.drop_last(), f) + if tree_decide(trees.last(), f) {
            1int
        } else {
            0int
        }
    }
}

/// The ensemble's combined answer: a rise exactly when more than half of
/// the trees vote for a rise, so an even vote yields a fall.
pub open spec fn forest_vote(trees: Seq<Tree>, f: Seq<i64>) -> bool {
    2 * up_votes(trees, f) > trees.len()
}

/// Whether the ensemble scores a record correctly: the verdict must match
/// the record's label, and an unlabeled record never counts as correct.
pub open spec fn stock_correct(trees: Seq<Tree>, s: Stock) -> bool {
    (forest_vote(trees, spec_features(s)) && s.tomorrow == Tomorrow::Increase) || (!forest_vote(
        trees,
        spec_features(s),
    ) && s.tomorrow == Tomorrow::Decrease)
}

pub open spec fn correct_count(trees: Seq<Tree>, test: Seq<Stock>) -> int
    decreases test.len(),
{
    if test.len() == 0 {
        0
    } else {
        correct_count(trees, test.drop_last()) + if stock_correct(trees, test.last()) {
            1int
        } else {
            0int
        }
    }
}

/// A unanimous ensemble of rise leaves votes for a rise on every feature
/// vector.
pub proof fn lemma_unanimous_up(trees: Seq<Tree>, f: Seq<i64>)
    requires
        forall|i: int| 0 <= i < trees.len() ==> #[trigger] trees[i] == (Tree::Leaf { label: true }),
    ensures
        up_votes(trees, f) == trees.len(),
    decreases trees.len(),
{
    if trees.len() > 0 {
        assert(forall|i: int|
            0 <= i < trees.drop_last().len() ==> #[trigger] trees.drop_last()[i] == trees[i]);
        lemma_unanimous_up(trees.drop_last(), f);
        assert(tree_decide(trees.last(), f));
    }
}

/// A unanimous ensemble of rise leaves scores every rise-labeled test
/// record correctly.
pub proof fn lemma_all_increase_correct(trees: Seq<Tree>, test: Seq<Stock>)
    requires
        trees.len() >= 1,
        forall|i: int| 0 <= i < trees.len() ==> #[trigger] trees[i] == (Tree::Leaf { label: true }),
        forall|i: int| 0 <= i < test.len() ==> (#[trigger] test[i]).tomorrow == Tomorrow::Increase,
    ensures
        correct_count(trees, test) == test.len(),
    decreases test.len(),
{
    if test.len() > 0 {
        assert(forall|i: int|
            0 <= i < test.drop_last().len() ==> #[trigger] test.drop_last()[i] == test[i]);
        lemma_all_increase_correct(trees, test.drop_last());
        lemma_unanimous_up(trees, spec_features(test.last()));
        assert(forest_vote(trees, spec_features(test.last())));
        assert(stock_correct(trees, test.last()));
    }
}

impl RandomForest {
    /// Trains `num_trees` trees, each on a fresh bootstrap resample of the
    /// training rows (drawn with replacement, same size as the sample) with
    /// `k` features searched per split. Fails with `ModelFitError` exactly
    /// when no trees are requested or there is nothing to fit.
    pub fn fit(rows: &Vec<Row>, num_trees: usize, k: usize, rng: &mut StdRng) -> (r: Result<
        RandomForest,
        PredictError,
    >)
        requires
            rows_wf(rows@),
            rows@.len() <= MAX_RECORDS,
            1 <= k <= 6,
            num_trees <= 10_000,
        ensures
            match r {
                Ok(f) => num_trees >= 1 && rows@.len() >= 1 && forest_wf(f) && f.trees@.len()
                    == num_trees && f.feature_subset == k && ((forall|i: int|
                    0 <= i < rows@.len() ==> (#[trigger] rows@[i]).label) ==> forall|j: int|
                    0 <= j < f.trees@.len() ==> #[trigger] f.trees@[j] == (Tree::Leaf {
                        label: true,
                    })) && ((forall|i: int|
                    0 <= i < rows@.len() ==> !(#[trigger] rows@[i]).label) ==> forall|j: int|
                    0 <= j < f.trees@.len() ==> #[trigger] f.trees@[j] == (Tree::Leaf {
                        label: false,
                    })),
                Err(e) => e == PredictError::ModelFitError && (num_trees == 0 || rows@.len() == 0),
            },
    {
        if num_trees == 0 || rows.len() == 0 {
            return Err(PredictError::ModelFitError);
        }
        let n: usize = rows.len();
        let mut trees: Vec<Tree> = Vec::new();
        let mut t: usize = 0;
        while t < num_trees
            invariant
                1 <= n == rows@.len() <= MAX_RECORDS,
                rows_wf(rows@),
                1 <= k <= 6,
                num_trees <= 10_000,
                t <= num_trees,
                trees@.len() == t,
                forall|i: int| 0 <= i < trees@.len() ==> tree_wf(#[trigger] trees@[i]),
                (forall|i: int| 0 <= i < rows@.len() ==> (#[trigger] rows@[i]).label)
                    ==> forall|j: int|
                    0 <= j < trees@.len() ==> #[trigger] trees@[j] == (Tree::Leaf { label: true }),
                (forall|i: int| 0 <= i < rows@.len() ==> !(#[trigger] rows@[i]).label)
                    ==> forall|j: int|
                    0 <= j < trees@.len() ==> #[trigger] trees@[j] == (Tree::Leaf { label: false }),
            decreases num_trees - t,
        {
            let mut sample: Vec<Row> = Vec::new();
            let mut s: usize = 0;
            while s < n
                invariant
                    1 <= n == rows@.len() <= MAX_RECORDS,
                    rows_wf(rows@),
                    s <= n,
                    sample@.len() == s,
                    rows_wf(sample@),
                    (forall|i: int| 0 <= i < rows@.len() ==> (#[trigger] rows@[i]).label)
                        ==> forall|q: int|
                        0 <= q < sample@.len() ==> (#[trigger] sample@[q]).label,
                    (forall|i: int| 0 <= i < rows@.len() ==> !(#[trigger] rows@[i]).label)
                        ==> forall|q: int|
                        0 <= q < sample@.len() ==> !(#[trigger] sample@[q]).label,
                decreases n - s,
            {
                let idx: usize = gen_index(rng, n);
                sample.push(copy_row(&rows[idx]));
                s = s + 1;
            }
            let tree: Tree = fit_tree(&sample, k, MAX_DEPTH, rng);
            trees.push(tree);
            t = t + 1;
        }
        Ok(RandomForest { trees, feature_subset: k })
    }

    /// The ensemble's verdict on a feature vector: the majority label over
    /// all trees' votes, vote ties falling to a fall. The verdict is always
    /// a real direction, never the unlabeled sentinel.
    pub fn predict(&self, features: &Vec<i64>) -> (r: Tomorrow)
        requires
            forest_wf(*self),
            features@.len() == 6,
        ensures
            r == (if forest_vote(self.trees@, features@) {
                Tomorrow::Increase
            } else {
                Tomorrow::Decrease
            }),
            r != Tomorrow::Predict,
    {
        let n: usize = self.trees.len();
        let mut votes: usize = 0;
        let mut i: usize = 0;
        while i < n
            invariant
                n == self.trees@.len() <= 10_000,
                forest_wf(*self),
                features@.len() == 6,
                i <= n,
                votes as int == up_votes(self.trees@.take(i as int), features@),
                votes <= i,
            decreases n - i,
        {
            proof {
                assert(self.trees@.take(i as int + 1).drop_last() =~= self.trees@.take(i as int));
                assert(self.trees@.take(i as int + 1).last() == self.trees@[i as int]);
            }
            if predict_tree(&self.trees[i], features) {
                votes = votes + 1;
            }
            i = i + 1;
        }
        proof {
            assert(self.trees@.take(n as int) =~= self.trees@);
        }
        if 2 * votes > n {
            Tomorrow::Increase
        } else {
            Tomorrow::Decrease
        }
    }

    /// The fraction of test records, in micro-units, whose label the
    /// ensemble reproduces. Fails with `EmptyTestSetError` exactly when the
    /// test set is empty.
    pub fn evaluate(&self, test: &Vec<Stock>) -> (r: Result<u64, PredictError>)
        requires
            forest_wf(*self),
            test@.len() <= MAX_RECORDS,
        ensures
            match r {
                Ok(acc) => test@.len() >= 1 && acc as int == correct_count(self.trees@, test@) * (
                MICROS as int) / (test@.len() as int) && 0 <= acc <= MICROS,
                Err(e) => e == PredictError::EmptyTestSetError && test@.len() == 0,
            },
    {
        let n: usize = test.len();
        if n == 0 {
            return Err(PredictError::EmptyTestSetError);
        }
        let mut correct: usize = 0;
        let mut i: usize = 0;
        while i < n
            invariant
                1 <= n == test@.len() <= MAX_RECORDS,
                forest_wf(*self),
                i <= n,
                correct as int == correct_count(self.trees@, test@.take(i as int)),
                correct <= i,
            decreases n - i,
        {
            proof {
                assert(test@.take(i as int + 1).drop_last() =~= test@.take(i as int));
                assert(test@.take(i as int + 1).last() == test@[i as int]);
            }
            let features: Vec<i64> = test[i].get_array();
            let verdict: Tomorrow = self.predict(&features);
            let label: Tomorrow = test[i].get_label();
            if verdict == label {
                correct = correct + 1;
            }
            i = i + 1;
        }
        proof {
            assert(test@.take(n as int) =~= test@);
        }
        let wide: u128 = (correct as u128) * (MICROS as u128);
        let acc: u128 = wide / (n as u128);
        proof {
            assert((correct as int) * (MICROS as int) <= (n as int) * (MICROS as int));
            lemma_div_is_ordered(
                (correct as int) * (MICROS as int),
                (n as int) * (MICROS as int),
                n as int,
            );
            lemma_div_multiples_vanish(MICROS as int, n as int);
            assert((n as int) * (MICROS as int) == (MICROS as int) * (n as int));
            assert(acc as int <= MICROS as int);
        }
        Ok(acc as u64)
    }
}

/// What the below-chance heuristic turns a measured run into.
pub open spec fn spec_inversion(label: Tomorrow, acc: int) -> (Tomorrow, int) {
    if acc < HALF_MICROS as int {
        (
            match label {
                Tomorrow::Increase => Tomorrow::Decrease,
                Tomorrow::Decrease => Tomorrow::Increase,
                Tomorrow::Predict => Tomorrow::Predict,
            },
            MICROS as int - acc,
        )
    } else {
        (label, acc)
    }
}

/// The below-chance inversion heuristic: a run whose measured accuracy
/// falls below one half has both its verdict and its accuracy inverted
/// together, on the design rationale that a systematically wrong
/// classifier's complement is informative. The reported accuracy is then
/// always at least one half.
pub fn apply_inversion(label: Tomorrow, acc: u64) -> (r: (Tomorrow, u64))
    requires
        acc <= MICROS as u64,
    ensures
        (r.0, r.1 as int) == spec_inversion(label, acc as int),
        HALF_MICROS as u64 <= r.1 <= MICROS as u64,
        label != Tomorrow::Predict ==> r.0 != Tomorrow::Predict,
{
    if acc < HALF_MICROS as u64 {
        let flipped: Tomorrow = match label {
            Tomorrow::Increase => Tomorrow::Decrease,
            Tomorrow::Decrease => Tomorrow::Increase,
            Tomorrow::Predict => Tomorrow::Predict,
        };
        (flipped, (MICROS as u64) - acc)
    } else {
        (label, acc)
    }
}

/// One full classification run: hold out the last record as the prediction
/// target, split the rest 90/10 into train and test, fit a forest on the
/// training rows, measure its test accuracy, predict the target's
/// direction, and pass verdict and accuracy through the below-chance
/// inversion. The verdict is always a real direction and the reported
/// accuracy always lies in [1/2, 1]. Fails with `EmptyDatasetError`
/// exactly when fewer than two records are given; with exactly two
/// records the one training candidate is held out for testing and fitting
/// fails. On three or more records whose non-target records all carry
/// labels the run always succeeds; when those labels are all rises, every
/// tree is the rise leaf and the run returns the rise verdict with
/// accuracy one, whatever the randomness source returns.
pub fn run_forest(stocks: &Vec<Stock>, rng: &mut StdRng) -> (r: Result<
    (Tomorrow, u64),
    PredictError,
>)
    requires
        stocks@.len() <= MAX_RECORDS,
    ensures
        match r {
            Ok(la) => stocks@.len() >= 3 && la.0 != Tomorrow::Predict && HALF_MICROS as u64 <= la.1
                <= MICROS as u64,
            Err(e) => (e == PredictError::EmptyDatasetError && stocks@.len() < 2) || (e
                == PredictError::ModelFitError && stocks@.len() >= 2),
        },
        stocks@.len() == 2 ==> r == Err::<(Tomorrow, u64), PredictError>(
            PredictError::ModelFitError,
        ),
        stocks@.len() >= 3 && (forall|i: int|
            0 <= i < stocks@.len() - 1 ==> (#[trigger] stocks@[i]).tomorrow != Tomorrow::Predict)
            ==> r is Ok,
        stocks@.len() >= 3 && (forall|i: int|
            0 <= i < stocks@.len() - 1 ==> (#[trigger] stocks@[i]).tomorrow == Tomorrow::Increase)
            ==> r == Ok::<(Tomorrow, u64), PredictError>((Tomorrow::Increase, MICROS as u64)),
{
    let n: usize = stocks.len();
    if n < 2 {
        return Err(PredictError::EmptyDatasetError);
    }
    let ult_features: Vec<i64> = stocks[n - 1].get_array();
    let mut dataset: Vec<Stock> = Vec::new();
    let mut i: usize = 0;
    while i < n - 1
        invariant
            2 <= n == stocks@.len() <= MAX_RECORDS,
            i <= n - 1,
            dataset@.len() == i,
            forall|q: int|
                0 <= q < i as int ==> (#[trigger] dataset@[q]).tomorrow == stocks@[q].tomorrow,
        decreases n - 1 - i,
    {
        dataset.push(stocks[i].clone());
        i = i + 1;
    }
    let ghost dv = dataset@;
    let tt: (Vec<Stock>, Vec<Stock>) = match split_data(dataset, TRAIN_FRACTION_MICROS, rng) {
        Ok(v) => v,
        Err(_) => {
            proof {
                assert(false);
            }
            return Err(PredictError::ModelFitError);
        },
    };
    let train: Vec<Stock> = tt.0;
    let test: Vec<Stock> = tt.1;
    proof {
        // The train side takes the floor of nine tenths, which always
        // leaves at least one record for the test side; with at least two
        // candidates it also keeps at least one.
        let m: int = dv.len() as int;
        let t: int = spec_train_count(m, TRAIN_FRACTION_MICROS as int);
        lemma_fundamental_div_mod(m * (TRAIN_FRACTION_MICROS as int), MICROS as int);
        assert((MICROS as int) * t <= m * (TRAIN_FRACTION_MICROS as int));
        assert(m * (TRAIN_FRACTION_MICROS as int) == m * 900_000);
        if t >= m {
            assert((MICROS as int) * t >= (MICROS as int) * m) by (nonlinear_arith)
                requires
                    t >= m,
                    (MICROS as int) > 0,
            ;
            assert(m * 1_000_000 > m * 900_000);
            assert(false);
        }
        if m >= 2 {
            lemma_div_is_ordered(1_800_000int, m * 900_000, MICROS as int);
            assert(t >= 1_800_000int / (MICROS as int));
        }
        if t >= 1 {
            assert(m * 900_000 >= MICROS as int);
            assert(m >= 2);
        }
        // Each record of either side carries the label its source record
        // had, since the two sides are a partition of the candidates.
        assert forall|k2: int| 0 <= k2 < train@.len() implies exists|j: int|
            0 <= j < dv.len() && dv[j] == (#[trigger] train@[k2]) by {
            lemma_partition_member(train@, test@, dv, k2);
            assert((train@ + test@)[k2] == train@[k2]);
        }
        assert forall|k2: int| 0 <= k2 < test@.len() implies exists|j: int|
            0 <= j < dv.len() && dv[j] == (#[trigger] test@[k2]) by {
            lemma_partition_member(train@, test@, dv, train@.len() + k2);
            assert((train@ + test@)[train@.len() + k2] == test@[k2]);
        }
        assert((forall|q: int|
            0 <= q < stocks@.len() - 1 ==> (#[trigger] stocks@[q]).tomorrow != Tomorrow::Predict)
            ==> (forall|k2: int|
            0 <= k2 < train@.len() ==> (#[trigger] train@[k2]).tomorrow != Tomorrow::Predict)) by {
            if forall|q: int|
                0 <= q < stocks@.len() - 1 ==> (#[trigger] stocks@[q]).tomorrow
                    != Tomorrow::Predict {
                assert forall|k2: int| 0 <= k2 < train@.len() implies (#[trigger] train@[k2]).tomorrow
                    != Tomorrow::Predict by {
                    let j = choose|j: int| 0 <= j < dv.len() && dv[j] == train@[k2];
                    assert(dv[j].tomorrow == stocks@[j].tomorrow);
                }
            }
        }
        assert((forall|q: int|
            0 <= q < stocks@.len() - 1 ==> (#[trigger] stocks@[q]).tomorrow == Tomorrow::Increase)
            ==> (forall|k2: int|
            0 <= k2 < train@.len() ==> (#[trigger] train@[k2]).tomorrow == Tomorrow::Increase)) by {
            if forall|q: int|
                0 <= q < stocks@.len() - 1 ==> (#[trigger] stocks@[q]).tomorrow
                    == Tomorrow::Increase {
                assert forall|k2: int| 0 <= k2 < train@.len() implies (#[trigger] train@[k2]).tomorrow
                    == Tomorrow::Increase by {
                    let j = choose|j: int| 0 <= j < dv.len() && dv[j] == train@[k2];
                    assert(dv[j].tomorrow == stocks@[j].tomorrow);
                }
            }
        }
        assert((forall|q: int|
            0 <= q < stocks@.len() - 1 ==> (#[trigger] stocks@[q]).tomorrow == Tomorrow::Increase)
            ==> (forall|k2: int|
            0 <= k2 < test@.len() ==> (#[trigger] test@[k2]).tomorrow == Tomorrow::Increase)) by {
            if forall|q: int|
                0 <= q < stocks@.len() - 1 ==> (#[trigger] stocks@[q]).tomorrow
                    == Tomorrow::Increase {
                assert forall|k2: int| 0 <= k2 < test@.len() implies (#[trigger] test@[k2]).tomorrow
                    == Tomorrow::Increase by {
                    let j = choose|j: int| 0 <= j < dv.len() && dv[j] == test@[k2];
                    assert(dv[j].tomorrow == stocks@[j].tomorrow);
                }
            }
        }
    }
    let rows: Vec<Row> = construct_table(&train);
    proof {
        lemma_count_labeled_bounds(train@);
        assert((forall|q: int|
            0 <= q < stocks@.len() - 1 ==> (#[trigger] stocks@[q]).tomorrow != Tomorrow::Predict)
            ==> rows@.len() == train@.len()) by {
            if forall|q: int|
                0 <= q < stocks@.len() - 1 ==> (#[trigger] stocks@[q]).tomorrow
                    != Tomorrow::Predict {
                lemma_all_labeled_count(train@);
            }
        }
        // All-rise training records make every table row a rise row.
        assert((forall|q: int|
            0 <= q < stocks@.len() - 1 ==> (#[trigger] stocks@[q]).tomorrow == Tomorrow::Increase)
            ==> (forall|k2: int| 0 <= k2 < rows@.len() ==> (#[trigger] rows@[k2]).label)) by {
            if forall|q: int|
                0 <= q < stocks@.len() - 1 ==> (#[trigger] stocks@[q]).tomorrow
                    == Tomorrow::Increase {
                assert forall|k2: int| 0 <= k2 < rows@.len() implies (#[trigger] rows@[k2]).label by {
                    let j = choose|j: int| 0 <= j < train@.len() && row_from(rows@[k2], train@[j]);
                    assert(train@[j].tomorrow == Tomorrow::Increase);
                }
            }
        }
    }
    let forest: RandomForest = match RandomForest::fit(&rows, NUM_TREES, FEATURE_SUBSET, rng) {
        Ok(f) => f,
        Err(e) => {
            proof {
                if n >= 3 && (forall|q: int|
                    0 <= q < stocks@.len() - 1 ==> (#[trigger] stocks@[q]).tomorrow
                        != Tomorrow::Predict) {
                    assert(train@.len() >= 1);
                    assert(rows@.len() >= 1);
                    assert(false);
                }
            }
            return Err(e);
        },
    };
    proof {
        // A fitted forest means at least one training row, so at least two
        // split candidates, so at least three records.
        assert(train@.len() >= 1);
        assert(dv.len() >= 2);
        assert(n >= 3);
    }
    let acc: u64 = match forest.evaluate(&test) {
        Ok(a) => a,
        Err(_) => {
            proof {
                assert(false);
            }
            return Err(PredictError::ModelFitError);
        },
    };
    let verdict: Tomorrow = forest.predict(&ult_features);
    let inverted: (Tomorrow, u64) = apply_inversion(verdict, acc);
    proof {
        // Under unanimous rise labels every tree is the rise leaf, the
        // verdict is a rise, every test record scores, and the accuracy of
        // one passes the inversion unchanged.
        assert((forall|q: int|
            0 <= q < stocks@.len() - 1 ==> (#[trigger] stocks@[q]).tomorrow == Tomorrow::Increase)
            ==> inverted == (Tomorrow::Increase, MICROS as u64)) by {
            if forall|q: int|
                0 <= q < stocks@.len() - 1 ==> (#[trigger] stocks@[q]).tomorrow
                    == Tomorrow::Increase {
                assert(forall|j: int|
                    0 <= j < forest.trees@.len() ==> #[trigger] forest.trees@[j] == (Tree::Leaf {
                        label: true,
                    }));
                lemma_unanimous_up(forest.trees@, ult_features@);
                assert(forest_vote(forest.trees@, ult_features@));
                assert(verdict == Tomorrow::Increase);
                lemma_all_increase_correct(forest.trees@, test@);
                assert(correct_count(forest.trees@, test@) == test@.len());
                lemma_div_multiples_vanish(MICROS as int, test@.len() as int);
                assert((test@.len() as int) * (MICROS as int) == (MICROS as int) * (
                test@.len() as int));
                assert(acc as int == MICROS as int);
                assert(inverted == (Tomorrow::Increase, MICROS as u64));
            }
        }
    }
    Ok(inverted)
}

} // verus!
