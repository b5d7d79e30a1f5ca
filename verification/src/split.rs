//! The dataset splitter: a uniformly random partition of a record sequence
//! into disjoint train and test subsets, drawn by sampling without
//! replacement from an explicit randomness source.

use vstd::prelude::*;
use vstd::seq_lib::group_to_multiset_ensures;
use vstd::seq_lib::lemma_multiset_commutative;
use vstd::multiset::group_multiset_axioms;
use vstd::arithmetic::div_mod::lemma_div_is_ordered;
use vstd::arithmetic::div_mod::lemma_div_multiples_vanish;

use crate::rng::gen_index;
use crate::stock::Stock;
use crate::PredictError;
use crate::MAX_RECORDS;
use crate::MICROS;

use rand::rngs::StdRng;

verus! {

/// The index sequence 0, 1, ..., n - 1.
pub open spec fn index_range(n: nat) -> Seq<usize> {
    Seq::new(n, |i: int| i as usize)
}

/// How many records a train fraction assigns to the train set:
/// the floor of `fraction * n`, in micro-units.
pub open spec fn spec_train_count(n: int, fraction_micros: int) -> int {
    (n * fraction_micros) / (MICROS as int)
}

/// Draws a random partition of the indices 0..n: a train set of size `t`,
/// sampled without replacement, and a test set of everything left. Together
/// the two sides hold each index exactly once — they are disjoint, and their
/// sizes add up to `n`.
pub fn split_indices(n: usize, t: usize, rng: &mut StdRng) -> (r: (Vec<usize>, Vec<usize>))
    requires
        t <= n,
    ensures
        r.0@.len() == t,
        r.1@.len() == n - t,
        (r.0@ + r.1@).to_multiset() == index_range(n as nat).to_multiset(),
        forall|i: int, j: int|
            0 <= i < r.0@.len() && 0 <= j < r.1@.len() ==> r.0@[i] != r.1@[j],
        forall|i: int| 0 <= i < r.0@.len() ==> #[trigger] r.0@[i] < n,
        forall|i: int| 0 <= i < r.1@.len() ==> #[trigger] r.1@[i] < n,
{
    broadcast use group_to_multiset_ensures;
    broadcast use group_multiset_axioms;

    let mut pool: Vec<usize> = Vec::new();
    let mut i: usize = 0;
    while i < n
        invariant
            i <= n,
            pool@.len() == i,
            forall|k: int| 0 <= k < i as int ==> #[trigger] pool@[k] == k as usize,
        decreases n - i,
    {
        pool.push(i);
        i = i + 1;
    }
    proof {
        assert(pool@ =~= index_range(n as nat));
    }
    let mut train: Vec<usize> = Vec::new();
    let mut k: usize = 0;
    while k < t
        invariant
            t <= n,
            k <= t,
            train@.len() == k,
            pool@.len() == n - k,
            (train@ + pool@).to_multiset() == index_range(n as nat).to_multiset(),
        decreases t - k,
    {
        let ghost old_train = train@;
        let ghost old_pool = pool@;
        let j: usize = gen_index(rng, pool.len());
        let x: usize = pool.remove(j);
        train.push(x);
        proof {
            lemma_multiset_commutative(old_train, old_pool);
            lemma_multiset_commutative(train@, pool@);
            assert(train@ == old_train.push(x));
            vstd::seq_lib::to_multiset_build(old_train, x);
            assert(pool@ == old_pool.remove(j as int));
            vstd::seq_lib::to_multiset_remove(old_pool, j as int);
            assert(train@.to_multiset() =~= old_train.to_multiset().insert(x));
            assert(pool@.to_multiset() =~= old_pool.to_multiset().remove(x));
            assert(old_pool.contains(x)) by {
                assert(old_pool[j as int] == x);
            }
            vstd::seq_lib::to_multiset_contains(old_pool, x);
            assert(old_pool.to_multiset().count(x) >= 1);
            assert(train@.to_multiset().add(pool@.to_multiset()) =~= old_train.to_multiset().add(
                old_pool.to_multiset(),
            ));
        }
        k = k + 1;
    }
    let ghost trainv = train@;
    let ghost poolv = pool@;
    proof {
        lemma_multiset_commutative(trainv, poolv);
        assert(index_range(n as nat).no_duplicates());
        index_range(n as nat).lemma_multiset_has_no_duplicates();
        // Every index on either side occurs in 0..n, so it is below n; and
        // an index on both sides would be counted twice where each index is
        // counted once.
        assert forall|i2: int| 0 <= i2 < trainv.len() implies trainv[i2] < n by {
            assert(trainv.to_multiset().count(trainv[i2]) >= 1) by {
                assert(trainv.contains(trainv[i2]));
                vstd::seq_lib::to_multiset_contains(trainv, trainv[i2]);
            }
            assert(index_range(n as nat).to_multiset().count(trainv[i2]) >= 1);
            vstd::seq_lib::to_multiset_contains(index_range(n as nat), trainv[i2]);
            assert(index_range(n as nat).contains(trainv[i2]));
            let w = choose|w: int|
                0 <= w < index_range(n as nat).len() && index_range(n as nat)[w] == trainv[i2];
            assert(trainv[i2] == w as usize);
        }
        assert forall|j2: int| 0 <= j2 < poolv.len() implies poolv[j2] < n by {
            assert(poolv.to_multiset().count(poolv[j2]) >= 1) by {
                assert(poolv.contains(poolv[j2]));
                vstd::seq_lib::to_multiset_contains(poolv, poolv[j2]);
            }
            assert(index_range(n as nat).to_multiset().count(poolv[j2]) >= 1);
            vstd::seq_lib::to_multiset_contains(index_range(n as nat), poolv[j2]);
            assert(index_range(n as nat).contains(poolv[j2]));
            let w = choose|w: int|
                0 <= w < index_range(n as nat).len() && index_range(n as nat)[w] == poolv[j2];
            assert(poolv[j2] == w as usize);
        }
        assert forall|i2: int, j2: int|
            0 <= i2 < trainv.len() && 0 <= j2 < poolv.len() implies trainv[i2] != poolv[j2] by {
            if trainv[i2] == poolv[j2] {
                let v = trainv[i2];
                assert(trainv.to_multiset().count(v) >= 1) by {
                    assert(trainv.contains(v));
                    vstd::seq_lib::to_multiset_contains(trainv, v);
                }
                assert(poolv.to_multiset().count(v) >= 1) by {
                    assert(poolv.contains(v));
                    vstd::seq_lib::to_multiset_contains(poolv, v);
                }
                assert(index_range(n as nat).to_multiset().count(v) >= 2);
                assert(index_range(n as nat).to_multiset().contains(v));
            }
        }
    }
    (train, pool)
}

/// Any record of either side of a multiset partition occurs in the whole.
pub proof fn lemma_partition_member(a: Seq<Stock>, b: Seq<Stock>, whole: Seq<Stock>, k: int)
    requires
        (a + b).to_multiset() == whole.to_multiset(),
        0 <= k < a.len() + b.len(),
    ensures
        exists|j: int| 0 <= j < whole.len() && whole[j] == (a + b)[k],
{
    broadcast use group_multiset_axioms;

    let v = (a + b)[k];
    assert((a + b).contains(v));
    vstd::seq_lib::to_multiset_contains(a + b, v);
    assert(whole.to_multiset().count(v) > 0);
    vstd::seq_lib::to_multiset_contains(whole, v);
    assert(whole.contains(v));
}

/// Partitions the records into a random train set holding the floor of
/// `train_fraction_micros * n` records and a test set holding the rest,
/// drawn by sampling records without replacement. The two sides together
/// hold exactly the input records: each appears once across the two
/// outputs, none is lost and none is duplicated. Fails with
/// `InvalidFractionError` exactly when the fraction lies outside the open
/// interval (0, 1), and with `EmptyDatasetError` exactly when the fraction
/// is valid but no records were given.
pub fn split_data(stocks: Vec<Stock>, train_fraction_micros: i64, rng: &mut StdRng) -> (r: Result<
    (Vec<Stock>, Vec<Stock>),
    PredictError,
>)
    requires
        stocks@.len() <= MAX_RECORDS,
    ensures
        match r {
            Ok(tt) => 0 < train_fraction_micros < MICROS && stocks@.len() > 0
                && tt.0@.len() + tt.1@.len() == stocks@.len()
                && tt.0@.len() == spec_train_count(stocks@.len() as int, train_fraction_micros as int)
                && (tt.0@ + tt.1@).to_multiset() == stocks@.to_multiset(),
            Err(e) => (!(0 < train_fraction_micros < MICROS) && e
                == PredictError::InvalidFractionError) || (0 < train_fraction_micros < MICROS
                && stocks@.len() == 0 && e == PredictError::EmptyDatasetError),
        },
{
    broadcast use group_to_multiset_ensures;
    broadcast use group_multiset_axioms;

    if train_fraction_micros <= 0 || train_fraction_micros >= MICROS {
        return Err(PredictError::InvalidFractionError);
    }
    if stocks.len() == 0 {
        return Err(PredictError::EmptyDatasetError);
    }
    let n: usize = stocks.len();
    proof {
        assert((n as int) * (train_fraction_micros as int) <= 100_000_000_000int)
            by (nonlinear_arith)
            requires
                0 <= n as int <= 100_000,
                0 <= train_fraction_micros as int <= 1_000_000,
        ;
    }
    let prod: u128 = (n as u128) * (train_fraction_micros as u128);
    let tq: u128 = prod / (MICROS as u128);
    proof {
        assert((n as int) * (train_fraction_micros as int) <= (n as int) * (MICROS as int))
            by (nonlinear_arith)
            requires
                train_fraction_micros as int <= MICROS as int,
                n as int >= 0,
        ;
        lemma_div_is_ordered(
            (n as int) * (train_fraction_micros as int),
            (n as int) * (MICROS as int),
            MICROS as int,
        );
        lemma_div_multiples_vanish(n as int, MICROS as int);
        assert((n as int) * (MICROS as int) == (MICROS as int) * (n as int));
        assert(tq as int <= n as int);
    }
    let t: usize = tq as usize;
    let ghost orig = stocks@;
    let mut pool: Vec<Stock> = stocks;
    let mut train: Vec<Stock> = Vec::new();
    let mut k: usize = 0;
    while k < t
        invariant
            t <= n == orig.len(),
            k <= t,
            train@.len() == k,
            pool@.len() == n - k,
            (train@ + pool@).to_multiset() == orig.to_multiset(),
        decreases t - k,
    {
        let ghost old_train = train@;
        let ghost old_pool = pool@;
        let j: usize = gen_index(rng, pool.len());
        let x: Stock = pool.remove(j);
        train.push(x);
        proof {
            lemma_multiset_commutative(old_train, old_pool);
            lemma_multiset_commutative(train@, pool@);
            assert(train@ == old_train.push(x));
            vstd::seq_lib::to_multiset_build(old_train, x);
            assert(pool@ == old_pool.remove(j as int));
            vstd::seq_lib::to_multiset_remove(old_pool, j as int);
            assert(train@.to_multiset() =~= old_train.to_multiset().insert(x));
            assert(pool@.to_multiset() =~= old_pool.to_multiset().remove(x));
            assert(old_pool.contains(x)) by {
                assert(old_pool[j as int] == x);
            }
            vstd::seq_lib::to_multiset_contains(old_pool, x);
            assert(old_pool.to_multiset().count(x) >= 1);
            assert(train@.to_multiset().add(pool@.to_multiset()) =~= old_train.to_multiset().add(
                old_pool.to_multiset(),
            ));
        }
        k = k + 1;
    }
    Ok((train, pool))
}

} // verus!
