//! The decision-tree learner: CART-style recursive partitioning of labeled
//! feature rows, scoring candidate splits by exact weighted Gini impurity
//! held as integer rationals, so that every comparison is exact.

use vstd::prelude::*;

use crate::rng::gen_index;
use crate::MAX_RECORDS;

use rand::rngs::StdRng;

verus! {

/// One training example: a six-entry feature vector and a binary label,
/// `true` for a rise.
#[derive(Debug)]
pub struct Row {
    pub features: Vec<i64>,
    pub label: bool,
}

pub open spec fn row_wf(r: Row) -> bool {
    r.features@.len() == 6
}

pub open spec fn rows_wf(rows: Seq<Row>) -> bool {
    forall|i: int| 0 <= i < rows.len() ==> row_wf(#[trigger] rows[i])
}

/// An exact copy of a row.
pub fn copy_row(r: &Row) -> (c: Row)
    requires
        row_wf(*r),
    ensures
        row_wf(c),
        c.features@ == r.features@,
        c.label == r.label,
{
    let mut f: Vec<i64> = Vec::new();
    let mut i: usize = 0;
    while i < r.features.len()
        invariant
            r.features@.len() == 6,
            i <= 6,
            f@.len() == i,
            forall|j: int| 0 <= j < i as int ==> #[trigger] f@[j] == r.features@[j],
        decreases 6 - i,
    {
        f.push(r.features[i]);
        i = i + 1;
    }
    proof {
        assert(f@ =~= r.features@);
    }
    Row { features: f, label: r.label }
}

/// A binary classification tree: internal nodes test one feature against a
/// threshold, leaves carry the majority label of their training sample.
#[derive(Debug)]
pub enum Tree {
    Leaf { label: bool },
    Node { feature: usize, threshold: i64, left: Box<Tree>, right: Box<Tree> },
}

/// Every internal node tests one of the six features.
pub open spec fn tree_wf(t: Tree) -> bool
    decreases t,
{
    match t {
        Tree::Leaf { .. } => true,
        Tree::Node { feature, left, right, .. } => feature < 6 && tree_wf(*left) && tree_wf(
            *right,
        ),
    }
}

/// What the tree decides on a feature vector: descend left where the tested
/// feature is at most the threshold, right otherwise, to a leaf's label.
pub open spec fn tree_decide(t: Tree, f: Seq<i64>) -> bool
    decreases t,
{
    match t {
        Tree::Leaf { label } => label,
        Tree::Node { feature, threshold, left, right } => if f[feature as int] <= threshold {
            tree_decide(*left, f)
        } else {
            tree_decide(*right, f)
        },
    }
}

/// Descends the tree on a feature vector and returns the leaf's label.
pub fn predict_tree(t: &Tree, features: &Vec<i64>) -> (r: bool)
    requires
        tree_wf(*t),
        features@.len() == 6,
    ensures
        r == tree_decide(*t, features@),
    decreases *t,
{
    match t {
        Tree::Leaf { label } => *label,
        Tree::Node { feature, threshold, left, right } => {
            if features[*feature] <= *threshold {
                predict_tree(&**left, features)
            } else {
                predict_tree(&**right, features)
            }
        },
    }
}

pub open spec fn count_up(rows: Seq<Row>) -> int
    decreases rows.len(),
{
    if rows.len() == 0 {
        0
    } else {
        count_up(rows.drop_last()) + if rows.last().label {
            1int
        } else {
            0int
        }
    }
}

pub open spec fn count_down(rows: Seq<Row>) -> int
    decreases rows.len(),
{
    if rows.len() == 0 {
        0
    } else {
        count_down(rows.drop_last()) + if rows.last().label {
            0int
        } else {
            1int
        }
    }
}

pub proof fn lemma_counts_len(rows: Seq<Row>)
    ensures
        count_up(rows) + count_down(rows) == rows.len(),
        0 <= count_up(rows) <= rows.len(),
        0 <= count_down(rows) <= rows.len(),
    decreases rows.len(),
{
    if rows.len() > 0 {
        lemma_counts_len(rows.drop_last());
    }
}

/// In an all-rise sample nothing counts down, and the other way round.
pub proof fn lemma_pure_counts(rows: Seq<Row>)
    ensures
        (forall|i: int| 0 <= i < rows.len() ==> (#[trigger] rows[i]).label) ==> count_down(rows)
            == 0,
        (forall|i: int| 0 <= i < rows.len() ==> !(#[trigger] rows[i]).label) ==> count_up(rows)
            == 0,
    decreases rows.len(),
{
    if rows.len() > 0 {
        lemma_pure_counts(rows.drop_last());
        assert(forall|i: int|
            0 <= i < rows.drop_last().len() ==> #[trigger] rows.drop_last()[i] == rows[i]);
    }
}

/// Counts rise and fall labels in a sample.
fn count_labels(rows: &Vec<Row>) -> (c: (usize, usize))
    requires
        rows@.len() <= MAX_RECORDS,
    ensures
        c.0 as int == count_up(rows@),
        c.1 as int == count_down(rows@),
        c.0 + c.1 == rows@.len(),
{
    let n: usize = rows.len();
    let mut u: usize = 0;
    let mut d: usize = 0;
    let mut i: usize = 0;
    while i < n
        invariant
            n == rows@.len() <= MAX_RECORDS,
            i <= n,
            u as int == count_up(rows@.take(i as int)),
            d as int == count_down(rows@.take(i as int)),
            u + d == i,
        decreases n - i,
    {
        proof {
            assert(rows@.take(i as int + 1).drop_last() =~= rows@.take(i as int));
            assert(rows@.take(i as int + 1).last() == rows@[i as int]);
        }
        if rows[i].label {
            u = u + 1;
        } else {
            d = d + 1;
        }
        i = i + 1;
    }
    proof {
        assert(rows@.take(n as int) =~= rows@);
    }
    (u, d)
}

/// The four label counts of a candidate split: rises and falls going left
/// (feature at most the threshold), rises and falls going right.
pub open spec fn cand_counts(rows: Seq<Row>, f: int, thr: i64) -> (int, int, int, int)
    decreases rows.len(),
{
    if rows.len() == 0 {
        (0, 0, 0, 0)
    } else {
        let rest = cand_counts(rows.drop_last(), f, thr);
        let r = rows.last();
        if r.features@[f] <= thr {
            if r.label {
                (rest.0 + 1, rest.1, rest.2, rest.3)
            } else {
                (rest.0, rest.1 + 1, rest.2, rest.3)
            }
        } else {
            if r.label {
                (rest.0, rest.1, rest.2 + 1, rest.3)
            } else {
                (rest.0, rest.1, rest.2, rest.3 + 1)
            }
        }
    }
}

/// A candidate split is usable only if it sends at least one row each way.
pub open spec fn cand_valid(c: (int, int, int, int)) -> bool {
    c.0 + c.1 >= 1 && c.2 + c.3 >= 1
}

/// The numerator of the weighted Gini impurity of a split, over the common
/// denominator `n * left * right`: lower means a purer partition.
pub open spec fn imp_num(c: (int, int, int, int)) -> int {
    let nl = c.0 + c.1;
    let nr = c.2 + c.3;
    nr * (nl * nl - c.0 * c.0 - c.1 * c.1) + nl * (nr * nr - c.2 * c.2 - c.3 * c.3)
}

pub open spec fn imp_den(c: (int, int, int, int)) -> int {
    (c.0 + c.1) * (c.2 + c.3)
}

/// Exact comparison of two candidates' weighted Gini impurity, as a
/// cross-multiplied rational comparison.
pub open spec fn imp_lt(a: (int, int, int, int), b: (int, int, int, int)) -> bool {
    imp_num(a) * imp_den(b) < imp_num(b) * imp_den(a)
}

pub open spec fn imp_le(a: (int, int, int, int), b: (int, int, int, int)) -> bool {
    imp_num(a) * imp_den(b) <= imp_num(b) * imp_den(a)
}

/// The candidate split tested at feature position `fi` and threshold row
/// `ri` of a sample.
pub open spec fn cand_of(rows: Seq<Row>, feats: Seq<usize>, fi: int, ri: int) -> (
    int,
    int,
    int,
    int,
) {
    cand_counts(rows, feats[fi] as int, rows[ri].features@[feats[fi] as int])
}

/// A usable candidate's impurity denominator is positive.
pub proof fn lemma_valid_den_pos(c: (int, int, int, int))
    requires
        cand_valid(c),
        c.0 >= 0 && c.1 >= 0 && c.2 >= 0 && c.3 >= 0,
    ensures
        imp_den(c) > 0,
{
    assert((c.0 + c.1) * (c.2 + c.3) > 0) by (nonlinear_arith)
        requires
            c.0 + c.1 >= 1,
            c.2 + c.3 >= 1,
    ;
}

/// Comparison of fractions by cross-multiplication is transitive when all
/// denominators are positive.
proof fn lemma_frac_le_trans(na: int, da: int, nb: int, db: int, nc: int, dc: int)
    requires
        da > 0,
        db > 0,
        dc > 0,
        na * db <= nb * da,
        nb * dc <= nc * db,
    ensures
        na * dc <= nc * da,
{
    assert((na * db) * dc <= (nb * da) * dc) by (nonlinear_arith)
        requires
            dc > 0,
            na * db <= nb * da,
    ;
    assert((nb * dc) * da <= (nc * db) * da) by (nonlinear_arith)
        requires
            da > 0,
            nb * dc <= nc * db,
    ;
    assert((na * dc) * db <= (nc * da) * db) by (nonlinear_arith)
        requires
            (na * db) * dc <= (nb * da) * dc,
            (nb * dc) * da <= (nc * db) * da,
    ;
    assert(na * dc <= nc * da) by (nonlinear_arith)
        requires
            db > 0,
            (na * dc) * db <= (nc * da) * db,
    ;
}

/// The exact impurity order is transitive over usable candidates.
pub proof fn lemma_imp_le_trans(
    a: (int, int, int, int),
    b: (int, int, int, int),
    c: (int, int, int, int),
)
    requires
        imp_den(a) > 0,
        imp_den(b) > 0,
        imp_den(c) > 0,
        imp_le(a, b),
        imp_le(b, c),
    ensures
        imp_le(a, c),
{
    lemma_frac_le_trans(imp_num(a), imp_den(a), imp_num(b), imp_den(b), imp_num(c), imp_den(c));
}

/// Whether a split strictly reduces the parent node's Gini impurity.
pub open spec fn improves(c: (int, int, int, int)) -> bool {
    let u = c.0 + c.2;
    let d = c.1 + c.3;
    let n = u + d;
    imp_num(c) * n < (n * n - u * u - d * d) * imp_den(c)
}

/// Counts a candidate split's four sides in one pass.
fn split_counts(rows: &Vec<Row>, f: usize, thr: i64) -> (c: (usize, usize, usize, usize))
    requires
        rows_wf(rows@),
        rows@.len() <= MAX_RECORDS,
        f < 6,
    ensures
        (c.0 as int, c.1 as int, c.2 as int, c.3 as int) == cand_counts(rows@, f as int, thr),
        c.0 + c.1 + c.2 + c.3 == rows@.len(),
{
    let n: usize = rows.len();
    let mut ul: usize = 0;
    let mut dl: usize = 0;
    let mut ur: usize = 0;
    let mut dr: usize = 0;
    let mut i: usize = 0;
    while i < n
        invariant
            n == rows@.len() <= MAX_RECORDS,
            rows_wf(rows@),
            f < 6,
            i <= n,
            (ul as int, dl as int, ur as int, dr as int) == cand_counts(
                rows@.take(i as int),
                f as int,
                thr,
            ),
            ul + dl + ur + dr == i,
        decreases n - i,
    {
        proof {
            assert(rows@.take(i as int + 1).drop_last() =~= rows@.take(i as int));
            assert(rows@.take(i as int + 1).last() == rows@[i as int]);
        }
        if rows[i].features[f] <= thr {
            if rows[i].label {
                ul = ul + 1;
            } else {
                dl = dl + 1;
            }
        } else {
            if rows[i].label {
                ur = ur + 1;
            } else {
                dr = dr + 1;
            }
        }
        i = i + 1;
    }
    proof {
        assert(rows@.take(n as int) =~= rows@);
    }
    (ul, dl, ur, dr)
}

/// The impurity numerator and denominator of a candidate, in machine words.
fn imp_parts(c: (usize, usize, usize, usize)) -> (r: (u128, u128))
    requires
        c.0 <= MAX_RECORDS,
        c.1 <= MAX_RECORDS,
        c.2 <= MAX_RECORDS,
        c.3 <= MAX_RECORDS,
    ensures
        r.0 as int == imp_num((c.0 as int, c.1 as int, c.2 as int, c.3 as int)),
        r.1 as int == imp_den((c.0 as int, c.1 as int, c.2 as int, c.3 as int)),
        r.0 <= 0x10_0000_0000_0000_0000,
        r.1 <= 0x10_0000_0000,
{
    let nl: u128 = (c.0 as u128) + (c.1 as u128);
    let nr: u128 = (c.2 as u128) + (c.3 as u128);
    proof {
        assert((nl as int) * (nl as int) >= (c.0 as int) * (c.0 as int) + (c.1 as int) * (c.1
            as int) && (nl as int) * (nl as int) <= 40_000_000_000int) by (nonlinear_arith)
            requires
                nl as int == c.0 as int + c.1 as int,
                0 <= c.0 as int <= 100_000,
                0 <= c.1 as int <= 100_000,
        ;
        assert((nr as int) * (nr as int) >= (c.2 as int) * (c.2 as int) + (c.3 as int) * (c.3
            as int) && (nr as int) * (nr as int) <= 40_000_000_000int) by (nonlinear_arith)
            requires
                nr as int == c.2 as int + c.3 as int,
                0 <= c.2 as int <= 100_000,
                0 <= c.3 as int <= 100_000,
        ;
        assert((c.0 as int) * (c.0 as int) <= 10_000_000_000int && (c.1 as int) * (c.1 as int)
            <= 10_000_000_000int && (c.2 as int) * (c.2 as int) <= 10_000_000_000int && (c.3
            as int) * (c.3 as int) <= 10_000_000_000int) by (nonlinear_arith)
            requires
                0 <= c.0 as int <= 100_000,
                0 <= c.1 as int <= 100_000,
                0 <= c.2 as int <= 100_000,
                0 <= c.3 as int <= 100_000,
        ;
    }
    let gl: u128 = nl * nl - (c.0 as u128) * (c.0 as u128) - (c.1 as u128) * (c.1 as u128);
    let gr: u128 = nr * nr - (c.2 as u128) * (c.2 as u128) - (c.3 as u128) * (c.3 as u128);
    proof {
        vstd::arithmetic::mul::lemma_mul_upper_bound(
            nr as int,
            200_000int,
            gl as int,
            40_000_000_000int,
        );
        vstd::arithmetic::mul::lemma_mul_upper_bound(
            nl as int,
            200_000int,
            gr as int,
            40_000_000_000int,
        );
        vstd::arithmetic::mul::lemma_mul_upper_bound(nl as int, 200_000int, nr as int, 200_000int);
    }
    let num: u128 = nr * gl + nl * gr;
    let den: u128 = nl * nr;
    (num, den)
}

/// Exact impurity comparison: whether candidate `a` scores strictly below
/// candidate `b`.
fn imp_lt_exec(a: (usize, usize, usize, usize), b: (usize, usize, usize, usize)) -> (r: bool)
    requires
        a.0 <= MAX_RECORDS && a.1 <= MAX_RECORDS && a.2 <= MAX_RECORDS && a.3 <= MAX_RECORDS,
        b.0 <= MAX_RECORDS && b.1 <= MAX_RECORDS && b.2 <= MAX_RECORDS && b.3 <= MAX_RECORDS,
    ensures
        r == imp_lt(
            (a.0 as int, a.1 as int, a.2 as int, a.3 as int),
            (b.0 as int, b.1 as int, b.2 as int, b.3 as int),
        ),
{
    let pa: (u128, u128) = imp_parts(a);
    let pb: (u128, u128) = imp_parts(b);
    proof {
        assert((pa.0 as int) * (pb.1 as int) <= 0x1000_0000_0000_0000_0000_0000_0000int && (pb.0
            as int) * (pa.1 as int) <= 0x1000_0000_0000_0000_0000_0000_0000int)
            by (nonlinear_arith)
            requires
                0 <= pa.0 as int <= 0x10_0000_0000_0000_0000int,
                0 <= pb.0 as int <= 0x10_0000_0000_0000_0000int,
                0 <= pa.1 as int <= 0x10_0000_0000int,
                0 <= pb.1 as int <= 0x10_0000_0000int,
        ;
    }
    pa.0 * pb.1 < pb.0 * pa.1
}

/// Whether a split strictly improves on its parent node's impurity.
fn improves_exec(c: (usize, usize, usize, usize)) -> (r: bool)
    requires
        c.0 <= MAX_RECORDS && c.1 <= MAX_RECORDS && c.2 <= MAX_RECORDS && c.3 <= MAX_RECORDS,
    ensures
        r == improves((c.0 as int, c.1 as int, c.2 as int, c.3 as int)),
{
    let p: (u128, u128) = imp_parts(c);
    let u: u128 = (c.0 as u128) + (c.2 as u128);
    let d: u128 = (c.1 as u128) + (c.3 as u128);
    let n: u128 = u + d;
    proof {
        assert((n as int) * (n as int) >= (u as int) * (u as int) + (d as int) * (d as int) && (n
            as int) * (n as int) <= 160_000_000_000int) by (nonlinear_arith)
            requires
                n as int == u as int + d as int,
                0 <= u as int <= 200_000,
                0 <= d as int <= 200_000,
        ;
        assert((u as int) * (u as int) <= 40_000_000_000int && (d as int) * (d as int)
            <= 40_000_000_000int) by (nonlinear_arith)
            requires
                0 <= u as int <= 200_000,
                0 <= d as int <= 200_000,
        ;
    }
    let gp: u128 = n * n - u * u - d * d;
    proof {
        assert((p.0 as int) * (n as int) <= 0x1000_0000_0000_0000_0000_0000int && (gp as int) * (p.1
            as int) <= 0x1000_0000_0000_0000_0000_0000int) by (nonlinear_arith)
            requires
                0 <= p.0 as int <= 0x10_0000_0000_0000_0000int,
                0 <= p.1 as int <= 0x10_0000_0000int,
                0 <= n as int <= 400_000,
                0 <= gp as int <= 160_000_000_000int,
        ;
    }
    p.0 * n < gp * p.1
}

/// Draws `k` distinct feature indices, uniformly without replacement from
/// the six available.
fn draw_features(k: usize, rng: &mut StdRng) -> (fs: Vec<usize>)
    requires
        1 <= k <= 6,
    ensures
        fs@.len() == k,
        forall|i: int| 0 <= i < fs@.len() ==> #[trigger] fs@[i] < 6,
{
    let mut pool: Vec<usize> = Vec::new();
    let mut i: usize = 0;
    while i < 6
        invariant
            i <= 6,
            pool@.len() == i,
            forall|j: int| 0 <= j < i as int ==> #[trigger] pool@[j] < 6,
        decreases 6 - i,
    {
        pool.push(i);
        i = i + 1;
    }
    let mut fs: Vec<usize> = Vec::new();
    let mut m: usize = 0;
    while m < k
        invariant
            m <= k <= 6,
            pool@.len() == 6 - m,
            fs@.len() == m,
            forall|j: int| 0 <= j < pool@.len() ==> #[trigger] pool@[j] < 6,
            forall|j: int| 0 <= j < fs@.len() ==> #[trigger] fs@[j] < 6,
        decreases k - m,
    {
        let ghost old_pool = pool@;
        let j: usize = gen_index(rng, pool.len());
        let x: usize = pool.remove(j);
        fs.push(x);
        proof {
            assert(old_pool[j as int] < 6);
            assert(forall|q: int|
                0 <= q < pool@.len() ==> #[trigger] pool@[q] == if q < j as int {
                    old_pool[q]
                } else {
                    old_pool[q + 1]
                });
        }
        m = m + 1;
    }
    fs
}

/// Every side of a candidate split counts at least zero rows, and the
/// four sides together count the whole sample.
pub proof fn lemma_cand_counts_bounds(rows: Seq<Row>, f: int, thr: i64)
    ensures
        ({
            let c = cand_counts(rows, f, thr);
            c.0 >= 0 && c.1 >= 0 && c.2 >= 0 && c.3 >= 0 && c.0 + c.1 + c.2 + c.3 == rows.len()
        }),
    decreases rows.len(),
{
    if rows.len() > 0 {
        lemma_cand_counts_bounds(rows.drop_last(), f, thr);
    }
}

/// Searches every drawn feature and every threshold present in the sample
/// for a usable split, and keeps the first-encountered one of lowest
/// weighted Gini impurity: no scanned usable candidate scores strictly
/// below the one returned. Returns nothing exactly when no candidate
/// sends rows both ways.
pub fn best_split(rows: &Vec<Row>, feats: &Vec<usize>) -> (r: Option<
    (usize, i64, (usize, usize, usize, usize)),
>)
    requires
        rows_wf(rows@),
        1 <= rows@.len() <= MAX_RECORDS,
        forall|i: int| 0 <= i < feats@.len() ==> #[trigger] feats@[i] < 6,
    ensures
        match r {
            Some(b) => b.0 < 6 && (b.2.0 as int, b.2.1 as int, b.2.2 as int, b.2.3 as int)
                == cand_counts(rows@, b.0 as int, b.1) && cand_valid(
                (b.2.0 as int, b.2.1 as int, b.2.2 as int, b.2.3 as int),
            ) && b.2.0 + b.2.1 + b.2.2 + b.2.3 == rows@.len() && forall|fi: int, ri: int|
                0 <= fi < feats@.len() && 0 <= ri < rows@.len() && cand_valid(
                    #[trigger] cand_of(rows@, feats@, fi, ri),
                ) ==> imp_le(
                    (b.2.0 as int, b.2.1 as int, b.2.2 as int, b.2.3 as int),
                    cand_of(rows@, feats@, fi, ri),
                ),
            None => forall|fi: int, ri: int|
                0 <= fi < feats@.len() && 0 <= ri < rows@.len() ==> !cand_valid(
                    #[trigger] cand_of(rows@, feats@, fi, ri),
                ),
        },
{
    let mut best: Option<(usize, i64, (usize, usize, usize, usize))> = None;
    let mut fi: usize = 0;
    while fi < feats.len()
        invariant
            rows_wf(rows@),
            1 <= rows@.len() <= MAX_RECORDS,
            forall|i: int| 0 <= i < feats@.len() ==> #[trigger] feats@[i] < 6,
            fi <= feats@.len(),
            match best {
                Some(b) => b.0 < 6 && (b.2.0 as int, b.2.1 as int, b.2.2 as int, b.2.3 as int)
                    == cand_counts(rows@, b.0 as int, b.1) && cand_valid(
                    (b.2.0 as int, b.2.1 as int, b.2.2 as int, b.2.3 as int),
                ) && b.2.0 + b.2.1 + b.2.2 + b.2.3 == rows@.len() && forall|fi2: int, ri2: int|
                    0 <= fi2 < fi as int && 0 <= ri2 < rows@.len() && cand_valid(
                        #[trigger] cand_of(rows@, feats@, fi2, ri2),
                    ) ==> imp_le(
                        (b.2.0 as int, b.2.1 as int, b.2.2 as int, b.2.3 as int),
                        cand_of(rows@, feats@, fi2, ri2),
                    ),
                None => forall|fi2: int, ri2: int|
                    0 <= fi2 < fi as int && 0 <= ri2 < rows@.len() ==> !cand_valid(
                        #[trigger] cand_of(rows@, feats@, fi2, ri2),
                    ),
            },
        decreases feats@.len() - fi,
    {
        let f: usize = feats[fi];
        let mut ri: usize = 0;
        while ri < rows.len()
            invariant
                rows_wf(rows@),
                1 <= rows@.len() <= MAX_RECORDS,
                forall|i: int| 0 <= i < feats@.len() ==> #[trigger] feats@[i] < 6,
                fi < feats@.len(),
                f == feats@[fi as int],
                f < 6,
                ri <= rows@.len(),
                match best {
                    Some(b) => b.0 < 6 && (b.2.0 as int, b.2.1 as int, b.2.2 as int, b.2.3 as int)
                        == cand_counts(rows@, b.0 as int, b.1) && cand_valid(
                        (b.2.0 as int, b.2.1 as int, b.2.2 as int, b.2.3 as int),
                    ) && b.2.0 + b.2.1 + b.2.2 + b.2.3 == rows@.len() && (forall|
                        fi2: int,
                        ri2: int,
                    |
                        0 <= fi2 < fi as int && 0 <= ri2 < rows@.len() && cand_valid(
                            #[trigger] cand_of(rows@, feats@, fi2, ri2),
                        ) ==> imp_le(
                            (b.2.0 as int, b.2.1 as int, b.2.2 as int, b.2.3 as int),
                            cand_of(rows@, feats@, fi2, ri2),
                        )) && (forall|ri2: int|
                        0 <= ri2 < ri as int && cand_valid(
                            #[trigger] cand_of(rows@, feats@, fi as int, ri2),
                        ) ==> imp_le(
                            (b.2.0 as int, b.2.1 as int, b.2.2 as int, b.2.3 as int),
                            cand_of(rows@, feats@, fi as int, ri2),
                        )),
                    None => (forall|fi2: int, ri2: int|
                        0 <= fi2 < fi as int && 0 <= ri2 < rows@.len() ==> !cand_valid(
                            #[trigger] cand_of(rows@, feats@, fi2, ri2),
                        )) && (forall|ri2: int|
                        0 <= ri2 < ri as int ==> !cand_valid(
                            #[trigger] cand_of(rows@, feats@, fi as int, ri2),
                        )),
                },
            decreases rows@.len() - ri,
        {
            let thr: i64 = rows[ri].features[f];
            proof {
                assert(cand_of(rows@, feats@, fi as int, ri as int) == cand_counts(
                    rows@,
                    f as int,
                    thr,
                ));
                lemma_cand_counts_bounds(rows@, f as int, thr);
            }
            let c: (usize, usize, usize, usize) = split_counts(rows, f, thr);
            let ghost cc = (c.0 as int, c.1 as int, c.2 as int, c.3 as int);
            if c.0 + c.1 >= 1 && c.2 + c.3 >= 1 {
                match best {
                    None => {
                        best = Some((f, thr, c));
                    },
                    Some(b) => {
                        let ghost bc = (b.2.0 as int, b.2.1 as int, b.2.2 as int, b.2.3 as int);
                        if imp_lt_exec(c, b.2) {
                            proof {
                                lemma_valid_den_pos(cc);
                                lemma_valid_den_pos(bc);
                                assert forall|fi2: int, ri2: int|
                                    0 <= fi2 < fi as int && 0 <= ri2 < rows@.len() && cand_valid(
                                        #[trigger] cand_of(rows@, feats@, fi2, ri2),
                                    ) implies imp_le(cc, cand_of(rows@, feats@, fi2, ri2)) by {
                                    let sc = cand_of(rows@, feats@, fi2, ri2);
                                    lemma_cand_counts_bounds(
                                        rows@,
                                        feats@[fi2] as int,
                                        rows@[ri2].features@[feats@[fi2] as int],
                                    );
                                    lemma_valid_den_pos(sc);
                                    lemma_imp_le_trans(cc, bc, sc);
                                }
                                assert forall|ri2: int|
                                    0 <= ri2 < ri as int && cand_valid(
                                        #[trigger] cand_of(rows@, feats@, fi as int, ri2),
                                    ) implies imp_le(cc, cand_of(rows@, feats@, fi as int, ri2)) by {
                                    let sc = cand_of(rows@, feats@, fi as int, ri2);
                                    lemma_cand_counts_bounds(
                                        rows@,
                                        f as int,
                                        rows@[ri2].features@[f as int],
                                    );
                                    lemma_valid_den_pos(sc);
                                    lemma_imp_le_trans(cc, bc, sc);
                                }
                            }
                            best = Some((f, thr, c));
                        }
                    },
                }
            }
            ri = ri + 1;
        }
        fi = fi + 1;
    }
    best
}

/// Fits one CART tree on a labeled sample, drawing a fresh feature subset
/// at every node. A node becomes a leaf with the sample's majority label
/// (ties fall to a fall label) where the sample is pure, the depth budget
/// is spent, no candidate split sends rows both ways, or the best split no
/// longer strictly reduces impurity. A pure sample always yields the one
/// leaf carrying its label.
pub fn fit_tree(rows: &Vec<Row>, k: usize, depth: usize, rng: &mut StdRng) -> (t: Tree)
    requires
        rows_wf(rows@),
        1 <= rows@.len() <= MAX_RECORDS,
        1 <= k <= 6,
    ensures
        tree_wf(t),
        (forall|i: int| 0 <= i < rows@.len() ==> (#[trigger] rows@[i]).label) ==> t == (Tree::Leaf {
            label: true,
        }),
        (forall|i: int| 0 <= i < rows@.len() ==> !(#[trigger] rows@[i]).label) ==> t
            == (Tree::Leaf { label: false }),
    decreases depth,
{
    proof {
        lemma_counts_len(rows@);
        lemma_pure_counts(rows@);
    }
    let c: (usize, usize) = count_labels(rows);
    let u: usize = c.0;
    let d: usize = c.1;
    if u == 0 || d == 0 || depth == 0 {
        return Tree::Leaf { label: u > d };
    }
    let feats: Vec<usize> = draw_features(k, rng);
    let b: (usize, i64, (usize, usize, usize, usize)) = match best_split(rows, &feats) {
        None => {
            return Tree::Leaf { label: u > d };
        },
        Some(b) => b,
    };
    if !improves_exec(b.2) {
        return Tree::Leaf { label: u > d };
    }
    let f: usize = b.0;
    let thr: i64 = b.1;
    let n: usize = rows.len();
    let mut left: Vec<Row> = Vec::new();
    let mut right: Vec<Row> = Vec::new();
    let mut i: usize = 0;
    while i < n
        invariant
            n == rows@.len() <= MAX_RECORDS,
            rows_wf(rows@),
            f < 6,
            i <= n,
            rows_wf(left@),
            rows_wf(right@),
            left@.len() as int == {
                let cc = cand_counts(rows@.take(i as int), f as int, thr);
                cc.0 + cc.1
            },
            right@.len() as int == {
                let cc = cand_counts(rows@.take(i as int), f as int, thr);
                cc.2 + cc.3
            },
        decreases n - i,
    {
        proof {
            assert(rows@.take(i as int + 1).drop_last() =~= rows@.take(i as int));
            assert(rows@.take(i as int + 1).last() == rows@[i as int]);
        }
        let row: Row = copy_row(&rows[i]);
        if row.features[f] <= thr {
            left.push(row);
        } else {
            right.push(row);
        }
        i = i + 1;
    }
    proof {
        assert(rows@.take(n as int) =~= rows@);
    }
    let lt: Tree = fit_tree(&left, k, depth - 1, rng);
    let rt: Tree = fit_tree(&right, k, depth - 1, rng);
    Tree::Node { feature: f, threshold: thr, left: Box::new(lt), right: Box::new(rt) }
}

} // verus!
