use vstd::prelude::*;
use crate::dataset::{Dataset, labels_binary, rows_of, valid_data, all_width};
use crate::error::ClassifierError;

verus! {

/// Largest training set that `fit` accepts: it keeps the exact comparison of
/// split impurities within 128-bit arithmetic.
pub const MAX_TRAIN_ROWS: usize = 0x100_0000;

/// A node of a fitted tree. An internal node sends a row left when
/// `2 * row[feature] <= threshold_twice`, so its threshold is
/// `threshold_twice / 2`, the midpoint between two feature values.
pub enum Node {
    Leaf { class: u8, count0: usize, count1: usize },
    Internal { feature: usize, threshold_twice: i128, left: Box<Node>, right: Box<Node> },
}

/// Settings of the tree trainer.
#[derive(Debug, Clone, Copy, PartialEq, Eq, Structural)]
pub struct TreeConfig {
    /// A node at this depth becomes a leaf; `None` for no bound.
    pub max_depth: Option<usize>,
    /// A node with fewer than twice this many rows becomes a leaf.
    pub min_samples_leaf: usize,
}

impl TreeConfig {
    /// No depth bound, and at least one row per leaf.
    pub fn new() -> (c: TreeConfig)
        ensures
            c.max_depth is None,
            c.min_samples_leaf == 1,
    {
        TreeConfig { max_depth: None, min_samples_leaf: 1 }
    }
}

/// Whether `row` goes to the left child of a split on `feature` at `threshold_twice / 2`.
pub open spec fn goes_left(row: Seq<i64>, feature: nat, threshold_twice: int) -> bool {
    2 * row[feature as int] <= threshold_twice
}

/// The row indices of `idx`, in order, that go to the `left` (or right) side of a split.
pub open spec fn select(rows: Seq<Seq<i64>>, idx: Seq<usize>, feature: nat, t: int, left: bool) -> Seq<usize>
    decreases idx.len(),
{
    if idx.len() == 0 {
        Seq::empty()
    } else {
        let rest = select(rows, idx.drop_last(), feature, t, left);
        if goes_left(rows[idx.last() as int], feature, t) == left {
            rest.push(idx.last())
        } else {
            rest
        }
    }
}

/// Number of the rows `idx` whose label is `c`.
pub open spec fn count_label(labels: Seq<u8>, idx: Seq<usize>, c: u8) -> nat
    decreases idx.len(),
{
    if idx.len() == 0 {
        0
    } else {
        count_label(labels, idx.drop_last(), c) + (if labels[idx.last() as int] == c {
            1nat
        } else {
            0nat
        })
    }
}

/// The majority class, with a tie going to 0.
pub open spec fn majority(n0: nat, n1: nat) -> u8 {
    if n1 > n0 {
        1
    } else {
        0
    }
}

/// The tree rooted at `node` was grown from the rows `idx`: each leaf records the
/// label counts and majority class of the rows that reach it, and each split
/// names a feature below `w`.
pub open spec fn fits(node: Node, rows: Seq<Seq<i64>>, labels: Seq<u8>, idx: Seq<usize>, w: nat) -> bool
    decreases node,
{
    match node {
        Node::Leaf { class, count0, count1 } => count0 == count_label(labels, idx, 0) && count1
            == count_label(labels, idx, 1) && class == majority(count0 as nat, count1 as nat),
        Node::Internal { feature, threshold_twice, left, right } => feature < w && fits(
            *left,
            rows,
            labels,
            select(rows, idx, feature as nat, threshold_twice as int, true),
            w,
        ) && fits(*right, rows, labels, select(rows, idx, feature as nat, threshold_twice as int, false), w),
    }
}

/// Number of the rows `idx` with label `c` on one side of a split on `feature` at `t / 2`.
pub open spec fn side_count(rows: Seq<Seq<i64>>, labels: Seq<u8>, idx: Seq<usize>, feature: nat, t: int, left: bool, c: u8) -> nat {
    count_label(labels, select(rows, idx, feature, t, left), c)
}

/// Purity score of two sides with label counts `(l0, l1)` and `(r0, r1)`:
/// `((l0² + l1²)·R + (r0² + r1²)·L) / (L·R)`, where `L` and `R` are the sides'
/// sizes. Dividing it by the node's size gives one minus the weighted Gini
/// impurity, so a higher score is a lower impurity.
pub open spec fn score_num(l0: nat, l1: nat, r0: nat, r1: nat) -> nat {
    (l0 * l0 + l1 * l1) * (r0 + r1) + (r0 * r0 + r1 * r1) * (l0 + l1)
}

pub open spec fn score_den(l0: nat, l1: nat, r0: nat, r1: nat) -> nat {
    (l0 + l1) * (r0 + r1)
}

/// Numerator of the purity score of the split on `feature` at `t / 2` of the rows `idx`.
pub open spec fn split_num(rows: Seq<Seq<i64>>, labels: Seq<u8>, idx: Seq<usize>, feature: nat, t: int) -> nat {
    score_num(
        side_count(rows, labels, idx, feature, t, true, 0),
        side_count(rows, labels, idx, feature, t, true, 1),
        side_count(rows, labels, idx, feature, t, false, 0),
        side_count(rows, labels, idx, feature, t, false, 1),
    )
}

/// Denominator of the purity score of the split on `feature` at `t / 2` of the rows `idx`.
pub open spec fn split_den(rows: Seq<Seq<i64>>, labels: Seq<u8>, idx: Seq<usize>, feature: nat, t: int) -> nat {
    score_den(
        side_count(rows, labels, idx, feature, t, true, 0),
        side_count(rows, labels, idx, feature, t, true, 1),
        side_count(rows, labels, idx, feature, t, false, 0),
        side_count(rows, labels, idx, feature, t, false, 1),
    )
}

/// The split on `feature` at `t / 2` lowers the weighted Gini impurity of the
/// rows `idx` strictly below their own Gini impurity.
pub open spec fn improves(rows: Seq<Seq<i64>>, labels: Seq<u8>, idx: Seq<usize>, feature: nat, t: int) -> bool {
    let n0 = count_label(labels, idx, 0);
    let n1 = count_label(labels, idx, 1);
    split_num(rows, labels, idx, feature, t) * idx.len() > (n0 * n0 + n1 * n1) * split_den(rows, labels, idx, feature, t)
}

/// A split of score `n1 / d1` on feature `f1` at `t1` ranks at or above one of
/// score `n2 / d2` on `f2` at `t2`: a higher score, or an equal score and a
/// lower feature, or the same feature and a threshold no higher.
pub open spec fn ranks_above(n1: int, d1: int, f1: int, t1: int, n2: int, d2: int, f2: int, t2: int) -> bool {
    n1 * d2 > n2 * d1 || (n1 * d2 == n2 * d1 && (f1 < f2 || (f1 == f2 && t1 <= t2)))
}

/// The split on `f` at `t / 2` ranks at or above the one on `f2` at `t2 / 2`.
pub open spec fn at_least_as_good(rows: Seq<Seq<i64>>, labels: Seq<u8>, idx: Seq<usize>, f: nat, t: int, f2: nat, t2: int) -> bool {
    ranks_above(
        split_num(rows, labels, idx, f, t) as int,
        split_den(rows, labels, idx, f, t) as int,
        f as int,
        t,
        split_num(rows, labels, idx, f2, t2) as int,
        split_den(rows, labels, idx, f2, t2) as int,
        f2 as int,
        t2,
    )
}

/// Value of `feature` in the row at position `a` of `idx`.
pub open spec fn value_at(rows: Seq<Seq<i64>>, idx: Seq<usize>, feature: nat, a: int) -> int {
    rows[idx[a] as int][feature as int] as int
}

/// `t / 2` is the midpoint between two consecutive distinct values of
/// `feature` among the rows `idx`.
pub open spec fn is_candidate(rows: Seq<Seq<i64>>, idx: Seq<usize>, feature: nat, t: int) -> bool {
    exists|a: int, b: int|
        0 <= a < idx.len() && 0 <= b < idx.len() && #[trigger] value_at(rows, idx, feature, a) < #[trigger] value_at(rows, idx, feature, b)
            && t == value_at(rows, idx, feature, a) + value_at(rows, idx, feature, b) && forall|c: int|
            0 <= c < idx.len() ==> !(value_at(rows, idx, feature, a) < #[trigger] value_at(rows, idx, feature, c) < value_at(rows, idx, feature, b))
}

/// The rows `idx` at `depth` may be split: both labels occur, there are at
/// least twice `min_samples_leaf` rows, and the depth bound is not reached.
pub open spec fn may_split(labels: Seq<u8>, idx: Seq<usize>, depth: nat, config: TreeConfig) -> bool {
    &&& count_label(labels, idx, 0) > 0
    &&& count_label(labels, idx, 1) > 0
    &&& idx.len() >= 2 * config.min_samples_leaf
    &&& (config.max_depth matches Some(d) ==> depth < d)
}

/// The split on `f` at `t / 2` ranks at or above every candidate split of the rows `idx`.
pub open spec fn best_among_candidates(rows: Seq<Seq<i64>>, labels: Seq<u8>, idx: Seq<usize>, w: nat, f: nat, t: int) -> bool {
    forall|f2: nat, t2: int| f2 < w && #[trigger] is_candidate(rows, idx, f2, t2) ==> at_least_as_good(rows, labels, idx, f, t, f2, t2)
}

/// No candidate split of the rows `idx` lowers their impurity.
pub open spec fn no_candidate_improves(rows: Seq<Seq<i64>>, labels: Seq<u8>, idx: Seq<usize>, w: nat) -> bool {
    forall|f2: nat, t2: int| f2 < w && #[trigger] is_candidate(rows, idx, f2, t2) ==> !improves(rows, labels, idx, f2, t2)
}

/// The tree grown from the rows `idx` at `depth` obeys the growing rules: a
/// node is a leaf exactly where it may not be split or no candidate split
/// lowers its impurity; otherwise it splits at the best candidate.
pub open spec fn follows_rules(node: Node, rows: Seq<Seq<i64>>, labels: Seq<u8>, idx: Seq<usize>, w: nat, depth: nat, config: TreeConfig) -> bool
    decreases node,
{
    match node {
        Node::Leaf { .. } => !may_split(labels, idx, depth, config) || no_candidate_improves(rows, labels, idx, w),
        Node::Internal { feature, threshold_twice, left, right } => {
            let f = feature as nat;
            let t = threshold_twice as int;
            &&& may_split(labels, idx, depth, config)
            &&& is_candidate(rows, idx, f, t)
            &&& improves(rows, labels, idx, f, t)
            &&& best_among_candidates(rows, labels, idx, w, f, t)
            &&& follows_rules(*left, rows, labels, select(rows, idx, f, t, true), w, depth + 1, config)
            &&& follows_rules(*right, rows, labels, select(rows, idx, f, t, false), w, depth + 1, config)
        },
    }
}

/// Every leaf's class counts add up to the number of rows that reach it.
pub open spec fn leaf_totals_match(node: Node, rows: Seq<Seq<i64>>, idx: Seq<usize>) -> bool
    decreases node,
{
    match node {
        Node::Leaf { class, count0, count1 } => count0 + count1 == idx.len(),
        Node::Internal { feature, threshold_twice, left, right } => leaf_totals_match(
            *left,
            rows,
            select(rows, idx, feature as nat, threshold_twice as int, true),
        ) && leaf_totals_match(*right, rows, select(rows, idx, feature as nat, threshold_twice as int, false)),
    }
}

/// Every split of the tree names a feature below `w`.
pub open spec fn features_below(node: Node, w: nat) -> bool
    decreases node,
{
    match node {
        Node::Leaf { .. } => true,
        Node::Internal { feature, left, right, .. } => feature < w && features_below(*left, w)
            && features_below(*right, w),
    }
}

/// Every leaf of the tree predicts 0 or 1.
pub open spec fn classes_binary(node: Node) -> bool
    decreases node,
{
    match node {
        Node::Leaf { class, .. } => class == 0 || class == 1,
        Node::Internal { left, right, .. } => classes_binary(*left) && classes_binary(*right),
    }
}

/// The class that the tree gives `row`, found by walking from the root to a leaf.
pub open spec fn classify(node: Node, row: Seq<i64>) -> u8
    decreases node,
{
    match node {
        Node::Leaf { class, .. } => class,
        Node::Internal { feature, threshold_twice, left, right } => if goes_left(
            row,
            feature as nat,
            threshold_twice as int,
        ) {
            classify(*left, row)
        } else {
            classify(*right, row)
        },
    }
}

/// The indices `0..n` in order.
pub open spec fn all_indices(n: nat) -> Seq<usize> {
    Seq::new(n, |i: int| i as usize)
}

/// Every index of `idx` is below `n`.
pub open spec fn indices_below(idx: Seq<usize>, n: nat) -> bool {
    forall|a: int| 0 <= a < idx.len() ==> (#[trigger] idx[a] as nat) < n
}

/// A tree whose leaves predict 0 or 1 classifies every row as 0 or 1.
pub proof fn lemma_classify_binary(node: Node, row: Seq<i64>)
    requires
        classes_binary(node),
    ensures
        classify(node, row) == 0 || classify(node, row) == 1,
    decreases node,
{
    match node {
        Node::Leaf { .. } => {},
        Node::Internal { left, right, .. } => {
            lemma_classify_binary(*left, row);
            lemma_classify_binary(*right, row);
        },
    }
}

proof fn lemma_select_below(rows: Seq<Seq<i64>>, idx: Seq<usize>, f: nat, t: int, left: bool, n: nat)
    requires
        indices_below(idx, n),
    ensures
        indices_below(select(rows, idx, f, t, left), n),
    decreases idx.len(),
{
    if idx.len() > 0 {
        lemma_select_below(rows, idx.drop_last(), f, t, left, n);
        assert(idx.last() == idx[idx.len() - 1]);
    }
}

proof fn lemma_count_total(labels: Seq<u8>, idx: Seq<usize>)
    requires
        labels_binary(labels),
        indices_below(idx, labels.len()),
    ensures
        count_label(labels, idx, 0) + count_label(labels, idx, 1) == idx.len(),
    decreases idx.len(),
{
    if idx.len() > 0 {
        assert(idx.last() == idx[idx.len() - 1]);
        assert(labels[idx.last() as int] == 0 || labels[idx.last() as int] == 1);
        lemma_count_total(labels, idx.drop_last());
    }
}

proof fn lemma_fits_features_below(node: Node, rows: Seq<Seq<i64>>, labels: Seq<u8>, idx: Seq<usize>, w: nat)
    requires
        fits(node, rows, labels, idx, w),
    ensures
        features_below(node, w),
        classes_binary(node),
    decreases node,
{
    match node {
        Node::Leaf { .. } => {},
        Node::Internal { feature, threshold_twice, left, right } => {
            lemma_fits_features_below(
                *left,
                rows,
                labels,
                select(rows, idx, feature as nat, threshold_twice as int, true),
                w,
            );
            lemma_fits_features_below(
                *right,
                rows,
                labels,
                select(rows, idx, feature as nat, threshold_twice as int, false),
                w,
            );
        },
    }
}

proof fn lemma_leaf_totals(node: Node, rows: Seq<Seq<i64>>, labels: Seq<u8>, idx: Seq<usize>, w: nat)
    requires
        fits(node, rows, labels, idx, w),
        labels_binary(labels),
        indices_below(idx, labels.len()),
    ensures
        leaf_totals_match(node, rows, idx),
    decreases node,
{
    match node {
        Node::Leaf { .. } => {
            lemma_count_total(labels, idx);
        },
        Node::Internal { feature, threshold_twice, left, right } => {
            let f = feature as nat;
            let t = threshold_twice as int;
            lemma_select_below(rows, idx, f, t, true, labels.len());
            lemma_select_below(rows, idx, f, t, false, labels.len());
            lemma_leaf_totals(*left, rows, labels, select(rows, idx, f, t, true), w);
            lemma_leaf_totals(*right, rows, labels, select(rows, idx, f, t, false), w);
        },
    }
}

proof fn lemma_select_nonempty(rows: Seq<Seq<i64>>, idx: Seq<usize>, f: nat, t: int, left: bool, j: int)
    requires
        0 <= j < idx.len(),
        goes_left(rows[idx[j] as int], f, t) == left,
    ensures
        select(rows, idx, f, t, left).len() >= 1,
    decreases idx.len(),
{
    if j < idx.len() - 1 {
        assert(idx.drop_last()[j] == idx[j]);
        lemma_select_nonempty(rows, idx.drop_last(), f, t, left, j);
    }
}

/// A split with a row on each side has a positive score denominator.
proof fn lemma_split_den_pos(rows: Seq<Seq<i64>>, labels: Seq<u8>, idx: Seq<usize>, f: nat, t: int, a: int, b: int)
    requires
        labels_binary(labels),
        indices_below(idx, labels.len()),
        0 <= a < idx.len(),
        0 <= b < idx.len(),
        goes_left(rows[idx[a] as int], f, t),
        !goes_left(rows[idx[b] as int], f, t),
    ensures
        split_den(rows, labels, idx, f, t) > 0,
{
    lemma_select_nonempty(rows, idx, f, t, true, a);
    lemma_select_nonempty(rows, idx, f, t, false, b);
    lemma_select_below(rows, idx, f, t, true, labels.len());
    lemma_select_below(rows, idx, f, t, false, labels.len());
    lemma_count_total(labels, select(rows, idx, f, t, true));
    lemma_count_total(labels, select(rows, idx, f, t, false));
    let l = side_count(rows, labels, idx, f, t, true, 0) + side_count(rows, labels, idx, f, t, true, 1);
    let r = side_count(rows, labels, idx, f, t, false, 0) + side_count(rows, labels, idx, f, t, false, 1);
    assert(l * r > 0) by (nonlinear_arith)
        requires l >= 1, r >= 1;
}

proof fn lemma_candidate_den_pos(rows: Seq<Seq<i64>>, labels: Seq<u8>, idx: Seq<usize>, f: nat, t: int)
    requires
        labels_binary(labels),
        indices_below(idx, labels.len()),
        is_candidate(rows, idx, f, t),
    ensures
        split_den(rows, labels, idx, f, t) > 0,
{
    let (a, b) = choose|a: int, b: int|
        0 <= a < idx.len() && 0 <= b < idx.len() && #[trigger] value_at(rows, idx, f, a) < #[trigger] value_at(rows, idx, f, b)
            && t == value_at(rows, idx, f, a) + value_at(rows, idx, f, b) && forall|c: int|
            0 <= c < idx.len() ==> !(value_at(rows, idx, f, a) < #[trigger] value_at(rows, idx, f, c) < value_at(rows, idx, f, b));
    lemma_split_den_pos(rows, labels, idx, f, t, a, b);
}

proof fn lemma_ranks_trans(n1: int, d1: int, f1: int, t1: int, n2: int, d2: int, f2: int, t2: int, n3: int, d3: int, f3: int, t3: int)
    requires
        d1 > 0,
        d2 > 0,
        d3 > 0,
        ranks_above(n1, d1, f1, t1, n2, d2, f2, t2),
        ranks_above(n2, d2, f2, t2, n3, d3, f3, t3),
    ensures
        ranks_above(n1, d1, f1, t1, n3, d3, f3, t3),
{
    assert(n1 * d2 * d3 >= n2 * d1 * d3) by (nonlinear_arith)
        requires n1 * d2 >= n2 * d1, d3 > 0;
    assert(n2 * d3 * d1 >= n3 * d2 * d1) by (nonlinear_arith)
        requires n2 * d3 >= n3 * d2, d1 > 0;
    if n1 * d2 > n2 * d1 || n2 * d3 > n3 * d2 {
        assert(n1 * d2 * d3 > n2 * d1 * d3 || n2 * d3 * d1 > n3 * d2 * d1) by (nonlinear_arith)
            requires n1 * d2 > n2 * d1 || n2 * d3 > n3 * d2, d1 > 0, d3 > 0;
        assert(n1 * d3 > n3 * d1) by (nonlinear_arith)
            requires n1 * d2 * d3 >= n2 * d1 * d3, n2 * d3 * d1 >= n3 * d2 * d1,
                n1 * d2 * d3 > n2 * d1 * d3 || n2 * d3 * d1 > n3 * d2 * d1, d2 > 0;
    } else {
        assert(n1 * d3 == n3 * d1) by (nonlinear_arith)
            requires n1 * d2 == n2 * d1, n2 * d3 == n3 * d2, d2 > 0;
    }
}

proof fn lemma_good_trans(rows: Seq<Seq<i64>>, labels: Seq<u8>, idx: Seq<usize>, f1: nat, t1: int, f2: nat, t2: int, f3: nat, t3: int)
    requires
        split_den(rows, labels, idx, f1, t1) > 0,
        split_den(rows, labels, idx, f2, t2) > 0,
        split_den(rows, labels, idx, f3, t3) > 0,
        at_least_as_good(rows, labels, idx, f1, t1, f2, t2),
        at_least_as_good(rows, labels, idx, f2, t2, f3, t3),
    ensures
        at_least_as_good(rows, labels, idx, f1, t1, f3, t3),
{
    lemma_ranks_trans(
        split_num(rows, labels, idx, f1, t1) as int,
        split_den(rows, labels, idx, f1, t1) as int,
        f1 as int,
        t1,
        split_num(rows, labels, idx, f2, t2) as int,
        split_den(rows, labels, idx, f2, t2) as int,
        f2 as int,
        t2,
        split_num(rows, labels, idx, f3, t3) as int,
        split_den(rows, labels, idx, f3, t3) as int,
        f3 as int,
        t3,
    );
}

/// A split ranked at or below one that does not lower the impurity does not lower it either.
proof fn lemma_no_improve(nb: int, db: int, nc: int, dc: int, n: int, p: int)
    requires
        db > 0,
        dc > 0,
        n >= 0,
        nb * dc >= nc * db,
        nb * n <= p * db,
    ensures
        nc * n <= p * dc,
{
    assert(nc * n * db <= nb * dc * n) by (nonlinear_arith)
        requires nb * dc >= nc * db, n >= 0;
    assert(nb * n * dc <= p * db * dc) by (nonlinear_arith)
        requires nb * n <= p * db, dc > 0;
    assert(nc * n <= p * dc) by (nonlinear_arith)
        requires nc * n * db <= nb * dc * n, nb * n * dc <= p * db * dc, db > 0;
}

/// Counts the labels 0 and 1 among the rows `idx`.
fn count_labels(labels: &Vec<u8>, idx: &Vec<usize>) -> (res: (usize, usize))
    requires
        labels_binary(labels@),
        indices_below(idx@, labels@.len()),
    ensures
        res.0 == count_label(labels@, idx@, 0),
        res.1 == count_label(labels@, idx@, 1),
        res.0 + res.1 == idx@.len(),
{
    let mut c0: usize = 0;
    let mut c1: usize = 0;
    let mut i: usize = 0;
    while i < idx.len()
        invariant
            i <= idx@.len(),
            labels_binary(labels@),
            indices_below(idx@, labels@.len()),
            c0 == count_label(labels@, idx@.take(i as int), 0),
            c1 == count_label(labels@, idx@.take(i as int), 1),
            c0 + c1 == i,
        decreases idx@.len() - i,
    {
        let x = idx[i];
        assert(labels@[x as int] == 0 || labels@[x as int] == 1);
        if labels[x] == 0 {
            c0 = c0 + 1;
        } else {
            c1 = c1 + 1;
        }
        i = i + 1;
        assert(idx@.take(i as int).drop_last() =~= idx@.take(i - 1));
    }
    assert(idx@.take(i as int) =~= idx@);
    (c0, c1)
}

/// Splits the rows `idx` on `feature` at `t / 2`; position `j` of `idx` goes
/// left and position `k` goes right, so neither side is empty.
fn partition(rows: &Vec<Vec<i64>>, idx: &Vec<usize>, feature: usize, t: i128, j: usize, k: usize) -> (res: (Vec<usize>, Vec<usize>))
    requires
        indices_below(idx@, rows@.len()),
        forall|a: int| 0 <= a < idx@.len() ==> feature < (#[trigger] rows_of(rows@)[idx@[a] as int]).len(),
        j < idx@.len(),
        k < idx@.len(),
        goes_left(rows_of(rows@)[idx@[j as int] as int], feature as nat, t as int),
        !goes_left(rows_of(rows@)[idx@[k as int] as int], feature as nat, t as int),
    ensures
        res.0@ == select(rows_of(rows@), idx@, feature as nat, t as int, true),
        res.1@ == select(rows_of(rows@), idx@, feature as nat, t as int, false),
        res.0@.len() >= 1,
        res.1@.len() >= 1,
        res.0@.len() + res.1@.len() == idx@.len(),
        indices_below(res.0@, rows@.len()),
        indices_below(res.1@, rows@.len()),
{
    let ghost r = rows_of(rows@);
    let mut left: Vec<usize> = Vec::new();
    let mut right: Vec<usize> = Vec::new();
    let mut i: usize = 0;
    while i < idx.len()
        invariant
            i <= idx@.len(),
            r == rows_of(rows@),
            indices_below(idx@, rows@.len()),
            forall|a: int| 0 <= a < idx@.len() ==> feature < (#[trigger] r[idx@[a] as int]).len(),
            left@ == select(r, idx@.take(i as int), feature as nat, t as int, true),
            right@ == select(r, idx@.take(i as int), feature as nat, t as int, false),
            left@.len() + right@.len() == i,
            j < idx@.len(),
            k < idx@.len(),
            goes_left(r[idx@[j as int] as int], feature as nat, t as int),
            !goes_left(r[idx@[k as int] as int], feature as nat, t as int),
            i > j ==> left@.len() >= 1,
            i > k ==> right@.len() >= 1,
            indices_below(left@, rows@.len()),
            indices_below(right@, rows@.len()),
        decreases idx@.len() - i,
    {
        let x = idx[i];
        assert(r[x as int] == rows@[x as int]@);
        assert(feature < r[idx@[i as int] as int].len());
        let v = rows[x][feature];
        assert(v == r[x as int][feature as int]);
        assert(i == j ==> 2 * v <= t);
        assert(i == k ==> 2 * v > t);
        assert(idx@.take(i + 1).drop_last() =~= idx@.take(i as int));
        assert(idx@.take(i + 1).last() == x);
        if 2 * (v as i128) <= t {
            left.push(x);
        } else {
            right.push(x);
        }
        i = i + 1;
    }
    assert(idx@.take(i as int) =~= idx@);
    (left, right)
}

/// The left and right label counts of a split of the rows `idx` on `feature` at `t / 2`.
fn side_counts(rows: &Vec<Vec<i64>>, labels: &Vec<u8>, idx: &Vec<usize>, feature: usize, t: i128) -> (res: (usize, usize, usize, usize))
    requires
        labels_binary(labels@),
        indices_below(idx@, rows@.len()),
        rows@.len() == labels@.len(),
        forall|a: int| 0 <= a < idx@.len() ==> feature < (#[trigger] rows_of(rows@)[idx@[a] as int]).len(),
    ensures
        res.0 + res.1 + res.2 + res.3 == idx@.len(),
        res.0 == side_count(rows_of(rows@), labels@, idx@, feature as nat, t as int, true, 0),
        res.1 == side_count(rows_of(rows@), labels@, idx@, feature as nat, t as int, true, 1),
        res.2 == side_count(rows_of(rows@), labels@, idx@, feature as nat, t as int, false, 0),
        res.3 == side_count(rows_of(rows@), labels@, idx@, feature as nat, t as int, false, 1),
{
    let ghost r = rows_of(rows@);
    let mut l0: usize = 0;
    let mut l1: usize = 0;
    let mut r0: usize = 0;
    let mut r1: usize = 0;
    let mut i: usize = 0;
    while i < idx.len()
        invariant
            i <= idx@.len(),
            r == rows_of(rows@),
            rows@.len() == labels@.len(),
            indices_below(idx@, rows@.len()),
            forall|a: int| 0 <= a < idx@.len() ==> feature < (#[trigger] r[idx@[a] as int]).len(),
            l0 + l1 + r0 + r1 == i,
            labels_binary(labels@),
            l0 == side_count(r, labels@, idx@.take(i as int), feature as nat, t as int, true, 0),
            l1 == side_count(r, labels@, idx@.take(i as int), feature as nat, t as int, true, 1),
            r0 == side_count(r, labels@, idx@.take(i as int), feature as nat, t as int, false, 0),
            r1 == side_count(r, labels@, idx@.take(i as int), feature as nat, t as int, false, 1),
        decreases idx@.len() - i,
    {
        let x = idx[i];
        assert(r[x as int] == rows@[x as int]@);
        assert(feature < r[idx@[i as int] as int].len());
        let left = 2 * (rows[x][feature] as i128) <= t;
        let zero = labels[x] == 0;
        assert(labels@[x as int] == 0 || labels@[x as int] == 1);
        proof {
            let pre = idx@.take(i as int);
            let post = idx@.take(i + 1);
            assert(post.drop_last() =~= pre);
            assert(post.last() == x);
            let sl = select(r, pre, feature as nat, t as int, true);
            let sr = select(r, pre, feature as nat, t as int, false);
            assert(sl.push(x).drop_last() =~= sl);
            assert(sr.push(x).drop_last() =~= sr);
        }
        if left && zero {
            l0 = l0 + 1;
        } else if left {
            l1 = l1 + 1;
        } else if zero {
            r0 = r0 + 1;
        } else {
            r1 = r1 + 1;
        }
        i = i + 1;
    }
    assert(idx@.take(i as int) =~= idx@);
    (l0, l1, r0, r1)
}

/// The purity score of a split, `((l0² + l1²)·R + (r0² + r1²)·L) / (L·R)`, where
/// `L` and `R` are the sizes of the two sides. A higher score is a lower
/// weighted Gini impurity.
fn split_score(l0: usize, l1: usize, r0: usize, r1: usize) -> (res: (u128, u128))
    requires
        l0 <= MAX_TRAIN_ROWS,
        l1 <= MAX_TRAIN_ROWS,
        r0 <= MAX_TRAIN_ROWS,
        r1 <= MAX_TRAIN_ROWS,
    ensures
        res.0 == (l0 * l0 + l1 * l1) * (r0 + r1) + (r0 * r0 + r1 * r1) * (l0 + l1),
        res.1 == (l0 + l1) * (r0 + r1),
        res.0 <= 0x1_0000_0000_0000_0000_000,
        res.1 <= 0x4_0000_0000_0000,
{
    let a0 = l0 as u128;
    let a1 = l1 as u128;
    let b0 = r0 as u128;
    let b1 = r1 as u128;
    let bound: u128 = 0x100_0000;
    assert(a0 * a0 <= bound * bound) by (nonlinear_arith)
        requires a0 <= bound;
    assert(a1 * a1 <= bound * bound) by (nonlinear_arith)
        requires a1 <= bound;
    assert(b0 * b0 <= bound * bound) by (nonlinear_arith)
        requires b0 <= bound;
    assert(b1 * b1 <= bound * bound) by (nonlinear_arith)
        requires b1 <= bound;
    let sl = a0 * a0 + a1 * a1;
    let sr = b0 * b0 + b1 * b1;
    let nl = a0 + a1;
    let nr = b0 + b1;
    assert(sl * nr <= 0x2_0000_0000_0000 * 0x200_0000) by (nonlinear_arith)
        requires sl <= 0x2_0000_0000_0000, nr <= 0x200_0000;
    assert(sr * nl <= 0x2_0000_0000_0000 * 0x200_0000) by (nonlinear_arith)
        requires sr <= 0x2_0000_0000_0000, nl <= 0x200_0000;
    assert(nl * nr <= 0x200_0000 * 0x200_0000) by (nonlinear_arith)
        requires nl <= 0x200_0000, nr <= 0x200_0000;
    (sl * nr + sr * nl, nl * nr)
}

/// The smallest value of `feature` among the rows `idx` that is above `v`, with its position.
fn next_larger(rows: &Vec<Vec<i64>>, idx: &Vec<usize>, feature: usize, v: i64) -> (res: Option<(i64, usize)>)
    requires
        indices_below(idx@, rows@.len()),
        forall|a: int| 0 <= a < idx@.len() ==> feature < (#[trigger] rows_of(rows@)[idx@[a] as int]).len(),
    ensures
        res matches Some((u, pos)) ==> pos < idx@.len() && u == rows_of(rows@)[idx@[pos as int] as int][feature as int] && u > v,
        res matches Some((u, pos)) ==> forall|a: int| 0 <= a < idx@.len() && #[trigger] rows_of(rows@)[idx@[a] as int][feature as int] > v ==> u <= rows_of(rows@)[idx@[a] as int][feature as int],
        res is None ==> forall|a: int| 0 <= a < idx@.len() ==> #[trigger] rows_of(rows@)[idx@[a] as int][feature as int] <= v,
{
    let ghost r = rows_of(rows@);
    let mut best: Option<(i64, usize)> = None;
    let mut b: usize = 0;
    while b < idx.len()
        invariant
            b <= idx@.len(),
            r == rows_of(rows@),
            indices_below(idx@, rows@.len()),
            forall|a: int| 0 <= a < idx@.len() ==> feature < (#[trigger] r[idx@[a] as int]).len(),
            best matches Some((u, pos)) ==> pos < idx@.len() && u == r[idx@[pos as int] as int][feature as int] && u > v,
            best matches Some((u, pos)) ==> forall|a: int| 0 <= a < b && #[trigger] r[idx@[a] as int][feature as int] > v ==> u <= r[idx@[a] as int][feature as int],
            best is None ==> forall|a: int| 0 <= a < b ==> #[trigger] r[idx@[a] as int][feature as int] <= v,
        decreases idx@.len() - b,
    {
        let x = idx[b];
        assert(r[x as int] == rows@[x as int]@);
        assert(feature < r[idx@[b as int] as int].len());
        let u = rows[x][feature];
        if u > v {
            match best {
                None => {
                    best = Some((u, b));
                },
                Some((cur, _)) => {
                    if u < cur {
                        best = Some((u, b));
                    }
                },
            }
        }
        b = b + 1;
    }
    best
}

/// What `best_split` knows of the split it holds: a candidate threshold whose
/// sides have the given purity score, with a position on each side.
spec fn split_found(r: Seq<Seq<i64>>, labels: Seq<u8>, idx: Seq<usize>, w: nat, f: usize, t: i128, j: usize, k: usize, num: u128, den: u128) -> bool {
    let l0 = side_count(r, labels, idx, f as nat, t as int, true, 0);
    let l1 = side_count(r, labels, idx, f as nat, t as int, true, 1);
    let r0 = side_count(r, labels, idx, f as nat, t as int, false, 0);
    let r1 = side_count(r, labels, idx, f as nat, t as int, false, 1);
    &&& f < w
    &&& j < idx.len()
    &&& k < idx.len()
    &&& value_at(r, idx, f as nat, j as int) < value_at(r, idx, f as nat, k as int)
    &&& t == value_at(r, idx, f as nat, j as int) + value_at(r, idx, f as nat, k as int)
    &&& forall|c: int| 0 <= c < idx.len() ==> !(value_at(r, idx, f as nat, j as int) < #[trigger] value_at(r, idx, f as nat, c) < value_at(r, idx, f as nat, k as int))
    &&& num == score_num(l0, l1, r0, r1)
    &&& den == score_den(l0, l1, r0, r1)
    &&& num <= 0x1_0000_0000_0000_0000_000
    &&& den <= 0x4_0000_0000_0000
}

/// The best split held so far ranks at or above the split on `f2` at `t2 / 2`.
spec fn covers(r: Seq<Seq<i64>>, labels: Seq<u8>, idx: Seq<usize>, best: Option<(usize, i128, usize, usize, u128, u128)>, f2: nat, t2: int) -> bool {
    best matches Some((bf, bt, _j, _k, _n, _d)) && at_least_as_good(r, labels, idx, bf as nat, bt as int, f2, t2)
}

/// Replacing the best split by one ranked at or above it keeps every split it covered covered.
proof fn lemma_replace_keeps_cover(r: Seq<Seq<i64>>, labels: Seq<u8>, idx: Seq<usize>, w: nat, old_best: Option<(usize, i128, usize, usize, u128, u128)>, f: usize, t: i128, a: usize, pos: usize, num: u128, den: u128, f2: nat, t2: int)
    requires
        labels_binary(labels),
        indices_below(idx, labels.len()),
        split_found(r, labels, idx, w, f, t, a, pos, num, den),
        old_best matches Some((bf, bt, j, k, bn, bd)) ==> split_found(r, labels, idx, w, bf, bt, j, k, bn, bd)
            && at_least_as_good(r, labels, idx, f as nat, t as int, bf as nat, bt as int),
        covers(r, labels, idx, old_best, f2, t2),
        split_den(r, labels, idx, f2, t2) > 0,
    ensures
        covers(r, labels, idx, Some((f, t, a, pos, num, den)), f2, t2),
{
    let (bf, bt, j, k, bn, bd) = old_best->0;
    lemma_split_den_pos(r, labels, idx, f as nat, t as int, a as int, pos as int);
    lemma_split_den_pos(r, labels, idx, bf as nat, bt as int, j as int, k as int);
    lemma_good_trans(r, labels, idx, f as nat, t as int, bf as nat, bt as int, f2, t2);
}

/// The best split of the rows `idx`: over every feature and every midpoint
/// between consecutive distinct values of it, the one of highest purity score,
/// ties going to the lower feature and then the lower threshold. Returns the
/// feature, the doubled threshold, a position of `idx` that goes left, one that
/// goes right, and the score as a fraction; `None` where no feature takes two
/// distinct values.
fn best_split(rows: &Vec<Vec<i64>>, labels: &Vec<u8>, w: usize, idx: &Vec<usize>) -> (res: Option<(usize, i128, usize, usize, u128, u128)>)
    requires
        labels_binary(labels@),
        rows@.len() == labels@.len(),
        rows@.len() <= MAX_TRAIN_ROWS,
        indices_below(idx@, rows@.len()),
        idx@.len() <= rows@.len(),
        forall|a: int| 0 <= a < idx@.len() ==> (#[trigger] rows_of(rows@)[idx@[a] as int]).len() == w,
    ensures
        res matches Some((f, t, j, k, num, den)) ==> split_found(rows_of(rows@), labels@, idx@, w as nat, f, t, j, k, num, den)
            && best_among_candidates(rows_of(rows@), labels@, idx@, w as nat, f as nat, t as int),
        res is None ==> forall|f2: nat, t2: int| f2 < w ==> !#[trigger] is_candidate(rows_of(rows@), idx@, f2, t2),
{
    let ghost r = rows_of(rows@);
    let mut best: Option<(usize, i128, usize, usize, u128, u128)> = None;
    let mut f: usize = 0;
    while f < w
        invariant
            f <= w,
            r == rows_of(rows@),
            labels_binary(labels@),
            rows@.len() == labels@.len(),
            rows@.len() <= MAX_TRAIN_ROWS,
            indices_below(idx@, rows@.len()),
            idx@.len() <= rows@.len(),
            forall|a: int| 0 <= a < idx@.len() ==> (#[trigger] r[idx@[a] as int]).len() == w,
            best matches Some((bf, t, j, k, num, den)) ==> split_found(r, labels@, idx@, w as nat, bf, t, j, k, num, den) && bf < f,
            forall|f2: nat, t2: int| f2 < f && #[trigger] is_candidate(r, idx@, f2, t2) ==> covers(r, labels@, idx@, best, f2, t2),
        decreases w - f,
    {
        let mut a: usize = 0;
        while a < idx.len()
            invariant
                f < w,
                a <= idx@.len(),
                r == rows_of(rows@),
                labels_binary(labels@),
                rows@.len() == labels@.len(),
                rows@.len() <= MAX_TRAIN_ROWS,
                indices_below(idx@, rows@.len()),
                idx@.len() <= rows@.len(),
                forall|a: int| 0 <= a < idx@.len() ==> (#[trigger] r[idx@[a] as int]).len() == w,
                best matches Some((bf, t, j, k, num, den)) ==> split_found(r, labels@, idx@, w as nat, bf, t, j, k, num, den) && bf <= f,
                forall|f2: nat, t2: int| f2 < f && #[trigger] is_candidate(r, idx@, f2, t2) ==> covers(r, labels@, idx@, best, f2, t2),
                forall|a2: int, b2: int|
                    0 <= a2 < a && 0 <= b2 < idx@.len() && #[trigger] value_at(r, idx@, f as nat, a2) < #[trigger] value_at(r, idx@, f as nat, b2)
                        && (forall|c: int| 0 <= c < idx@.len() ==> !(value_at(r, idx@, f as nat, a2) < #[trigger] value_at(r, idx@, f as nat, c) < value_at(r, idx@, f as nat, b2)))
                        ==> covers(r, labels@, idx@, best, f as nat, value_at(r, idx@, f as nat, a2) + value_at(r, idx@, f as nat, b2)),
            decreases idx@.len() - a,
        {
            let x = idx[a];
            assert(r[x as int] == rows@[x as int]@);
            assert(r[idx@[a as int] as int].len() == w);
            let v = rows[x][f];
            assert(v == value_at(r, idx@, f as nat, a as int));
            let ghost old_best = best;
            match next_larger(rows, idx, f, v) {
                None => {},
                Some((u, pos)) => {
                    let t: i128 = v as i128 + u as i128;
                    assert forall|a: int| 0 <= a < idx@.len() implies (#[trigger] rows_of(rows@)[idx@[a] as int]).len() == w by {
                        assert(r[idx@[a] as int].len() == w);
                    }
                    let (l0, l1, r0, r1) = side_counts(rows, labels, idx, f, t);
                    let (num, den) = split_score(l0, l1, r0, r1);
                    assert(split_found(r, labels@, idx@, w as nat, f, t, a, pos, num, den));
                    let better = match best {
                        None => true,
                        Some((bf, bt, _, _, bnum, bden)) => {
                            assert(num * bden <= 0x1_0000_0000_0000_0000_000 * 0x4_0000_0000_0000) by (nonlinear_arith)
                                requires num <= 0x1_0000_0000_0000_0000_000, bden <= 0x4_0000_0000_0000;
                            assert(bnum * den <= 0x1_0000_0000_0000_0000_000 * 0x4_0000_0000_0000) by (nonlinear_arith)
                                requires bnum <= 0x1_0000_0000_0000_0000_000, den <= 0x4_0000_0000_0000;
                            let lhs = num * bden;
                            let rhs = bnum * den;
                            lhs > rhs || (lhs == rhs && bf == f && t < bt)
                        },
                    };
                    if better {
                        best = Some((f, t, a, pos, num, den));
                        proof {
                            assert forall|f2: nat, t2: int| f2 < f && #[trigger] is_candidate(r, idx@, f2, t2) implies covers(r, labels@, idx@, best, f2, t2) by {
                                lemma_candidate_den_pos(r, labels@, idx@, f2, t2);
                                lemma_replace_keeps_cover(r, labels@, idx@, w as nat, old_best, f, t, a, pos, num, den, f2, t2);
                            }
                            assert forall|a2: int, b2: int|
                                0 <= a2 < a && 0 <= b2 < idx@.len() && #[trigger] value_at(r, idx@, f as nat, a2) < #[trigger] value_at(r, idx@, f as nat, b2)
                                    && (forall|c: int| 0 <= c < idx@.len() ==> !(value_at(r, idx@, f as nat, a2) < #[trigger] value_at(r, idx@, f as nat, c) < value_at(r, idx@, f as nat, b2)))
                                implies covers(r, labels@, idx@, best, f as nat, value_at(r, idx@, f as nat, a2) + value_at(r, idx@, f as nat, b2)) by {
                                let t2 = value_at(r, idx@, f as nat, a2) + value_at(r, idx@, f as nat, b2);
                                lemma_split_den_pos(r, labels@, idx@, f as nat, t2, a2, b2);
                                lemma_replace_keeps_cover(r, labels@, idx@, w as nat, old_best, f, t, a, pos, num, den, f as nat, t2);
                            }
                        }
                    }
                    proof {
                        assert forall|b2: int|
                            0 <= b2 < idx@.len() && #[trigger] value_at(r, idx@, f as nat, a as int) < #[trigger] value_at(r, idx@, f as nat, b2)
                                && (forall|c: int| 0 <= c < idx@.len() ==> !(value_at(r, idx@, f as nat, a as int) < #[trigger] value_at(r, idx@, f as nat, c) < value_at(r, idx@, f as nat, b2)))
                            implies covers(r, labels@, idx@, best, f as nat, value_at(r, idx@, f as nat, a as int) + value_at(r, idx@, f as nat, b2)) by {
                            assert(value_at(r, idx@, f as nat, pos as int) == u);
                            assert(u <= value_at(r, idx@, f as nat, b2));
                        }
                    }
                },
            }
            a = a + 1;
        }
        proof {
            assert forall|t2: int| #[trigger] is_candidate(r, idx@, f as nat, t2) implies covers(r, labels@, idx@, best, f as nat, t2) by {
                let (a2, b2) = choose|a2: int, b2: int|
                    0 <= a2 < idx@.len() && 0 <= b2 < idx@.len() && #[trigger] value_at(r, idx@, f as nat, a2) < #[trigger] value_at(r, idx@, f as nat, b2)
                        && t2 == value_at(r, idx@, f as nat, a2) + value_at(r, idx@, f as nat, b2) && forall|c: int|
                        0 <= c < idx@.len() ==> !(value_at(r, idx@, f as nat, a2) < #[trigger] value_at(r, idx@, f as nat, c) < value_at(r, idx@, f as nat, b2));
            }
        }
        f = f + 1;
    }
    best
}

/// Grows the subtree for the rows `idx`, which lie `depth` levels below the root.
fn build(rows: &Vec<Vec<i64>>, labels: &Vec<u8>, w: usize, idx: Vec<usize>, depth: usize, config: &TreeConfig) -> (node: Node)
    requires
        valid_data(rows_of(rows@), labels@),
        w == rows_of(rows@)[0].len(),
        rows@.len() <= MAX_TRAIN_ROWS,
        indices_below(idx@, rows@.len()),
        idx@.len() + depth <= rows@.len(),
    ensures
        fits(node, rows_of(rows@), labels@, idx@, w as nat),
        follows_rules(node, rows_of(rows@), labels@, idx@, w as nat, depth as nat, *config),
    decreases idx@.len(),
{
    let ghost r = rows_of(rows@);
    let (n0, n1) = count_labels(labels, &idx);
    let leaf = Node::Leaf { class: if n1 > n0 { 1 } else { 0 }, count0: n0, count1: n1 };
    let too_deep = match config.max_depth {
        Some(d) => depth >= d,
        None => false,
    };
    if n0 == 0 || n1 == 0 || (idx.len() as u128) < 2 * (config.min_samples_leaf as u128) || too_deep {
        return leaf;
    }
    assert forall|a: int| 0 <= a < idx@.len() implies (#[trigger] r[idx@[a] as int]).len() == w by {
        assert(all_width(r, r[0].len()));
    }
    match best_split(rows, labels, w, &idx) {
        None => leaf,
        Some((f, t, j, k, num, den)) => {
            let p0 = n0 as u128;
            let p1 = n1 as u128;
            let bound: u128 = 0x100_0000;
            assert(p0 * p0 <= bound * bound) by (nonlinear_arith)
                requires p0 <= bound;
            assert(p1 * p1 <= bound * bound) by (nonlinear_arith)
                requires p1 <= bound;
            let parent = p0 * p0 + p1 * p1;
            assert(parent * den <= 0x2_0000_0000_0000 * 0x4_0000_0000_0000) by (nonlinear_arith)
                requires parent <= 0x2_0000_0000_0000, den <= 0x4_0000_0000_0000;
            assert(num * (idx.len() as u128) <= 0x1_0000_0000_0000_0000_000 * 0x100_0000) by (nonlinear_arith)
                requires num <= 0x1_0000_0000_0000_0000_000, idx.len() <= 0x100_0000;
            if num * (idx.len() as u128) <= parent * den {
                proof {
                    assert(goes_left(r[idx@[j as int] as int], f as nat, t as int));
                    assert(!goes_left(r[idx@[k as int] as int], f as nat, t as int));
                    lemma_split_den_pos(r, labels@, idx@, f as nat, t as int, j as int, k as int);
                    assert forall|f2: nat, t2: int| f2 < w && #[trigger] is_candidate(r, idx@, f2, t2) implies !improves(r, labels@, idx@, f2, t2) by {
                        lemma_candidate_den_pos(r, labels@, idx@, f2, t2);
                        assert(at_least_as_good(r, labels@, idx@, f as nat, t as int, f2, t2));
                        lemma_no_improve(
                            num as int,
                            den as int,
                            split_num(r, labels@, idx@, f2, t2) as int,
                            split_den(r, labels@, idx@, f2, t2) as int,
                            idx@.len() as int,
                            parent as int,
                        );
                    }
                }
                return leaf;
            }
            proof {
                let va = value_at(r, idx@, f as nat, j as int);
                let vb = value_at(r, idx@, f as nat, k as int);
                assert(goes_left(r[idx@[j as int] as int], f as nat, t as int));
                assert(!goes_left(r[idx@[k as int] as int], f as nat, t as int));
                assert(is_candidate(r, idx@, f as nat, t as int));
                assert(improves(r, labels@, idx@, f as nat, t as int));
                assert(may_split(labels@, idx@, depth as nat, *config));
                assert forall|a: int| 0 <= a < idx@.len() implies f < (#[trigger] rows_of(rows@)[idx@[a] as int]).len() by {
                    assert(r[idx@[a] as int].len() == w);
                }
            }
            let (li, ri) = partition(rows, &idx, f, t, j, k);
            let left = build(rows, labels, w, li, depth + 1, config);
            let right = build(rows, labels, w, ri, depth + 1, config);
            Node::Internal { feature: f, threshold_twice: t, left: Box::new(left), right: Box::new(right) }
        },
    }
}

/// A fitted decision tree with the feature width it was trained on.
pub struct Model {
    root: Node,
    width: usize,
}

impl Model {
    pub closed spec fn root_view(&self) -> Node {
        self.root
    }

    pub closed spec fn width_view(&self) -> nat {
        self.width as nat
    }

    pub open spec fn wf(&self) -> bool {
        features_below(self.root_view(), self.width_view()) && classes_binary(self.root_view())
    }

    /// The root of the tree.
    pub fn root(&self) -> (r: &Node)
        ensures
            *r == self.root_view(),
    {
        &self.root
    }

    /// The feature width the model was trained on.
    pub fn trained_width(&self) -> (w: usize)
        ensures
            w == self.width_view(),
    {
        self.width
    }
}

/// Grows a decision tree from the whole of `ds`, splitting each node greedily
/// on the feature and midpoint threshold of least weighted Gini impurity.
pub fn fit(ds: &Dataset, config: &TreeConfig) -> (m: Model)
    requires
        ds.wf(),
        ds.rows_view().len() <= MAX_TRAIN_ROWS,
    ensures
        m.wf(),
        m.width_view() == ds.width_spec(),
        fits(m.root_view(), ds.rows_view(), ds.labels_view(), all_indices(ds.rows_view().len()), ds.width_spec()),
        follows_rules(m.root_view(), ds.rows_view(), ds.labels_view(), all_indices(ds.rows_view().len()), ds.width_spec(), 0, *config),
{
    let rows = ds.features();
    let labels = ds.labels();
    let w = ds.width();
    let n = rows.len();
    let mut idx: Vec<usize> = Vec::new();
    let mut i: usize = 0;
    while i < n
        invariant
            i <= n,
            idx@ == all_indices(i as nat),
        decreases n - i,
    {
        idx.push(i);
        i = i + 1;
        assert(idx@ =~= all_indices(i as nat));
    }
    let root = build(rows, labels, w, idx, 0, config);
    proof {
        lemma_fits_features_below(root, rows_of(rows@), labels@, all_indices(n as nat), w as nat);
    }
    Model { root, width: w }
}

fn classify_row(node: &Node, row: &Vec<i64>) -> (c: u8)
    requires
        features_below(*node, row@.len()),
    ensures
        c == classify(*node, row@),
    decreases node,
{
    match node {
        Node::Leaf { class, .. } => *class,
        Node::Internal { feature, threshold_twice, left, right } => {
            if 2 * (row[*feature] as i128) <= *threshold_twice {
                classify_row(left, row)
            } else {
                classify_row(right, row)
            }
        },
    }
}

/// Classifies each row of `x` by walking the tree from the root. Refuses a
/// matrix with a row whose width is not the model's.
pub fn predict(model: &Model, x: &Vec<Vec<i64>>) -> (r: Result<Vec<u8>, ClassifierError>)
    requires
        model.wf(),
    ensures
        r is Err <==> exists|i: int| 0 <= i < x@.len() && #[trigger] x@[i]@.len() != model.width_view(),
        r matches Err(e) ==> e == ClassifierError::DimensionMismatch,
        r matches Ok(p) ==> p@.len() == x@.len() && forall|i: int| 0 <= i < x@.len() ==> #[trigger] p@[i] == classify(model.root_view(), x@[i]@),
{
    let mut out: Vec<u8> = Vec::new();
    let mut i: usize = 0;
    while i < x.len()
        invariant
            i <= x@.len(),
            model.wf(),
            out@.len() == i,
            forall|a: int| 0 <= a < i ==> #[trigger] x@[a]@.len() == model.width_view(),
            forall|a: int| 0 <= a < i ==> #[trigger] out@[a] == classify(model.root_view(), x@[a]@),
        decreases x@.len() - i,
    {
        if x[i].len() != model.width {
            return Err(ClassifierError::DimensionMismatch);
        }
        let c = classify_row(&model.root, &x[i]);
        out.push(c);
        i = i + 1;
    }
    Ok(out)
}

/// Every leaf of a tree that `fit` grows records class counts that add up to
/// the number of training rows routed to it.
pub proof fn lemma_fit_leaf_counts(m: Model, ds: Dataset)
    requires
        ds.wf(),
        fits(m.root_view(), ds.rows_view(), ds.labels_view(), all_indices(ds.rows_view().len()), ds.width_spec()),
    ensures
        leaf_totals_match(m.root_view(), ds.rows_view(), all_indices(ds.rows_view().len())),
{
    lemma_leaf_totals(
        m.root_view(),
        ds.rows_view(),
        ds.labels_view(),
        all_indices(ds.rows_view().len()),
        ds.width_spec(),
    );
}

proof fn lemma_rules_determine_tree(n1: Node, n2: Node, rows: Seq<Seq<i64>>, labels: Seq<u8>, idx: Seq<usize>, w: nat, depth: nat, config: TreeConfig)
    requires
        labels_binary(labels),
        indices_below(idx, labels.len()),
        fits(n1, rows, labels, idx, w),
        fits(n2, rows, labels, idx, w),
        follows_rules(n1, rows, labels, idx, w, depth, config),
        follows_rules(n2, rows, labels, idx, w, depth, config),
    ensures
        n1 == n2,
    decreases n1,
{
    match (n1, n2) {
        (Node::Leaf { .. }, Node::Leaf { .. }) => {},
        (Node::Leaf { .. }, Node::Internal { feature, threshold_twice, .. }) => {
            assert(is_candidate(rows, idx, feature as nat, threshold_twice as int));
        },
        (Node::Internal { feature, threshold_twice, .. }, Node::Leaf { .. }) => {
            assert(is_candidate(rows, idx, feature as nat, threshold_twice as int));
        },
        (
            Node::Internal { feature: f1, threshold_twice: t1, left: l1, right: r1 },
            Node::Internal { feature: f2, threshold_twice: t2, left: l2, right: r2 },
        ) => {
            assert(is_candidate(rows, idx, f1 as nat, t1 as int));
            assert(is_candidate(rows, idx, f2 as nat, t2 as int));
            assert(at_least_as_good(rows, labels, idx, f1 as nat, t1 as int, f2 as nat, t2 as int));
            assert(at_least_as_good(rows, labels, idx, f2 as nat, t2 as int, f1 as nat, t1 as int));
            assert(f1 == f2 && t1 == t2);
            let f = f1 as nat;
            let t = t1 as int;
            lemma_select_below(rows, idx, f, t, true, labels.len());
            lemma_select_below(rows, idx, f, t, false, labels.len());
            lemma_rules_determine_tree(*l1, *l2, rows, labels, select(rows, idx, f, t, true), w, depth + 1, config);
            lemma_rules_determine_tree(*r1, *r2, rows, labels, select(rows, idx, f, t, false), w, depth + 1, config);
        },
    }
}

/// Fitting is deterministic: any two models with what `fit` ensures of the
/// same dataset and settings have identical trees and widths, and so classify
/// every row alike.
pub proof fn lemma_fit_deterministic(m1: Model, m2: Model, ds: Dataset, config: TreeConfig)
    requires
        ds.wf(),
        m1.width_view() == ds.width_spec(),
        m2.width_view() == ds.width_spec(),
        fits(m1.root_view(), ds.rows_view(), ds.labels_view(), all_indices(ds.rows_view().len()), ds.width_spec()),
        fits(m2.root_view(), ds.rows_view(), ds.labels_view(), all_indices(ds.rows_view().len()), ds.width_spec()),
        follows_rules(m1.root_view(), ds.rows_view(), ds.labels_view(), all_indices(ds.rows_view().len()), ds.width_spec(), 0, config),
        follows_rules(m2.root_view(), ds.rows_view(), ds.labels_view(), all_indices(ds.rows_view().len()), ds.width_spec(), 0, config),
    ensures
        m1.root_view() == m2.root_view(),
        m1.width_view() == m2.width_view(),
        forall|row: Seq<i64>| classify(m1.root_view(), row) == #[trigger] classify(m2.root_view(), row),
{
    lemma_rules_determine_tree(
        m1.root_view(),
        m2.root_view(),
        ds.rows_view(),
        ds.labels_view(),
        all_indices(ds.rows_view().len()),
        ds.width_spec(),
        0,
        config,
    );
}

} // verus!
