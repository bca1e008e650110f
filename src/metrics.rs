use vstd::prelude::*;
use crate::dataset::labels_binary;
use crate::error::ClassifierError;

verus! {

/// Number of positions below `i` where the prediction is `pv` and the label is `lv`.
pub open spec fn count_pair(p: Seq<u8>, l: Seq<u8>, pv: u8, lv: u8, i: int) -> nat
    decreases i,
{
    if i <= 0 {
        0
    } else {
        count_pair(p, l, pv, lv, i - 1) + (if p[i - 1] == pv && l[i - 1] == lv {
            1nat
        } else {
            0nat
        })
    }
}

/// Counts of agreement between predictions and true labels.
#[derive(Debug, Clone, Copy, PartialEq, Eq, Structural)]
pub struct ConfusionMatrix {
    pub true_pos: usize,
    pub false_pos: usize,
    pub true_neg: usize,
    pub false_neg: usize,
}

/// An exact non-negative fraction `num / den`.
#[derive(Debug, Clone, Copy, PartialEq, Eq, Structural)]
pub struct Ratio {
    pub num: u128,
    pub den: u128,
}

/// The confusion matrix of predictions `p` against labels `l`.
pub open spec fn confusion_of(p: Seq<u8>, l: Seq<u8>) -> ConfusionMatrix {
    ConfusionMatrix {
        true_pos: count_pair(p, l, 1, 1, p.len() as int) as usize,
        false_pos: count_pair(p, l, 1, 0, p.len() as int) as usize,
        true_neg: count_pair(p, l, 0, 0, p.len() as int) as usize,
        false_neg: count_pair(p, l, 0, 1, p.len() as int) as usize,
    }
}

/// Number of compared rows.
pub open spec fn total_of(cm: ConfusionMatrix) -> nat {
    (cm.true_pos + cm.false_pos + cm.true_neg + cm.false_neg) as nat
}

pub open spec fn accuracy_num(cm: ConfusionMatrix) -> nat {
    (cm.true_pos + cm.true_neg) as nat
}

pub open spec fn precision_num(cm: ConfusionMatrix) -> nat {
    cm.true_pos as nat
}

/// Denominator of precision; 1 where no positive was predicted, making precision 0.
pub open spec fn precision_den(cm: ConfusionMatrix) -> nat {
    if cm.true_pos + cm.false_pos == 0 {
        1
    } else {
        (cm.true_pos + cm.false_pos) as nat
    }
}

pub open spec fn recall_num(cm: ConfusionMatrix) -> nat {
    cm.true_pos as nat
}

/// Denominator of recall; 1 where no label is positive, making recall 0.
pub open spec fn recall_den(cm: ConfusionMatrix) -> nat {
    if cm.true_pos + cm.false_neg == 0 {
        1
    } else {
        (cm.true_pos + cm.false_neg) as nat
    }
}

/// Numerator of F1, the harmonic mean of precision and recall.
pub open spec fn f1_num(cm: ConfusionMatrix) -> nat {
    (2 * cm.true_pos) as nat
}

/// Denominator of F1; 1 where there is no true positive, making F1 0.
pub open spec fn f1_den(cm: ConfusionMatrix) -> nat {
    if cm.true_pos == 0 {
        1
    } else {
        (2 * cm.true_pos + cm.false_pos + cm.false_neg) as nat
    }
}

proof fn lemma_count_pair_bound(p: Seq<u8>, l: Seq<u8>, i: int)
    requires
        0 <= i <= p.len(),
        p.len() == l.len(),
        labels_binary(p),
        labels_binary(l),
    ensures
        count_pair(p, l, 1, 1, i) + count_pair(p, l, 1, 0, i) + count_pair(p, l, 0, 0, i)
            + count_pair(p, l, 0, 1, i) == i,
    decreases i,
{
    if i > 0 {
        lemma_count_pair_bound(p, l, i - 1);
        assert(p[i - 1] == 0 || p[i - 1] == 1);
        assert(l[i - 1] == 0 || l[i - 1] == 1);
    }
}

/// Compares predictions with true labels. Refuses lengths that differ, and
/// values outside {0, 1} in either sequence.
pub fn confusion_matrix(predictions: &Vec<u8>, labels: &Vec<u8>) -> (r: Result<ConfusionMatrix, ClassifierError>)
    ensures
        predictions@.len() != labels@.len() ==> r == Err::<ConfusionMatrix, ClassifierError>(
            ClassifierError::ShapeMismatch,
        ),
        predictions@.len() == labels@.len() && !(labels_binary(predictions@) && labels_binary(
            labels@,
        )) ==> r == Err::<ConfusionMatrix, ClassifierError>(ClassifierError::InvalidLabelDomain),
        predictions@.len() == labels@.len() && labels_binary(predictions@) && labels_binary(labels@)
            ==> r == Ok::<ConfusionMatrix, ClassifierError>(confusion_of(predictions@, labels@)),
{
    if predictions.len() != labels.len() {
        return Err(ClassifierError::ShapeMismatch);
    }
    let ghost p = predictions@;
    let ghost l = labels@;
    let mut tp: usize = 0;
    let mut fp: usize = 0;
    let mut tn: usize = 0;
    let mut fneg: usize = 0;
    let mut i: usize = 0;
    while i < predictions.len()
        invariant
            i <= p.len(),
            p == predictions@,
            l == labels@,
            p.len() == l.len(),
            labels_binary(p.take(i as int)),
            labels_binary(l.take(i as int)),
            tp == count_pair(p, l, 1, 1, i as int),
            fp == count_pair(p, l, 1, 0, i as int),
            tn == count_pair(p, l, 0, 0, i as int),
            fneg == count_pair(p, l, 0, 1, i as int),
        decreases p.len() - i,
    {
        let a = predictions[i];
        let b = labels[i];
        if (a != 0 && a != 1) || (b != 0 && b != 1) {
            assert(!labels_binary(p) || !labels_binary(l));
            return Err(ClassifierError::InvalidLabelDomain);
        }
        proof {
            lemma_count_pair_bound(p.take(i as int), l.take(i as int), i as int);
            lemma_count_prefix(p, l, i as int);
        }
        if a == 1 && b == 1 {
            tp = tp + 1;
        } else if a == 1 {
            fp = fp + 1;
        } else if b == 0 {
            tn = tn + 1;
        } else {
            fneg = fneg + 1;
        }
        i = i + 1;
        assert(labels_binary(p.take(i as int)));
        assert(labels_binary(l.take(i as int)));
    }
    assert(p.take(i as int) =~= p);
    assert(l.take(i as int) =~= l);
    Ok(ConfusionMatrix { true_pos: tp, false_pos: fp, true_neg: tn, false_neg: fneg })
}

proof fn lemma_count_prefix(p: Seq<u8>, l: Seq<u8>, i: int)
    requires
        0 <= i <= p.len(),
        p.len() == l.len(),
    ensures
        forall|pv: u8, lv: u8| count_pair(p.take(i), l.take(i), pv, lv, i) == #[trigger] count_pair(
            p,
            l,
            pv,
            lv,
            i,
        ),
    decreases i,
{
    if i > 0 {
        lemma_count_prefix(p, l, i - 1);
        assert forall|pv: u8, lv: u8| count_pair(p.take(i), l.take(i), pv, lv, i) == #[trigger] count_pair(
            p,
            l,
            pv,
            lv,
            i,
        ) by {
            lemma_count_take_stable(p, l, i, i - 1, pv, lv);
            lemma_count_prefix_one(p, l, i - 1, pv, lv);
        }
    }
}

proof fn lemma_count_prefix_one(p: Seq<u8>, l: Seq<u8>, i: int, pv: u8, lv: u8)
    requires
        0 <= i <= p.len(),
        p.len() == l.len(),
        forall|pv: u8, lv: u8| count_pair(p.take(i), l.take(i), pv, lv, i) == #[trigger] count_pair(
            p,
            l,
            pv,
            lv,
            i,
        ),
    ensures
        count_pair(p.take(i), l.take(i), pv, lv, i) == count_pair(p, l, pv, lv, i),
{
}

/// Counting below `j` looks only at the first `j` positions, so a longer prefix gives the same count.
proof fn lemma_count_take_stable(p: Seq<u8>, l: Seq<u8>, k: int, j: int, pv: u8, lv: u8)
    requires
        0 <= j <= k <= p.len(),
        p.len() == l.len(),
    ensures
        count_pair(p.take(k), l.take(k), pv, lv, j) == count_pair(p, l, pv, lv, j),
    decreases j,
{
    if j > 0 {
        lemma_count_take_stable(p, l, k, j - 1, pv, lv);
    }
}

impl ConfusionMatrix {
    /// Fraction of compared rows predicted correctly; refused when nothing was compared.
    pub fn accuracy(&self) -> (r: Result<Ratio, ClassifierError>)
        ensures
            total_of(*self) == 0 ==> r == Err::<Ratio, ClassifierError>(
                ClassifierError::EmptyComparison,
            ),
            total_of(*self) > 0 ==> (r matches Ok(q) && q.num == accuracy_num(*self) && q.den
                == total_of(*self)),
    {
        let total: u128 = self.true_pos as u128 + self.false_pos as u128 + self.true_neg as u128
            + self.false_neg as u128;
        if total == 0 {
            return Err(ClassifierError::EmptyComparison);
        }
        Ok(Ratio { num: self.true_pos as u128 + self.true_neg as u128, den: total })
    }

    /// TP / (TP + FP), and 0 where no positive was predicted.
    pub fn precision(&self) -> (r: Ratio)
        ensures
            r.num == precision_num(*self),
            r.den == precision_den(*self),
    {
        let d: u128 = self.true_pos as u128 + self.false_pos as u128;
        if d == 0 {
            Ratio { num: 0, den: 1 }
        } else {
            Ratio { num: self.true_pos as u128, den: d }
        }
    }

    /// TP / (TP + FN), and 0 where no label is positive.
    pub fn recall(&self) -> (r: Ratio)
        ensures
            r.num == recall_num(*self),
            r.den == recall_den(*self),
    {
        let d: u128 = self.true_pos as u128 + self.false_neg as u128;
        if d == 0 {
            Ratio { num: 0, den: 1 }
        } else {
            Ratio { num: self.true_pos as u128, den: d }
        }
    }

    /// 2 * precision * recall / (precision + recall), and 0 where both are 0.
    pub fn f1_score(&self) -> (r: Ratio)
        ensures
            r.num == f1_num(*self),
            r.den == f1_den(*self),
            self.true_pos > 0 ==> r.num * (precision_num(*self) * recall_den(*self) + recall_num(
                *self,
            ) * precision_den(*self)) == r.den * 2 * precision_num(*self) * recall_num(*self),
    {
        let tp = self.true_pos as u128;
        let r = if tp == 0 {
            Ratio { num: 0, den: 1 }
        } else {
            Ratio { num: 2 * tp, den: 2 * tp + self.false_pos as u128 + self.false_neg as u128 }
        };
        proof {
            let t = self.true_pos as int;
            let a = self.false_pos as int;
            let b = self.false_neg as int;
            if t > 0 {
                assert((2 * t) * (t * (t + b) + t * (t + a)) == (2 * t + a + b) * 2 * t * t)
                    by (nonlinear_arith);
            }
        }
        r
    }
}

/// Every compared row falls in exactly one cell of the confusion matrix, and
/// accuracy, precision, recall and F1 all lie in [0, 1].
pub proof fn lemma_confusion_totals(p: Seq<u8>, l: Seq<u8>)
    requires
        p.len() == l.len(),
        labels_binary(p),
        labels_binary(l),
        p.len() <= usize::MAX,
    ensures
        total_of(confusion_of(p, l)) == p.len(),
        accuracy_num(confusion_of(p, l)) <= total_of(confusion_of(p, l)),
        precision_num(confusion_of(p, l)) <= precision_den(confusion_of(p, l)),
        recall_num(confusion_of(p, l)) <= recall_den(confusion_of(p, l)),
        f1_num(confusion_of(p, l)) <= f1_den(confusion_of(p, l)),
        precision_den(confusion_of(p, l)) > 0 && recall_den(confusion_of(p, l)) > 0 && f1_den(
            confusion_of(p, l),
        ) > 0,
{
    lemma_count_pair_bound(p, l, p.len() as int);
}

} // verus!
