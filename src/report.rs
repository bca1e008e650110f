use vstd::prelude::*;
use crate::dataset::{Dataset, new_outcome, ratio_refused, rows_of, train_count};
use crate::error::ClassifierError;
use crate::metrics::{
    ConfusionMatrix, Ratio, accuracy_num, confusion_of, confusion_matrix, f1_den, f1_num, total_of,
};
use crate::metrics::lemma_confusion_totals;
use crate::tree::{
    MAX_TRAIN_ROWS, Model, TreeConfig, all_indices, classify, fit, fits, follows_rules, lemma_classify_binary,
    predict,
};

verus! {

/// Share of the rows that `train_and_evaluate` trains on: four fifths.
pub const TRAIN_NUM: u64 = 4;

pub const TRAIN_DEN: u64 = 5;

/// A model with its evaluation on the held-out rows.
pub struct ModelReport {
    pub model: Model,
    pub predictions: Vec<u8>,
    pub test_features: Vec<Vec<i64>>,
    pub test_labels: Vec<u8>,
    pub accuracy: Ratio,
    pub f1_score: Ratio,
}

/// What `train_and_evaluate` reports on valid input whose split is accepted.
pub open spec fn report_holds(rep: ModelReport, f: Seq<Seq<i64>>, l: Seq<u8>) -> bool {
    let n = f.len();
    let k = train_count(TRAIN_NUM as nat, TRAIN_DEN as nat, n) as int;
    let cm = confusion_of(rep.predictions@, rep.test_labels@);
    &&& rep.model.wf()
    &&& rep.model.width_view() == f[0].len()
    &&& fits(rep.model.root_view(), f.take(k), l.take(k), all_indices(k as nat), f[0].len())
    &&& follows_rules(
        rep.model.root_view(),
        f.take(k),
        l.take(k),
        all_indices(k as nat),
        f[0].len(),
        0,
        TreeConfig { max_depth: None, min_samples_leaf: 1 },
    )
    &&& rows_of(rep.test_features@) == f.skip(k)
    &&& rep.test_labels@ == l.skip(k)
    &&& rep.predictions@.len() == n - k
    &&& forall|i: int| 0 <= i < n - k ==> #[trigger] rep.predictions@[i] == classify(rep.model.root_view(), f[k + i])
    &&& rep.accuracy.num == accuracy_num(cm)
    &&& rep.accuracy.den == total_of(cm)
    &&& rep.f1_score.num == f1_num(cm)
    &&& rep.f1_score.den == f1_den(cm)
}

/// Builds a dataset from `features` and `labels`, trains a tree with the
/// default settings on the first four fifths of the rows, and evaluates it on
/// the rest.
pub fn train_and_evaluate(features: Vec<Vec<i64>>, labels: Vec<u8>) -> (r: Result<ModelReport, ClassifierError>)
    requires
        features@.len() <= MAX_TRAIN_ROWS,
    ensures
        new_outcome(rows_of(features@), labels@) matches Some(e) ==> r == Err::<ModelReport, ClassifierError>(e),
        new_outcome(rows_of(features@), labels@) is None && ratio_refused(TRAIN_NUM as nat, TRAIN_DEN as nat, features@.len())
            ==> r == Err::<ModelReport, ClassifierError>(ClassifierError::InvalidRatio),
        new_outcome(rows_of(features@), labels@) is None && !ratio_refused(TRAIN_NUM as nat, TRAIN_DEN as nat, features@.len())
            ==> (r matches Ok(rep) && report_holds(rep, rows_of(features@), labels@)),
{
    let ghost f = rows_of(features@);
    let ghost l = labels@;
    let ds = match Dataset::new(features, labels) {
        Ok(d) => d,
        Err(e) => return Err(e),
    };
    let (train, test) = match ds.split_with_ratio(TRAIN_NUM, TRAIN_DEN) {
        Ok(p) => p,
        Err(e) => return Err(e),
    };
    let ghost k = train_count(TRAIN_NUM as nat, TRAIN_DEN as nat, f.len()) as int;
    assert(train.rows_view()[0] == f[0]);
    let model = fit(&train, &TreeConfig::new());
    let (test_features, test_labels) = test.into_parts();
    let ghost tr = rows_of(test_features@);
    assert forall|i: int| 0 <= i < test_features@.len() implies #[trigger] test_features@[i]@.len() == model.width_view() by {
        assert(tr[i] == f[k + i]);
        assert(f[k + i].len() == f[0].len());
    }
    let predictions = match predict(&model, &test_features) {
        Ok(p) => p,
        Err(e) => return Err(e),
    };
    assert forall|i: int| 0 <= i < f.len() - k implies #[trigger] predictions@[i] == classify(model.root_view(), f[k + i]) by {
        assert(tr[i] == test_features@[i]@);
        assert(tr[i] == f[k + i]);
    }
    proof {
        assert forall|i: int| 0 <= i < predictions@.len() implies (#[trigger] predictions@[i] == 0 || predictions@[i] == 1) by {
            lemma_classify_binary(model.root_view(), test_features@[i]@);
        }
        assert forall|i: int| 0 <= i < test_labels@.len() implies (#[trigger] test_labels@[i] == 0 || test_labels@[i] == 1) by {
            assert(test_labels@[i] == l[k + i]);
        }
    }
    proof {
        lemma_confusion_totals(predictions@, test_labels@);
    }
    let cm: ConfusionMatrix = match confusion_matrix(&predictions, &test_labels) {
        Ok(c) => c,
        Err(e) => return Err(e),
    };
    let accuracy = match cm.accuracy() {
        Ok(a) => a,
        Err(e) => return Err(e),
    };
    let f1_score = cm.f1_score();
    Ok(ModelReport { model, predictions, test_features, test_labels, accuracy, f1_score })
}

} // verus!
