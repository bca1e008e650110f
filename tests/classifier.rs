use exoplanet_classifier::dataset::Dataset;
use exoplanet_classifier::error::ClassifierError;
use exoplanet_classifier::metrics::{confusion_matrix, ConfusionMatrix, Ratio};
use exoplanet_classifier::report::train_and_evaluate;
use exoplanet_classifier::tree::{fit, predict, Model, Node, TreeConfig};

fn column(xs: &[i64]) -> Vec<Vec<i64>> {
    xs.iter().map(|&x| vec![x]).collect()
}

fn scenario_a() -> Dataset {
    Dataset::new(
        column(&[1, 2, 3, 4, 5, 6, 7, 8, 9, 10]),
        vec![0, 0, 0, 0, 0, 1, 1, 1, 1, 1],
    )
    .unwrap()
}

fn same_tree(a: &Node, b: &Node) -> bool {
    match (a, b) {
        (
            Node::Leaf { class: c1, count0: a0, count1: a1 },
            Node::Leaf { class: c2, count0: b0, count1: b1 },
        ) => c1 == c2 && a0 == b0 && a1 == b1,
        (
            Node::Internal { feature: f1, threshold_twice: t1, left: l1, right: r1 },
            Node::Internal { feature: f2, threshold_twice: t2, left: l2, right: r2 },
        ) => f1 == f2 && t1 == t2 && same_tree(l1, l2) && same_tree(r1, r2),
        _ => false,
    }
}

/// Sums the class counts of the leaves and checks each one against the rows that reach it.
fn leaf_counts_match(node: &Node, rows: &[Vec<i64>], labels: &[u8]) -> bool {
    match node {
        Node::Leaf { class, count0, count1 } => {
            let n0 = labels.iter().filter(|&&l| l == 0).count();
            let n1 = labels.iter().filter(|&&l| l == 1).count();
            *count0 == n0 && *count1 == n1 && count0 + count1 == rows.len()
                && *class == if n1 > n0 { 1 } else { 0 }
        }
        Node::Internal { feature, threshold_twice, left, right } => {
            let mut lr = Vec::new();
            let mut ll = Vec::new();
            let mut rr = Vec::new();
            let mut rl = Vec::new();
            for (row, &l) in rows.iter().zip(labels) {
                if 2 * (row[*feature] as i128) <= *threshold_twice {
                    lr.push(row.clone());
                    ll.push(l);
                } else {
                    rr.push(row.clone());
                    rl.push(l);
                }
            }
            leaf_counts_match(left, &lr, &ll) && leaf_counts_match(right, &rr, &rl)
        }
    }
}

#[test]
fn scenario_a_splits_at_midpoint() {
    let ds = scenario_a();
    let model: Model = fit(&ds, &TreeConfig::new());
    match model.root() {
        Node::Internal { feature, threshold_twice, left, right } => {
            assert_eq!(*feature, 0);
            assert_eq!(*threshold_twice, 11);
            assert!(matches!(**left, Node::Leaf { class: 0, count0: 5, count1: 0 }));
            assert!(matches!(**right, Node::Leaf { class: 1, count0: 0, count1: 5 }));
        }
        Node::Leaf { .. } => panic!("expected a split"),
    }
    let preds = predict(&model, ds.features()).unwrap();
    assert_eq!(&preds, ds.labels());
    let cm = confusion_matrix(&preds, ds.labels()).unwrap();
    assert_eq!(cm.accuracy(), Ok(Ratio { num: 10, den: 10 }));
}

#[test]
fn scenario_b_confusion_and_metrics() {
    let cm = confusion_matrix(&vec![1, 0, 1, 1], &vec![1, 0, 0, 1]).unwrap();
    assert_eq!(cm, ConfusionMatrix { true_pos: 2, false_pos: 1, true_neg: 1, false_neg: 0 });
    assert_eq!(cm.accuracy(), Ok(Ratio { num: 3, den: 4 }));
    assert_eq!(cm.precision(), Ratio { num: 2, den: 3 });
    assert_eq!(cm.recall(), Ratio { num: 2, den: 2 });
    let f1 = cm.f1_score();
    assert_eq!(f1, Ratio { num: 4, den: 5 });
    assert!(((f1.num as f64) / (f1.den as f64) - 0.8).abs() < 1e-12);
}

#[test]
fn scenario_c_length_mismatch() {
    assert_eq!(
        confusion_matrix(&vec![1, 0, 1], &vec![1, 0, 0, 1]),
        Err(ClassifierError::ShapeMismatch)
    );
}

#[test]
fn scenario_d_label_out_of_domain() {
    let r = Dataset::new(column(&[1, 2, 3]), vec![0, 2, 1]);
    assert_eq!(r.err(), Some(ClassifierError::InvalidLabelDomain));
}

#[test]
fn scenario_e_width_mismatch() {
    let rows: Vec<Vec<i64>> = (0..4).map(|i| (0..9).map(|j| i * 10 + j).collect()).collect();
    let ds = Dataset::new(rows, vec![0, 1, 0, 1]).unwrap();
    let model = fit(&ds, &TreeConfig::new());
    assert_eq!(model.trained_width(), 9);
    let narrow = vec![vec![1, 2, 3, 4, 5]];
    assert_eq!(predict(&model, &narrow), Err(ClassifierError::DimensionMismatch));
}

#[test]
fn dataset_refuses_bad_shapes() {
    assert_eq!(Dataset::new(column(&[1, 2]), vec![0]).err(), Some(ClassifierError::ShapeMismatch));
    assert_eq!(Dataset::new(vec![], vec![]).err(), Some(ClassifierError::EmptyDataset));
    assert_eq!(
        Dataset::new(vec![vec![1, 2], vec![3]], vec![0, 1]).err(),
        Some(ClassifierError::ShapeMismatch)
    );
    assert_eq!(Dataset::new(vec![vec![], vec![]], vec![0, 1]).err(), Some(ClassifierError::ShapeMismatch));
    let ds = Dataset::new(vec![vec![1, 2], vec![3, 4]], vec![1, 0]).unwrap();
    assert_eq!(ds.rows(), 2);
    assert_eq!(ds.width(), 2);
}

#[test]
fn split_keeps_order_and_counts() {
    let ds = scenario_a();
    let (train, test) = ds.split_with_ratio(4, 5).unwrap();
    assert_eq!(train.rows(), 8);
    assert_eq!(test.rows(), 2);
    assert_eq!(train.features(), &column(&[1, 2, 3, 4, 5, 6, 7, 8]));
    assert_eq!(test.features(), &column(&[9, 10]));
    assert_eq!(test.labels(), &vec![1, 1]);
    let mut all = train.features().clone();
    all.extend(test.features().iter().cloned());
    assert_eq!(&all, ds.features());
    let (t3, s3) = ds.split_with_ratio(1, 3).unwrap();
    assert_eq!((t3.rows(), s3.rows()), (3, 7));
}

#[test]
fn split_refuses_bad_ratios() {
    let ds = scenario_a();
    for (num, den) in [(0, 5), (5, 5), (6, 5), (1, 0), (1, 20)] {
        assert_eq!(ds.split_with_ratio(num, den).err(), Some(ClassifierError::InvalidRatio));
    }
    let tiny = Dataset::new(column(&[1]), vec![0]).unwrap();
    assert_eq!(tiny.split_with_ratio(1, 2).err(), Some(ClassifierError::InvalidRatio));
}

#[test]
fn confusion_totals_and_unit_range() {
    let p = vec![1, 1, 0, 0, 1, 0, 1];
    let l = vec![0, 1, 1, 0, 1, 0, 0];
    let cm = confusion_matrix(&p, &l).unwrap();
    assert_eq!(cm.true_pos + cm.false_pos + cm.true_neg + cm.false_neg, p.len());
    for r in [cm.accuracy().unwrap(), cm.precision(), cm.recall(), cm.f1_score()] {
        assert!(r.den > 0 && r.num <= r.den);
    }
}

#[test]
fn metrics_zero_conventions() {
    let cm = confusion_matrix(&vec![0, 0], &vec![0, 0]).unwrap();
    assert_eq!(cm.precision(), Ratio { num: 0, den: 1 });
    assert_eq!(cm.recall(), Ratio { num: 0, den: 1 });
    assert_eq!(cm.f1_score(), Ratio { num: 0, den: 1 });
    let none = confusion_matrix(&vec![], &vec![]).unwrap();
    assert_eq!(none.accuracy(), Err(ClassifierError::EmptyComparison));
    assert_eq!(
        confusion_matrix(&vec![3], &vec![1]),
        Err(ClassifierError::InvalidLabelDomain)
    );
}

#[test]
fn fit_leaf_counts_match_routed_rows() {
    let rows = vec![
        vec![3, 7],
        vec![1, 2],
        vec![4, 4],
        vec![1, 9],
        vec![5, 1],
        vec![2, 2],
        vec![6, 8],
    ];
    let labels = vec![1, 0, 1, 1, 0, 0, 1];
    let ds = Dataset::new(rows.clone(), labels.clone()).unwrap();
    let model = fit(&ds, &TreeConfig::new());
    assert!(leaf_counts_match(model.root(), &rows, &labels));
}

#[test]
fn fit_is_deterministic() {
    let rows = vec![vec![5, 1], vec![2, 8], vec![7, 7], vec![1, 1], vec![9, 3], vec![4, 6]];
    let labels = vec![1, 0, 1, 0, 1, 0];
    let a = fit(&Dataset::new(rows.clone(), labels.clone()).unwrap(), &TreeConfig::new());
    let b = fit(&Dataset::new(rows.clone(), labels.clone()).unwrap(), &TreeConfig::new());
    assert!(same_tree(a.root(), b.root()));
    assert_eq!(predict(&a, &rows), predict(&b, &rows));
}

#[test]
fn depth_bound_and_ties_give_leaf() {
    let ds = Dataset::new(column(&[1, 2, 3, 4]), vec![1, 0, 0, 1]).unwrap();
    let stump = fit(&ds, &TreeConfig { max_depth: Some(0), min_samples_leaf: 1 });
    assert!(matches!(stump.root(), Node::Leaf { class: 0, count0: 2, count1: 2 }));
    let big_leaf = fit(&ds, &TreeConfig { max_depth: None, min_samples_leaf: 3 });
    assert!(matches!(big_leaf.root(), Node::Leaf { class: 0, .. }));
    let pure = Dataset::new(column(&[1, 2, 3]), vec![1, 1, 1]).unwrap();
    let m = fit(&pure, &TreeConfig::new());
    assert!(matches!(m.root(), Node::Leaf { class: 1, count0: 0, count1: 3 }));
}

#[test]
fn split_tie_goes_to_lower_feature() {
    let rows = vec![vec![1, 10], vec![2, 20], vec![3, 30], vec![4, 40]];
    let ds = Dataset::new(rows, vec![0, 0, 1, 1]).unwrap();
    let model = fit(&ds, &TreeConfig::new());
    match model.root() {
        Node::Internal { feature, threshold_twice, .. } => {
            assert_eq!(*feature, 0);
            assert_eq!(*threshold_twice, 5);
        }
        Node::Leaf { .. } => panic!("expected a split"),
    }
}

#[test]
fn test_model_pipeline() {
    let features: Vec<Vec<i64>> = (0..20).map(|i| vec![i, (i * 7) % 5, 20 - i]).collect();
    let labels: Vec<u8> = (0..20).map(|i| if i % 3 == 0 || i > 12 { 1 } else { 0 }).collect();
    let report = train_and_evaluate(features.clone(), labels).unwrap();
    let acc = report.accuracy;
    assert!(acc.num <= acc.den, "Accuracy should be between 0 and 1");
    assert_eq!(report.test_features, features[16..].to_vec());
    let ones: Vec<Vec<i64>> = vec![vec![3, 1, 17], vec![14, 3, 6], vec![8, 1, 12]];
    let predictions = predict(&report.model, &ones).unwrap();
    assert!(!predictions.is_empty(), "Should produce predictions");
    for pred in predictions {
        assert!(pred == 0 || pred == 1, "Predictions should be binary (0 or 1)");
    }
}

#[test]
fn pipeline_refuses_single_row() {
    assert_eq!(
        train_and_evaluate(column(&[1]), vec![0]).err(),
        Some(ClassifierError::InvalidRatio)
    );
    assert_eq!(
        train_and_evaluate(column(&[1, 2]), vec![0, 7]).err(),
        Some(ClassifierError::InvalidLabelDomain)
    );
}

#[test]
fn no_candidate_split_gives_leaf() {
    let ds = Dataset::new(column(&[4, 4, 4]), vec![0, 1, 1]).unwrap();
    let model = fit(&ds, &TreeConfig::new());
    assert!(matches!(model.root(), Node::Leaf { class: 1, count0: 1, count1: 2 }));
    let tie = Dataset::new(column(&[7, 7]), vec![1, 0]).unwrap();
    let m = fit(&tie, &TreeConfig::new());
    assert!(matches!(m.root(), Node::Leaf { class: 0, count0: 1, count1: 1 }));
}
