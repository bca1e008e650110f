// A binary decision-tree classifier: datasets with ordered train/test
// splits, Gini-based tree induction, prediction, and confusion-matrix metrics.
// Feature values are integers; callers holding real numbers store them in
// fixed point, which keeps every comparison exact.
pub mod dataset;
pub mod error;
pub mod metrics;
pub mod report;
pub mod tree;
