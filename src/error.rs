use vstd::prelude::*;

verus! {

/// The ways in which an operation of the library refuses its input.
#[derive(Debug, Clone, Copy, PartialEq, Eq, Structural)]
pub enum ClassifierError {
    ShapeMismatch,
    EmptyDataset,
    EmptyComparison,
    InvalidLabelDomain,
    InvalidRatio,
    DimensionMismatch,
}

} // verus!
