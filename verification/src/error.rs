//! The error taxonomy shared by every estimator.

use vstd::prelude::*;

verus! {

/// What can go wrong while fitting, predicting or decoding a model.
#[derive(Clone, Copy, Debug, PartialEq, Eq, Structural)]
pub enum ModelError {
    /// The feature matrix's sample count and the target length disagree.
    DimensionMismatch,
    /// No feature of the given sample subset admits a split: every candidate
    /// column is constant. Callers recover from this locally.
    DegenerateSplit,
    /// `predict` was called on a model with no fitted state.
    UnconfiguredModel,
    /// An intermediate value left the range a 64-bit tick can hold.
    NumericOverflow,
}

} // verus!
