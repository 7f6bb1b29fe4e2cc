//! Tree-based regression estimators over integer-valued samples: randomized
//! split rules, arena-indexed decision trees, gradient boosting, averaging
//! ensembles and a layered deep-boosting meta-estimator, together with a
//! k-fold cross-validation scorer.
//!
//! All values are plain `i64` ticks; a host layer decides what one tick is
//! worth. Means and shrinkage factors use truncating integer division, so
//! every prediction is an exact, reproducible function of the fitted state.

use vstd::prelude::*;

pub mod array;
pub mod boosting;
pub mod codec;
pub mod deep_boosting;
pub mod ensemble;
pub mod error;
pub mod estimator;
pub mod numerics;
pub mod random;
pub mod rule;
pub mod serialization;
pub mod tree;

verus! {

/// Largest magnitude accepted for an input value (feature or target tick).
pub const VALUE_BOUND: i64 = 0x100_0000_0000;

/// Largest magnitude an internal training residual may reach.
pub const RESIDUAL_BOUND: i64 = 0x1000_0000_0000;

/// Largest number of samples a fit or predict call accepts.
pub const SAMPLES_BOUND: u64 = 0x1_0000_0000;

} // verus!
