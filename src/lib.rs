//! Training and evaluation of single binary decision trees over columnar data
//! with a boolean target. Feature values are ordered integer keys, missing
//! where absent; scores and predictions are exact rationals.
use vstd::prelude::*;

pub mod laws;
pub mod loss_fn;
pub mod ratio;
pub mod split;
pub mod split_values;
pub mod tree;

pub use loss_fn::{Gini, Logit, ScoringFunction, MAX_ROWS};
pub use ratio::Ratio;
pub use split::{BestSplitNotFound, Candidate, DataSet, DataSetRowsError, Feature, Target};
pub use split_values::{NullDirection, SplitInfo, SplitScore};
pub use tree::{DivergencePolicy, Tree, TreeConfig, TreeError};

verus! {

} // verus!
