//! The failures that the library reports to its callers.

use vstd::prelude::*;

verus! {

/// Why a call could not do its work.
#[derive(Debug, Clone, Copy, PartialEq, Eq, Structural)]
pub enum ForestError {
    /// The data or the hyperparameters do not describe a usable problem.
    InvalidInput,
    /// A prediction was asked of a model that holds no trained tree.
    UntrainedModel,
}

impl ForestError {
    /// A short description for messages.
    pub fn message(&self) -> (s: &'static str)
        ensures
            (*self == ForestError::InvalidInput) ==> s@ == "invalid input"@,
            (*self == ForestError::UntrainedModel) ==> s@ == "untrained model"@,
    {
        match self {
            ForestError::InvalidInput => "invalid input",
            ForestError::UntrainedModel => "untrained model",
        }
    }
}

} // verus!
