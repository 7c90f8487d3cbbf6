//! Errors.

use vstd::prelude::*;

verus! {

/// What can go wrong with a tree.
#[derive(Debug, Clone, PartialEq, Eq)]
pub enum GeoIndexError {
    /// An error with a message.
    General(String),
}

impl GeoIndexError {
    /// The message of the error.
    pub open spec fn message(self) -> Seq<char> {
        match self {
            GeoIndexError::General(message) => message@,
        }
    }
}

} // verus!
