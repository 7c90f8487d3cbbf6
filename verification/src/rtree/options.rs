//! Options for nearest neighbor searches.

use crate::num::IndexableNum;
use vstd::prelude::*;

verus! {

/// Options for nearest neighbor searches.
#[derive(Debug, Clone, Copy, PartialEq)]
pub struct NeighborsOptions<N: IndexableNum> {
    /// Maximum number of neighbors to return. None means unbounded.
    pub k: Option<usize>,
    /// Optional maximum distance threshold.
    pub max_distance: Option<N>,
    /// If true, include all items tied at rank k.
    pub include_tie_breakers: bool,
}

impl<N: IndexableNum> Default for NeighborsOptions<N> {
    fn default() -> (options: Self)
        ensures
            options == (NeighborsOptions {
                k: Some(1),
                max_distance: None::<N>,
                include_tie_breakers: false,
            }),
    {
        Self { k: Some(1), max_distance: None, include_tie_breakers: false }
    }
}

impl<N: IndexableNum> NeighborsOptions<N> {
    /// Create options for a single nearest neighbor.
    pub fn new() -> (options: Self)
        ensures
            options == (NeighborsOptions {
                k: Some(1),
                max_distance: None::<N>,
                include_tie_breakers: false,
            }),
    {
        Self::default()
    }

    /// Create options for k nearest neighbors.
    pub fn k(k: usize) -> (options: Self)
        ensures
            options == (NeighborsOptions {
                k: Some(k),
                max_distance: None::<N>,
                include_tie_breakers: false,
            }),
    {
        Self { k: Some(k), ..Self::default() }
    }

    /// Create options for an unbounded neighbor search.
    pub fn all() -> (options: Self)
        ensures
            options == (NeighborsOptions {
                k: None,
                max_distance: None::<N>,
                include_tie_breakers: false,
            }),
    {
        Self { k: None, ..Self::default() }
    }

    /// Set a maximum distance threshold.
    pub fn max_distance(self, max_distance: N) -> (options: Self)
        ensures
            options == (NeighborsOptions { max_distance: Some(max_distance), ..self }),
    {
        Self { max_distance: Some(max_distance), ..self }
    }

    /// Enable or disable tie breaker inclusion.
    pub fn include_tie_breakers(self, include_tie_breakers: bool) -> (options: Self)
        ensures
            options == (NeighborsOptions { include_tie_breakers, ..self }),
    {
        Self { include_tie_breakers, ..self }
    }
}

} // verus!
