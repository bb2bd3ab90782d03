//! What is wrong with a configuration that is refused.

use vstd::prelude::*;

verus! {

/// The reason why a configuration is refused before any computation starts.
#[derive(Clone, Copy, Debug, PartialEq, Eq, Structural)]
pub enum ConfigError {
    /// The width or the height of the grid is zero.
    EmptyGrid,
    /// A gradient stop lies outside the half-open interval from 0 to 1.
    StopOffsetOutOfRange,
    /// The offsets of the gradient stops do not strictly increase.
    StopsNotAscending,
    /// The smallest accepted escape time is not below the iteration budget.
    MinNotBelowMax,
    /// The grid is too large for an image.
    GridTooLarge,
}

} // verus!
