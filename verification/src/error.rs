//! The errors that the index reports at its boundary.

use vstd::prelude::*;

verus! {

/// Why an operation on the index was refused.
#[derive(Debug, Clone, Copy, PartialEq, Eq, Structural)]
pub enum AnnoyError {
    /// The dimension is zero or larger than a bit index can name.
    InvalidDimension,
    /// The item id is negative or too large to count.
    InvalidId,
    /// A vector's length is not the index's dimension.
    ShapeMismatch,
    /// A component of a vector is larger than the metric's arithmetic can hold.
    OutOfRange,
    /// The forest is already built, so items and trees can no longer be added.
    AlreadyBuilt,
    /// The forest is not built yet, so there is nothing to search.
    NotBuilt,
    /// No item was ever added.
    EmptyIndex,
    /// The number of trees is below -1.
    InvalidTreeCount,
    /// The search budget is below -1.
    InvalidSearchBudget,
    /// No vector is registered under the item id.
    UnknownItem,
    /// The arena has no ids left for another tree.
    CapacityExceeded,
    /// The records do not describe a forest.
    Malformed,
    /// Two indexes that are to be joined do not hold the same items.
    Mismatch,
}

} // verus!
