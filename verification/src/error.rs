//! The errors of the tree.

use vstd::prelude::*;

verus! {

/// What can go wrong with a request to the tree.
#[derive(Clone, Copy, Debug, PartialEq, Eq, Structural)]
pub enum TreeError {
    /// A row index or a key names nothing that is shown.
    Bounds,
    /// The children of a node could not be loaded.
    Expansion,
    /// The request would break what the tree keeps true of itself.
    InvariantViolation,
}

} // verus!
