//! The ways in which building or querying a tree can fail.
use vstd::prelude::*;

verus! {

/// Why a tree could not be built, queried or inspected.
#[derive(Debug, Clone, Copy, PartialEq, Eq, Structural)]
pub enum ClosestError {
    /// No record was given, so there is nothing to build a tree from.
    EmptyInput,
    /// Two positions, or a query point and the tree, differ in length.
    DimensionMismatch,
    /// The whole tree is a single bucket, so it has no root node.
    RootNodeIsData,
}

impl ClosestError {
    /// The message that describes this error.
    pub fn message(&self) -> (text: &'static str)
        ensures
            text@ == (match *self {
                ClosestError::EmptyInput => "At least one position is needed."@,
                ClosestError::DimensionMismatch => "All positions must have the same length"@,
                ClosestError::RootNodeIsData => "Root node is data."@,
            }),
    {
        match self {
            ClosestError::EmptyInput => "At least one position is needed.",
            ClosestError::DimensionMismatch => "All positions must have the same length",
            ClosestError::RootNodeIsData => "Root node is data.",
        }
    }
}

} // verus!
