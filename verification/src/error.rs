//! Errors surfaced by plan construction and optimization.

use vstd::prelude::*;

verus! {

/// The error taxonomy of the planning core.  Every fallible builder or
/// pushdown function reports one of these as an explicit result value; a
/// failure anywhere aborts the surrounding pass without local recovery.
/// The payload carries the originating description (a column name, a shape
/// description) unmodified.
#[derive(Debug, Clone)]
pub enum PlanError {
    /// An operation that needs at least one branch of data received none.
    NoData(String),
    /// A schema or row-count inconsistency discovered while building a node.
    ShapeMismatch(String),
    /// A requested transform is not defined for the given data type.
    InvalidOperation(String),
    /// A schema lookup failed during expression type inference.
    FieldNotFound(String),
}

impl PlanError {
    /// The originating description carried by the error.
    pub fn message(&self) -> (r: &String)
        ensures
            *r == self.spec_message(),
    {
        match self {
            PlanError::NoData(m) => m,
            PlanError::ShapeMismatch(m) => m,
            PlanError::InvalidOperation(m) => m,
            PlanError::FieldNotFound(m) => m,
        }
    }

    pub open spec fn spec_message(&self) -> String {
        match self {
            PlanError::NoData(m) => *m,
            PlanError::ShapeMismatch(m) => *m,
            PlanError::InvalidOperation(m) => *m,
            PlanError::FieldNotFound(m) => *m,
        }
    }
}

} // verus!
