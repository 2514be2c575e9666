//! Errors of the core.

use vstd::prelude::*;

verus! {

/// The source of a cell did not parse.
#[derive(Debug, Clone, PartialEq, Eq)]
pub struct ParseError {
    pub line: usize,
    pub col: usize,
    pub message: String,
}

#[derive(Debug, Clone, Copy, PartialEq, Eq, Structural)]
pub enum TopologyErrors {
    CellNotFound,
    CycleDetected,
    /// A cell with the same id is already there.
    DuplicateId,
}

impl TopologyErrors {
    /// A short description of the error.
    pub fn message(&self) -> (r: &'static str)
        ensures
            *self == TopologyErrors::CellNotFound ==> r@ == "Cell not found"@,
            *self == TopologyErrors::CycleDetected ==> r@ == "Cycle detected"@,
            *self == TopologyErrors::DuplicateId ==> r@ == "Duplicate cell id"@,
    {
        match self {
            TopologyErrors::CellNotFound => "Cell not found",
            TopologyErrors::CycleDetected => "Cycle detected",
            TopologyErrors::DuplicateId => "Duplicate cell id",
        }
    }
}

/// What stops a cell from being run.
#[derive(Debug, Clone, PartialEq, Eq)]
pub enum NotebookErrors {
    /// The evaluator reported an error.
    KernelError(String),
    Parse(ParseError),
    Topology(TopologyErrors),
}

} // verus!
