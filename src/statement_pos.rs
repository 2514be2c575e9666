//! Source positions of top-level statements.

use vstd::prelude::*;
use crate::ast::SourceLocation;
use crate::text::{extract_rows, extract_rows_exec};

verus! {

/// How the evaluator runs a statement: as a statement, or as an expression
/// whose value is the result.
#[derive(Debug, Clone, Copy, PartialEq, Eq, Structural)]
pub enum ExecutionType {
    Exec,
    Eval,
}

/// A statement's extent: 0-based rows and columns, both ends inclusive.
#[derive(Debug, Clone, Copy)]
pub struct StatementPos {
    pub row_start: usize,
    pub row_end: usize,
    pub col_start: usize,
    pub col_end: usize,
    pub execution_type: ExecutionType,
}

/// `x` lies in the inclusive range `lo..=hi`.
pub open spec fn within(lo: usize, hi: usize, x: usize) -> bool {
    lo <= x && x <= hi
}

impl StatementPos {
    /// `other` starts on one of this position's rows, and one of its end
    /// columns falls within this position's columns.
    pub open spec fn spec_intersects(self, other: StatementPos) -> bool {
        within(self.row_start, self.row_end, other.row_start) && (within(
            self.col_start,
            self.col_end,
            other.col_start,
        ) || within(self.col_start, self.col_end, other.col_end))
    }

    /// A position spanning `start..end`, given with 1-based rows.
    pub fn exec_from(start: &SourceLocation, end: &SourceLocation) -> (r: StatementPos)
        requires
            start.row >= 1,
            end.row >= 1,
        ensures
            r.row_start == start.row - 1,
            r.row_end == end.row - 1,
            r.col_start == start.column,
            r.col_end == end.column,
            r.execution_type == ExecutionType::Exec,
    {
        StatementPos {
            row_start: start.row - 1,
            row_end: end.row - 1,
            col_start: start.column,
            col_end: end.column,
            execution_type: ExecutionType::Exec,
        }
    }

    /// Like `exec_from`, for an expression to be evaluated.
    pub fn eval_from(start: &SourceLocation, end: &SourceLocation) -> (r: StatementPos)
        requires
            start.row >= 1,
            end.row >= 1,
        ensures
            r.row_start == start.row - 1,
            r.row_end == end.row - 1,
            r.col_start == start.column,
            r.col_end == end.column,
            r.execution_type == ExecutionType::Eval,
    {
        StatementPos {
            row_start: start.row - 1,
            row_end: end.row - 1,
            col_start: start.column,
            col_end: end.column,
            execution_type: ExecutionType::Eval,
        }
    }

    pub fn intersects(&self, other: &StatementPos) -> (r: bool)
        ensures
            r == self.spec_intersects(*other),
    {
        let starts_on_row = self.row_start <= other.row_start && other.row_start <= self.row_end;
        let start_col = self.col_start <= other.col_start && other.col_start <= self.col_end;
        let end_col = self.col_start <= other.col_end && other.col_end <= self.col_end;
        starts_on_row && (start_col || end_col)
    }

    /// The rows of `code` that this position covers, joined by line feeds.
    pub fn extract_code(&self, code: &str) -> (r: String)
        ensures
            r@ == extract_rows(code@, self.row_start as int, self.row_end as int),
    {
        extract_rows_exec(code, self.row_start, self.row_end)
    }
}

} // verus!
