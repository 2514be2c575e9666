//! The statements a cell is cut into, each with the way it is evaluated.

use vstd::prelude::*;
use crate::ast::{SourceLocation, Stmt, StmtKind};
use crate::statement_pos::StatementPos;
use crate::kernel_client::ExecutionType;
use crate::text::{extract_rows, extract_rows_exec};

verus! {

/// One top-level statement of a cell and its source text.
#[derive(Debug)]
pub struct Statement {
    pub execution_type: ExecutionType,
    pub content: String,
}

/// The 0-based index of a 1-based row; row 0 is read as the first row.
pub open spec fn row_index(loc: SourceLocation) -> int {
    if loc.row >= 1 {
        loc.row - 1
    } else {
        0
    }
}

/// The source text of the rows from `start` to `end`, both inclusive.
pub open spec fn statement_text(start: SourceLocation, end: SourceLocation, content: Seq<char>) -> Seq<
    char,
> {
    extract_rows(content, row_index(start), row_index(end))
}

impl Statement {
    pub fn new_exec(start: &SourceLocation, end: &SourceLocation, content: &str) -> (r: Statement)
        ensures
            r.execution_type == ExecutionType::Exec,
            r.content@ == statement_text(*start, *end, content@),
    {
        let content = Self::extract_content(start, end, content);
        Statement { execution_type: ExecutionType::Exec, content }
    }

    pub fn new_eval(start: &SourceLocation, end: &SourceLocation, content: &str) -> (r: Statement)
        ensures
            r.execution_type == ExecutionType::Eval,
            r.content@ == statement_text(*start, *end, content@),
    {
        let content = Self::extract_content(start, end, content);
        Statement { execution_type: ExecutionType::Eval, content }
    }

    pub fn new_definition(start: &SourceLocation, end: &SourceLocation, content: &str) -> (r:
        Statement)
        ensures
            r.execution_type == ExecutionType::Definition,
            r.content@ == statement_text(*start, *end, content@),
    {
        let content = Self::extract_content(start, end, content);
        Statement { execution_type: ExecutionType::Definition, content }
    }

    fn extract_content(start: &SourceLocation, end: &SourceLocation, content: &str) -> (r: String)
        ensures
            r@ == statement_text(*start, *end, content@),
    {
        let first: usize = if start.row >= 1 { start.row - 1 } else { 0 };
        let last: usize = if end.row >= 1 { end.row - 1 } else { 0 };
        extract_rows_exec(content, first, last)
    }

    /// A copy of this statement.
    pub fn duplicate(&self) -> (r: Statement)
        ensures
            r.execution_type == self.execution_type,
            r.content@ == self.content@,
    {
        Statement { execution_type: self.execution_type, content: self.content.clone() }
    }
}

/// How the evaluator treats a top-level statement of the given kind.
pub open spec fn kind_of(k: StmtKind) -> ExecutionType {
    match k {
        StmtKind::Expr { .. } => ExecutionType::Eval,
        StmtKind::Import { .. } => ExecutionType::Definition,
        StmtKind::FunctionDef { .. } => ExecutionType::Definition,
        StmtKind::ClassDef { .. } => ExecutionType::Definition,
        _ => ExecutionType::Exec,
    }
}

/// The extent of a statement as 0-based rows and columns.
pub open spec fn pos_of(s: Stmt) -> StatementPos {
    StatementPos {
        row_start: row_index(s.start) as usize,
        row_end: row_index(s.end) as usize,
        col_start: s.start.column,
        col_end: s.end.column,
        execution_type: crate::statement_pos::ExecutionType::Exec,
    }
}

pub open spec fn overlap(a: StatementPos, b: StatementPos) -> bool {
    a.spec_intersects(b) || b.spec_intersects(a)
}

/// Statement `i` overlaps one of the statements at the indices `kept`.
pub open spec fn clashes(prog: Seq<Stmt>, kept: Seq<int>, i: int) -> bool {
    exists|k: int| 0 <= k < kept.len() && overlap(pos_of(prog[kept[k]]), pos_of(prog[i]))
}

/// The indices of the first `n` statements that are kept: a statement that
/// overlaps an earlier kept one is dropped.
pub open spec fn accepted(prog: Seq<Stmt>, n: int) -> Seq<int>
    decreases n,
{
    if n <= 0 {
        Seq::empty()
    } else {
        let a = accepted(prog, n - 1);
        if clashes(prog, a, n - 1) {
            a
        } else {
            a.push(n - 1)
        }
    }
}

/// A statement as a kind and a text.
pub open spec fn statement_view(s: Statement) -> (ExecutionType, Seq<char>) {
    (s.execution_type, s.content@)
}

pub open spec fn statements_view(v: Seq<Statement>) -> Seq<(ExecutionType, Seq<char>)> {
    Seq::new(v.len(), |i: int| statement_view(v[i]))
}

/// The statements that the program `prog` of the source `code` is cut into.
pub open spec fn split(prog: Seq<Stmt>, code: Seq<char>) -> Seq<(ExecutionType, Seq<char>)> {
    let a = accepted(prog, prog.len() as int);
    Seq::new(
        a.len(),
        |k: int| (kind_of(prog[a[k]].kind), statement_text(prog[a[k]].start, prog[a[k]].end, code)),
    )
}

proof fn lemma_accepted_bounds(prog: Seq<Stmt>, n: int)
    ensures
        forall|k: int| 0 <= k < accepted(prog, n).len() ==> 0 <= #[trigger] accepted(prog, n)[k] < n,
    decreases n,
{
    if n > 0 {
        lemma_accepted_bounds(prog, n - 1);
        let a = accepted(prog, n - 1);
        if !clashes(prog, a, n - 1) {
            assert forall|k: int| 0 <= k < a.push(n - 1).len() implies 0 <= #[trigger] a.push(n - 1)[k] < n by {
                if k < a.len() {
                    assert(a.push(n - 1)[k] == a[k]);
                }
            }
        }
    }
}

fn position(s: &Stmt) -> (r: StatementPos)
    ensures
        r == pos_of(*s),
{
    let start = s.start;
    let end = s.end;
    StatementPos {
        row_start: if start.row >= 1 { start.row - 1 } else { 0 },
        row_end: if end.row >= 1 { end.row - 1 } else { 0 },
        col_start: start.column,
        col_end: end.column,
        execution_type: crate::statement_pos::ExecutionType::Exec,
    }
}

/// Cuts a cell's source into its top-level statements, in source order.
pub fn split_statements(prog: &Vec<Stmt>, code: &str) -> (r: Vec<Statement>)
    ensures
        statements_view(r@) == split(prog@, code@),
{
    let mut kept: Vec<StatementPos> = Vec::new();
    let mut out: Vec<Statement> = Vec::new();
    let ghost mut idx: Seq<int> = Seq::empty();
    let mut i: usize = 0;
    while i < prog.len()
        invariant
            i <= prog@.len(),
            idx == accepted(prog@, i as int),
            kept@.len() == idx.len(),
            out@.len() == idx.len(),
            forall|k: int| 0 <= k < idx.len() ==> #[trigger] kept@[k] == pos_of(prog@[idx[k]]),
            forall|k: int| 0 <= k < idx.len() ==> statement_view(#[trigger] out@[k]) == (
                kind_of(prog@[idx[k]].kind),
                statement_text(prog@[idx[k]].start, prog@[idx[k]].end, code@),
            ),
        decreases prog.len() - i,
    {
        proof {
            lemma_accepted_bounds(prog@, i as int);
        }
        let p = position(&prog[i]);
        let mut clash = false;
        let mut j: usize = 0;
        while j < kept.len()
            invariant
                j <= kept@.len(),
                kept@.len() == idx.len(),
                p == pos_of(prog@[i as int]),
                forall|k: int| 0 <= k < idx.len() ==> #[trigger] kept@[k] == pos_of(prog@[idx[k]]),
                clash == exists|k: int| 0 <= k < j && overlap(pos_of(prog@[idx[k]]), pos_of(prog@[i as int])),
            decreases kept.len() - j,
        {
            if kept[j].intersects(&p) || p.intersects(&kept[j]) {
                clash = true;
            }
            j = j + 1;
        }
        if !clash {
            let st = match &prog[i].kind {
                StmtKind::Expr { .. } => Statement::new_eval(&prog[i].start, &prog[i].end, code),
                StmtKind::Import { .. } => Statement::new_definition(&prog[i].start, &prog[i].end, code),
                StmtKind::FunctionDef { .. } => Statement::new_definition(
                    &prog[i].start,
                    &prog[i].end,
                    code,
                ),
                StmtKind::ClassDef { .. } => Statement::new_definition(&prog[i].start, &prog[i].end, code),
                _ => Statement::new_exec(&prog[i].start, &prog[i].end, code),
            };
            kept.push(p);
            out.push(st);
            proof {
                idx = idx.push(i as int);
            }
        }
        i = i + 1;
    }
    let ghost want = split(prog@, code@);
    assert(statements_view(out@) =~= want);
    out
}

} // verus!
