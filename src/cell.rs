//! Cells and their name analysis: which identifiers a cell binds, which it
//! requires from other cells, and which it binds only locally.

use vstd::prelude::*;
use crate::analysis::{
    analyze, bind_step, generator_targets, name_step, target_names, target_names_seq, walk_aliases,
    walk_expr, walk_exprs, walk_generators, walk_handlers, walk_opt, walk_opt_expr, walk_stmt,
    walk_stmts, Walk,
};
use crate::ast::{Alias, Comprehension, ExceptHandler, Expr, ExprContext, Stmt, StmtKind};
use crate::locals::Locals;
use crate::errors::ParseError;
use crate::names::{release, NameSet, Scope};
use crate::statement::{split, split_statements, statement_view, statements_view, Statement};

verus! {

#[derive(Debug, Clone, Copy, PartialEq, Eq, Structural)]
pub enum CellType {
    NonReactiveCode,
    ReactiveCode,
    Markdown,
}

#[derive(Debug, Clone, Copy, PartialEq, Eq, Structural)]
pub struct CellMetadata {
    pub collapsed: bool,
}

/// A unit of editing and execution.
#[derive(Debug)]
pub struct Cell {
    pub metadata: CellMetadata,
    pub uuid: String,
    pub cell_type: CellType,
    pub content: String,
    /// What the evaluator last reported for this cell.
    pub locals: Locals,
    /// The identifiers this cell defines at top level.
    pub bindings: NameSet,
    /// The identifiers this cell uses but does not define.
    pub required: NameSet,
    /// The identifiers bound only inside this cell (parameters and the like).
    pub ignore_bindings: NameSet,
    pub statements: Vec<Statement>,
}

/// The analysis state held by `c` and the scope `scope`.
pub open spec fn walk_of(c: Cell, scope: Map<Seq<char>, Seq<char>>) -> Walk {
    Walk {
        scope,
        bindings: c.bindings@,
        requirements: c.required@,
        ignored: c.ignore_bindings@,
    }
}

/// `a` and `b` agree on everything but the three name sets.
pub open spec fn same_record(a: Cell, b: Cell) -> bool {
    &&& a.uuid == b.uuid
    &&& a.content == b.content
    &&& a.statements == b.statements
    &&& a.locals == b.locals
    &&& a.cell_type == b.cell_type
    &&& a.metadata == b.metadata
}

/// Only code cells take part in the name analysis.
pub open spec fn is_code(t: CellType) -> bool {
    t != CellType::Markdown
}

/// `c` holds the analysis of the program `prog`, which turned the scope
/// `before` into `after`.
pub open spec fn analyzed(c: Cell, prog: Seq<Stmt>, before: Map<Seq<char>, Seq<char>>, after: Map<
    Seq<char>,
    Seq<char>,
>) -> bool {
    let w = analyze(prog, c.uuid@, before);
    &&& c.bindings@ == w.bindings
    &&& c.required@ == w.requirements
    &&& c.ignore_bindings@ == w.ignored
    &&& after == w.scope
    &&& statements_view(c.statements@) == split(prog, c.content@)
}

/// `c` holds no analysis.
pub open spec fn cleared(c: Cell) -> bool {
    &&& c.bindings@ == Set::<Seq<char>>::empty()
    &&& c.required@ == Set::<Seq<char>>::empty()
    &&& c.ignore_bindings@ == Set::<Seq<char>>::empty()
    &&& c.statements@.len() == 0
}

/// `after` is `before` with its content replaced by `content` (whose parse is
/// `parsed`): the scope `s0` first forgets the bindings of `before`, then
/// the new program is analyzed, turning it into `scope_after`; `r` tells how it went.
pub open spec fn updated(
    before: Cell,
    after: Cell,
    content: Seq<char>,
    parsed: Result<Vec<Stmt>, ParseError>,
    s0: Map<Seq<char>, Seq<char>>,
    scope_after: Map<Seq<char>, Seq<char>>,
    r: Result<(), ParseError>,
) -> bool {
    let released = release(s0, before.bindings@, before.uuid@);
    &&& after.content@ == content
    &&& after.uuid@ == before.uuid@
    &&& after.locals@ == before.locals@
    &&& after.cell_type == before.cell_type
    &&& after.metadata == before.metadata
    &&& is_code(before.cell_type) && parsed.is_ok() ==> r.is_ok() && analyzed(after, parsed->Ok_0@, released, scope_after)
    &&& is_code(before.cell_type) && parsed.is_err() ==> r == Err::<(), ParseError>(parsed->Err_0) && cleared(after) && scope_after == released
    &&& !is_code(before.cell_type) ==> r.is_ok() && cleared(after) && scope_after == released
}

/// The characters of nanoid's URL-safe alphabet.
pub open spec fn url_safe(c: char) -> bool {
    ('a' <= c && c <= 'z') || ('A' <= c && c <= 'Z') || ('0' <= c && c <= '9') || c == '_' || c
        == '-'
}

/// Relies on `nanoid::format` with nanoid's URL-safe alphabet: a string of
/// 30 characters of that alphabet, drawn at random.
#[verifier::external_body]
pub(crate) fn new_id() -> (r: String)
    ensures
        r@.len() == 30,
        forall|i: int| 0 <= i < 30 ==> url_safe(#[trigger] r@[i]),
{
    nanoid::format(nanoid::rngs::default, &nanoid::alphabet::SAFE, 30)
}

/// `a` and `b` hold the same cell, up to copies of its strings and values.
pub open spec fn same_cell(a: Cell, b: Cell) -> bool {
    &&& a.uuid@ == b.uuid@
    &&& a.content@ == b.content@
    &&& a.cell_type == b.cell_type
    &&& a.metadata == b.metadata
    &&& a.locals@ == b.locals@
    &&& a.bindings@ == b.bindings@
    &&& a.required@ == b.required@
    &&& a.ignore_bindings@ == b.ignore_bindings@
    &&& statements_view(a.statements@) == statements_view(b.statements@)
}

impl Cell {
    /// A copy of this cell.
    pub fn duplicate(&self) -> (r: Cell)
        ensures
            same_cell(r, *self),
    {
        let mut statements: Vec<Statement> = Vec::new();
        let mut i: usize = 0;
        while i < self.statements.len()
            invariant
                i <= self.statements@.len(),
                statements_view(statements@) == statements_view(self.statements@).subrange(0, i as int),
            decreases self.statements.len() - i,
        {
            let ghost before = statements_view(statements@);
            let st = self.statements[i].duplicate();
            statements.push(st);
            assert(statements_view(statements@) =~= before.push(statement_view(self.statements@[i as int])));
            assert(statements_view(statements@) =~= statements_view(self.statements@).subrange(0, i + 1));
            i = i + 1;
        }
        assert(statements_view(self.statements@).subrange(0, self.statements@.len() as int) =~= statements_view(self.statements@));
        Cell {
            metadata: self.metadata,
            uuid: self.uuid.clone(),
            cell_type: self.cell_type,
            content: self.content.clone(),
            locals: self.locals.duplicate(),
            bindings: self.bindings.duplicate(),
            required: self.required.duplicate(),
            ignore_bindings: self.ignore_bindings.duplicate(),
            statements,
        }
    }

    fn unbind_all(&mut self)
        ensures
            cleared(*final(self)),
            final(self).uuid == old(self).uuid,
            final(self).content == old(self).content,
            final(self).locals == old(self).locals,
            final(self).cell_type == old(self).cell_type,
            final(self).metadata == old(self).metadata,
    {
        self.bindings.clear();
        self.ignore_bindings.clear();
        self.required.clear();
        self.statements = Vec::new();
    }

    /// Analyzes `program`, the parse of this cell's content, afresh: records
    /// its statements and name sets and binds its names in `scope`.
    pub fn setup_local_vars(&mut self, program: &Vec<Stmt>, scope: &mut Scope)
        ensures
            is_code(old(self).cell_type) ==> analyzed(*final(self), program@, old(scope)@, final(scope)@),
            !is_code(old(self).cell_type) ==> cleared(*final(self)) && final(scope)@ == old(scope)@,
            final(self).uuid == old(self).uuid,
            final(self).content == old(self).content,
            final(self).locals == old(self).locals,
            final(self).cell_type == old(self).cell_type,
            final(self).metadata == old(self).metadata,
    {
        self.unbind_all();
        match self.cell_type {
            CellType::Markdown => {},
            _ => {
                self.handle_stmts(program, scope);
                let mut required = NameSet::new();
                std::mem::swap(&mut required, &mut self.required);
                required.remove_all(&self.bindings);
                self.required = required;
                self.statements = split_statements(program, self.content.as_str());
            },
        }
    }

    /// A cell with the given id; `parsed` is the outcome of parsing
    /// `content`. A code cell whose content did not parse is not created.
    pub fn with_id(
        uuid: String,
        cell_type: CellType,
        content: String,
        parsed: Result<Vec<Stmt>, ParseError>,
        scope: &mut Scope,
    ) -> (r: Result<Cell, ParseError>)
        ensures
            r.is_ok() == (!is_code(cell_type) || parsed.is_ok()),
            r.is_err() ==> r == Err::<Cell, ParseError>(parsed->Err_0) && final(scope)@ == old(scope)@,
            r.is_ok() ==> {
                let c = r->Ok_0;
                &&& c.uuid == uuid
                &&& c.content == content
                &&& c.cell_type == cell_type
                &&& !c.metadata.collapsed
                &&& c.locals@ == Map::<Seq<char>, crate::locals::LocalValue>::empty()
                &&& is_code(cell_type) ==> analyzed(c, parsed->Ok_0@, old(scope)@, final(scope)@)
                &&& !is_code(cell_type) ==> cleared(c) && final(scope)@ == old(scope)@
                &&& (forall|n: Seq<char>| #[trigger] old(scope)@.contains_key(n) ==> old(scope)@[n] != uuid@) ==>
                    forall|n: Seq<char>| (#[trigger] final(scope)@.contains_key(n) && final(scope)@[n] == uuid@) <==> c.bindings@.contains(n)
            },
    {
        let ghost id = uuid@;
        let ghost s0 = scope@;
        let mut cell = Cell {
            metadata: CellMetadata { collapsed: false },
            uuid,
            cell_type,
            content,
            locals: Locals::new(),
            bindings: NameSet::new(),
            required: NameSet::new(),
            ignore_bindings: NameSet::new(),
            statements: Vec::new(),
        };
        match cell_type {
            CellType::Markdown => {
                cell.unbind_all();
                proof {
                    if forall|n: Seq<char>| #[trigger] s0.contains_key(n) ==> s0[n] != id {
                        assert forall|n: Seq<char>| (#[trigger] scope@.contains_key(n) && scope@[n] == id) <==> cell.bindings@.contains(n) by {
                            if scope@.contains_key(n) {
                                assert(s0.contains_key(n));
                            }
                        }
                    }
                }
                Ok(cell)
            },
            _ => match parsed {
                Ok(program) => {
                    cell.setup_local_vars(&program, scope);
                    proof {
                        if forall|n: Seq<char>| #[trigger] s0.contains_key(n) ==> s0[n] != id {
                            crate::laws::law_cell_holds_its_bindings(program@, id, s0);
                            assert(cell.uuid@ == id);
                            assert(forall|n: Seq<char>| (#[trigger] scope@.contains_key(n) && scope@[n] == id) <==> cell.bindings@.contains(n));
                        }
                    }
                    Ok(cell)
                },
                Err(e) => Err(e),
            },
        }
    }

    /// A cell with a fresh random id of 30 URL-safe characters.
    pub fn new(
        cell_type: CellType,
        content: String,
        parsed: Result<Vec<Stmt>, ParseError>,
        scope: &mut Scope,
    ) -> (r: Result<Cell, ParseError>)
        ensures
            r.is_ok() == (!is_code(cell_type) || parsed.is_ok()),
            r.is_err() ==> r == Err::<Cell, ParseError>(parsed->Err_0) && final(scope)@ == old(scope)@,
            r.is_ok() ==> {
                let c = r->Ok_0;
                &&& c.uuid@.len() == 30
                &&& forall|i: int| 0 <= i < 30 ==> url_safe(#[trigger] c.uuid@[i])
                &&& c.content == content
                &&& c.cell_type == cell_type
                &&& !c.metadata.collapsed
                &&& c.locals@ == Map::<Seq<char>, crate::locals::LocalValue>::empty()
                &&& is_code(cell_type) ==> analyzed(c, parsed->Ok_0@, old(scope)@, final(scope)@)
                &&& !is_code(cell_type) ==> cleared(c) && final(scope)@ == old(scope)@
                &&& (forall|n: Seq<char>| #[trigger] old(scope)@.contains_key(n) ==> old(scope)@[n] != c.uuid@) ==>
                    forall|n: Seq<char>| (#[trigger] final(scope)@.contains_key(n) && final(scope)@[n] == c.uuid@) <==> c.bindings@.contains(n)
            },
    {
        let id = new_id();
        let ghost idv = id@;
        let r = Self::with_id(id, cell_type, content, parsed, scope);
        proof {
            if r.is_ok() {
                assert((r->Ok_0).uuid@ == idv);
            }
        }
        r
    }

    /// A reactive code cell with a fresh random id.
    pub fn new_reactive(content: &str, parsed: Result<Vec<Stmt>, ParseError>, scope: &mut Scope) -> (r:
        Result<Cell, ParseError>)
        ensures
            r.is_ok() == parsed.is_ok(),
            r.is_err() ==> r == Err::<Cell, ParseError>(parsed->Err_0) && final(scope)@ == old(scope)@,
            r.is_ok() ==> {
                let c = r->Ok_0;
                &&& c.uuid@.len() == 30
                &&& c.content@ == content@
                &&& c.cell_type == CellType::ReactiveCode
                &&& c.locals@ == Map::<Seq<char>, crate::locals::LocalValue>::empty()
                &&& analyzed(c, parsed->Ok_0@, old(scope)@, final(scope)@)
            },
    {
        Self::new(CellType::ReactiveCode, content.to_owned(), parsed, scope)
    }

    /// Replaces the content: first the scope forgets this cell's bindings,
    /// then `parsed`, the outcome of parsing `content`, is analyzed afresh.
    /// Content that does not parse is still taken, with no analysis.
    pub fn update_content(&mut self, content: &str, parsed: Result<Vec<Stmt>, ParseError>, scope: &mut Scope) -> (r: Result<(), ParseError>)
        ensures
            updated(*old(self), *final(self), content@, parsed, old(scope)@, final(scope)@, r),
            final(self).uuid == old(self).uuid,
    {
        scope.release(&self.bindings, &self.uuid);
        self.unbind_all();
        self.content = content.to_owned();
        match self.cell_type {
            CellType::Markdown => Ok(()),
            _ => match parsed {
                Ok(program) => {
                    self.setup_local_vars(&program, scope);
                    Ok(())
                },
                Err(e) => Err(e),
            },
        }
    }

    fn handle_name_dep(&mut self, id: &String, ctx: ExprContext, scope: &mut Scope)
        ensures
            walk_of(*final(self), final(scope)@) == name_step(walk_of(*old(self), old(scope)@), old(self).uuid@, id@, ctx),
            same_record(*final(self), *old(self)),
    {
        if self.ignore_bindings.contains(id) {
            return;
        }
        match ctx {
            ExprContext::Load => {
                self.required.insert(id);
            },
            ExprContext::Store => {
                let owner: Option<bool> = match scope.get(id) {
                    Some(dep) => Some(*dep == self.uuid),
                    None => None,
                };
                match owner {
                    Some(false) => {
                        self.required.insert(id);
                    },
                    _ => {
                        scope.insert(id, &self.uuid);
                        self.bindings.insert(id);
                    },
                }
            },
            ExprContext::Del => {},
        }
    }

    fn handle_expr_node(&mut self, e: &Expr, scope: &mut Scope)
        ensures
            walk_of(*final(self), final(scope)@) == walk_expr(*e, old(self).uuid@, walk_of(*old(self), old(scope)@)),
            same_record(*final(self), *old(self)),
        decreases e,
    {
        match e {
            Expr::Name { id, ctx } => self.handle_name_dep(id, *ctx, scope),
            Expr::Constant => {},
            Expr::BoolOp { values } => self.handle_exprs(values, scope),
            Expr::SetDisplay { elts } => self.handle_exprs(elts, scope),
            Expr::JoinedStr { values } => self.handle_exprs(values, scope),
            Expr::List { elts } => self.handle_exprs(elts, scope),
            Expr::Tuple { elts } => self.handle_exprs(elts, scope),
            Expr::UnaryOp { operand } => self.handle_expr_node(operand, scope),
            Expr::Await { value } => self.handle_expr_node(value, scope),
            Expr::YieldFrom { value } => self.handle_expr_node(value, scope),
            Expr::Attribute { value, .. } => self.handle_expr_node(value, scope),
            Expr::Subscript { value, .. } => self.handle_expr_node(value, scope),
            Expr::Starred { value } => self.handle_expr_node(value, scope),
            Expr::NamedExpr { target, value } => {
                self.handle_expr_node(target, scope);
                self.handle_expr_node(value, scope);
            },
            Expr::BinOp { left, right } => {
                self.handle_expr_node(left, scope);
                self.handle_expr_node(right, scope);
            },
            Expr::IfExp { test, body, orelse } => {
                self.handle_expr_node(test, scope);
                self.handle_expr_node(body, scope);
                self.handle_expr_node(orelse, scope);
            },
            Expr::Dict { keys, values } => {
                self.handle_exprs(keys, scope);
                self.handle_exprs(values, scope);
            },
            Expr::Compare { left, comparators } => {
                self.handle_expr_node(left, scope);
                self.handle_exprs(comparators, scope);
            },
            Expr::Call { func, args } => {
                self.handle_expr_node(func, scope);
                self.handle_exprs(args, scope);
            },
            Expr::Lambda { params, body } => {
                let saved = self.ignore_bindings.duplicate();
                self.ignore_bindings.insert_all(params);
                self.handle_expr_node(body, scope);
                self.ignore_bindings = saved;
            },
            Expr::ListComp { elt, generators } => {
                let saved = self.ignore_bindings.duplicate();
                self.ignore_generator_targets(generators);
                self.handle_generators(generators, scope);
                self.handle_expr_node(elt, scope);
                self.ignore_bindings = saved;
            },
            Expr::SetComp { elt, generators } => {
                let saved = self.ignore_bindings.duplicate();
                self.ignore_generator_targets(generators);
                self.handle_generators(generators, scope);
                self.handle_expr_node(elt, scope);
                self.ignore_bindings = saved;
            },
            Expr::GeneratorExp { elt, generators } => {
                let saved = self.ignore_bindings.duplicate();
                self.ignore_generator_targets(generators);
                self.handle_generators(generators, scope);
                self.handle_expr_node(elt, scope);
                self.ignore_bindings = saved;
            },
            Expr::DictComp { key, value, generators } => {
                let saved = self.ignore_bindings.duplicate();
                self.ignore_generator_targets(generators);
                self.handle_generators(generators, scope);
                self.handle_expr_node(key, scope);
                self.handle_expr_node(value, scope);
                self.ignore_bindings = saved;
            },
            Expr::Yield { value } => self.handle_opt(value, scope),
            Expr::FormattedValue { value, format_spec } => {
                self.handle_expr_node(value, scope);
                self.handle_opt(format_spec, scope);
            },
            Expr::Slice { lower, upper, step } => {
                self.handle_opt(lower, scope);
                self.handle_opt(upper, scope);
                self.handle_opt(step, scope);
            },
        }
    }

    fn handle_opt(&mut self, o: &Option<Box<Expr>>, scope: &mut Scope)
        ensures
            walk_of(*final(self), final(scope)@) == walk_opt(*o, old(self).uuid@, walk_of(*old(self), old(scope)@)),
            same_record(*final(self), *old(self)),
        decreases o,
    {
        match o {
            Some(e) => self.handle_expr_node(e, scope),
            None => {},
        }
    }

    fn handle_exprs(&mut self, es: &Vec<Expr>, scope: &mut Scope)
        ensures
            walk_of(*final(self), final(scope)@) == walk_exprs(es@, old(self).uuid@, walk_of(*old(self), old(scope)@)),
            same_record(*final(self), *old(self)),
        decreases es@,
    {
        let ghost w0 = walk_of(*self, scope@);
        let mut i: usize = 0;
        while i < es.len()
            invariant
                i <= es@.len(),
                walk_of(*self, scope@) == walk_exprs(es@.subrange(0, i as int), old(self).uuid@, w0),
                same_record(*self, *old(self)),
            decreases es.len() - i,
        {
            self.handle_expr_node(&es[i], scope);
            proof {
                assert(es@.subrange(0, i + 1).subrange(0, i as int) =~= es@.subrange(0, i as int));
            }
            i = i + 1;
        }
        assert(es@.subrange(0, es@.len() as int) =~= es@);
    }

    fn handle_generators(&mut self, gs: &Vec<Comprehension>, scope: &mut Scope)
        ensures
            walk_of(*final(self), final(scope)@) == walk_generators(gs@, old(self).uuid@, walk_of(*old(self), old(scope)@)),
            same_record(*final(self), *old(self)),
        decreases gs@,
    {
        let ghost w0 = walk_of(*self, scope@);
        let mut i: usize = 0;
        while i < gs.len()
            invariant
                i <= gs@.len(),
                walk_of(*self, scope@) == walk_generators(gs@.subrange(0, i as int), old(self).uuid@, w0),
                same_record(*self, *old(self)),
            decreases gs.len() - i,
        {
            self.handle_expr_node(&gs[i].iter, scope);
            self.handle_exprs(&gs[i].ifs, scope);
            proof {
                assert(gs@.subrange(0, i + 1).subrange(0, i as int) =~= gs@.subrange(0, i as int));
            }
            i = i + 1;
        }
        assert(gs@.subrange(0, gs@.len() as int) =~= gs@);
    }

    /// Binds `name` to this cell, whoever held it before.
    fn bind(&mut self, name: &String, scope: &mut Scope)
        ensures
            walk_of(*final(self), final(scope)@) == bind_step(walk_of(*old(self), old(scope)@), old(self).uuid@, name@),
            same_record(*final(self), *old(self)),
    {
        scope.insert(name, &self.uuid);
        self.bindings.insert(name);
    }

    fn import_dependencies(&mut self, names: &Vec<Alias>, scope: &mut Scope)
        ensures
            walk_of(*final(self), final(scope)@) == walk_aliases(names@, old(self).uuid@, walk_of(*old(self), old(scope)@)),
            same_record(*final(self), *old(self)),
    {
        let ghost w0 = walk_of(*self, scope@);
        let mut i: usize = 0;
        while i < names.len()
            invariant
                i <= names@.len(),
                walk_of(*self, scope@) == walk_aliases(names@.subrange(0, i as int), old(self).uuid@, w0),
                same_record(*self, *old(self)),
            decreases names.len() - i,
        {
            match &names[i].asname {
                Some(alias) => self.bind(alias, scope),
                None => self.bind(&names[i].name, scope),
            }
            proof {
                assert(names@.subrange(0, i + 1).drop_last() =~= names@.subrange(0, i as int));
            }
            i = i + 1;
        }
        assert(names@.subrange(0, names@.len() as int) =~= names@);
    }

    fn handle_opt_expr(&mut self, o: &Option<Expr>, scope: &mut Scope)
        ensures
            walk_of(*final(self), final(scope)@) == walk_opt_expr(*o, old(self).uuid@, walk_of(*old(self), old(scope)@)),
            same_record(*final(self), *old(self)),
    {
        match o {
            Some(e) => self.handle_expr_node(e, scope),
            None => {},
        }
    }

    fn handle_stmt_node(&mut self, stmt: &Stmt, scope: &mut Scope)
        ensures
            walk_of(*final(self), final(scope)@) == walk_stmt(*stmt, old(self).uuid@, walk_of(*old(self), old(scope)@)),
            same_record(*final(self), *old(self)),
        decreases stmt,
    {
        match &stmt.kind {
            StmtKind::FunctionDef { name, params, body, .. } => {
                // parameters may share names with bindings of other cells
                self.ignore_bindings.insert_all(params);
                self.bind(name, scope);
                self.handle_stmts(body, scope);
            },
            StmtKind::ClassDef { name, bases, body, decorators } => {
                self.bind(name, scope);
                self.handle_exprs(bases, scope);
                self.handle_stmts(body, scope);
                self.handle_exprs(decorators, scope);
            },
            StmtKind::Return { value } => self.handle_opt_expr(value, scope),
            StmtKind::Delete { targets } => self.handle_exprs(targets, scope),
            StmtKind::Assign { targets, value } => {
                self.handle_exprs(targets, scope);
                self.handle_expr_node(value, scope);
            },
            StmtKind::AugAssign { target, value } => {
                self.handle_expr_node(target, scope);
                self.handle_expr_node(value, scope);
            },
            StmtKind::AnnAssign { target, annotation, value } => {
                self.handle_expr_node(target, scope);
                self.handle_expr_node(annotation, scope);
                self.handle_opt_expr(value, scope);
            },
            StmtKind::For { body, orelse, .. } => {
                // the loop variable is not a binding of the cell
                self.handle_stmts(body, scope);
                self.handle_stmts(orelse, scope);
            },
            StmtKind::While { test, body, orelse } => {
                self.handle_expr_node(test, scope);
                self.handle_stmts(body, scope);
                self.handle_stmts(orelse, scope);
            },
            StmtKind::If { test, body, orelse } => {
                self.handle_expr_node(test, scope);
                self.handle_stmts(body, scope);
                self.handle_stmts(orelse, scope);
            },
            StmtKind::With { items, body, .. } => {
                self.handle_exprs(items, scope);
                self.handle_stmts(body, scope);
            },
            StmtKind::Match { subject, cases } => {
                self.handle_expr_node(subject, scope);
                self.handle_stmts(cases, scope);
            },
            StmtKind::Raise { exc, cause } => {
                self.handle_opt_expr(exc, scope);
                self.handle_opt_expr(cause, scope);
            },
            StmtKind::Try { body, handlers, orelse, finalbody } => {
                self.handle_stmts(body, scope);
                self.handle_handlers(handlers, scope);
                self.handle_stmts(orelse, scope);
                self.handle_stmts(finalbody, scope);
            },
            StmtKind::Assert { test, msg } => {
                self.handle_expr_node(test, scope);
                self.handle_opt_expr(msg, scope);
            },
            StmtKind::Import { names } => self.import_dependencies(names, scope),
            StmtKind::Expr { value } => self.handle_expr_node(value, scope),
            StmtKind::Global { .. } => {},
            StmtKind::Nonlocal { .. } => {},
            StmtKind::Pass => {},
            StmtKind::Break => {},
            StmtKind::Continue => {},
        }
    }

    fn handle_stmts(&mut self, ss: &Vec<Stmt>, scope: &mut Scope)
        ensures
            walk_of(*final(self), final(scope)@) == walk_stmts(ss@, old(self).uuid@, walk_of(*old(self), old(scope)@)),
            same_record(*final(self), *old(self)),
        decreases ss@,
    {
        let ghost w0 = walk_of(*self, scope@);
        let mut i: usize = 0;
        while i < ss.len()
            invariant
                i <= ss@.len(),
                walk_of(*self, scope@) == walk_stmts(ss@.subrange(0, i as int), old(self).uuid@, w0),
                same_record(*self, *old(self)),
            decreases ss.len() - i,
        {
            self.handle_stmt_node(&ss[i], scope);
            proof {
                assert(ss@.subrange(0, i + 1).subrange(0, i as int) =~= ss@.subrange(0, i as int));
            }
            i = i + 1;
        }
        assert(ss@.subrange(0, ss@.len() as int) =~= ss@);
    }

    fn handle_handlers(&mut self, hs: &Vec<ExceptHandler>, scope: &mut Scope)
        ensures
            walk_of(*final(self), final(scope)@) == walk_handlers(hs@, old(self).uuid@, walk_of(*old(self), old(scope)@)),
            same_record(*final(self), *old(self)),
        decreases hs@,
    {
        let ghost w0 = walk_of(*self, scope@);
        let mut i: usize = 0;
        while i < hs.len()
            invariant
                i <= hs@.len(),
                walk_of(*self, scope@) == walk_handlers(hs@.subrange(0, i as int), old(self).uuid@, w0),
                same_record(*self, *old(self)),
            decreases hs.len() - i,
        {
            self.handle_opt_expr(&hs[i].kind, scope);
            self.handle_stmts(&hs[i].body, scope);
            proof {
                assert(hs@.subrange(0, i + 1).subrange(0, i as int) =~= hs@.subrange(0, i as int));
            }
            i = i + 1;
        }
        assert(hs@.subrange(0, hs@.len() as int) =~= hs@);
    }

    /// Adds the names bound by the clauses' targets to the ignored names.
    fn ignore_generator_targets(&mut self, gs: &Vec<Comprehension>)
        ensures
            final(self).ignore_bindings@ == old(self).ignore_bindings@.union(generator_targets(gs@)),
            final(self).bindings == old(self).bindings,
            final(self).required == old(self).required,
            same_record(*final(self), *old(self)),
    {
        let mut i: usize = 0;
        while i < gs.len()
            invariant
                i <= gs@.len(),
                self.ignore_bindings@ == old(self).ignore_bindings@.union(generator_targets(gs@.subrange(0, i as int))),
                self.bindings == old(self).bindings,
                self.required == old(self).required,
                same_record(*self, *old(self)),
            decreases gs.len() - i,
        {
            collect_target_names(&gs[i].target, &mut self.ignore_bindings);
            proof {
                assert(gs@.subrange(0, i + 1).drop_last() =~= gs@.subrange(0, i as int));
                assert(self.ignore_bindings@ =~= old(self).ignore_bindings@.union(generator_targets(gs@.subrange(0, i + 1))));
            }
            i = i + 1;
        }
        assert(gs@.subrange(0, gs@.len() as int) =~= gs@);
    }
}

/// Adds the names that the comprehension target `e` binds to `out`.
fn collect_target_names(e: &Expr, out: &mut NameSet)
    ensures
        final(out)@ == old(out)@.union(target_names(*e)),
    decreases e,
{
    match e {
        Expr::Name { id, .. } => {
            out.insert(id);
            assert(old(out)@.insert(id@) =~= old(out)@.union(set![id@]));
        },
        Expr::Tuple { elts } => collect_target_names_seq(elts, out),
        Expr::List { elts } => collect_target_names_seq(elts, out),
        Expr::Starred { value } => collect_target_names(value, out),
        _ => {
            assert(old(out)@.union(Set::empty()) =~= old(out)@);
        },
    }
}

fn collect_target_names_seq(es: &Vec<Expr>, out: &mut NameSet)
    ensures
        final(out)@ == old(out)@.union(target_names_seq(es@)),
    decreases es@,
{
    let mut i: usize = 0;
    assert(old(out)@.union(target_names_seq(es@.subrange(0, 0))) =~= old(out)@);
    while i < es.len()
        invariant
            i <= es@.len(),
            out@ == old(out)@.union(target_names_seq(es@.subrange(0, i as int))),
        decreases es.len() - i,
    {
        collect_target_names(&es[i], out);
        proof {
            assert(es@.subrange(0, i + 1).subrange(0, i as int) =~= es@.subrange(0, i as int));
            assert(out@ =~= old(out)@.union(target_names_seq(es@.subrange(0, i + 1))));
        }
        i = i + 1;
    }
    assert(es@.subrange(0, es@.len() as int) =~= es@);
}

} // verus!
