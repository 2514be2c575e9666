//! What the name analysis of a cell means: a walk over the syntax tree that
//! threads the scope and the cell's three name sets through every node.

use vstd::prelude::*;
use crate::ast::{Alias, Comprehension, ExceptHandler, Expr, ExprContext, Stmt, StmtKind};
use crate::text::views;

verus! {

/// The state that the analysis threads through a cell: the notebook-wide
/// scope, and the cell's bindings, requirements and locally bound names.
pub ghost struct Walk {
    pub scope: Map<Seq<char>, Seq<char>>,
    pub bindings: Set<Seq<char>>,
    pub requirements: Set<Seq<char>>,
    pub ignored: Set<Seq<char>>,
}

pub open spec fn names_of(v: Seq<String>) -> Set<Seq<char>> {
    views(v).to_set()
}

/// The effect of one occurrence of the name `id` in the cell `me`.
pub open spec fn name_step(w: Walk, me: Seq<char>, id: Seq<char>, ctx: ExprContext) -> Walk {
    if w.ignored.contains(id) {
        w
    } else {
        match ctx {
            ExprContext::Load => Walk { requirements: w.requirements.insert(id), ..w },
            ExprContext::Store => {
                if w.scope.contains_key(id) && w.scope[id] != me {
                    Walk { requirements: w.requirements.insert(id), ..w }
                } else {
                    Walk { scope: w.scope.insert(id, me), bindings: w.bindings.insert(id), ..w }
                }
            },
            ExprContext::Del => w,
        }
    }
}

/// The names that a comprehension target binds.
pub open spec fn target_names(e: Expr) -> Set<Seq<char>>
    decreases e,
{
    match e {
        Expr::Name { id, .. } => set![id@],
        Expr::Tuple { elts } => target_names_seq(elts@),
        Expr::List { elts } => target_names_seq(elts@),
        Expr::Starred { value } => target_names(*value),
        _ => Set::empty(),
    }
}

pub open spec fn target_names_seq(es: Seq<Expr>) -> Set<Seq<char>>
    decreases es,
{
    if es.len() == 0 {
        Set::empty()
    } else {
        target_names_seq(es.subrange(0, es.len() - 1)).union(target_names(es[es.len() - 1]))
    }
}

/// The names bound by the targets of all clauses of a comprehension.
pub open spec fn generator_targets(gs: Seq<Comprehension>) -> Set<Seq<char>>
    decreases gs.len(),
{
    if gs.len() == 0 {
        Set::empty()
    } else {
        generator_targets(gs.drop_last()).union(target_names(gs.last().target))
    }
}

/// `inner` with the locally bound names of `outer` restored.
pub open spec fn restore_ignored(inner: Walk, outer: Walk) -> Walk {
    Walk { ignored: outer.ignored, ..inner }
}

/// `w` with `names` locally bound as well.
pub open spec fn add_ignored(w: Walk, names: Set<Seq<char>>) -> Walk {
    Walk { ignored: w.ignored.union(names), ..w }
}

pub open spec fn walk_expr(e: Expr, me: Seq<char>, w: Walk) -> Walk
    decreases e,
{
    match e {
        Expr::Name { id, ctx } => name_step(w, me, id@, ctx),
        Expr::Constant => w,
        Expr::BoolOp { values } => walk_exprs(values@, me, w),
        Expr::SetDisplay { elts } => walk_exprs(elts@, me, w),
        Expr::JoinedStr { values } => walk_exprs(values@, me, w),
        Expr::List { elts } => walk_exprs(elts@, me, w),
        Expr::Tuple { elts } => walk_exprs(elts@, me, w),
        Expr::UnaryOp { operand } => walk_expr(*operand, me, w),
        Expr::Await { value } => walk_expr(*value, me, w),
        Expr::YieldFrom { value } => walk_expr(*value, me, w),
        Expr::Attribute { value, .. } => walk_expr(*value, me, w),
        Expr::Subscript { value, .. } => walk_expr(*value, me, w),
        Expr::Starred { value } => walk_expr(*value, me, w),
        Expr::NamedExpr { target, value } => walk_expr(*value, me, walk_expr(*target, me, w)),
        Expr::BinOp { left, right } => walk_expr(*right, me, walk_expr(*left, me, w)),
        Expr::IfExp { test, body, orelse } => walk_expr(
            *orelse,
            me,
            walk_expr(*body, me, walk_expr(*test, me, w)),
        ),
        Expr::Dict { keys, values } => walk_exprs(values@, me, walk_exprs(keys@, me, w)),
        Expr::Compare { left, comparators } => walk_exprs(comparators@, me, walk_expr(*left, me, w)),
        Expr::Call { func, args } => walk_exprs(args@, me, walk_expr(*func, me, w)),
        Expr::Lambda { params, body } => restore_ignored(
            walk_expr(*body, me, add_ignored(w, names_of(params@))),
            w,
        ),
        Expr::ListComp { elt, generators } => restore_ignored(
            walk_expr(*elt, me, walk_generators(generators@, me, add_ignored(w, generator_targets(generators@)))),
            w,
        ),
        Expr::SetComp { elt, generators } => restore_ignored(
            walk_expr(*elt, me, walk_generators(generators@, me, add_ignored(w, generator_targets(generators@)))),
            w,
        ),
        Expr::GeneratorExp { elt, generators } => restore_ignored(
            walk_expr(*elt, me, walk_generators(generators@, me, add_ignored(w, generator_targets(generators@)))),
            w,
        ),
        Expr::DictComp { key, value, generators } => restore_ignored(
            walk_expr(
                *value,
                me,
                walk_expr(*key, me, walk_generators(generators@, me, add_ignored(w, generator_targets(generators@)))),
            ),
            w,
        ),
        Expr::Yield { value } => walk_opt(value, me, w),
        Expr::FormattedValue { value, format_spec } => walk_opt(format_spec, me, walk_expr(*value, me, w)),
        Expr::Slice { lower, upper, step } => walk_opt(step, me, walk_opt(upper, me, walk_opt(lower, me, w))),
    }
}

pub open spec fn walk_opt(o: Option<Box<Expr>>, me: Seq<char>, w: Walk) -> Walk
    decreases o,
{
    match o {
        Some(e) => walk_expr(*e, me, w),
        None => w,
    }
}

pub open spec fn walk_exprs(es: Seq<Expr>, me: Seq<char>, w: Walk) -> Walk
    decreases es,
{
    if es.len() == 0 {
        w
    } else {
        walk_expr(es[es.len() - 1], me, walk_exprs(es.subrange(0, es.len() - 1), me, w))
    }
}

/// The iterables and filters of the clauses, in order.
pub open spec fn walk_generators(gs: Seq<Comprehension>, me: Seq<char>, w: Walk) -> Walk
    decreases gs,
{
    if gs.len() == 0 {
        w
    } else {
        let g = gs[gs.len() - 1];
        walk_exprs(g.ifs@, me, walk_expr(g.iter, me, walk_generators(gs.subrange(0, gs.len() - 1), me, w)))
    }
}

/// `name` bound by the cell `me`, whoever held it before.
pub open spec fn bind_step(w: Walk, me: Seq<char>, name: Seq<char>) -> Walk {
    Walk { scope: w.scope.insert(name, me), bindings: w.bindings.insert(name), ..w }
}

/// The name an import binds: the alias if given, else the imported name.
pub open spec fn alias_name(a: Alias) -> Seq<char> {
    match a.asname {
        Some(n) => n@,
        None => a.name@,
    }
}

pub open spec fn walk_aliases(names: Seq<Alias>, me: Seq<char>, w: Walk) -> Walk
    decreases names.len(),
{
    if names.len() == 0 {
        w
    } else {
        bind_step(walk_aliases(names.drop_last(), me, w), me, alias_name(names.last()))
    }
}

pub open spec fn walk_opt_expr(o: Option<Expr>, me: Seq<char>, w: Walk) -> Walk {
    match o {
        Some(e) => walk_expr(e, me, w),
        None => w,
    }
}

pub open spec fn walk_stmt(s: Stmt, me: Seq<char>, w: Walk) -> Walk
    decreases s,
{
    match s.kind {
        StmtKind::FunctionDef { name, params, body, .. } => walk_stmts(
            body@,
            me,
            bind_step(add_ignored(w, names_of(params@)), me, name@),
        ),
        StmtKind::ClassDef { name, bases, body, decorators } => walk_exprs(
            decorators@,
            me,
            walk_stmts(body@, me, walk_exprs(bases@, me, bind_step(w, me, name@))),
        ),
        StmtKind::Return { value } => walk_opt_expr(value, me, w),
        StmtKind::Delete { targets } => walk_exprs(targets@, me, w),
        StmtKind::Assign { targets, value } => walk_expr(value, me, walk_exprs(targets@, me, w)),
        StmtKind::AugAssign { target, value } => walk_expr(value, me, walk_expr(target, me, w)),
        StmtKind::AnnAssign { target, annotation, value } => walk_opt_expr(
            value,
            me,
            walk_expr(annotation, me, walk_expr(target, me, w)),
        ),
        StmtKind::For { body, orelse, .. } => walk_stmts(orelse@, me, walk_stmts(body@, me, w)),
        StmtKind::While { test, body, orelse } => walk_stmts(
            orelse@,
            me,
            walk_stmts(body@, me, walk_expr(test, me, w)),
        ),
        StmtKind::If { test, body, orelse } => walk_stmts(
            orelse@,
            me,
            walk_stmts(body@, me, walk_expr(test, me, w)),
        ),
        StmtKind::With { items, body, .. } => walk_stmts(body@, me, walk_exprs(items@, me, w)),
        StmtKind::Match { subject, cases } => walk_stmts(cases@, me, walk_expr(subject, me, w)),
        StmtKind::Raise { exc, cause } => walk_opt_expr(cause, me, walk_opt_expr(exc, me, w)),
        StmtKind::Try { body, handlers, orelse, finalbody } => walk_stmts(
            finalbody@,
            me,
            walk_stmts(orelse@, me, walk_handlers(handlers@, me, walk_stmts(body@, me, w))),
        ),
        StmtKind::Assert { test, msg } => walk_opt_expr(msg, me, walk_expr(test, me, w)),
        StmtKind::Import { names } => walk_aliases(names@, me, w),
        StmtKind::Expr { value } => walk_expr(value, me, w),
        StmtKind::Global { .. } => w,
        StmtKind::Nonlocal { .. } => w,
        StmtKind::Pass => w,
        StmtKind::Break => w,
        StmtKind::Continue => w,
    }
}

pub open spec fn walk_stmts(ss: Seq<Stmt>, me: Seq<char>, w: Walk) -> Walk
    decreases ss,
{
    if ss.len() == 0 {
        w
    } else {
        walk_stmt(ss[ss.len() - 1], me, walk_stmts(ss.subrange(0, ss.len() - 1), me, w))
    }
}

pub open spec fn walk_handlers(hs: Seq<ExceptHandler>, me: Seq<char>, w: Walk) -> Walk
    decreases hs,
{
    if hs.len() == 0 {
        w
    } else {
        let h = hs[hs.len() - 1];
        walk_stmts(h.body@, me, walk_opt_expr(h.kind, me, walk_handlers(hs.subrange(0, hs.len() - 1), me, w)))
    }
}

/// A walk that starts with empty name sets in the given scope.
pub open spec fn fresh(scope: Map<Seq<char>, Seq<char>>) -> Walk {
    Walk {
        scope,
        bindings: Set::empty(),
        requirements: Set::empty(),
        ignored: Set::empty(),
    }
}

/// The analysis of the program `prog` of the cell `me` in `scope`: the walk
/// of its statements, with the cell's own bindings taken out of its
/// requirements.
pub open spec fn analyze(prog: Seq<Stmt>, me: Seq<char>, scope: Map<Seq<char>, Seq<char>>) -> Walk {
    let w = walk_stmts(prog, me, fresh(scope));
    Walk { requirements: w.requirements.difference(w.bindings), ..w }
}

} // verus!
