//! Properties of the analysis, the topology and the planner, proved over the
//! spec functions that the executable code is verified against.

use vstd::prelude::*;
use crate::analysis::{
    alias_name, walk_aliases, walk_handlers, walk_opt_expr,
    add_ignored, analyze, bind_step, fresh, generator_targets, name_step, names_of, restore_ignored,
    walk_expr, walk_exprs, walk_generators, walk_opt, walk_stmt, walk_stmts, Walk,
};
use crate::ast::{Alias, Comprehension, ExceptHandler, Expr, ExprContext, Stmt, StmtKind};
use crate::graph::{cyclic, edge};
use crate::text::views;
use crate::topology::{cell_ids, deps_set, ids_unique, Topology};
use crate::cell::{analyzed, is_code, updated, Cell};
use crate::errors::ParseError;
use crate::names::release;

verus! {

/// How walking an expression changes the state: requirements only grow;
/// a name becomes a binding only if the scope did not hold it for another
/// cell, and then the scope maps it to the cell; existing scope entries stay; the locally
/// bound names stay the same, and nothing changes for them.
pub open spec fn expr_frame(w: Walk, w2: Walk, me: Seq<char>) -> bool {
    &&& w2.ignored == w.ignored
    &&& forall|x: Seq<char>| #[trigger] w.scope.contains_key(x) ==> w2.scope.contains_key(x) && w2.scope[x] == w.scope[x]
    &&& forall|x: Seq<char>| #[trigger] w2.scope.contains_key(x) && !w.scope.contains_key(x) ==> w2.scope[x] == me && w2.bindings.contains(x)
    &&& forall|x: Seq<char>| #[trigger] w2.bindings.contains(x) && !w.bindings.contains(x) ==> (!w.scope.contains_key(x) || w.scope[x] == me) && w2.scope.contains_key(x) && w2.scope[x] == me
    &&& forall|x: Seq<char>| #[trigger] w.bindings.contains(x) ==> w2.bindings.contains(x)
    &&& forall|x: Seq<char>| #[trigger] w.requirements.contains(x) ==> w2.requirements.contains(x)
    &&& forall|x: Seq<char>| #[trigger] w.ignored.contains(x) ==> (w2.bindings.contains(x) == w.bindings.contains(x) && w2.requirements.contains(x) == w.requirements.contains(x) && w2.scope.contains_key(x) == w.scope.contains_key(x))
}

proof fn lemma_frame_trans(a: Walk, b: Walk, c: Walk, me: Seq<char>)
    requires
        expr_frame(a, b, me),
        expr_frame(b, c, me),
    ensures
        expr_frame(a, c, me),
{
    assert forall|x: Seq<char>| #[trigger] c.scope.contains_key(x) && !a.scope.contains_key(x) implies c.scope[x] == me && c.bindings.contains(x) by {
        if b.scope.contains_key(x) {
            assert(b.scope[x] == me && b.bindings.contains(x));
        }
    }
    assert forall|x: Seq<char>| #[trigger] c.bindings.contains(x) && !a.bindings.contains(x) implies (!a.scope.contains_key(x) || a.scope[x] == me) && c.scope.contains_key(x) && c.scope[x] == me by {
        if b.bindings.contains(x) {
            assert(b.scope.contains_key(x) && b.scope[x] == me);
        } else {
            if a.scope.contains_key(x) {
                assert(b.scope.contains_key(x) && b.scope[x] == a.scope[x]);
            }
        }
    }
}

proof fn lemma_frame_refl(w: Walk, me: Seq<char>)
    ensures
        expr_frame(w, w, me),
{
}

proof fn lemma_name_frame(w: Walk, me: Seq<char>, id: Seq<char>, ctx: ExprContext)
    ensures
        expr_frame(w, name_step(w, me, id, ctx), me),
{
}

/// A locally bound scope around an inner walk.
proof fn lemma_scoped_frame(w: Walk, names: Set<Seq<char>>, inner_end: Walk, me: Seq<char>)
    requires
        expr_frame(add_ignored(w, names), inner_end, me),
    ensures
        expr_frame(w, restore_ignored(inner_end, w), me),
{
    let inner = add_ignored(w, names);
    let r = restore_ignored(inner_end, w);
    assert(inner.scope == w.scope && inner.bindings == w.bindings && inner.requirements == w.requirements);
    assert forall|x: Seq<char>| #[trigger] w.ignored.contains(x) implies (r.bindings.contains(x) == w.bindings.contains(x) && r.requirements.contains(x) == w.requirements.contains(x) && r.scope.contains_key(x) == w.scope.contains_key(x)) by {
        assert(inner.ignored.contains(x));
    }
}

pub proof fn lemma_walk_expr_frame(e: Expr, me: Seq<char>, w: Walk)
    ensures
        expr_frame(w, walk_expr(e, me, w), me),
    decreases e,
{
    match e {
        Expr::Name { id, ctx } => lemma_name_frame(w, me, id@, ctx),
        Expr::Constant => lemma_frame_refl(w, me),
        Expr::BoolOp { values } => lemma_walk_exprs_frame(values@, me, w),
        Expr::SetDisplay { elts } => lemma_walk_exprs_frame(elts@, me, w),
        Expr::JoinedStr { values } => lemma_walk_exprs_frame(values@, me, w),
        Expr::List { elts } => lemma_walk_exprs_frame(elts@, me, w),
        Expr::Tuple { elts } => lemma_walk_exprs_frame(elts@, me, w),
        Expr::UnaryOp { operand } => lemma_walk_expr_frame(*operand, me, w),
        Expr::Await { value } => lemma_walk_expr_frame(*value, me, w),
        Expr::YieldFrom { value } => lemma_walk_expr_frame(*value, me, w),
        Expr::Attribute { value, .. } => lemma_walk_expr_frame(*value, me, w),
        Expr::Subscript { value, .. } => lemma_walk_expr_frame(*value, me, w),
        Expr::Starred { value } => lemma_walk_expr_frame(*value, me, w),
        Expr::NamedExpr { target, value } => {
            let w1 = walk_expr(*target, me, w);
            lemma_walk_expr_frame(*target, me, w);
            lemma_walk_expr_frame(*value, me, w1);
            lemma_frame_trans(w, w1, walk_expr(*value, me, w1), me);
        },
        Expr::BinOp { left, right } => {
            let w1 = walk_expr(*left, me, w);
            lemma_walk_expr_frame(*left, me, w);
            lemma_walk_expr_frame(*right, me, w1);
            lemma_frame_trans(w, w1, walk_expr(*right, me, w1), me);
        },
        Expr::IfExp { test, body, orelse } => {
            let w1 = walk_expr(*test, me, w);
            let w2 = walk_expr(*body, me, w1);
            lemma_walk_expr_frame(*test, me, w);
            lemma_walk_expr_frame(*body, me, w1);
            lemma_walk_expr_frame(*orelse, me, w2);
            lemma_frame_trans(w, w1, w2, me);
            lemma_frame_trans(w, w2, walk_expr(*orelse, me, w2), me);
        },
        Expr::Dict { keys, values } => {
            let w1 = walk_exprs(keys@, me, w);
            lemma_walk_exprs_frame(keys@, me, w);
            lemma_walk_exprs_frame(values@, me, w1);
            lemma_frame_trans(w, w1, walk_exprs(values@, me, w1), me);
        },
        Expr::Compare { left, comparators } => {
            let w1 = walk_expr(*left, me, w);
            lemma_walk_expr_frame(*left, me, w);
            lemma_walk_exprs_frame(comparators@, me, w1);
            lemma_frame_trans(w, w1, walk_exprs(comparators@, me, w1), me);
        },
        Expr::Call { func, args } => {
            let w1 = walk_expr(*func, me, w);
            lemma_walk_expr_frame(*func, me, w);
            lemma_walk_exprs_frame(args@, me, w1);
            lemma_frame_trans(w, w1, walk_exprs(args@, me, w1), me);
        },
        Expr::Lambda { params, body } => {
            let inner = add_ignored(w, names_of(params@));
            lemma_walk_expr_frame(*body, me, inner);
            lemma_scoped_frame(w, names_of(params@), walk_expr(*body, me, inner), me);
        },
        Expr::ListComp { elt, generators } => {
            let inner = add_ignored(w, generator_targets(generators@));
            lemma_walk_generators_frame(generators@, me, inner);
            lemma_walk_expr_frame(*elt, me, walk_generators(generators@, me, inner));
            lemma_comp_frame(*elt, generators@, me, w);
        },
        Expr::SetComp { elt, generators } => {
            let inner = add_ignored(w, generator_targets(generators@));
            lemma_walk_generators_frame(generators@, me, inner);
            lemma_walk_expr_frame(*elt, me, walk_generators(generators@, me, inner));
            lemma_comp_frame(*elt, generators@, me, w);
        },
        Expr::GeneratorExp { elt, generators } => {
            let inner = add_ignored(w, generator_targets(generators@));
            lemma_walk_generators_frame(generators@, me, inner);
            lemma_walk_expr_frame(*elt, me, walk_generators(generators@, me, inner));
            lemma_comp_frame(*elt, generators@, me, w);
        },
        Expr::DictComp { key, value, generators } => {
            let inner = add_ignored(w, generator_targets(generators@));
            let g1 = walk_generators(generators@, me, inner);
            let g2 = walk_expr(*key, me, g1);
            lemma_walk_generators_frame(generators@, me, inner);
            lemma_walk_expr_frame(*key, me, g1);
            lemma_walk_expr_frame(*value, me, g2);
            lemma_frame_trans(inner, g1, g2, me);
            lemma_frame_trans(inner, g2, walk_expr(*value, me, g2), me);
            lemma_scoped_frame(w, generator_targets(generators@), walk_expr(*value, me, g2), me);
        },
        Expr::Yield { value } => lemma_walk_opt_frame(value, me, w),
        Expr::FormattedValue { value, format_spec } => {
            let w1 = walk_expr(*value, me, w);
            lemma_walk_expr_frame(*value, me, w);
            lemma_walk_opt_frame(format_spec, me, w1);
            lemma_frame_trans(w, w1, walk_opt(format_spec, me, w1), me);
        },
        Expr::Slice { lower, upper, step } => {
            let w1 = walk_opt(lower, me, w);
            let w2 = walk_opt(upper, me, w1);
            lemma_walk_opt_frame(lower, me, w);
            lemma_walk_opt_frame(upper, me, w1);
            lemma_walk_opt_frame(step, me, w2);
            lemma_frame_trans(w, w1, w2, me);
            lemma_frame_trans(w, w2, walk_opt(step, me, w2), me);
        },
    }
}

proof fn lemma_comp_frame(elt: Expr, generators: Seq<Comprehension>, me: Seq<char>, w: Walk)
    requires
        expr_frame(
            add_ignored(w, generator_targets(generators)),
            walk_generators(generators, me, add_ignored(w, generator_targets(generators))),
            me,
        ),
        expr_frame(
            walk_generators(generators, me, add_ignored(w, generator_targets(generators))),
            walk_expr(elt, me, walk_generators(generators, me, add_ignored(w, generator_targets(generators)))),
            me,
        ),
    ensures
        expr_frame(
            w,
            restore_ignored(
                walk_expr(elt, me, walk_generators(generators, me, add_ignored(w, generator_targets(generators)))),
                w,
            ),
            me,
        ),
{
    let inner = add_ignored(w, generator_targets(generators));
    let g1 = walk_generators(generators, me, inner);
    lemma_frame_trans(inner, g1, walk_expr(elt, me, g1), me);
    lemma_scoped_frame(w, generator_targets(generators), walk_expr(elt, me, g1), me);
}

pub proof fn lemma_walk_opt_frame(o: Option<Box<Expr>>, me: Seq<char>, w: Walk)
    ensures
        expr_frame(w, walk_opt(o, me, w), me),
    decreases o,
{
    match o {
        Some(e) => lemma_walk_expr_frame(*e, me, w),
        None => {},
    }
}

pub proof fn lemma_walk_exprs_frame(es: Seq<Expr>, me: Seq<char>, w: Walk)
    ensures
        expr_frame(w, walk_exprs(es, me, w), me),
    decreases es,
{
    if es.len() > 0 {
        let pre = es.subrange(0, es.len() - 1);
        let w1 = walk_exprs(pre, me, w);
        lemma_walk_exprs_frame(pre, me, w);
        lemma_walk_expr_frame(es[es.len() - 1], me, w1);
        lemma_frame_trans(w, w1, walk_expr(es[es.len() - 1], me, w1), me);
    }
}

pub proof fn lemma_walk_generators_frame(gs: Seq<Comprehension>, me: Seq<char>, w: Walk)
    ensures
        expr_frame(w, walk_generators(gs, me, w), me),
    decreases gs,
{
    if gs.len() > 0 {
        let pre = gs.subrange(0, gs.len() - 1);
        let g = gs[gs.len() - 1];
        let w1 = walk_generators(pre, me, w);
        let w2 = walk_expr(g.iter, me, w1);
        lemma_walk_generators_frame(pre, me, w);
        lemma_walk_expr_frame(g.iter, me, w1);
        lemma_walk_exprs_frame(g.ifs@, me, w2);
        lemma_frame_trans(w, w1, w2, me);
        lemma_frame_trans(w, w2, walk_exprs(g.ifs@, me, w2), me);
    }
}

/// How walking statements changes the state: the scope keeps every name it
/// held, and each entry either stays or now maps to the cell with the name
/// among its bindings; bindings and locally bound names only grow, and a
/// new binding maps to the cell.
pub open spec fn stmt_frame(w: Walk, w2: Walk, me: Seq<char>) -> bool {
    &&& forall|x: Seq<char>| #[trigger] w.ignored.contains(x) ==> w2.ignored.contains(x)
    &&& forall|x: Seq<char>| #[trigger] w.scope.contains_key(x) ==> w2.scope.contains_key(x)
    &&& forall|x: Seq<char>| #[trigger] w2.scope.contains_key(x) ==> (w.scope.contains_key(x) && w2.scope[x] == w.scope[x]) || (w2.scope[x] == me && w2.bindings.contains(x))
    &&& forall|x: Seq<char>| #[trigger] w2.bindings.contains(x) ==> w.bindings.contains(x) || (w2.scope.contains_key(x) && w2.scope[x] == me)
    &&& forall|x: Seq<char>| #[trigger] w.bindings.contains(x) ==> w2.bindings.contains(x)
}

proof fn lemma_stmt_frame_trans(a: Walk, b: Walk, c: Walk, me: Seq<char>)
    requires
        stmt_frame(a, b, me),
        stmt_frame(b, c, me),
    ensures
        stmt_frame(a, c, me),
{
    assert forall|x: Seq<char>| #[trigger] c.scope.contains_key(x) implies (a.scope.contains_key(x) && c.scope[x] == a.scope[x]) || (c.scope[x] == me && c.bindings.contains(x)) by {
        if b.scope.contains_key(x) && c.scope[x] == b.scope[x] {
            if !(a.scope.contains_key(x) && b.scope[x] == a.scope[x]) {
                assert(b.scope[x] == me && b.bindings.contains(x));
            }
        }
    }
    assert forall|x: Seq<char>| #[trigger] c.bindings.contains(x) implies a.bindings.contains(x) || (c.scope.contains_key(x) && c.scope[x] == me) by {
        if b.bindings.contains(x) && !a.bindings.contains(x) {
            assert(b.scope.contains_key(x) && b.scope[x] == me);
            assert(c.scope.contains_key(x));
        }
    }
}

proof fn lemma_expr_stmt_frame(w: Walk, w2: Walk, me: Seq<char>)
    requires
        expr_frame(w, w2, me),
    ensures
        stmt_frame(w, w2, me),
{
    assert forall|x: Seq<char>| #[trigger] w2.scope.contains_key(x) implies (w.scope.contains_key(x) && w2.scope[x] == w.scope[x]) || (w2.scope[x] == me && w2.bindings.contains(x)) by {
        if !w.scope.contains_key(x) {
            assert(w2.scope[x] == me && w2.bindings.contains(x));
        }
    }
}

proof fn lemma_walk_expr_stmt_frame(e: Expr, me: Seq<char>, w: Walk)
    ensures
        stmt_frame(w, walk_expr(e, me, w), me),
{
    lemma_walk_expr_frame(e, me, w);
    lemma_expr_stmt_frame(w, walk_expr(e, me, w), me);
}

proof fn lemma_walk_exprs_stmt_frame(es: Seq<Expr>, me: Seq<char>, w: Walk)
    ensures
        stmt_frame(w, walk_exprs(es, me, w), me),
{
    lemma_walk_exprs_frame(es, me, w);
    lemma_expr_stmt_frame(w, walk_exprs(es, me, w), me);
}

proof fn lemma_walk_opt_expr_stmt_frame(o: Option<Expr>, me: Seq<char>, w: Walk)
    ensures
        stmt_frame(w, walk_opt_expr(o, me, w), me),
{
    match o {
        Some(e) => lemma_walk_expr_stmt_frame(e, me, w),
        None => {},
    }
}

proof fn lemma_bind_frame(w: Walk, me: Seq<char>, name: Seq<char>)
    ensures
        stmt_frame(w, bind_step(w, me, name), me),
{
}

proof fn lemma_walk_aliases_frame(names: Seq<Alias>, me: Seq<char>, w: Walk)
    ensures
        stmt_frame(w, walk_aliases(names, me, w), me),
    decreases names.len(),
{
    if names.len() > 0 {
        let w1 = walk_aliases(names.drop_last(), me, w);
        lemma_walk_aliases_frame(names.drop_last(), me, w);
        lemma_bind_frame(w1, me, alias_name(names.last()));
        lemma_stmt_frame_trans(w, w1, bind_step(w1, me, alias_name(names.last())), me);
    }
}

pub proof fn lemma_walk_stmt_frame(s: Stmt, me: Seq<char>, w: Walk)
    ensures
        stmt_frame(w, walk_stmt(s, me, w), me),
    decreases s,
{
    match s.kind {
        StmtKind::FunctionDef { name, params, body, .. } => {
            let w1 = add_ignored(w, names_of(params@));
            let w2 = bind_step(w1, me, name@);
            assert(stmt_frame(w, w1, me));
            lemma_bind_frame(w1, me, name@);
            lemma_stmt_frame_trans(w, w1, w2, me);
            lemma_walk_stmts_frame(body@, me, w2);
            lemma_stmt_frame_trans(w, w2, walk_stmts(body@, me, w2), me);
        },
        StmtKind::ClassDef { name, bases, body, decorators } => {
            let w1 = bind_step(w, me, name@);
            let w2 = walk_exprs(bases@, me, w1);
            let w3 = walk_stmts(body@, me, w2);
            lemma_bind_frame(w, me, name@);
            lemma_walk_exprs_stmt_frame(bases@, me, w1);
            lemma_walk_stmts_frame(body@, me, w2);
            lemma_walk_exprs_stmt_frame(decorators@, me, w3);
            lemma_stmt_frame_trans(w, w1, w2, me);
            lemma_stmt_frame_trans(w, w2, w3, me);
            lemma_stmt_frame_trans(w, w3, walk_exprs(decorators@, me, w3), me);
        },
        StmtKind::Return { value } => lemma_walk_opt_expr_stmt_frame(value, me, w),
        StmtKind::Delete { targets } => lemma_walk_exprs_stmt_frame(targets@, me, w),
        StmtKind::Assign { targets, value } => {
            let w1 = walk_exprs(targets@, me, w);
            lemma_walk_exprs_stmt_frame(targets@, me, w);
            lemma_walk_expr_stmt_frame(value, me, w1);
            lemma_stmt_frame_trans(w, w1, walk_expr(value, me, w1), me);
        },
        StmtKind::AugAssign { target, value } => {
            let w1 = walk_expr(target, me, w);
            lemma_walk_expr_stmt_frame(target, me, w);
            lemma_walk_expr_stmt_frame(value, me, w1);
            lemma_stmt_frame_trans(w, w1, walk_expr(value, me, w1), me);
        },
        StmtKind::AnnAssign { target, annotation, value } => {
            let w1 = walk_expr(target, me, w);
            let w2 = walk_expr(annotation, me, w1);
            lemma_walk_expr_stmt_frame(target, me, w);
            lemma_walk_expr_stmt_frame(annotation, me, w1);
            lemma_walk_opt_expr_stmt_frame(value, me, w2);
            lemma_stmt_frame_trans(w, w1, w2, me);
            lemma_stmt_frame_trans(w, w2, walk_opt_expr(value, me, w2), me);
        },
        StmtKind::For { body, orelse, .. } => {
            let w1 = walk_stmts(body@, me, w);
            lemma_walk_stmts_frame(body@, me, w);
            lemma_walk_stmts_frame(orelse@, me, w1);
            lemma_stmt_frame_trans(w, w1, walk_stmts(orelse@, me, w1), me);
        },
        StmtKind::While { test, body, orelse } => {
            let w1 = walk_expr(test, me, w);
            let w2 = walk_stmts(body@, me, w1);
            lemma_walk_expr_stmt_frame(test, me, w);
            lemma_walk_stmts_frame(body@, me, w1);
            lemma_walk_stmts_frame(orelse@, me, w2);
            lemma_stmt_frame_trans(w, w1, w2, me);
            lemma_stmt_frame_trans(w, w2, walk_stmts(orelse@, me, w2), me);
        },
        StmtKind::If { test, body, orelse } => {
            let w1 = walk_expr(test, me, w);
            let w2 = walk_stmts(body@, me, w1);
            lemma_walk_expr_stmt_frame(test, me, w);
            lemma_walk_stmts_frame(body@, me, w1);
            lemma_walk_stmts_frame(orelse@, me, w2);
            lemma_stmt_frame_trans(w, w1, w2, me);
            lemma_stmt_frame_trans(w, w2, walk_stmts(orelse@, me, w2), me);
        },
        StmtKind::With { items, body, .. } => {
            let w1 = walk_exprs(items@, me, w);
            lemma_walk_exprs_stmt_frame(items@, me, w);
            lemma_walk_stmts_frame(body@, me, w1);
            lemma_stmt_frame_trans(w, w1, walk_stmts(body@, me, w1), me);
        },
        StmtKind::Match { subject, cases } => {
            let w1 = walk_expr(subject, me, w);
            lemma_walk_expr_stmt_frame(subject, me, w);
            lemma_walk_stmts_frame(cases@, me, w1);
            lemma_stmt_frame_trans(w, w1, walk_stmts(cases@, me, w1), me);
        },
        StmtKind::Raise { exc, cause } => {
            let w1 = walk_opt_expr(exc, me, w);
            lemma_walk_opt_expr_stmt_frame(exc, me, w);
            lemma_walk_opt_expr_stmt_frame(cause, me, w1);
            lemma_stmt_frame_trans(w, w1, walk_opt_expr(cause, me, w1), me);
        },
        StmtKind::Try { body, handlers, orelse, finalbody } => {
            let w1 = walk_stmts(body@, me, w);
            let w2 = walk_handlers(handlers@, me, w1);
            let w3 = walk_stmts(orelse@, me, w2);
            lemma_walk_stmts_frame(body@, me, w);
            lemma_walk_handlers_frame(handlers@, me, w1);
            lemma_walk_stmts_frame(orelse@, me, w2);
            lemma_walk_stmts_frame(finalbody@, me, w3);
            lemma_stmt_frame_trans(w, w1, w2, me);
            lemma_stmt_frame_trans(w, w2, w3, me);
            lemma_stmt_frame_trans(w, w3, walk_stmts(finalbody@, me, w3), me);
        },
        StmtKind::Assert { test, msg } => {
            let w1 = walk_expr(test, me, w);
            lemma_walk_expr_stmt_frame(test, me, w);
            lemma_walk_opt_expr_stmt_frame(msg, me, w1);
            lemma_stmt_frame_trans(w, w1, walk_opt_expr(msg, me, w1), me);
        },
        StmtKind::Import { names } => lemma_walk_aliases_frame(names@, me, w),
        StmtKind::Expr { value } => lemma_walk_expr_stmt_frame(value, me, w),
        _ => {},
    }
}

pub proof fn lemma_walk_stmts_frame(ss: Seq<Stmt>, me: Seq<char>, w: Walk)
    ensures
        stmt_frame(w, walk_stmts(ss, me, w), me),
    decreases ss,
{
    if ss.len() > 0 {
        let pre = ss.subrange(0, ss.len() - 1);
        let w1 = walk_stmts(pre, me, w);
        lemma_walk_stmts_frame(pre, me, w);
        lemma_walk_stmt_frame(ss[ss.len() - 1], me, w1);
        lemma_stmt_frame_trans(w, w1, walk_stmt(ss[ss.len() - 1], me, w1), me);
    }
}

pub proof fn lemma_walk_handlers_frame(hs: Seq<ExceptHandler>, me: Seq<char>, w: Walk)
    ensures
        stmt_frame(w, walk_handlers(hs, me, w), me),
    decreases hs,
{
    if hs.len() > 0 {
        let pre = hs.subrange(0, hs.len() - 1);
        let h = hs[hs.len() - 1];
        let w1 = walk_handlers(pre, me, w);
        let w2 = walk_opt_expr(h.kind, me, w1);
        lemma_walk_handlers_frame(pre, me, w);
        lemma_walk_opt_expr_stmt_frame(h.kind, me, w1);
        lemma_walk_stmts_frame(h.body@, me, w2);
        lemma_stmt_frame_trans(w, w1, w2, me);
        lemma_stmt_frame_trans(w, w2, walk_stmts(h.body@, me, w2), me);
    }
}

/// The names an expression binds for its own body only: a lambda's
/// parameters, a comprehension's targets.
pub open spec fn binders(e: Expr) -> Set<Seq<char>> {
    match e {
        Expr::Lambda { params, .. } => names_of(params@),
        Expr::ListComp { generators, .. } => generator_targets(generators@),
        Expr::SetComp { generators, .. } => generator_targets(generators@),
        Expr::GeneratorExp { generators, .. } => generator_targets(generators@),
        Expr::DictComp { generators, .. } => generator_targets(generators@),
        _ => Set::empty(),
    }
}

/// Lambda parameters and comprehension targets stay local: walking the
/// lambda or comprehension leaves each of them a binding or a requirement
/// of the cell exactly when it was one before.
pub proof fn law_binders_stay_local(e: Expr, me: Seq<char>, w: Walk)
    ensures
        forall|p: Seq<char>| #[trigger] binders(e).contains(p) ==> {
            let w2 = walk_expr(e, me, w);
            &&& w2.bindings.contains(p) == w.bindings.contains(p)
            &&& w2.requirements.contains(p) == w.requirements.contains(p)
        },
{
    match e {
        Expr::Lambda { params, body } => {
            let inner = add_ignored(w, names_of(params@));
            lemma_walk_expr_frame(*body, me, inner);
            assert forall|p: Seq<char>| #[trigger] binders(e).contains(p) implies inner.ignored.contains(p) by {}
        },
        Expr::ListComp { elt, generators } => {
            let inner = add_ignored(w, generator_targets(generators@));
            lemma_walk_generators_frame(generators@, me, inner);
            lemma_walk_expr_frame(*elt, me, walk_generators(generators@, me, inner));
            lemma_frame_trans(inner, walk_generators(generators@, me, inner), walk_expr(*elt, me, walk_generators(generators@, me, inner)), me);
            assert forall|p: Seq<char>| #[trigger] binders(e).contains(p) implies inner.ignored.contains(p) by {}
        },
        Expr::SetComp { elt, generators } => {
            let inner = add_ignored(w, generator_targets(generators@));
            lemma_walk_generators_frame(generators@, me, inner);
            lemma_walk_expr_frame(*elt, me, walk_generators(generators@, me, inner));
            lemma_frame_trans(inner, walk_generators(generators@, me, inner), walk_expr(*elt, me, walk_generators(generators@, me, inner)), me);
            assert forall|p: Seq<char>| #[trigger] binders(e).contains(p) implies inner.ignored.contains(p) by {}
        },
        Expr::GeneratorExp { elt, generators } => {
            let inner = add_ignored(w, generator_targets(generators@));
            lemma_walk_generators_frame(generators@, me, inner);
            lemma_walk_expr_frame(*elt, me, walk_generators(generators@, me, inner));
            lemma_frame_trans(inner, walk_generators(generators@, me, inner), walk_expr(*elt, me, walk_generators(generators@, me, inner)), me);
            assert forall|p: Seq<char>| #[trigger] binders(e).contains(p) implies inner.ignored.contains(p) by {}
        },
        Expr::DictComp { key, value, generators } => {
            let inner = add_ignored(w, generator_targets(generators@));
            let g1 = walk_generators(generators@, me, inner);
            let g2 = walk_expr(*key, me, g1);
            lemma_walk_generators_frame(generators@, me, inner);
            lemma_walk_expr_frame(*key, me, g1);
            lemma_walk_expr_frame(*value, me, g2);
            lemma_frame_trans(inner, g1, g2, me);
            lemma_frame_trans(inner, g2, walk_expr(*value, me, g2), me);
            assert forall|p: Seq<char>| #[trigger] binders(e).contains(p) implies inner.ignored.contains(p) by {}
        },
        _ => {},
    }
}

/// A cell whose program is the assignment `x = value`, where the scope
/// gives `x` to another cell, requires `x` and does not bind it; the other
/// cell stays the owner of `x`.
pub proof fn law_assign_to_external_name(s: Stmt, targets: Vec<Expr>, value: Expr, x: String, me: Seq<char>, scope: Map<Seq<char>, Seq<char>>)
    requires
        s.kind == (StmtKind::Assign { targets, value }),
        targets@ == seq![Expr::Name { id: x, ctx: ExprContext::Store }],
        scope.contains_key(x@),
        scope[x@] != me,
    ensures
        analyze(seq![s], me, scope).requirements.contains(x@),
        !analyze(seq![s], me, scope).bindings.contains(x@),
        analyze(seq![s], me, scope).scope[x@] == scope[x@],
{
    let prog = seq![s];
    let w0 = fresh(scope);
    assert(prog.subrange(0, 0) =~= Seq::<Stmt>::empty());
    assert(walk_stmts(prog.subrange(0, 0), me, w0) == w0);
    assert(prog[0] == s);
    assert(walk_stmts(prog, me, w0) == walk_stmt(s, me, w0));
    let ts = targets@;
    assert(ts.subrange(0, 0) =~= Seq::<Expr>::empty());
    assert(walk_exprs(ts.subrange(0, 0), me, w0) == w0);
    let name = Expr::Name { id: x, ctx: ExprContext::Store };
    assert(ts[0] == name);
    assert(walk_expr(name, me, w0) == name_step(w0, me, x@, ExprContext::Store));
    let w1 = walk_exprs(ts, me, w0);
    assert(w1 == name_step(w0, me, x@, ExprContext::Store));
    assert(w1.requirements.contains(x@));
    assert(walk_stmt(s, me, w0) == walk_expr(value, me, w1));
    lemma_walk_expr_frame(value, me, w1);
}

/// A cell whose program is `import x as y` binds `y` and nothing else.
pub proof fn law_import_alias_binds_alias(s: Stmt, names: Vec<Alias>, a: Alias, y: String, me: Seq<char>, scope: Map<Seq<char>, Seq<char>>)
    requires
        s.kind == (StmtKind::Import { names }),
        names@ == seq![a],
        a.asname == Some(y),
    ensures
        analyze(seq![s], me, scope).bindings == set![y@],
        analyze(seq![s], me, scope).scope[y@] == me,
{
    let prog = seq![s];
    let w0 = fresh(scope);
    assert(prog.subrange(0, 0) =~= Seq::<Stmt>::empty());
    assert(walk_stmts(prog.subrange(0, 0), me, w0) == w0);
    assert(prog[0] == s);
    assert(walk_stmts(prog, me, w0) == walk_stmt(s, me, w0));
    assert(names@.drop_last() =~= Seq::<Alias>::empty());
    assert(walk_aliases(names@.drop_last(), me, w0) == w0);
    assert(alias_name(a) == y@);
    assert(walk_aliases(names@, me, w0) == bind_step(w0, me, y@));
    assert(walk_stmt(s, me, w0) == bind_step(w0, me, y@));
    assert(analyze(prog, me, scope).bindings =~= set![y@]);
}

/// A cell's requirements and bindings never overlap.
pub proof fn law_requirements_exclude_bindings(prog: Seq<Stmt>, me: Seq<char>, scope: Map<Seq<char>, Seq<char>>)
    ensures
        analyze(prog, me, scope).requirements.disjoint(analyze(prog, me, scope).bindings),
{
}

/// In a well-formed topology the display order lists every cell exactly
/// once, and the dependency graph has no cycle.
pub proof fn law_topology_invariants(t: Topology, scope: Map<Seq<char>, Seq<char>>)
    requires
        t.wf(scope),
    ensures
        views(t.display_order@).no_duplicates(),
        views(t.display_order@).to_set() == cell_ids(t.cells@).to_set(),
        !cyclic(t.dependencies@),
{
}

/// Each dependency of a cell binds a name the cell requires.
pub proof fn law_dependency_has_reason(t: Topology, scope: Map<Seq<char>, Seq<char>>, i: int, d: Seq<char>)
    requires
        t.wf(scope),
        0 <= i < t.cells@.len(),
        edge(t.dependencies@, t.cells@[i].uuid@, d),
    ensures
        exists|name: Seq<char>| #[trigger] t.cells@[i].required@.contains(name) && scope.contains_key(name) && scope[name] == d,
{
    assert(t.dependencies@[t.cells@[i].uuid@].to_set().contains(d));
    assert(deps_set(t.cells@[i], scope, t.cells@).contains(d));
}

/// Planning twice on the same topology gives the same answer.
pub proof fn law_plan_deterministic(t: Topology, id: Seq<char>, r1: Result<Vec<String>, crate::errors::TopologyErrors>, r2: Result<Vec<String>, crate::errors::TopologyErrors>)
    requires
        t.plan_result(id, r1),
        t.plan_result(id, r2),
    ensures
        r1.is_ok() == r2.is_ok(),
        r1 matches Ok(v1) ==> r2 matches Ok(v2) && views(v1@) == views(v2@),
        r1.is_err() ==> r1 == r2,
{
}

/// Every name in `scope` is held by a cell among `cells` that binds it.
pub open spec fn owners_bind(cells: Seq<Cell>, scope: Map<Seq<char>, Seq<char>>) -> bool {
    forall|n: Seq<char>| #[trigger] scope.contains_key(n) ==> exists|i: int|
        0 <= i < cells.len() && cells[i].uuid@ == scope[n] && #[trigger] cells[i].bindings@.contains(n)
}

/// The dependencies of `c` as the scope alone gives them: the cells that
/// hold a name `c` requires, other than `c`.
pub open spec fn scope_deps(c: Cell, scope: Map<Seq<char>, Seq<char>>) -> Set<Seq<char>> {
    Set::new(
        |d: Seq<char>|
            exists|r: Seq<char>| #[trigger] c.required@.contains(r) && scope.contains_key(r) && scope[r] == d && d != c.uuid@,
    )
}

/// When every name of the scope is held by a cell that binds it, the
/// dependencies the topology keeps are exactly those the scope gives.
pub proof fn law_deps_from_scope_alone(c: Cell, scope: Map<Seq<char>, Seq<char>>, cells: Seq<Cell>)
    requires
        owners_bind(cells, scope),
    ensures
        deps_set(c, scope, cells) == scope_deps(c, scope),
{
    assert forall|d: Seq<char>| scope_deps(c, scope).contains(d) implies deps_set(c, scope, cells).contains(d) by {
        let r = choose|r: Seq<char>| #[trigger] c.required@.contains(r) && scope.contains_key(r) && scope[r] == d && d != c.uuid@;
        let i = choose|i: int| 0 <= i < cells.len() && cells[i].uuid@ == scope[r] && #[trigger] cells[i].bindings@.contains(r);
        assert(cell_ids(cells)[i] == d);
    }
    assert(deps_set(c, scope, cells) =~= scope_deps(c, scope));
}

/// In a topology kept with a scope whose every name is held by a cell that
/// binds it, the dependencies of each cell are those the scope gives, and
/// its dependents are the cells whose dependencies include it.
pub proof fn law_graph_from_scope(t: Topology, scope: Map<Seq<char>, Seq<char>>)
    requires
        t.wf(scope),
        owners_bind(t.cells@, scope),
    ensures
        forall|i: int| 0 <= i < t.cells@.len() ==> #[trigger] t.dependencies@[t.cells@[i].uuid@].to_set() == scope_deps(t.cells@[i], scope),
        forall|i: int| 0 <= i < t.cells@.len() ==> #[trigger] t.dependents@[t.cells@[i].uuid@].to_set() == Set::new(
            |x: Seq<char>| exists|j: int| 0 <= j < t.cells@.len() && #[trigger] t.cells@[j].uuid@ == x && scope_deps(t.cells@[j], scope).contains(t.cells@[i].uuid@),
        ),
{
    assert forall|j: int| 0 <= j < t.cells@.len() implies #[trigger] deps_set(t.cells@[j], scope, t.cells@) == scope_deps(t.cells@[j], scope) by {
        law_deps_from_scope_alone(t.cells@[j], scope, t.cells@);
    }
    assert forall|i: int| 0 <= i < t.cells@.len() implies #[trigger] t.dependents@[t.cells@[i].uuid@].to_set() == Set::new(
        |x: Seq<char>| exists|j: int| 0 <= j < t.cells@.len() && #[trigger] t.cells@[j].uuid@ == x && scope_deps(t.cells@[j], scope).contains(t.cells@[i].uuid@),
    ) by {
        assert(t.dependents@[t.cells@[i].uuid@].to_set() == crate::topology::rdeps_set(t.cells@[i].uuid@, scope, t.cells@));
        assert(crate::topology::rdeps_set(t.cells@[i].uuid@, scope, t.cells@) =~= Set::new(
            |x: Seq<char>| exists|j: int| 0 <= j < t.cells@.len() && #[trigger] t.cells@[j].uuid@ == x && scope_deps(t.cells@[j], scope).contains(t.cells@[i].uuid@),
        ));
    }
}

/// A cell analyzed in a scope that held no name for it ends up holding
/// exactly the names it binds.
pub proof fn law_cell_holds_its_bindings(prog: Seq<Stmt>, me: Seq<char>, scope_before: Map<Seq<char>, Seq<char>>)
    requires
        forall|n: Seq<char>| #[trigger] scope_before.contains_key(n) ==> scope_before[n] != me,
    ensures
        forall|n: Seq<char>| (#[trigger] analyze(prog, me, scope_before).scope.contains_key(n) && analyze(prog, me, scope_before).scope[n] == me)
            <==> analyze(prog, me, scope_before).bindings.contains(n),
{
    let w0 = fresh(scope_before);
    lemma_walk_stmts_frame(prog, me, w0);
    let w = walk_stmts(prog, me, w0);
    assert(analyze(prog, me, scope_before).scope == w.scope && analyze(prog, me, scope_before).bindings == w.bindings);
    assert forall|n: Seq<char>| (#[trigger] w.scope.contains_key(n) && w.scope[n] == me) <==> w.bindings.contains(n) by {
        if w.scope.contains_key(n) && w.scope[n] == me {
            if w0.scope.contains_key(n) && w.scope[n] == w0.scope[n] {
                assert(scope_before[n] != me);
            }
        }
        if w.bindings.contains(n) {
            assert(!w0.bindings.contains(n));
        }
    }
}

/// A new cell analyzed in the scope keeps every name of the scope held by a
/// cell that binds it.
pub proof fn law_new_cell_keeps_owners(
    cells: Seq<Cell>,
    c: Cell,
    prog: Seq<Stmt>,
    scope_before: Map<Seq<char>, Seq<char>>,
    scope_after: Map<Seq<char>, Seq<char>>,
)
    requires
        owners_bind(cells, scope_before),
        analyzed(c, prog, scope_before, scope_after),
    ensures
        owners_bind(cells.push(c), scope_after),
{
    let w = walk_stmts(prog, c.uuid@, fresh(scope_before));
    lemma_walk_stmts_frame(prog, c.uuid@, fresh(scope_before));
    let cells2 = cells.push(c);
    assert forall|n: Seq<char>| #[trigger] scope_after.contains_key(n) implies exists|i: int|
        0 <= i < cells2.len() && cells2[i].uuid@ == scope_after[n] && #[trigger] cells2[i].bindings@.contains(n) by {
        if scope_before.contains_key(n) && scope_after[n] == scope_before[n] {
            let i = choose|i: int| 0 <= i < cells.len() && cells[i].uuid@ == scope_before[n] && #[trigger] cells[i].bindings@.contains(n);
            assert(cells2[i] == cells[i]);
        } else {
            assert(scope_after[n] == c.uuid@ && w.bindings.contains(n));
            assert(cells2[cells.len() as int] == c);
        }
    }
}

/// Updating a cell's content keeps every name of the scope held by a cell
/// that binds it, whether the new content parsed or not.
pub proof fn law_update_keeps_owners(
    cells: Seq<Cell>,
    k: int,
    after: Cell,
    content: Seq<char>,
    parsed: Result<Vec<Stmt>, ParseError>,
    scope_before: Map<Seq<char>, Seq<char>>,
    scope_after: Map<Seq<char>, Seq<char>>,
    r: Result<(), ParseError>,
)
    requires
        ids_unique(cells),
        0 <= k < cells.len(),
        owners_bind(cells, scope_before),
        updated(cells[k], after, content, parsed, scope_before, scope_after, r),
    ensures
        owners_bind(cells.update(k, after), scope_after),
{
    let id = cells[k].uuid@;
    let released = release(scope_before, cells[k].bindings@, id);
    let cells2 = cells.update(k, after);
    // in the released scope no name is held by the updated cell
    assert forall|n: Seq<char>| #[trigger] released.contains_key(n) implies exists|i: int|
        0 <= i < cells.len() && i != k && cells[i].uuid@ == released[n] && #[trigger] cells[i].bindings@.contains(n) by {
        let i = choose|i: int| 0 <= i < cells.len() && cells[i].uuid@ == scope_before[n] && #[trigger] cells[i].bindings@.contains(n);
        if i == k {
            assert(!released.contains_key(n));
        }
    }
    if is_code(cells[k].cell_type) && parsed.is_ok() {
        let prog = parsed->Ok_0@;
        lemma_walk_stmts_frame(prog, id, fresh(released));
        let w = walk_stmts(prog, id, fresh(released));
        assert forall|n: Seq<char>| #[trigger] scope_after.contains_key(n) implies exists|i: int|
            0 <= i < cells2.len() && cells2[i].uuid@ == scope_after[n] && #[trigger] cells2[i].bindings@.contains(n) by {
            if released.contains_key(n) && scope_after[n] == released[n] {
                let i = choose|i: int| 0 <= i < cells.len() && i != k && cells[i].uuid@ == released[n] && #[trigger] cells[i].bindings@.contains(n);
                assert(cells2[i] == cells[i]);
            } else {
                assert(scope_after[n] == id && w.bindings.contains(n));
                assert(cells2[k] == after);
            }
        }
    } else {
        assert forall|n: Seq<char>| #[trigger] scope_after.contains_key(n) implies exists|i: int|
            0 <= i < cells2.len() && cells2[i].uuid@ == scope_after[n] && #[trigger] cells2[i].bindings@.contains(n) by {
            let i = choose|i: int| 0 <= i < cells.len() && i != k && cells[i].uuid@ == released[n] && #[trigger] cells[i].bindings@.contains(n);
            assert(cells2[i] == cells[i]);
        }
    }
}

/// Removing a cell and releasing its bindings keeps every name of the
/// scope held by a cell that binds it.
pub proof fn law_remove_keeps_owners(cells: Seq<Cell>, k: int, scope_before: Map<Seq<char>, Seq<char>>)
    requires
        ids_unique(cells),
        0 <= k < cells.len(),
        owners_bind(cells, scope_before),
    ensures
        owners_bind(cells.remove(k), release(scope_before, cells[k].bindings@, cells[k].uuid@)),
{
    let released = release(scope_before, cells[k].bindings@, cells[k].uuid@);
    let rest = cells.remove(k);
    assert forall|n: Seq<char>| #[trigger] released.contains_key(n) implies exists|i: int|
        0 <= i < rest.len() && rest[i].uuid@ == released[n] && #[trigger] rest[i].bindings@.contains(n) by {
        let i = choose|i: int| 0 <= i < cells.len() && cells[i].uuid@ == scope_before[n] && #[trigger] cells[i].bindings@.contains(n);
        if i == k {
            assert(!released.contains_key(n));
        }
        let j = if i < k { i } else { i - 1 };
        assert(rest[j] == cells[i]);
    }
}

/// Two walks of the same code, one from a scope that held the names `o`
/// for other cells and one from the same scope without them, stay in step:
/// they agree on every other name; for a name of `o` the second may bind it
/// where the first records it as a requirement.
pub open spec fn in_step(u1: Walk, u2: Walk, me: Seq<char>, o: Set<Seq<char>>) -> bool {
    &&& u1.ignored == u2.ignored
    &&& forall|x: Seq<char>| !o.contains(x) ==> (#[trigger] u1.scope.contains_key(x) == u2.scope.contains_key(x))
        && (u1.scope.contains_key(x) ==> u1.scope[x] == u2.scope[x])
    &&& forall|x: Seq<char>| #[trigger] o.contains(x) ==> u1.scope.contains_key(x)
        && (u2.scope.contains_key(x) ==> u2.scope[x] == me)
        && (u1.scope[x] == me ==> u2.scope.contains_key(x))
    &&& forall|x: Seq<char>| #[trigger] u1.bindings.contains(x) ==> u2.bindings.contains(x)
    &&& forall|x: Seq<char>| #[trigger] u2.bindings.contains(x) && !u1.bindings.contains(x) ==> o.contains(x)
    &&& forall|x: Seq<char>| #[trigger] u2.requirements.contains(x) ==> u1.requirements.contains(x)
    &&& forall|x: Seq<char>| #[trigger] u1.requirements.contains(x) && !u2.requirements.contains(x) ==> o.contains(x)
}

proof fn lemma_step_name(u1: Walk, u2: Walk, me: Seq<char>, o: Set<Seq<char>>, id: Seq<char>, ctx: ExprContext)
    requires
        in_step(u1, u2, me, o),
    ensures
        in_step(name_step(u1, me, id, ctx), name_step(u2, me, id, ctx), me, o),
{
    if o.contains(id) {
        assert(u1.scope.contains_key(id));
    } else {
        assert(u1.scope.contains_key(id) == u2.scope.contains_key(id));
    }
}

proof fn lemma_step_bind(u1: Walk, u2: Walk, me: Seq<char>, o: Set<Seq<char>>, name: Seq<char>)
    requires
        in_step(u1, u2, me, o),
    ensures
        in_step(bind_step(u1, me, name), bind_step(u2, me, name), me, o),
{
}

proof fn lemma_step_scoped(u1: Walk, u2: Walk, e1: Walk, e2: Walk, me: Seq<char>, o: Set<Seq<char>>, names: Set<Seq<char>>)
    requires
        in_step(u1, u2, me, o),
        in_step(e1, e2, me, o),
    ensures
        in_step(add_ignored(u1, names), add_ignored(u2, names), me, o),
        in_step(restore_ignored(e1, u1), restore_ignored(e2, u2), me, o),
{
}

pub proof fn lemma_step_expr(e: Expr, me: Seq<char>, o: Set<Seq<char>>, u1: Walk, u2: Walk)
    requires
        in_step(u1, u2, me, o),
    ensures
        in_step(walk_expr(e, me, u1), walk_expr(e, me, u2), me, o),
    decreases e,
{
    match e {
        Expr::Name { id, ctx } => lemma_step_name(u1, u2, me, o, id@, ctx),
        Expr::Constant => {},
        Expr::BoolOp { values } => lemma_step_exprs(values@, me, o, u1, u2),
        Expr::SetDisplay { elts } => lemma_step_exprs(elts@, me, o, u1, u2),
        Expr::JoinedStr { values } => lemma_step_exprs(values@, me, o, u1, u2),
        Expr::List { elts } => lemma_step_exprs(elts@, me, o, u1, u2),
        Expr::Tuple { elts } => lemma_step_exprs(elts@, me, o, u1, u2),
        Expr::UnaryOp { operand } => lemma_step_expr(*operand, me, o, u1, u2),
        Expr::Await { value } => lemma_step_expr(*value, me, o, u1, u2),
        Expr::YieldFrom { value } => lemma_step_expr(*value, me, o, u1, u2),
        Expr::Attribute { value, .. } => lemma_step_expr(*value, me, o, u1, u2),
        Expr::Subscript { value, .. } => lemma_step_expr(*value, me, o, u1, u2),
        Expr::Starred { value } => lemma_step_expr(*value, me, o, u1, u2),
        Expr::NamedExpr { target, value } => {
            lemma_step_expr(*target, me, o, u1, u2);
            lemma_step_expr(*value, me, o, walk_expr(*target, me, u1), walk_expr(*target, me, u2));
        },
        Expr::BinOp { left, right } => {
            lemma_step_expr(*left, me, o, u1, u2);
            lemma_step_expr(*right, me, o, walk_expr(*left, me, u1), walk_expr(*left, me, u2));
        },
        Expr::IfExp { test, body, orelse } => {
            let (a1, a2) = (walk_expr(*test, me, u1), walk_expr(*test, me, u2));
            lemma_step_expr(*test, me, o, u1, u2);
            lemma_step_expr(*body, me, o, a1, a2);
            lemma_step_expr(*orelse, me, o, walk_expr(*body, me, a1), walk_expr(*body, me, a2));
        },
        Expr::Dict { keys, values } => {
            lemma_step_exprs(keys@, me, o, u1, u2);
            lemma_step_exprs(values@, me, o, walk_exprs(keys@, me, u1), walk_exprs(keys@, me, u2));
        },
        Expr::Compare { left, comparators } => {
            lemma_step_expr(*left, me, o, u1, u2);
            lemma_step_exprs(comparators@, me, o, walk_expr(*left, me, u1), walk_expr(*left, me, u2));
        },
        Expr::Call { func, args } => {
            lemma_step_expr(*func, me, o, u1, u2);
            lemma_step_exprs(args@, me, o, walk_expr(*func, me, u1), walk_expr(*func, me, u2));
        },
        Expr::Lambda { params, body } => {
            let names = names_of(params@);
            lemma_step_scoped(u1, u2, u1, u2, me, o, names);
            let (i1, i2) = (add_ignored(u1, names), add_ignored(u2, names));
            lemma_step_expr(*body, me, o, i1, i2);
            lemma_step_scoped(u1, u2, walk_expr(*body, me, i1), walk_expr(*body, me, i2), me, o, names);
        },
        Expr::ListComp { elt, generators } => {
            let names = generator_targets(generators@);
            lemma_step_scoped(u1, u2, u1, u2, me, o, names);
            let (i1, i2) = (add_ignored(u1, names), add_ignored(u2, names));
            lemma_step_generators(generators@, me, o, i1, i2);
            let (g1, g2) = (walk_generators(generators@, me, i1), walk_generators(generators@, me, i2));
            lemma_step_expr(*elt, me, o, g1, g2);
            lemma_step_scoped(u1, u2, walk_expr(*elt, me, g1), walk_expr(*elt, me, g2), me, o, names);
        },
        Expr::SetComp { elt, generators } => {
            let names = generator_targets(generators@);
            lemma_step_scoped(u1, u2, u1, u2, me, o, names);
            let (i1, i2) = (add_ignored(u1, names), add_ignored(u2, names));
            lemma_step_generators(generators@, me, o, i1, i2);
            let (g1, g2) = (walk_generators(generators@, me, i1), walk_generators(generators@, me, i2));
            lemma_step_expr(*elt, me, o, g1, g2);
            lemma_step_scoped(u1, u2, walk_expr(*elt, me, g1), walk_expr(*elt, me, g2), me, o, names);
        },
        Expr::GeneratorExp { elt, generators } => {
            let names = generator_targets(generators@);
            lemma_step_scoped(u1, u2, u1, u2, me, o, names);
            let (i1, i2) = (add_ignored(u1, names), add_ignored(u2, names));
            lemma_step_generators(generators@, me, o, i1, i2);
            let (g1, g2) = (walk_generators(generators@, me, i1), walk_generators(generators@, me, i2));
            lemma_step_expr(*elt, me, o, g1, g2);
            lemma_step_scoped(u1, u2, walk_expr(*elt, me, g1), walk_expr(*elt, me, g2), me, o, names);
        },
        Expr::DictComp { key, value, generators } => {
            let names = generator_targets(generators@);
            lemma_step_scoped(u1, u2, u1, u2, me, o, names);
            let (i1, i2) = (add_ignored(u1, names), add_ignored(u2, names));
            lemma_step_generators(generators@, me, o, i1, i2);
            let (g1, g2) = (walk_generators(generators@, me, i1), walk_generators(generators@, me, i2));
            lemma_step_expr(*key, me, o, g1, g2);
            let (k1, k2) = (walk_expr(*key, me, g1), walk_expr(*key, me, g2));
            lemma_step_expr(*value, me, o, k1, k2);
            lemma_step_scoped(u1, u2, walk_expr(*value, me, k1), walk_expr(*value, me, k2), me, o, names);
        },
        Expr::Yield { value } => lemma_step_opt(value, me, o, u1, u2),
        Expr::FormattedValue { value, format_spec } => {
            lemma_step_expr(*value, me, o, u1, u2);
            lemma_step_opt(format_spec, me, o, walk_expr(*value, me, u1), walk_expr(*value, me, u2));
        },
        Expr::Slice { lower, upper, step } => {
            let (a1, a2) = (walk_opt(lower, me, u1), walk_opt(lower, me, u2));
            lemma_step_opt(lower, me, o, u1, u2);
            lemma_step_opt(upper, me, o, a1, a2);
            lemma_step_opt(step, me, o, walk_opt(upper, me, a1), walk_opt(upper, me, a2));
        },
    }
}

pub proof fn lemma_step_opt(e: Option<Box<Expr>>, me: Seq<char>, o: Set<Seq<char>>, u1: Walk, u2: Walk)
    requires
        in_step(u1, u2, me, o),
    ensures
        in_step(walk_opt(e, me, u1), walk_opt(e, me, u2), me, o),
    decreases e,
{
    match e {
        Some(b) => lemma_step_expr(*b, me, o, u1, u2),
        None => {},
    }
}

pub proof fn lemma_step_exprs(es: Seq<Expr>, me: Seq<char>, o: Set<Seq<char>>, u1: Walk, u2: Walk)
    requires
        in_step(u1, u2, me, o),
    ensures
        in_step(walk_exprs(es, me, u1), walk_exprs(es, me, u2), me, o),
    decreases es,
{
    if es.len() > 0 {
        let pre = es.subrange(0, es.len() - 1);
        lemma_step_exprs(pre, me, o, u1, u2);
        lemma_step_expr(es[es.len() - 1], me, o, walk_exprs(pre, me, u1), walk_exprs(pre, me, u2));
    }
}

pub proof fn lemma_step_generators(gs: Seq<Comprehension>, me: Seq<char>, o: Set<Seq<char>>, u1: Walk, u2: Walk)
    requires
        in_step(u1, u2, me, o),
    ensures
        in_step(walk_generators(gs, me, u1), walk_generators(gs, me, u2), me, o),
    decreases gs,
{
    if gs.len() > 0 {
        let pre = gs.subrange(0, gs.len() - 1);
        let g = gs[gs.len() - 1];
        lemma_step_generators(pre, me, o, u1, u2);
        let (a1, a2) = (walk_generators(pre, me, u1), walk_generators(pre, me, u2));
        lemma_step_expr(g.iter, me, o, a1, a2);
        lemma_step_exprs(g.ifs@, me, o, walk_expr(g.iter, me, a1), walk_expr(g.iter, me, a2));
    }
}

proof fn lemma_step_opt_expr(e: Option<Expr>, me: Seq<char>, o: Set<Seq<char>>, u1: Walk, u2: Walk)
    requires
        in_step(u1, u2, me, o),
    ensures
        in_step(walk_opt_expr(e, me, u1), walk_opt_expr(e, me, u2), me, o),
{
    match e {
        Some(x) => lemma_step_expr(x, me, o, u1, u2),
        None => {},
    }
}

proof fn lemma_step_aliases(names: Seq<Alias>, me: Seq<char>, o: Set<Seq<char>>, u1: Walk, u2: Walk)
    requires
        in_step(u1, u2, me, o),
    ensures
        in_step(walk_aliases(names, me, u1), walk_aliases(names, me, u2), me, o),
    decreases names.len(),
{
    if names.len() > 0 {
        lemma_step_aliases(names.drop_last(), me, o, u1, u2);
        lemma_step_bind(walk_aliases(names.drop_last(), me, u1), walk_aliases(names.drop_last(), me, u2), me, o, alias_name(names.last()));
    }
}

pub proof fn lemma_step_stmt(s: Stmt, me: Seq<char>, o: Set<Seq<char>>, u1: Walk, u2: Walk)
    requires
        in_step(u1, u2, me, o),
    ensures
        in_step(walk_stmt(s, me, u1), walk_stmt(s, me, u2), me, o),
    decreases s,
{
    match s.kind {
        StmtKind::FunctionDef { name, params, body, .. } => {
            let names = names_of(params@);
            lemma_step_scoped(u1, u2, u1, u2, me, o, names);
            let (i1, i2) = (add_ignored(u1, names), add_ignored(u2, names));
            lemma_step_bind(i1, i2, me, o, name@);
            lemma_step_stmts(body@, me, o, bind_step(i1, me, name@), bind_step(i2, me, name@));
        },
        StmtKind::ClassDef { name, bases, body, decorators } => {
            lemma_step_bind(u1, u2, me, o, name@);
            let (a1, a2) = (bind_step(u1, me, name@), bind_step(u2, me, name@));
            lemma_step_exprs(bases@, me, o, a1, a2);
            let (b1, b2) = (walk_exprs(bases@, me, a1), walk_exprs(bases@, me, a2));
            lemma_step_stmts(body@, me, o, b1, b2);
            lemma_step_exprs(decorators@, me, o, walk_stmts(body@, me, b1), walk_stmts(body@, me, b2));
        },
        StmtKind::Return { value } => lemma_step_opt_expr(value, me, o, u1, u2),
        StmtKind::Delete { targets } => lemma_step_exprs(targets@, me, o, u1, u2),
        StmtKind::Assign { targets, value } => {
            lemma_step_exprs(targets@, me, o, u1, u2);
            lemma_step_expr(value, me, o, walk_exprs(targets@, me, u1), walk_exprs(targets@, me, u2));
        },
        StmtKind::AugAssign { target, value } => {
            lemma_step_expr(target, me, o, u1, u2);
            lemma_step_expr(value, me, o, walk_expr(target, me, u1), walk_expr(target, me, u2));
        },
        StmtKind::AnnAssign { target, annotation, value } => {
            lemma_step_expr(target, me, o, u1, u2);
            let (a1, a2) = (walk_expr(target, me, u1), walk_expr(target, me, u2));
            lemma_step_expr(annotation, me, o, a1, a2);
            lemma_step_opt_expr(value, me, o, walk_expr(annotation, me, a1), walk_expr(annotation, me, a2));
        },
        StmtKind::For { body, orelse, .. } => {
            lemma_step_stmts(body@, me, o, u1, u2);
            lemma_step_stmts(orelse@, me, o, walk_stmts(body@, me, u1), walk_stmts(body@, me, u2));
        },
        StmtKind::While { test, body, orelse } => {
            lemma_step_expr(test, me, o, u1, u2);
            let (a1, a2) = (walk_expr(test, me, u1), walk_expr(test, me, u2));
            lemma_step_stmts(body@, me, o, a1, a2);
            lemma_step_stmts(orelse@, me, o, walk_stmts(body@, me, a1), walk_stmts(body@, me, a2));
        },
        StmtKind::If { test, body, orelse } => {
            lemma_step_expr(test, me, o, u1, u2);
            let (a1, a2) = (walk_expr(test, me, u1), walk_expr(test, me, u2));
            lemma_step_stmts(body@, me, o, a1, a2);
            lemma_step_stmts(orelse@, me, o, walk_stmts(body@, me, a1), walk_stmts(body@, me, a2));
        },
        StmtKind::With { items, body, .. } => {
            lemma_step_exprs(items@, me, o, u1, u2);
            lemma_step_stmts(body@, me, o, walk_exprs(items@, me, u1), walk_exprs(items@, me, u2));
        },
        StmtKind::Match { subject, cases } => {
            lemma_step_expr(subject, me, o, u1, u2);
            lemma_step_stmts(cases@, me, o, walk_expr(subject, me, u1), walk_expr(subject, me, u2));
        },
        StmtKind::Raise { exc, cause } => {
            lemma_step_opt_expr(exc, me, o, u1, u2);
            lemma_step_opt_expr(cause, me, o, walk_opt_expr(exc, me, u1), walk_opt_expr(exc, me, u2));
        },
        StmtKind::Try { body, handlers, orelse, finalbody } => {
            lemma_step_stmts(body@, me, o, u1, u2);
            let (a1, a2) = (walk_stmts(body@, me, u1), walk_stmts(body@, me, u2));
            lemma_step_handlers(handlers@, me, o, a1, a2);
            let (b1, b2) = (walk_handlers(handlers@, me, a1), walk_handlers(handlers@, me, a2));
            lemma_step_stmts(orelse@, me, o, b1, b2);
            lemma_step_stmts(finalbody@, me, o, walk_stmts(orelse@, me, b1), walk_stmts(orelse@, me, b2));
        },
        StmtKind::Assert { test, msg } => {
            lemma_step_expr(test, me, o, u1, u2);
            lemma_step_opt_expr(msg, me, o, walk_expr(test, me, u1), walk_expr(test, me, u2));
        },
        StmtKind::Import { names } => lemma_step_aliases(names@, me, o, u1, u2),
        StmtKind::Expr { value } => lemma_step_expr(value, me, o, u1, u2),
        _ => {},
    }
}

pub proof fn lemma_step_stmts(ss: Seq<Stmt>, me: Seq<char>, o: Set<Seq<char>>, u1: Walk, u2: Walk)
    requires
        in_step(u1, u2, me, o),
    ensures
        in_step(walk_stmts(ss, me, u1), walk_stmts(ss, me, u2), me, o),
    decreases ss,
{
    if ss.len() > 0 {
        let pre = ss.subrange(0, ss.len() - 1);
        lemma_step_stmts(pre, me, o, u1, u2);
        lemma_step_stmt(ss[ss.len() - 1], me, o, walk_stmts(pre, me, u1), walk_stmts(pre, me, u2));
    }
}

pub proof fn lemma_step_handlers(hs: Seq<ExceptHandler>, me: Seq<char>, o: Set<Seq<char>>, u1: Walk, u2: Walk)
    requires
        in_step(u1, u2, me, o),
    ensures
        in_step(walk_handlers(hs, me, u1), walk_handlers(hs, me, u2), me, o),
    decreases hs,
{
    if hs.len() > 0 {
        let pre = hs.subrange(0, hs.len() - 1);
        let h = hs[hs.len() - 1];
        lemma_step_handlers(pre, me, o, u1, u2);
        let (a1, a2) = (walk_handlers(pre, me, u1), walk_handlers(pre, me, u2));
        lemma_step_opt_expr(h.kind, me, o, a1, a2);
        lemma_step_stmts(h.body@, me, o, walk_opt_expr(h.kind, me, a1), walk_opt_expr(h.kind, me, a2));
    }
}

/// Reanalysis is stable: when the scope holds no name for the cell `me`,
/// forgetting the bindings of its analysis and analyzing the same program
/// again gives the same bindings, requirements and locally bound names. The
/// statements depend on the program and the content alone.
pub proof fn law_reanalysis_is_stable(prog: Seq<Stmt>, me: Seq<char>, scope_before: Map<Seq<char>, Seq<char>>)
    requires
        forall|n: Seq<char>| #[trigger] scope_before.contains_key(n) ==> scope_before[n] != me,
    ensures
        ({
            let w1 = analyze(prog, me, scope_before);
            let w2 = analyze(prog, me, release(w1.scope, w1.bindings, me));
            &&& w2.bindings == w1.bindings
            &&& w2.requirements == w1.requirements
            &&& w2.ignored == w1.ignored
        }),
{
    let w0 = fresh(scope_before);
    lemma_walk_stmts_frame(prog, me, w0);
    let v1 = walk_stmts(prog, me, w0);
    let o = scope_before.dom().intersect(v1.bindings);
    let back = release(v1.scope, v1.bindings, me);
    assert(analyze(prog, me, scope_before).scope == v1.scope && analyze(prog, me, scope_before).bindings == v1.bindings);
    assert forall|x: Seq<char>| #[trigger] back.contains_key(x) <==> scope_before.contains_key(x) && !o.contains(x) by {
        if scope_before.contains_key(x) {
            assert(w0.scope.contains_key(x));
            assert(v1.scope.contains_key(x));
            if v1.bindings.contains(x) {
                assert(!w0.bindings.contains(x));
                assert(v1.scope[x] == me);
            } else {
                assert(v1.scope[x] == scope_before[x]);
            }
        } else if v1.scope.contains_key(x) {
            assert(v1.scope[x] == me && v1.bindings.contains(x));
        }
    }
    assert forall|x: Seq<char>| #[trigger] back.contains_key(x) implies back[x] == scope_before[x] by {
        assert(w0.scope.contains_key(x));
        assert(!v1.bindings.contains(x));
        assert(v1.scope[x] == scope_before[x]);
    }
    let u2 = fresh(back);
    assert(in_step(w0, u2, me, o));
    lemma_step_stmts(prog, me, o, w0, u2);
    let v2 = walk_stmts(prog, me, u2);
    assert forall|x: Seq<char>| #[trigger] o.contains(x) implies v1.bindings.contains(x) by {}
    assert(v2.bindings =~= v1.bindings);
    assert(v2.requirements.difference(v2.bindings) =~= v1.requirements.difference(v1.bindings));
}

} // verus!
