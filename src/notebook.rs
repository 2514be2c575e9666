//! The notebook coordinator: applies edits, plans runs, and assembles the
//! requests for the evaluator together with the inputs each cell needs.

use vstd::prelude::*;
use crate::ast::Stmt;
use crate::cell::{analyzed, is_code, new_id, updated, Cell};
use crate::errors::{NotebookErrors, ParseError, TopologyErrors};
use crate::graph::{copy_names, cyclic, kahn};
use crate::kernel_client::{ExecutionCell, MsgFromKernel, MsgToKernel};
use crate::locals::{LocalValue, Locals};
use crate::names::Scope;
use crate::statement::{statements_view, Statement};
use crate::text::views;
use crate::laws::{law_new_cell_keeps_owners, law_update_keeps_owners, owners_bind};
use crate::topology::{same_topology, cell_ids, dependency_graph, dependents_graph, deps_set, find_cell, ids_unique, rdeps_set, Topology};

verus! {

#[derive(Debug)]
pub struct LanguageInfo {
    pub name: String,
    pub file_extension: String,
}

#[derive(Debug)]
pub struct NotebookMetadata {
    pub format_version: String,
}

/// A notebook: its cells, their scope, and descriptive data.
#[derive(Debug)]
pub struct Notebook {
    pub uuid: String,
    pub language_info: LanguageInfo,
    pub meta_data: NotebookMetadata,
    pub topology: Topology,
    pub title: String,
    pub scope: Scope,
}

/// The values last reported for the cell `id` among `cells`.
pub open spec fn locals_of(cells: Seq<Cell>, id: Seq<char>) -> Map<Seq<char>, LocalValue> {
    if exists|i: int| 0 <= i < cells.len() && cells[i].uuid@ == id {
        cells[choose|i: int| 0 <= i < cells.len() && cells[i].uuid@ == id].locals@
    } else {
        Map::empty()
    }
}

/// The inputs of a cell that requires `required` and depends on `deps`:
/// each required name that a dependency has a value for, with that value;
/// a later dependency wins.
pub open spec fn inputs_from(cells: Seq<Cell>, deps: Seq<Seq<char>>, required: Set<Seq<char>>) -> Map<
    Seq<char>,
    LocalValue,
>
    decreases deps.len(),
{
    if deps.len() == 0 {
        Map::empty()
    } else {
        inputs_from(cells, deps.drop_last(), required).union_prefer_right(
            locals_of(cells, deps.last()).restrict(required),
        )
    }
}

/// The cell with id `id` among `cells`.
pub open spec fn cell_of(cells: Seq<Cell>, id: Seq<char>) -> Cell {
    cells[choose|i: int| 0 <= i < cells.len() && cells[i].uuid@ == id]
}

/// The inputs of the cell `id` in topology `t`.
pub open spec fn inputs_of(t: Topology, id: Seq<char>) -> Map<Seq<char>, LocalValue> {
    inputs_from(t.cells@, t.dependencies@[id], cell_of(t.cells@, id).required@)
}

proof fn lemma_lookup(cells: Seq<Cell>, k: int)
    requires
        ids_unique(cells),
        0 <= k < cells.len(),
    ensures
        locals_of(cells, cells[k].uuid@) == cells[k].locals@,
        cell_of(cells, cells[k].uuid@) == cells[k],
{
    let id = cells[k].uuid@;
    assert(exists|i: int| 0 <= i < cells.len() && cells[i].uuid@ == id);
    let j = choose|i: int| 0 <= i < cells.len() && cells[i].uuid@ == id;
    assert(j == k);
}

/// Adds to `out` the values `dep` has for the names in `required`.
fn take_inputs(out: &mut Locals, dep: &Cell, required: &Vec<String>)
    ensures
        final(out)@ == old(out)@.union_prefer_right(dep.locals@.restrict(views(required@).to_set())),
{
    let mut j: usize = 0;
    assert(views(required@.subrange(0, 0)).to_set() =~= Set::<Seq<char>>::empty());
    assert(old(out)@.union_prefer_right(dep.locals@.restrict(Set::<Seq<char>>::empty())) =~= old(out)@);
    while j < required.len()
        invariant
            j <= required@.len(),
            out@ == old(out)@.union_prefer_right(dep.locals@.restrict(views(required@.subrange(0, j as int)).to_set())),
        decreases required.len() - j,
    {
        let ghost scope_after = views(required@.subrange(0, j + 1)).to_set();
        proof {
            assert(views(required@.subrange(0, j + 1)) =~= views(required@.subrange(0, j as int)).push(required@[j as int]@));
            views(required@.subrange(0, j as int)).lemma_push_to_set_commute(required@[j as int]@);
        }
        match dep.locals.get(&required[j]) {
            Some(v) => {
                out.insert(&required[j], v.duplicate());
                assert(out@ =~= old(out)@.union_prefer_right(dep.locals@.restrict(scope_after)));
            },
            None => {
                assert(out@ =~= old(out)@.union_prefer_right(dep.locals@.restrict(scope_after)));
            },
        }
        j = j + 1;
    }
    assert(required@.subrange(0, required@.len() as int) =~= required@);
}

/// The inputs of `cells[k]`, whose dependencies are `deps`.
fn locals_from_dependencies(cells: &Vec<Cell>, k: usize, deps: &Vec<String>) -> (r: Locals)
    requires
        ids_unique(cells@),
        k < cells@.len(),
    ensures
        r@ == inputs_from(cells@, views(deps@), cells@[k as int].required@),
{
    let required = cells[k].required.as_vec();
    let mut out = Locals::new();
    let mut i: usize = 0;
    while i < deps.len()
        invariant
            i <= deps@.len(),
            k < cells@.len(),
            ids_unique(cells@),
            views(required@).to_set() == cells@[k as int].required@,
            out@ == inputs_from(cells@, views(deps@).subrange(0, i as int), cells@[k as int].required@),
        decreases deps.len() - i,
    {
        proof {
            assert(views(deps@).subrange(0, i + 1).drop_last() =~= views(deps@).subrange(0, i as int));
            assert(views(deps@).subrange(0, i + 1).last() == deps@[i as int]@);
        }
        match find_cell(cells, &deps[i]) {
            Some(j) => {
                proof {
                    lemma_lookup(cells@, j as int);
                }
                take_inputs(&mut out, &cells[j], required);
            },
            None => {
                assert(!(exists|q: int| 0 <= q < cells@.len() && cells@[q].uuid@ == deps@[i as int]@)) by {
                    if exists|q: int| 0 <= q < cells@.len() && cells@[q].uuid@ == deps@[i as int]@ {
                        let q = choose|q: int| 0 <= q < cells@.len() && cells@[q].uuid@ == deps@[i as int]@;
                        assert(cell_ids(cells@)[q] == deps@[i as int]@);
                    }
                }
                assert(out@.union_prefer_right(Map::<Seq<char>, LocalValue>::empty().restrict(cells@[k as int].required@)) =~= out@);
            },
        }
        i = i + 1;
    }
    assert(views(deps@).subrange(0, deps@.len() as int) =~= views(deps@));
    out
}

/// The record of a cell that the evaluator receives.
fn execution_cell(c: &Cell) -> (r: ExecutionCell)
    ensures
        r.uuid@ == c.uuid@,
        statements_view(r.statements@) == statements_view(c.statements@),
        views(r.requirements@).to_set() == c.required@,
        views(r.bindings@).to_set() == c.bindings@,
{
    let mut statements: Vec<Statement> = Vec::new();
    let mut i: usize = 0;
    while i < c.statements.len()
        invariant
            i <= c.statements@.len(),
            statements_view(statements@) == statements_view(c.statements@).subrange(0, i as int),
        decreases c.statements.len() - i,
    {
        let ghost before = statements_view(statements@);
        let st = c.statements[i].duplicate();
        statements.push(st);
        assert(statements_view(statements@) =~= before.push(crate::statement::statement_view(c.statements@[i as int])));
        assert(statements_view(statements@) =~= statements_view(c.statements@).subrange(0, i + 1));
        i = i + 1;
    }
    assert(statements_view(c.statements@).subrange(0, c.statements@.len() as int) =~= statements_view(c.statements@));
    ExecutionCell {
        uuid: c.uuid.clone(),
        statements,
        requirements: copy_names(c.required.as_vec()),
        bindings: copy_names(c.bindings.as_vec()),
    }
}

/// An update of the cell at `i`, the other cells staying, keeps every name
/// of the scope held by a cell that binds it.
proof fn lemma_update_owners(
    before: Seq<Cell>,
    after: Seq<Cell>,
    i: int,
    content: Seq<char>,
    parsed: Result<Vec<Stmt>, ParseError>,
    scope_before: Map<Seq<char>, Seq<char>>,
    scope_after: Map<Seq<char>, Seq<char>>,
)
    requires
        ids_unique(before),
        owners_bind(before, scope_before),
        0 <= i < before.len(),
        after.len() == before.len(),
        forall|j: int| 0 <= j < before.len() && j != i ==> #[trigger] after[j] == before[j],
        exists|pr: Result<(), ParseError>| #[trigger] updated(before[i], after[i], content, parsed, scope_before, scope_after, pr),
    ensures
        owners_bind(after, scope_after),
{
    let pr = choose|pr: Result<(), ParseError>| #[trigger] updated(before[i], after[i], content, parsed, scope_before, scope_after, pr);
    law_update_keeps_owners(before, i, after[i], content, parsed, scope_before, scope_after, pr);
    assert(after =~= before.update(i, after[i]));
}

/// Cells that differ from `cells` only in their values keep both graphs.
proof fn lemma_graphs_keep(
    cells: Seq<Cell>,
    cells2: Seq<Cell>,
    scope: Map<Seq<char>, Seq<char>>,
    g: Map<Seq<char>, Seq<Seq<char>>>,
    h: Map<Seq<char>, Seq<Seq<char>>>,
)
    requires
        cells.len() == cells2.len(),
        forall|i: int| 0 <= i < cells.len() ==> (#[trigger] cells2[i]).uuid@ == cells[i].uuid@ && cells2[i].required@ == cells[i].required@,
        dependency_graph(g, cells, scope),
        dependents_graph(h, cells, scope),
    ensures
        cell_ids(cells2) == cell_ids(cells),
        dependency_graph(g, cells2, scope),
        dependents_graph(h, cells2, scope),
{
    assert(cell_ids(cells2) =~= cell_ids(cells));
    assert forall|i: int| 0 <= i < cells.len() implies deps_set(#[trigger] cells2[i], scope, cells2) == deps_set(cells[i], scope, cells) by {
        assert(deps_set(cells2[i], scope, cells2) =~= deps_set(cells[i], scope, cells));
    }
    assert forall|i: int| 0 <= i < cells.len() implies #[trigger] g[cells2[i].uuid@].to_set() == deps_set(cells2[i], scope, cells2) by {
        assert(g[cells[i].uuid@].to_set() == deps_set(cells[i], scope, cells));
    }
    assert forall|x: Seq<char>| #[trigger] rdeps_set(x, scope, cells2) == rdeps_set(x, scope, cells) by {
        assert forall|y: Seq<char>| rdeps_set(x, scope, cells2).contains(y) <==> rdeps_set(x, scope, cells).contains(y) by {
            if rdeps_set(x, scope, cells2).contains(y) {
                let j = choose|j: int| 0 <= j < cells2.len() && #[trigger] cells2[j].uuid@ == y && deps_set(cells2[j], scope, cells2).contains(x);
                assert(cells[j].uuid@ == y);
                assert(deps_set(cells2[j], scope, cells2) == deps_set(cells[j], scope, cells));
            }
            if rdeps_set(x, scope, cells).contains(y) {
                let j = choose|j: int| 0 <= j < cells.len() && #[trigger] cells[j].uuid@ == y && deps_set(cells[j], scope, cells).contains(x);
                assert(cells2[j].uuid@ == y);
                assert(deps_set(cells2[j], scope, cells2) == deps_set(cells[j], scope, cells));
            }
        }
        assert(rdeps_set(x, scope, cells2) =~= rdeps_set(x, scope, cells));
    }
    assert forall|i: int| 0 <= i < cells.len() implies #[trigger] h[cells2[i].uuid@].to_set() == rdeps_set(cells2[i].uuid@, scope, cells2) by {
        assert(h[cells[i].uuid@].to_set() == rdeps_set(cells[i].uuid@, scope, cells));
    }
}

/// `cells` are the cells made from `sources` in order: cell `j` is analyzed
/// in `scopes[j]`, which turns it into `scopes[j + 1]`, and its id is not
/// among the cells before it.
pub open spec fn built_with(cells: Seq<Cell>, sources: Seq<(String, Result<Vec<Stmt>, ParseError>)>, scopes: Seq<Map<Seq<char>, Seq<char>>>) -> bool {
    &&& cells.len() == sources.len()
    &&& scopes.len() == sources.len() + 1
    &&& scopes[0] == Map::<Seq<char>, Seq<char>>::empty()
    &&& forall|j: int| 0 <= j < sources.len() ==> {
        &&& (#[trigger] sources[j]).1.is_ok()
        &&& cells[j].content@ == sources[j].0@
        &&& !cell_ids(cells.subrange(0, j)).contains(cells[j].uuid@)
        &&& analyzed(cells[j], sources[j].1->Ok_0@, scopes[j], scopes[j + 1])
    }
}

/// `cells` are the cells made from `sources` in order, starting from an
/// empty scope; `scope` is the scope the last one left.
pub open spec fn built_from(cells: Seq<Cell>, sources: Seq<(String, Result<Vec<Stmt>, ParseError>)>, scope: Map<Seq<char>, Seq<char>>) -> bool {
    exists|scopes: Seq<Map<Seq<char>, Seq<char>>>| #[trigger] built_with(cells, sources, scopes) && scopes.last() == scope
}

/// After the cells made from the first `k` sources, the source at `k` is
/// refused with `e`: it did not parse, or its cell's id was taken, or its
/// cell would close a cycle.
pub open spec fn fails_at(sources: Seq<(String, Result<Vec<Stmt>, ParseError>)>, k: int, e: NotebookErrors) -> bool {
    exists|cells: Seq<Cell>, s: Map<Seq<char>, Seq<char>>| #[trigger] built_from(cells, sources.subrange(0, k), s) && match sources[k].1 {
        Err(pe) => e == NotebookErrors::Parse(pe),
        Ok(prog) => exists|c: Cell, s1: Map<Seq<char>, Seq<char>>|
            #[trigger] analyzed(c, prog@, s, s1) && c.content@ == sources[k].0@ && (
                (e == NotebookErrors::Topology(TopologyErrors::DuplicateId) && cell_ids(cells).contains(c.uuid@))
                || (e == NotebookErrors::Topology(TopologyErrors::CycleDetected)
                    && exists|g: Map<Seq<char>, Seq<Seq<char>>>| #[trigger] dependency_graph(g, cells.push(c), s1) && cyclic(g))),
    }
}

impl Notebook {
    /// Takes the values of an evaluator reply into the cell it is for; new
    /// values win over old ones. False, with nothing changed, when the
    /// notebook has no such cell.
    pub fn apply_reply(&mut self, reply: MsgFromKernel) -> (r: bool)
        requires
            old(self).wf(),
        ensures
            final(self).wf(),
            r == cell_ids(old(self).topology.cells@).contains(reply.cell_uuid@),
            final(self).topology.cells@.len() == old(self).topology.cells@.len(),
            forall|i: int| 0 <= i < old(self).topology.cells@.len() ==> {
                let (a, b) = (old(self).topology.cells@[i], #[trigger] final(self).topology.cells@[i]);
                &&& b.uuid == a.uuid && b.required == a.required && b.bindings == a.bindings && b.content == a.content
                &&& a.uuid@ == reply.cell_uuid@ ==> b.locals@ == a.locals@.union_prefer_right(reply.locals@)
                &&& a.uuid@ != reply.cell_uuid@ ==> b == a
            },
    {
        let k = match find_cell(&self.topology.cells, &reply.cell_uuid) {
            Some(k) => k,
            None => {
                assert forall|i: int| 0 <= i < self.topology.cells@.len() implies self.topology.cells@[i].uuid@ != reply.cell_uuid@ by {
                    assert(cell_ids(self.topology.cells@)[i] == self.topology.cells@[i].uuid@);
                }
                return false;
            },
        };
        let ghost cells0 = self.topology.cells@;
        proof {
            assert(cell_ids(cells0)[k as int] == reply.cell_uuid@);
            assert forall|i: int| 0 <= i < cells0.len() && i != k implies cells0[i].uuid@ != reply.cell_uuid@ by {}
        }
        let MsgFromKernel { notebook_uuid: _, cell_uuid: _, locals, error: _, ended: _ } = reply;
        self.topology.cells[k].locals.extend(locals);
        proof {
            lemma_graphs_keep(cells0, self.topology.cells@, self.scope@, self.topology.dependencies@, self.topology.dependents@);
            assert forall|n: Seq<char>| #[trigger] self.scope@.contains_key(n) implies exists|j: int|
                0 <= j < self.topology.cells@.len() && self.topology.cells@[j].uuid@ == self.scope@[n] && #[trigger] self.topology.cells@[j].bindings@.contains(n) by {
                let j = choose|j: int| 0 <= j < cells0.len() && cells0[j].uuid@ == self.scope@[n] && #[trigger] cells0[j].bindings@.contains(n);
                assert(self.topology.cells@[j].bindings == cells0[j].bindings);
            }
        }
        true
    }

    /// The topology is well formed, and every name of the scope is held by
    /// a cell that binds it.
    pub open spec fn wf(&self) -> bool {
        &&& self.topology.wf(self.scope@)
        &&& owners_bind(self.topology.cells@, self.scope@)
    }

    /// An empty notebook with a fresh random id.
    pub fn empty() -> (r: Notebook)
        ensures
            r.wf(),
            r.uuid@.len() == 30,
            r.topology.cells@.len() == 0,
            r.scope@ == Map::<Seq<char>, Seq<char>>::empty(),
    {
        let topology = Topology::new();
        let scope = Scope::new();
        Notebook {
            uuid: new_id(),
            language_info: LanguageInfo { name: String::from_str("python"), file_extension: String::from_str(".py") },
            meta_data: NotebookMetadata { format_version: String::from_str("0.0.1") },
            topology,
            title: String::from_str("Untitled Notebook"),
            scope,
        }
    }

    /// Appends a reactive code cell with `content`, whose parse is `parsed`,
    /// and returns its id. Refused, with the notebook unchanged, when the
    /// content did not parse or the new cell would close a cycle.
    pub fn add_cell(&mut self, content: &str, parsed: Result<Vec<Stmt>, ParseError>) -> (r: Result<String, NotebookErrors>)
        requires
            old(self).wf(),
        ensures
            final(self).wf(),
            final(self).uuid == old(self).uuid,
            parsed.is_err() ==> r == Err::<String, NotebookErrors>(NotebookErrors::Parse(parsed->Err_0)),
            r matches Err(NotebookErrors::Topology(e)) ==> e == TopologyErrors::CycleDetected || e == TopologyErrors::DuplicateId,
            r matches Err(NotebookErrors::Parse(pe)) ==> parsed == Err::<Vec<Stmt>, ParseError>(pe),
            r.is_err() ==> r matches Err(NotebookErrors::Topology(_)) || r matches Err(NotebookErrors::Parse(_)),
            r == Err::<String, NotebookErrors>(NotebookErrors::Topology(TopologyErrors::CycleDetected)) ==> exists|c: Cell, scope_after: Map<Seq<char>, Seq<char>>, g: Map<Seq<char>, Seq<Seq<char>>>|
                #[trigger] analyzed(c, parsed->Ok_0@, old(self).scope@, scope_after) && c.content@ == content@
                    && #[trigger] dependency_graph(g, old(self).topology.cells@.push(c), scope_after) && cyclic(g),
            r == Err::<String, NotebookErrors>(NotebookErrors::Topology(TopologyErrors::DuplicateId)) ==> exists|c: Cell, scope_after: Map<Seq<char>, Seq<char>>|
                #[trigger] analyzed(c, parsed->Ok_0@, old(self).scope@, scope_after) && c.content@ == content@
                    && cell_ids(old(self).topology.cells@).contains(c.uuid@),
            r.is_err() ==> final(self).topology.cells@ == old(self).topology.cells@ && final(self).scope@ == old(self).scope@,
            r matches Ok(id) ==> {
                let c = final(self).topology.cells@.last();
                &&& final(self).topology.cells@ == old(self).topology.cells@.push(c)
                &&& c.uuid@ == id@
                &&& c.content@ == content@
                &&& !cell_ids(old(self).topology.cells@).contains(c.uuid@)
                &&& analyzed(c, parsed->Ok_0@, old(self).scope@, final(self).scope@)
            },
    {
        let mut scope = self.scope.duplicate();
        let cell = match Cell::new_reactive(content, parsed, &mut scope) {
            Ok(cell) => cell,
            Err(e) => return Err(NotebookErrors::Parse(e)),
        };
        let id = cell.uuid.clone();
        let ghost c = cell;
        let ghost old_cells = self.topology.cells@;
        match self.topology.add_cell(cell, &scope) {
            Ok(()) => {
                proof {
                    law_new_cell_keeps_owners(old_cells, c, parsed->Ok_0@, self.scope@, scope@);
                }
                self.scope = scope;
                Ok(id)
            },
            Err(e) => Err(NotebookErrors::Topology(e)),
        }
    }

    /// A notebook whose cells are reactive code cells with the given sources
    /// and their parses, in order. Refused when a source did not parse or a
    /// cell would close a cycle.
    pub fn new(sources: Vec<(String, Result<Vec<Stmt>, ParseError>)>) -> (r: Result<Notebook, NotebookErrors>)
        ensures
            r matches Ok(nb) ==> nb.wf() && nb.uuid@.len() == 30 && built_from(nb.topology.cells@, sources@, nb.scope@),
            r matches Err(e) ==> exists|k: int| 0 <= k < sources@.len() && #[trigger] fails_at(sources@, k, e),
            (exists|i: int| 0 <= i < sources@.len() && (#[trigger] sources@[i]).1.is_err()) ==> r.is_err(),
    {
        let mut nb = Notebook::empty();
        let n = sources.len();
        let ghost all = sources@;
        let ghost sources_view = sources@;
        let mut rest = sources;
        let mut back: Vec<(String, Result<Vec<Stmt>, ParseError>)> = Vec::new();
        while rest.len() > 0
            invariant
                back@.len() + rest@.len() == all.len(),
                rest@ == all.subrange(0, rest@.len() as int),
                forall|k: int| 0 <= k < back@.len() ==> #[trigger] back@[k] == all[all.len() - 1 - k],
            decreases rest.len(),
        {
            let e = rest.pop().unwrap();
            back.push(e);
        }
        let mut done: usize = 0;
        let ghost mut scopes: Seq<Map<Seq<char>, Seq<char>>> = seq![Map::<Seq<char>, Seq<char>>::empty()];
        assert(built_with(nb.topology.cells@, all.subrange(0, 0), scopes));
        while back.len() > 0
            invariant
                done + back@.len() == all.len(),
                all.len() == n,
                forall|k: int| 0 <= k < back@.len() ==> #[trigger] back@[k] == all[all.len() - 1 - k],
                forall|k: int| 0 <= k < done ==> (#[trigger] all[k]).1.is_ok(),
                nb.wf(),
                nb.uuid@.len() == 30,
                nb.topology.cells@.len() == done,
                built_with(nb.topology.cells@, all.subrange(0, done as int), scopes),
                scopes.last() == nb.scope@,
                all == sources_view,
                sources_view == sources@,
            decreases back.len(),
        {
            let (content, parsed) = back.pop().unwrap();
            let ghost cells0 = nb.topology.cells@;
            let ghost scope0 = nb.scope@;
            let ghost p = parsed;
            let ghost text = content@;
            proof {
                assert(all[done as int].1 == parsed);
                assert(all[done as int].0 == content);
            }
            match nb.add_cell(content.as_str(), parsed) {
                Ok(_) => {
                    proof {
                        let src = all.subrange(0, done + 1);
                        let cs = nb.topology.cells@;
                        let scopes2 = scopes.push(nb.scope@);
                        assert(cs == cells0.push(cs.last()));
                        assert(p.is_ok() && src[done as int] == all[done as int]);
                        assert forall|j: int| 0 <= j < src.len() implies {
                            &&& (#[trigger] src[j]).1.is_ok()
                            &&& cs[j].content@ == src[j].0@
                            &&& !cell_ids(cs.subrange(0, j)).contains(cs[j].uuid@)
                            &&& analyzed(cs[j], src[j].1->Ok_0@, scopes2[j], scopes2[j + 1])
                        } by {
                            if j < done {
                                let old_src = all.subrange(0, done as int);
                                assert(old_src[j] == src[j]);
                                assert(cs[j] == cells0[j]);
                                assert(cs.subrange(0, j) =~= cells0.subrange(0, j));
                            } else {
                                assert(cs.subrange(0, j) =~= cells0);
                                assert(src[j].0@ == text);
                            }
                        }
                        assert(built_with(cs, src, scopes2));
                        scopes = scopes2;
                    }
                },
                Err(e) => {
                    proof {
                        assert(built_with(cells0, all.subrange(0, done as int), scopes));
                        assert(built_from(cells0, all.subrange(0, done as int), scope0));
                        match p {
                            Err(pe) => {
                                assert(e == NotebookErrors::Parse(pe));
                            },
                            Ok(prog) => {
                                if e == NotebookErrors::Topology(TopologyErrors::DuplicateId) {
                                    let (c, s1) = choose|c: Cell, s1: Map<Seq<char>, Seq<char>>| #[trigger] analyzed(c, prog@, scope0, s1) && c.content@ == text && cell_ids(cells0).contains(c.uuid@);
                                    assert(analyzed(c, prog@, scope0, s1));
                                } else {
                                    assert(e == NotebookErrors::Topology(TopologyErrors::CycleDetected));
                                    let (c, s1, g) = choose|c: Cell, s1: Map<Seq<char>, Seq<char>>, g: Map<Seq<char>, Seq<Seq<char>>>| #[trigger] analyzed(c, prog@, scope0, s1) && c.content@ == text && #[trigger] dependency_graph(g, cells0.push(c), s1) && cyclic(g);
                                    assert(analyzed(c, prog@, scope0, s1) && dependency_graph(g, cells0.push(c), s1));
                                }
                            },
                        }
                        assert(fails_at(all, done as int, e));
                        assert(0 <= done < all.len());
                    }
                    return Err(e);
                },
            }
            done = done + 1;
        }
        assert(all.subrange(0, all.len() as int) =~= all);
        assert(built_with(nb.topology.cells@, sources_view, scopes));
        Ok(nb)
    }

    /// Runs the cell `cell_uuid` with `next_content`, whose parse is
    /// `parsed`: updates the cell when its content changed, plans the run,
    /// and returns the request for the evaluator, which lists the planned
    /// cells in order with the inputs of each.
    pub fn eval_cell(&mut self, cell_uuid: &String, next_content: &str, parsed: Result<Vec<Stmt>, ParseError>) -> (r: Result<MsgToKernel, NotebookErrors>)
        requires
            old(self).wf(),
        ensures
            final(self).wf(),
            !cell_ids(old(self).topology.cells@).contains(cell_uuid@) ==> r == Err::<MsgToKernel, NotebookErrors>(NotebookErrors::Topology(TopologyErrors::CellNotFound)),
            forall|i: int| 0 <= i < old(self).topology.cells@.len() && #[trigger] old(self).topology.cells@[i].uuid@ == cell_uuid@ ==> {
                let before = old(self).topology.cells@[i];
                &&& before.content@ == next_content@ ==> r.is_ok()
                &&& before.content@ != next_content@ && is_code(before.cell_type) && parsed.is_err() ==> r.is_err()
                &&& r matches Err(e) ==> e == NotebookErrors::Topology(TopologyErrors::CycleDetected) || (parsed.is_err() && e == NotebookErrors::Parse(parsed->Err_0))
                &&& r == Err::<MsgToKernel, NotebookErrors>(NotebookErrors::Topology(TopologyErrors::CycleDetected)) ==> final(self).topology.cells@ == old(self).topology.cells@ && final(self).scope@ == old(self).scope@
                    && before.content@ != next_content@
                    && exists|c: Cell, s2: Map<Seq<char>, Seq<char>>, pr: Result<(), ParseError>, g: Map<Seq<char>, Seq<Seq<char>>>|
                        #[trigger] updated(before, c, next_content@, parsed, old(self).scope@, s2, pr)
                        && #[trigger] dependency_graph(g, old(self).topology.cells@.update(i, c), s2) && cyclic(g)
                &&& r.is_ok() && before.content@ == next_content@ ==> same_topology(final(self).topology, old(self).topology) && final(self).scope@ == old(self).scope@
                &&& r.is_ok() && before.content@ != next_content@ ==> {
                    &&& final(self).topology.cells@.len() == old(self).topology.cells@.len()
                    &&& forall|j: int| 0 <= j < old(self).topology.cells@.len() && j != i ==> #[trigger] final(self).topology.cells@[j] == old(self).topology.cells@[j]
                    &&& final(self).topology.display_order == old(self).topology.display_order
                    &&& exists|pr: Result<(), ParseError>| pr.is_ok() && #[trigger] updated(before, final(self).topology.cells@[i], next_content@, parsed, old(self).scope@, final(self).scope@, pr)
                }
            },
            final(self).uuid == old(self).uuid,
            r.is_ok() ==> cell_ids(final(self).topology.cells@).contains(cell_uuid@),
            r matches Ok(msg) ==> {
                let t = final(self).topology;
                &&& msg.notebook_uuid@ == final(self).uuid@
                &&& msg.cell_uuid@ == cell_uuid@
                &&& kahn(t.dependencies@, t.plan_nodes(cell_uuid@)) == Some(Seq::new(msg.execution_cells@.len(), |i: int| msg.execution_cells@[i].uuid@))
                &&& msg.locals_of_deps@.len() == msg.execution_cells@.len()
                &&& forall|i: int| 0 <= i < msg.execution_cells@.len() ==> {
                    let c = cell_of(t.cells@, #[trigger] msg.execution_cells@[i].uuid@);
                    &&& views(msg.execution_cells@[i].requirements@).to_set() == c.required@
                    &&& views(msg.execution_cells@[i].bindings@).to_set() == c.bindings@
                    &&& statements_view(msg.execution_cells@[i].statements@) == statements_view(c.statements@)
                    &&& msg.locals_of_deps@[i]@ == inputs_of(t, msg.execution_cells@[i].uuid@)
                }
            },
    {
        let ghost old_cells = self.topology.cells@;
        let ghost p = parsed;
        let ghost old_scope = self.scope@;
        let res = self.topology.update_cell(cell_uuid, next_content, parsed, &mut self.scope);
        proof {
            if cell_ids(old_cells).contains(cell_uuid@) {
                let i = choose|i: int| 0 <= i < cell_ids(old_cells).len() && cell_ids(old_cells)[i] == cell_uuid@;
                assert(old_cells[i].uuid@ == cell_uuid@);
                if old_cells[i].content@ != next_content@ && res != Err::<(), NotebookErrors>(NotebookErrors::Topology(TopologyErrors::CycleDetected)) {
                    lemma_update_owners(old_cells, self.topology.cells@, i, next_content@, p, old_scope, self.scope@);
                }
            }
        }
        match res {
            Ok(()) => {},
            Err(e) => {
                proof {
                    assert forall|i: int| 0 <= i < old_cells.len() && #[trigger] old_cells[i].uuid@ == cell_uuid@ implies
                        e == NotebookErrors::Topology(TopologyErrors::CycleDetected) || (p.is_err() && e == NotebookErrors::Parse(p->Err_0)) by {
                        let before = old_cells[i];
                        if e != NotebookErrors::Topology(TopologyErrors::CycleDetected) {
                            let pr = choose|pr: Result<(), ParseError>| #[trigger] updated(before, self.topology.cells@[i], next_content@, p, old(self).scope@, self.scope@, pr)
                                && (pr.is_ok() ==> Ok::<(), NotebookErrors>(()).is_ok()) && (pr matches Err(e2) ==> Err::<(), NotebookErrors>(e) == Err::<(), NotebookErrors>(NotebookErrors::Parse(e2)));
                        }
                    }
                }
                return Err(e);
            },
        }
        proof {
            assert(cell_ids(old_cells).contains(cell_uuid@));
            let i = choose|i: int| 0 <= i < cell_ids(old_cells).len() && cell_ids(old_cells)[i] == cell_uuid@;
            assert(old_cells[i].uuid@ == cell_uuid@);
            assert(self.topology.cells@[i].uuid@ == cell_uuid@);
            assert(cell_ids(self.topology.cells@)[i] == cell_uuid@);
        }
        let plan = match self.topology.execution_seq(cell_uuid) {
            Ok(plan) => plan,
            Err(e) => {
                assert(false);
                return Err(NotebookErrors::Topology(e));
            },
        };
        let ghost t = self.topology;
        assert(kahn(t.dependencies@, t.plan_nodes(cell_uuid@)) == Some(views(plan@)));
        let mut execution_cells: Vec<ExecutionCell> = Vec::new();
        let mut locals_of_deps: Vec<Locals> = Vec::new();
        let mut i: usize = 0;
        while i < plan.len()
            invariant
                i <= plan@.len(),
                t == self.topology,
                kahn(t.dependencies@, t.plan_nodes(cell_uuid@)) == Some(views(plan@)),
                t.wf(self.scope@),
                execution_cells@.len() == i,
                locals_of_deps@.len() == i,
                forall|k: int| 0 <= k < i ==> (#[trigger] execution_cells@[k]).uuid@ == plan@[k]@,
                forall|k: int| 0 <= k < i ==> {
                    let c = cell_of(t.cells@, #[trigger] execution_cells@[k].uuid@);
                    &&& views(execution_cells@[k].requirements@).to_set() == c.required@
                    &&& views(execution_cells@[k].bindings@).to_set() == c.bindings@
                    &&& statements_view(execution_cells@[k].statements@) == statements_view(c.statements@)
                    &&& locals_of_deps@[k]@ == inputs_of(t, execution_cells@[k].uuid@)
                },
            decreases plan.len() - i,
        {
            let k = match find_cell(&self.topology.cells, &plan[i]) {
                Some(k) => k,
                None => {
                    proof {
                        let nodes = t.plan_nodes(cell_uuid@);
                        crate::graph::lemma_kahn_sound(t.dependencies@, nodes);
                        t.lemma_keep_plan_subset(cell_uuid@, views(t.display_order@));
                        assert(views(plan@)[i as int] == plan@[i as int]@);
                        assert(views(plan@).contains(plan@[i as int]@));
                        assert(nodes.contains(plan@[i as int]@));
                        assert(views(t.display_order@).to_set().contains(plan@[i as int]@));
                        assert(cell_ids(t.cells@).to_set().contains(plan@[i as int]@));
                    }
                    return Err(NotebookErrors::Topology(TopologyErrors::CellNotFound));
                },
            };
            proof {
                lemma_lookup(t.cells@, k as int);
                assert(cell_ids(t.cells@)[k as int] == plan@[i as int]@);
                assert(t.dependencies@.contains_key(plan@[i as int]@));
            }
            let deps = self.topology.get_dependencies(&plan[i]);
            let inputs = locals_from_dependencies(&self.topology.cells, k, &deps);
            execution_cells.push(execution_cell(&self.topology.cells[k]));
            locals_of_deps.push(inputs);
            i = i + 1;
        }
        proof {
            assert(Seq::new(execution_cells@.len(), |q: int| execution_cells@[q].uuid@) =~= views(plan@));
        }
        Ok(MsgToKernel { notebook_uuid: self.uuid.clone(), cell_uuid: cell_uuid.clone(), execution_cells, locals_of_deps })
    }

    /// Replaces the display order; see `Topology::reorder_cells`.
    pub fn reorder_cells(&mut self, cell_uuids: &Vec<String>) -> (r: Result<(), TopologyErrors>)
        requires
            old(self).wf(),
        ensures
            final(self).wf(),
            r.is_ok() == (views(cell_uuids@).no_duplicates() && views(cell_uuids@).to_set() == cell_ids(old(self).topology.cells@).to_set()),
            r.is_ok() ==> views(final(self).topology.display_order@) == views(cell_uuids@),
    {
        self.topology.reorder_cells(cell_uuids)
    }
}

} // verus!
