//! The cells of a notebook in display order, and the dependency graph
//! derived from their requirements and the scope.

use vstd::prelude::*;
use crate::ast::Stmt;
use crate::cell::{updated, Cell};
use crate::errors::{NotebookErrors, ParseError};
use crate::errors::TopologyErrors;
use crate::graph::{closure, contains_name, copy_names, cyclic, edge, is_cycle, kahn, peel, reach, step, AdjList, Graph};
use crate::names::{release, Scope};
use crate::text::views;

verus! {

/// The ids of `cells`, in order.
pub open spec fn cell_ids(cells: Seq<Cell>) -> Seq<Seq<char>> {
    Seq::new(cells.len(), |i: int| cells[i].uuid@)
}

pub open spec fn ids_unique(cells: Seq<Cell>) -> bool {
    forall|i: int, j: int|
        0 <= i < cells.len() && 0 <= j < cells.len() && i != j ==> cells[i].uuid@ != cells[j].uuid@
}

/// The cells among `cells` that bind a name `c` requires, other than `c`:
/// `deps(c)`.
pub open spec fn deps_set(c: Cell, scope: Map<Seq<char>, Seq<char>>, cells: Seq<Cell>) -> Set<Seq<char>> {
    Set::new(
        |d: Seq<char>|
            exists|r: Seq<char>|
                #[trigger] c.required@.contains(r) && scope.contains_key(r) && scope[r] == d && d
                    != c.uuid@ && cell_ids(cells).contains(d),
    )
}

/// The cells that have `id` among their dependencies: `rdeps(id)`.
pub open spec fn rdeps_set(id: Seq<char>, scope: Map<Seq<char>, Seq<char>>, cells: Seq<Cell>) -> Set<Seq<char>> {
    Set::new(
        |x: Seq<char>|
            exists|j: int|
                0 <= j < cells.len() && #[trigger] cells[j].uuid@ == x && deps_set(cells[j], scope, cells).contains(id),
    )
}

/// `g` maps each cell to its dependencies, and has no other nodes.
pub open spec fn dependency_graph(g: Map<Seq<char>, Seq<Seq<char>>>, cells: Seq<Cell>, scope: Map<Seq<char>, Seq<char>>) -> bool {
    &&& forall|k: Seq<char>| g.contains_key(k) <==> cell_ids(cells).contains(k)
    &&& forall|i: int| 0 <= i < cells.len() ==> #[trigger] g[cells[i].uuid@].to_set() == deps_set(cells[i], scope, cells)
}

/// `h` maps each cell to its dependents, and has no other nodes.
pub open spec fn dependents_graph(h: Map<Seq<char>, Seq<Seq<char>>>, cells: Seq<Cell>, scope: Map<Seq<char>, Seq<char>>) -> bool {
    &&& forall|k: Seq<char>| h.contains_key(k) <==> cell_ids(cells).contains(k)
    &&& forall|i: int| 0 <= i < cells.len() ==> #[trigger] h[cells[i].uuid@].to_set() == rdeps_set(cells[i].uuid@, scope, cells)
}

/// The cells, their display order, and the dependency graph between them.
#[derive(Debug)]
pub struct Topology {
    pub cells: Vec<Cell>,
    pub display_order: Vec<String>,
    /// For each cell, the cells it depends on.
    pub dependencies: AdjList,
    /// For each cell, the cells that depend on it.
    pub dependents: AdjList,
}

/// The position of the cell `id` in `cells`, if any.
pub fn find_cell(cells: &Vec<Cell>, id: &String) -> (r: Option<usize>)
    ensures
        r matches Some(i) ==> i < cells@.len() && cells@[i as int].uuid@ == id@,
        r is None ==> !cell_ids(cells@).contains(id@),
{
    let mut i: usize = 0;
    while i < cells.len()
        invariant
            i <= cells@.len(),
            forall|k: int| 0 <= k < i ==> #[trigger] cells@[k].uuid@ != id@,
        decreases cells.len() - i,
    {
        if cells[i].uuid == *id {
            return Some(i);
        }
        i = i + 1;
    }
    assert(!cell_ids(cells@).contains(id@)) by {
        if cell_ids(cells@).contains(id@) {
            let k = choose|k: int| 0 <= k < cell_ids(cells@).len() && cell_ids(cells@)[k] == id@;
            assert(cells@[k].uuid@ != id@);
        }
    }
    None
}

/// The dependencies of `c`, each once.
fn deps_of(c: &Cell, scope: &Scope, cells: &Vec<Cell>) -> (r: Vec<String>)
    ensures
        views(r@).to_set() == deps_set(*c, scope@, cells@),
{
    let names = c.required.as_vec();
    let mut r: Vec<String> = Vec::new();
    let mut i: usize = 0;
    while i < names.len()
        invariant
            i <= names@.len(),
            views(names@).to_set() == c.required@,
            forall|d: Seq<char>| #[trigger] views(r@).contains(d) <==> exists|k: int|
                0 <= k < i && scope@.contains_key(#[trigger] names@[k]@) && scope@[names@[k]@] == d
                    && d != c.uuid@ && cell_ids(cells@).contains(d),
        decreases names.len() - i,
    {
        let ghost before = views(r@);
        let ghost n = names@[i as int]@;
        match scope.get(&names[i]) {
            Some(d) => {
                let found = find_cell(cells, d);
                if !(*d == c.uuid) && found.is_some() {
                    proof {
                        let k = found->Some_0;
                        assert(cell_ids(cells@)[k as int] == d@);
                    }
                    if !contains_name(&r, d) {
                        r.push(d.clone());
                        assert(views(r@) =~= before.push(d@));
                    }
                    assert forall|x: Seq<char>| #[trigger] views(r@).contains(x) <==> (before.contains(x) || x == d@) by {
                        if views(r@).contains(x) && !before.contains(x) {
                            let q = choose|q: int| 0 <= q < views(r@).len() && views(r@)[q] == x;
                            if q < before.len() {
                                assert(before[q] == x);
                            }
                        }
                        if before.contains(x) {
                            let q = choose|q: int| 0 <= q < before.len() && before[q] == x;
                            assert(views(r@)[q] == x);
                        }
                        if x == d@ && !before.contains(x) {
                            assert(views(r@)[views(r@).len() - 1] == x);
                        }
                    }
                    assert forall|x: Seq<char>| (scope@.contains_key(n) && scope@[n] == x && x != c.uuid@ && cell_ids(cells@).contains(x)) <==> x == d@ by {}
                } else {
                    assert forall|x: Seq<char>| !(scope@.contains_key(n) && scope@[n] == x && x != c.uuid@ && cell_ids(cells@).contains(x)) by {}
                }
            },
            None => {},
        }
        assert forall|d: Seq<char>| #[trigger] views(r@).contains(d) <==> exists|k: int|
            0 <= k < i + 1 && scope@.contains_key(#[trigger] names@[k]@) && scope@[names@[k]@] == d
                && d != c.uuid@ && cell_ids(cells@).contains(d) by {
            if scope@.contains_key(n) && scope@[n] == d && d != c.uuid@ && cell_ids(cells@).contains(d) {
                assert(views(r@).contains(d));
            }
            if exists|k: int| 0 <= k < i && scope@.contains_key(#[trigger] names@[k]@) && scope@[names@[k]@] == d && d != c.uuid@ && cell_ids(cells@).contains(d) {
                assert(before.contains(d));
                let q = choose|q: int| 0 <= q < before.len() && before[q] == d;
                assert(views(r@)[q] == d);
            }
            if views(r@).contains(d) && !before.contains(d) {
                assert(scope@.contains_key(n) && scope@[n] == d && d != c.uuid@ && cell_ids(cells@).contains(d));
                assert(names@[i as int]@ == n);
            }
        }
        i = i + 1;
    }
    assert forall|d: Seq<char>| #[trigger] views(r@).to_set().contains(d) <==> deps_set(*c, scope@, cells@).contains(d) by {
        if deps_set(*c, scope@, cells@).contains(d) {
            let rq = choose|rq: Seq<char>|
                #[trigger] c.required@.contains(rq) && scope@.contains_key(rq) && scope@[rq] == d && d
                    != c.uuid@ && cell_ids(cells@).contains(d);
            assert(views(names@).contains(rq));
            let k = choose|k: int| 0 <= k < views(names@).len() && views(names@)[k] == rq;
            assert(names@[k]@ == rq);
        }
        if views(r@).contains(d) {
            let k = choose|k: int|
                0 <= k < names@.len() && scope@.contains_key(#[trigger] names@[k]@) && scope@[names@[k]@] == d
                    && d != c.uuid@ && cell_ids(cells@).contains(d);
            assert(views(names@)[k] == names@[k]@);
            assert(c.required@.contains(names@[k]@));
        }
    }
    assert(views(r@).to_set() =~= deps_set(*c, scope@, cells@));
    r
}

/// The dependency and dependent graphs of `cells` in `scope`.
fn derive_graphs(cells: &Vec<Cell>, scope: &Scope) -> (r: (AdjList, AdjList))
    requires
        ids_unique(cells@),
    ensures
        dependency_graph(r.0@, cells@, scope@),
        dependents_graph(r.1@, cells@, scope@),
{
    let mut lists: Vec<Vec<String>> = Vec::new();
    let mut deps = AdjList::new();
    let mut i: usize = 0;
    while i < cells.len()
        invariant
            i <= cells@.len(),
            ids_unique(cells@),
            lists@.len() == i,
            forall|k: int| 0 <= k < i ==> views(#[trigger] lists@[k]@).to_set() == deps_set(cells@[k], scope@, cells@),
            forall|x: Seq<char>| deps@.contains_key(x) <==> exists|k: int| 0 <= k < i && #[trigger] cells@[k].uuid@ == x,
            forall|k: int| 0 <= k < i ==> deps@[#[trigger] cells@[k].uuid@] == views(lists@[k]@),
        decreases cells.len() - i,
    {
        let d = deps_of(&cells[i], scope, cells);
        let d2 = copy_names(&d);
        deps.insert(cells[i].uuid.clone(), d2);
        lists.push(d);
        assert forall|k: int| 0 <= k < i + 1 implies deps@[#[trigger] cells@[k].uuid@] == views(lists@[k]@) by {
            if k < i {
                assert(cells@[k].uuid@ != cells@[i as int].uuid@);
            }
        }
        assert forall|x: Seq<char>| deps@.contains_key(x) <==> exists|k: int| 0 <= k < i + 1 && #[trigger] cells@[k].uuid@ == x by {
            if x == cells@[i as int].uuid@ {
                assert(cells@[i as int].uuid@ == x);
            }
        }
        i = i + 1;
    }
    assert forall|k: Seq<char>| deps@.contains_key(k) <==> cell_ids(cells@).contains(k) by {
        if cell_ids(cells@).contains(k) {
            let t = choose|t: int| 0 <= t < cell_ids(cells@).len() && cell_ids(cells@)[t] == k;
            assert(cells@[t].uuid@ == k);
        }
        if deps@.contains_key(k) {
            let t = choose|t: int| 0 <= t < cells@.len() && #[trigger] cells@[t].uuid@ == k;
            assert(cell_ids(cells@)[t] == k);
        }
    }
    let mut rdeps = AdjList::new();
    let mut i: usize = 0;
    while i < cells.len()
        invariant
            i <= cells@.len(),
            ids_unique(cells@),
            lists@.len() == cells@.len(),
            forall|k: int| 0 <= k < cells@.len() ==> views(#[trigger] lists@[k]@).to_set() == deps_set(cells@[k], scope@, cells@),
            forall|x: Seq<char>| rdeps@.contains_key(x) <==> exists|k: int| 0 <= k < i && #[trigger] cells@[k].uuid@ == x,
            forall|k: int| 0 <= k < i ==> #[trigger] rdeps@[cells@[k].uuid@].to_set() == rdeps_set(cells@[k].uuid@, scope@, cells@),
        decreases cells.len() - i,
    {
        let id = &cells[i].uuid;
        let mut users: Vec<String> = Vec::new();
        let mut j: usize = 0;
        while j < cells.len()
            invariant
                j <= cells@.len(),
                lists@.len() == cells@.len(),
                i < cells@.len(),
                id@ == cells@[i as int].uuid@,
                forall|k: int| 0 <= k < cells@.len() ==> views(#[trigger] lists@[k]@).to_set() == deps_set(cells@[k], scope@, cells@),
                forall|x: Seq<char>| #[trigger] views(users@).contains(x) <==> exists|t: int|
                    0 <= t < j && #[trigger] cells@[t].uuid@ == x && deps_set(cells@[t], scope@, cells@).contains(id@),
            decreases cells.len() - j,
        {
            let ghost before = views(users@);
            let ghost hit = deps_set(cells@[j as int], scope@, cells@).contains(id@);
            if contains_name(&lists[j], id) {
                users.push(cells[j].uuid.clone());
                assert(views(users@) =~= before.push(cells@[j as int].uuid@));
                assert(views(lists@[j as int]@).to_set().contains(id@));
                assert(hit);
                assert(views(users@)[views(users@).len() - 1] == cells@[j as int].uuid@);
            } else {
                assert(!views(lists@[j as int]@).to_set().contains(id@));
                assert(!hit);
            }
            assert forall|x: Seq<char>| #[trigger] views(users@).contains(x) <==> exists|t: int|
                0 <= t < j + 1 && #[trigger] cells@[t].uuid@ == x && deps_set(cells@[t], scope@, cells@).contains(id@) by {
                if views(users@).contains(x) && !before.contains(x) {
                    let q = choose|q: int| 0 <= q < views(users@).len() && views(users@)[q] == x;
                    if q < before.len() {
                        assert(before[q] == x);
                    }
                }
                if before.contains(x) {
                    let q = choose|q: int| 0 <= q < before.len() && before[q] == x;
                    assert(views(users@)[q] == x);
                }
            }
            j = j + 1;
        }
        assert(views(users@).to_set() =~= rdeps_set(cells@[i as int].uuid@, scope@, cells@));
        rdeps.insert(cells[i].uuid.clone(), users);
        assert forall|k: int| 0 <= k < i + 1 implies #[trigger] rdeps@[cells@[k].uuid@].to_set() == rdeps_set(cells@[k].uuid@, scope@, cells@) by {
            if k < i {
                assert(cells@[k].uuid@ != cells@[i as int].uuid@);
            }
        }
        assert forall|x: Seq<char>| rdeps@.contains_key(x) <==> exists|k: int| 0 <= k < i + 1 && #[trigger] cells@[k].uuid@ == x by {
            if x == cells@[i as int].uuid@ {
                assert(cells@[i as int].uuid@ == x);
            }
        }
        i = i + 1;
    }
    assert forall|k: Seq<char>| rdeps@.contains_key(k) <==> cell_ids(cells@).contains(k) by {
        if cell_ids(cells@).contains(k) {
            let t = choose|t: int| 0 <= t < cell_ids(cells@).len() && cell_ids(cells@)[t] == k;
            assert(cells@[t].uuid@ == k);
        }
        if rdeps@.contains_key(k) {
            let t = choose|t: int| 0 <= t < cells@.len() && #[trigger] cells@[t].uuid@ == k;
            assert(cell_ids(cells@)[t] == k);
        }
    }
    (deps, rdeps)
}

/// `x` occurs in `v` before index `end`.
fn contains_name_before(v: &Vec<String>, x: &String, end: usize) -> (r: bool)
    requires
        end <= v@.len(),
    ensures
        r == views(v@).subrange(0, end as int).contains(x@),
{
    let mut i: usize = 0;
    while i < end
        invariant
            i <= end,
            end <= v@.len(),
            forall|k: int| 0 <= k < i ==> #[trigger] v@[k]@ != x@,
        decreases end - i,
    {
        if v[i] == *x {
            assert(views(v@).subrange(0, end as int)[i as int] == x@);
            return true;
        }
        i = i + 1;
    }
    assert(!views(v@).subrange(0, end as int).contains(x@)) by {
        if views(v@).subrange(0, end as int).contains(x@) {
            let k = choose|k: int| 0 <= k < end && views(v@).subrange(0, end as int)[k] == x@;
            assert(v@[k]@ != x@);
        }
    }
    false
}

/// The ids of `cells`, in order.
fn ids_of(cells: &Vec<Cell>) -> (r: Vec<String>)
    ensures
        views(r@) == cell_ids(cells@),
{
    let mut r: Vec<String> = Vec::new();
    let mut i: usize = 0;
    while i < cells.len()
        invariant
            i <= cells@.len(),
            views(r@) == cell_ids(cells@).subrange(0, i as int),
        decreases cells.len() - i,
    {
        let ghost before = views(r@);
        r.push(cells[i].uuid.clone());
        assert(views(r@) =~= before.push(cells@[i as int].uuid@));
        assert(views(r@) =~= cell_ids(cells@).subrange(0, i + 1));
        i = i + 1;
    }
    assert(cell_ids(cells@).subrange(0, cells@.len() as int) =~= cell_ids(cells@));
    r
}

proof fn lemma_unique_ids_no_dup(cells: Seq<Cell>)
    requires
        ids_unique(cells),
    ensures
        cell_ids(cells).no_duplicates(),
{
}

/// `a` and `b` hold the same cells, order and graphs.
pub open spec fn same_topology(a: Topology, b: Topology) -> bool {
    &&& a.cells@ == b.cells@
    &&& a.display_order == b.display_order
    &&& a.dependencies == b.dependencies
    &&& a.dependents == b.dependents
}

/// Entry `k` of `u` is among `ids` and does not occur earlier in `u`.
pub open spec fn fresh_member(ids: Seq<Seq<char>>, u: Seq<Seq<char>>, k: int) -> bool {
    ids.contains(u[k]) && !u.subrange(0, k).contains(u[k])
}

impl Topology {
    /// The ids are unique and the display order lists each cell once.
    pub open spec fn wf_cells(&self) -> bool {
        &&& ids_unique(self.cells@)
        &&& views(self.display_order@).no_duplicates()
        &&& views(self.display_order@).to_set() == cell_ids(self.cells@).to_set()
    }

    /// The invariant of a topology kept with the scope `scope`.
    pub open spec fn wf(&self, scope: Map<Seq<char>, Seq<char>>) -> bool {
        &&& self.wf_cells()
        &&& dependency_graph(self.dependencies@, self.cells@, scope)
        &&& dependents_graph(self.dependents@, self.cells@, scope)
        &&& !cyclic(self.dependencies@)
    }

    pub fn new() -> (r: Topology)
        ensures
            r.cells@.len() == 0,
            r.display_order@.len() == 0,
            forall|scope: Map<Seq<char>, Seq<char>>| r.wf(scope),
    {
        let r = Topology {
            cells: Vec::new(),
            display_order: Vec::new(),
            dependencies: AdjList::new(),
            dependents: AdjList::new(),
        };
        assert forall|scope: Map<Seq<char>, Seq<char>>| r.wf(scope) by {
            assert(views(r.display_order@).to_set() =~= cell_ids(r.cells@).to_set());
            assert(!cyclic(r.dependencies@)) by {
                if cyclic(r.dependencies@) {
                    let p = choose|p: Seq<Seq<char>>| crate::graph::is_cycle(r.dependencies@, p);
                    assert(crate::graph::step(r.dependencies@, p, 0));
                }
            }
        }
        r
    }

    /// Rebuilds the dependency and dependent graphs from the cells and `scope`.
    pub fn build(&mut self, scope: &Scope)
        requires
            ids_unique(old(self).cells@),
        ensures
            final(self).cells == old(self).cells,
            final(self).display_order == old(self).display_order,
            dependency_graph(final(self).dependencies@, final(self).cells@, scope@),
            dependents_graph(final(self).dependents@, final(self).cells@, scope@),
    {
        let (deps, rdeps) = derive_graphs(&self.cells, scope);
        self.dependencies = deps;
        self.dependents = rdeps;
    }

    /// The cells in the given order; refused when their dependencies form a
    /// cycle.
    pub fn from_vec(cells: Vec<Cell>, scope: &Scope) -> (r: Result<Topology, TopologyErrors>)
        requires
            ids_unique(cells@),
        ensures
            r.is_err() ==> r == Err::<Topology, TopologyErrors>(TopologyErrors::CycleDetected),
            r matches Ok(t) ==> t.wf(scope@) && t.cells@ == cells@ && views(t.display_order@) == cell_ids(cells@),
            r.is_err() <==> exists|g: Map<Seq<char>, Seq<Seq<char>>>| dependency_graph(g, cells@, scope@) && cyclic(g),
    {
        let display_order = ids_of(&cells);
        let (deps, rdeps) = derive_graphs(&cells, scope);
        proof {
            lemma_unique_ids_no_dup(cells@);
            lemma_graph_unique(cells@, scope@);
        }
        if Graph::has_cycle(&deps) {
            return Err(TopologyErrors::CycleDetected);
        }
        Ok(Topology { cells, display_order, dependencies: deps, dependents: rdeps })
    }

    /// Appends `cell` to the display order; refused, leaving the topology as
    /// it was, when its dependencies would form a cycle.
    pub fn add_cell(&mut self, cell: Cell, scope: &Scope) -> (r: Result<(), TopologyErrors>)
        requires
            old(self).wf_cells(),
        ensures
            cell_ids(old(self).cells@).contains(cell.uuid@) ==> r == Err::<(), TopologyErrors>(TopologyErrors::DuplicateId) && same_topology(*final(self), *old(self)),
            !cell_ids(old(self).cells@).contains(cell.uuid@) ==> (r.is_err() <==> exists|g: Map<Seq<char>, Seq<Seq<char>>>| dependency_graph(g, old(self).cells@.push(cell), scope@) && cyclic(g)),
            !cell_ids(old(self).cells@).contains(cell.uuid@) && r.is_err() ==> r == Err::<(), TopologyErrors>(TopologyErrors::CycleDetected) && same_topology(*final(self), *old(self)),
            final(self).wf_cells(),
            r.is_ok() ==> final(self).wf(scope@) && final(self).cells@ == old(self).cells@.push(cell)
                && views(final(self).display_order@) == views(old(self).display_order@).push(cell.uuid@),
    {
        match find_cell(&self.cells, &cell.uuid) {
            Some(k) => {
                assert(cell_ids(self.cells@)[k as int] == cell.uuid@);
                return Err(TopologyErrors::DuplicateId);
            },
            None => {},
        }
        let ghost cells2 = self.cells@.push(cell);
        let id = cell.uuid.clone();
        self.cells.push(cell);
        assert(ids_unique(self.cells@)) by {
            assert forall|i: int, j: int| 0 <= i < self.cells@.len() && 0 <= j < self.cells@.len() && i != j implies self.cells@[i].uuid@ != self.cells@[j].uuid@ by {
                if i == self.cells@.len() - 1 {
                    assert(cell_ids(old(self).cells@)[j] == self.cells@[j].uuid@);
                } else if j == self.cells@.len() - 1 {
                    assert(cell_ids(old(self).cells@)[i] == self.cells@[i].uuid@);
                }
            }
        }
        let (deps, rdeps) = derive_graphs(&self.cells, scope);
        proof {
            lemma_graph_unique(self.cells@, scope@);
        }
        if Graph::has_cycle(&deps) {
            let _ = self.cells.pop();
            assert(self.cells@ =~= old(self).cells@);
            return Err(TopologyErrors::CycleDetected);
        }
        let ghost d0 = views(self.display_order@);
        self.display_order.push(id);
        self.dependencies = deps;
        self.dependents = rdeps;
        proof {
            assert(views(self.display_order@) =~= d0.push(cell.uuid@));
            assert(cell_ids(self.cells@) =~= cell_ids(old(self).cells@).push(cell.uuid@));
            assert(!d0.contains(cell.uuid@)) by {
                if d0.contains(cell.uuid@) {
                    assert(d0.to_set().contains(cell.uuid@));
                    assert(cell_ids(old(self).cells@).to_set().contains(cell.uuid@));
                }
            }
            d0.lemma_push_to_set_commute(cell.uuid@);
            cell_ids(old(self).cells@).lemma_push_to_set_commute(cell.uuid@);
            assert(views(self.display_order@).to_set() =~= cell_ids(self.cells@).to_set());
            assert(views(self.display_order@).no_duplicates()) by {
                let d = views(self.display_order@);
                assert forall|a: int, b: int| 0 <= a < d.len() && 0 <= b < d.len() && a != b implies d[a] != d[b] by {
                    if a == d.len() - 1 {
                        assert(d0.contains(d0[b]));
                    } else if b == d.len() - 1 {
                        assert(d0.contains(d0[a]));
                    }
                }
            }
        }
        Ok(())
    }

    /// Removes the cell `uuid`: it leaves the cells and the display order,
    /// the scope forgets its bindings, and the graph is rebuilt. Cells that
    /// required its names keep those requirements, now unresolved.
    pub fn remove_cell(&mut self, uuid: &String, scope: &mut Scope) -> (r: Result<Cell, TopologyErrors>)
        requires
            old(self).wf(old(scope)@),
        ensures
            final(self).wf(final(scope)@),
            r.is_err() == !cell_ids(old(self).cells@).contains(uuid@),
            r.is_err() ==> r == Err::<Cell, TopologyErrors>(TopologyErrors::CellNotFound)
                && same_topology(*final(self), *old(self)) && final(scope)@ == old(scope)@,
            r matches Ok(c) ==> {
                &&& c.uuid@ == uuid@
                &&& exists|k: int| 0 <= k < old(self).cells@.len() && old(self).cells@[k] == c && #[trigger] old(self).cells@.remove(k) == final(self).cells@
                &&& views(final(self).display_order@) == without(views(old(self).display_order@), uuid@)
                &&& final(scope)@ == release(old(scope)@, c.bindings@, c.uuid@)
            },
    {
        let k = match find_cell(&self.cells, uuid) {
            Some(k) => k,
            None => return Err(TopologyErrors::CellNotFound),
        };
        let ghost cells0 = self.cells@;
        let ghost g0 = self.dependencies@;
        let ghost scope_before = scope@;
        let removed = self.cells.remove(k);
        proof {
            assert(cell_ids(cells0)[k as int] == uuid@);
            assert(ids_unique(self.cells@)) by {
                assert forall|a: int, b: int| 0 <= a < self.cells@.len() && 0 <= b < self.cells@.len() && a != b implies self.cells@[a].uuid@ != self.cells@[b].uuid@ by {
                    let ia = if a < k { a } else { a + 1 };
                    let ib = if b < k { b } else { b + 1 };
                    assert(self.cells@[a] == cells0[ia]);
                    assert(self.cells@[b] == cells0[ib]);
                }
            }
        }
        scope.release(&removed.bindings, &removed.uuid);
        let (deps, rdeps) = derive_graphs(&self.cells, scope);
        proof {
            lemma_removal_keeps_acyclic(cells0, k as int, scope_before, scope@, g0, deps@);
        }
        let d = remove_name(&self.display_order, uuid);
        self.display_order = d;
        self.dependencies = deps;
        self.dependents = rdeps;
        proof {
            let dv = views(old(self).display_order@);
            lemma_without_contains(dv, uuid@);
            assert forall|x: Seq<char>| views(self.display_order@).to_set().contains(x) <==> cell_ids(self.cells@).to_set().contains(x) by {
                if cell_ids(self.cells@).contains(x) {
                    let q = choose|q: int| 0 <= q < cell_ids(self.cells@).len() && cell_ids(self.cells@)[q] == x;
                    let iq = if q < k { q } else { q + 1 };
                    assert(self.cells@[q] == cells0[iq]);
                    assert(cell_ids(cells0)[iq] == x);
                    assert(cell_ids(cells0).to_set().contains(x));
                    assert(dv.to_set().contains(x));
                    assert(x != uuid@);
                }
                if views(self.display_order@).contains(x) {
                    assert(dv.contains(x) && x != uuid@);
                    assert(cell_ids(cells0).to_set().contains(x));
                    let q = choose|q: int| 0 <= q < cell_ids(cells0).len() && cell_ids(cells0)[q] == x;
                    assert(q != k);
                    let jq = if q < k { q } else { q - 1 };
                    assert(self.cells@[jq] == cells0[q]);
                    assert(cell_ids(self.cells@)[jq] == x);
                }
            }
            assert(views(self.display_order@).to_set() =~= cell_ids(self.cells@).to_set());
        }
        Ok(removed)
    }

    /// The cell with id `uuid`, if any.
    pub fn get_cell(&self, uuid: &String) -> (r: Option<&Cell>)
        ensures
            r is None <==> !cell_ids(self.cells@).contains(uuid@),
            r matches Some(c) ==> c.uuid@ == uuid@ && self.cells@.contains(*c),
    {
        match find_cell(&self.cells, uuid) {
            Some(i) => {
                assert(cell_ids(self.cells@)[i as int] == uuid@);
                assert(self.cells@[i as int] == self.cells@[i as int]);
                Some(&self.cells[i])
            },
            None => None,
        }
    }

    /// The cells that `uuid` depends on.
    pub fn get_dependencies(&self, uuid: &String) -> (r: Vec<String>)
        ensures
            self.dependencies@.contains_key(uuid@) ==> views(r@) == self.dependencies@[uuid@],
            !self.dependencies@.contains_key(uuid@) ==> r@.len() == 0,
    {
        match self.dependencies.get(uuid) {
            Some(d) => copy_names(d),
            None => Vec::new(),
        }
    }

    /// The cells that depend on `uuid`.
    pub fn get_dependents(&self, uuid: &String) -> (r: Vec<String>)
        ensures
            self.dependents@.contains_key(uuid@) ==> views(r@) == self.dependents@[uuid@],
            !self.dependents@.contains_key(uuid@) ==> r@.len() == 0,
    {
        match self.dependents.get(uuid) {
            Some(d) => copy_names(d),
            None => Vec::new(),
        }
    }

    /// All cells, each after the cells it depends on; among cells that are
    /// ready at the same time, the earlier in display order comes first.
    pub fn topological_sort(&self) -> (r: Result<Vec<String>, TopologyErrors>)
        ensures
            r matches Ok(o) ==> kahn(self.dependencies@, views(self.display_order@)) == Some(views(o@)),
            r.is_err() ==> r == Err::<Vec<String>, TopologyErrors>(TopologyErrors::CycleDetected)
                && kahn(self.dependencies@, views(self.display_order@)) is None && cyclic(self.dependencies@),
    {
        match peel(&self.dependencies, &self.display_order) {
            Some(o) => Ok(o),
            None => Err(TopologyErrors::CycleDetected),
        }
    }

    /// `x` belongs to the plan for `t`: `t` itself, a cell `t` depends on,
    /// directly or not, or a cell that depends on `t`, directly or not.
    pub open spec fn in_plan(&self, t: Seq<char>, x: Seq<char>) -> bool {
        reach(self.dependencies@, t, x) || reach(self.dependents@, t, x)
    }

    /// The members of `s` in the plan for `t`, in order.
    pub open spec fn keep_plan(&self, t: Seq<char>, s: Seq<Seq<char>>) -> Seq<Seq<char>>
        decreases s.len(),
    {
        if s.len() == 0 {
            s
        } else {
            let sub = self.keep_plan(t, s.drop_last());
            if self.in_plan(t, s.last()) {
                sub.push(s.last())
            } else {
                sub
            }
        }
    }

    /// The plan keeps only members of `s`.
    pub proof fn lemma_keep_plan_subset(&self, t: Seq<char>, s: Seq<Seq<char>>)
        ensures
            forall|x: Seq<char>| self.keep_plan(t, s).contains(x) ==> s.contains(x),
        decreases s.len(),
    {
        if s.len() > 0 {
            self.lemma_keep_plan_subset(t, s.drop_last());
            assert forall|x: Seq<char>| self.keep_plan(t, s).contains(x) implies s.contains(x) by {
                let sub = self.keep_plan(t, s.drop_last());
                if sub.contains(x) {
                    assert(s.drop_last().contains(x));
                    let k = choose|k: int| 0 <= k < s.drop_last().len() && s.drop_last()[k] == x;
                    assert(s[k] == x);
                } else {
                    assert(s[s.len() - 1] == x) by {
                        let k = choose|k: int| 0 <= k < self.keep_plan(t, s).len() && self.keep_plan(t, s)[k] == x;
                        assert(self.keep_plan(t, s) == sub.push(s.last()));
                        if k < sub.len() {
                            assert(sub[k] == x);
                        }
                    }
                }
            }
        }
    }

    /// The cells of the plan for `t`, in display order.
    pub open spec fn plan_nodes(&self, t: Seq<char>) -> Seq<Seq<char>> {
        self.keep_plan(t, views(self.display_order@))
    }

    /// `r` is the plan for the cell `t`: an error for an unknown cell, else
    /// the ordering of the plan's cells, or an error when they form a cycle.
    pub open spec fn plan_result(&self, t: Seq<char>, r: Result<Vec<String>, TopologyErrors>) -> bool {
        &&& !cell_ids(self.cells@).contains(t) ==> r == Err::<Vec<String>, TopologyErrors>(TopologyErrors::CellNotFound)
        &&& cell_ids(self.cells@).contains(t) ==> match kahn(self.dependencies@, self.plan_nodes(t)) {
            Some(o) => r matches Ok(v) && views(v@) == o,
            None => r == Err::<Vec<String>, TopologyErrors>(TopologyErrors::CycleDetected) && cyclic(self.dependencies@),
        }
    }

    /// The cells to run when `cell_uuid` is run: the cell, the cells it
    /// depends on and the cells that depend on it, transitively, each after
    /// the cells it depends on, ties broken by display order.
    pub fn execution_seq(&self, cell_uuid: &String) -> (r: Result<Vec<String>, TopologyErrors>)
        ensures
            self.plan_result(cell_uuid@, r),
    {
        match find_cell(&self.cells, cell_uuid) {
            Some(k) => {
                assert(cell_ids(self.cells@)[k as int] == cell_uuid@);
            },
            None => {
                return Err(TopologyErrors::CellNotFound);
            },
        }
        let up = closure(&self.dependencies, cell_uuid);
        let down = closure(&self.dependents, cell_uuid);
        let ghost d = views(self.display_order@);
        let mut nodes: Vec<String> = Vec::new();
        let mut i: usize = 0;
        while i < self.display_order.len()
            invariant
                i <= d.len(),
                d == views(self.display_order@),
                forall|x: Seq<char>| views(up@).contains(x) <==> reach(self.dependencies@, cell_uuid@, x),
                forall|x: Seq<char>| views(down@).contains(x) <==> reach(self.dependents@, cell_uuid@, x),
                views(nodes@) == self.keep_plan(cell_uuid@, d.subrange(0, i as int)),
            decreases self.display_order.len() - i,
        {
            let ghost before = views(nodes@);
            let x = &self.display_order[i];
            proof {
                assert(d.subrange(0, i + 1).drop_last() =~= d.subrange(0, i as int));
                assert(d.subrange(0, i + 1).last() == x@);
            }
            let keep = contains_name(&up, x) || contains_name(&down, x);
            assert(keep == self.in_plan(cell_uuid@, x@));
            if keep {
                nodes.push(x.clone());
                assert(views(nodes@) =~= before.push(x@));
            }
            assert(views(nodes@) == self.keep_plan(cell_uuid@, d.subrange(0, i + 1)));
            i = i + 1;
        }
        assert(d.subrange(0, d.len() as int) =~= d);
        match peel(&self.dependencies, &nodes) {
            Some(o) => Ok(o),
            None => Err(TopologyErrors::CycleDetected),
        }
    }

    /// Replaces the display order by `cell_uuids`, which must hold each cell
    /// exactly once; otherwise nothing changes.
    pub fn reorder_cells(&mut self, cell_uuids: &Vec<String>) -> (r: Result<(), TopologyErrors>)
        ensures
            r.is_ok() == (views(cell_uuids@).no_duplicates() && views(cell_uuids@).to_set() == cell_ids(old(self).cells@).to_set()),
            r.is_ok() ==> views(final(self).display_order@) == views(cell_uuids@),
            r.is_err() ==> r == Err::<(), TopologyErrors>(TopologyErrors::CellNotFound) && final(self).display_order == old(self).display_order,
            final(self).cells == old(self).cells,
            final(self).dependencies == old(self).dependencies,
            final(self).dependents == old(self).dependents,
    {
        let ids = ids_of(&self.cells);
        let ghost u = views(cell_uuids@);
        let mut ok1 = true;
        let mut i: usize = 0;
        while i < cell_uuids.len()
            invariant
                i <= cell_uuids@.len(),
                u == views(cell_uuids@),
                views(ids@) == cell_ids(self.cells@),
                ok1 == forall|k: int| 0 <= k < i ==> #[trigger] fresh_member(views(ids@), u, k),
            decreases cell_uuids.len() - i,
        {
            let earlier = contains_name_before(cell_uuids, &cell_uuids[i], i);
            let known = contains_name(&ids, &cell_uuids[i]);
            assert(u[i as int] == cell_uuids@[i as int]@);
            assert(fresh_member(views(ids@), u, i as int) == (known && !earlier));
            if !known || earlier {
                ok1 = false;
            }
            i = i + 1;
        }
        let mut ok2 = true;
        let mut j: usize = 0;
        while j < ids.len()
            invariant
                j <= ids@.len(),
                u == views(cell_uuids@),
                ok2 == forall|k: int| 0 <= k < j ==> u.contains(#[trigger] ids@[k]@),
            decreases ids.len() - j,
        {
            if !contains_name(cell_uuids, &ids[j]) {
                ok2 = false;
            }
            j = j + 1;
        }
        let ok = ok1 && ok2;
        proof {
            if ok {
                assert forall|a: int, b: int| 0 <= a < u.len() && 0 <= b < u.len() && a != b implies u[a] != u[b] by {
                    let (lo, hi) = if a < b { (a, b) } else { (b, a) };
                    assert(fresh_member(views(ids@), u, hi));
                    assert(u.subrange(0, hi)[lo] == u[lo]);
                }
                assert forall|x: Seq<char>| u.to_set().contains(x) <==> cell_ids(self.cells@).to_set().contains(x) by {
                    if u.contains(x) {
                        let k = choose|k: int| 0 <= k < u.len() && u[k] == x;
                        assert(fresh_member(views(ids@), u, k));
                    }
                    if cell_ids(self.cells@).contains(x) {
                        let k = choose|k: int| 0 <= k < views(ids@).len() && views(ids@)[k] == x;
                        assert(u.contains(ids@[k]@));
                    }
                }
                assert(u.to_set() =~= cell_ids(self.cells@).to_set());
            } else if u.no_duplicates() && u.to_set() == cell_ids(self.cells@).to_set() {
                if !ok1 {
                    let k = choose|k: int| 0 <= k < cell_uuids@.len() && !#[trigger] fresh_member(views(ids@), u, k);
                    assert(u.to_set().contains(u[k]));
                    if u.subrange(0, k).contains(u[k]) {
                        let q = choose|q: int| 0 <= q < k && u.subrange(0, k)[q] == u[k];
                        assert(u[q] == u[k]);
                    }
                } else {
                    let k = choose|k: int| 0 <= k < ids@.len() && !u.contains(#[trigger] ids@[k]@);
                    assert(views(ids@)[k] == ids@[k]@);
                    assert(cell_ids(self.cells@).contains(ids@[k]@));
                    assert(cell_ids(self.cells@).to_set().contains(ids@[k]@));
                }
            }
        }
        if ok {
            self.display_order = copy_names(cell_uuids);
            Ok(())
        } else {
            Err(TopologyErrors::CellNotFound)
        }
    }

    /// Replaces the content of the cell `cell_uuid`, whose parse is `parsed`,
    /// and rebuilds the graph. Content equal to the current one changes
    /// nothing. An update that would close a cycle is refused and changes
    /// nothing; content that does not parse is taken, with the cell's
    /// analysis cleared, and the parse error is returned.
    pub fn update_cell(
        &mut self,
        cell_uuid: &String,
        next_content: &str,
        parsed: Result<Vec<Stmt>, ParseError>,
        scope: &mut Scope,
    ) -> (r: Result<(), NotebookErrors>)
        requires
            old(self).wf(old(scope)@),
        ensures
            final(self).wf(final(scope)@),
            !cell_ids(old(self).cells@).contains(cell_uuid@) ==> r == Err::<(), NotebookErrors>(NotebookErrors::Topology(TopologyErrors::CellNotFound))
                && same_topology(*final(self), *old(self)) && final(scope)@ == old(scope)@,
            forall|i: int| 0 <= i < old(self).cells@.len() && #[trigger] old(self).cells@[i].uuid@ == cell_uuid@ ==> {
                let before = old(self).cells@[i];
                &&& before.content@ == next_content@ ==> r.is_ok() && same_topology(*final(self), *old(self)) && final(scope)@ == old(scope)@
                &&& r == Err::<(), NotebookErrors>(NotebookErrors::Topology(TopologyErrors::CycleDetected)) ==> same_topology(*final(self), *old(self)) && final(scope)@ == old(scope)@
                    && before.content@ != next_content@
                    && exists|c: Cell, s2: Map<Seq<char>, Seq<char>>, pr: Result<(), ParseError>, g: Map<Seq<char>, Seq<Seq<char>>>|
                        #[trigger] updated(before, c, next_content@, parsed, old(scope)@, s2, pr)
                        && #[trigger] dependency_graph(g, old(self).cells@.update(i, c), s2) && cyclic(g)
                &&& before.content@ != next_content@ && r != Err::<(), NotebookErrors>(NotebookErrors::Topology(TopologyErrors::CycleDetected)) ==> {
                    &&& final(self).cells@.len() == old(self).cells@.len()
                    &&& forall|j: int| 0 <= j < old(self).cells@.len() && j != i ==> #[trigger] final(self).cells@[j] == old(self).cells@[j]
                    &&& final(self).display_order == old(self).display_order
                    &&& exists|pr: Result<(), ParseError>| #[trigger] updated(before, final(self).cells@[i], next_content@, parsed, old(scope)@, final(scope)@, pr)
                        && (pr.is_ok() ==> r.is_ok()) && (pr matches Err(e) ==> r == Err::<(), NotebookErrors>(NotebookErrors::Parse(e)))
                }
            },
    {
        let i = match find_cell(&self.cells, cell_uuid) {
            Some(i) => i,
            None => {
                assert forall|k: int| 0 <= k < old(self).cells@.len() implies #[trigger] old(self).cells@[k].uuid@ != cell_uuid@ by {
                    assert(cell_ids(old(self).cells@)[k] == old(self).cells@[k].uuid@);
                }
                return Err(NotebookErrors::Topology(TopologyErrors::CellNotFound));
            },
        };
        proof {
            assert(cell_ids(old(self).cells@)[i as int] == cell_uuid@);
            assert forall|k: int| 0 <= k < old(self).cells@.len() && #[trigger] old(self).cells@[k].uuid@ == cell_uuid@ implies k == i by {}
        }
        let next = next_content.to_owned();
        if self.cells[i].content == next {
            return Ok(());
        }
        let mut new_scope = scope.duplicate();
        let mut cell = self.cells[i].duplicate();
        let ghost copy0 = cell;
        let res = cell.update_content(next_content, parsed, &mut new_scope);
        proof {
            assert(updated(self.cells@[i as int], cell, next_content@, parsed, scope@, new_scope@, res));
        }
        let ghost cells0 = self.cells@;
        let ghost upd = cell;
        std::mem::swap(&mut self.cells[i], &mut cell);
        assert(ids_unique(self.cells@)) by {
            assert forall|a: int, b: int| 0 <= a < self.cells@.len() && 0 <= b < self.cells@.len() && a != b implies self.cells@[a].uuid@ != self.cells@[b].uuid@ by {
                assert(cells0[a].uuid@ != cells0[b].uuid@);
            }
        }
        let (deps, rdeps) = derive_graphs(&self.cells, &new_scope);
        if Graph::has_cycle(&deps) {
            proof {
                assert(self.cells@ =~= cells0.update(i as int, upd));
                assert(updated(cells0[i as int], upd, next_content@, parsed, scope@, new_scope@, res));
                assert(dependency_graph(deps@, cells0.update(i as int, upd), new_scope@) && cyclic(deps@));
            }
            std::mem::swap(&mut self.cells[i], &mut cell);
            assert(self.cells@ =~= cells0);
            return Err(NotebookErrors::Topology(TopologyErrors::CycleDetected));
        }
        self.dependencies = deps;
        self.dependents = rdeps;
        *scope = new_scope;
        proof {
            assert(cell_ids(self.cells@) =~= cell_ids(cells0));
        }
        match res {
            Ok(()) => Ok(()),
            Err(e) => Err(NotebookErrors::Parse(e)),
        }
    }
}

/// The dependency graph of a set of cells is determined up to the order of
/// each list, so whether it has a cycle is too.
proof fn lemma_graph_unique(cells: Seq<Cell>, scope: Map<Seq<char>, Seq<char>>)
    ensures
        forall|g1: Map<Seq<char>, Seq<Seq<char>>>, g2: Map<Seq<char>, Seq<Seq<char>>>|
            dependency_graph(g1, cells, scope) && dependency_graph(g2, cells, scope) && #[trigger] cyclic(g1) ==> #[trigger] cyclic(g2),
{
    assert forall|g1: Map<Seq<char>, Seq<Seq<char>>>, g2: Map<Seq<char>, Seq<Seq<char>>>|
        dependency_graph(g1, cells, scope) && dependency_graph(g2, cells, scope) && #[trigger] cyclic(g1) implies #[trigger] cyclic(g2) by {
        lemma_same_edges(g1, g2, cells, scope);
        let p = choose|p: Seq<Seq<char>>| crate::graph::is_cycle(g1, p);
        assert forall|i: int| 0 <= i < p.len() - 1 implies #[trigger] crate::graph::step(g2, p, i) by {
            assert(crate::graph::step(g1, p, i));
        }
        assert(crate::graph::is_cycle(g2, p));
    }
}

/// `s` without the entries equal to `x`.
pub open spec fn without(s: Seq<Seq<char>>, x: Seq<char>) -> Seq<Seq<char>>
    decreases s.len(),
{
    if s.len() == 0 {
        s
    } else {
        let sub = without(s.drop_last(), x);
        if s.last() != x {
            sub.push(s.last())
        } else {
            sub
        }
    }
}

proof fn lemma_push_contains(s: Seq<Seq<char>>, e: Seq<char>)
    ensures
        forall|y: Seq<char>| #[trigger] s.push(e).contains(y) <==> s.contains(y) || y == e,
{
    assert forall|y: Seq<char>| #[trigger] s.push(e).contains(y) <==> s.contains(y) || y == e by {
        if s.contains(y) {
            let q = choose|q: int| 0 <= q < s.len() && s[q] == y;
            assert(s.push(e)[q] == y);
        }
        if y == e {
            assert(s.push(e)[s.len() as int] == y);
        }
        if s.push(e).contains(y) {
            let q = choose|q: int| 0 <= q < s.push(e).len() && s.push(e)[q] == y;
            if q < s.len() {
                assert(s[q] == y);
            }
        }
    }
}

proof fn lemma_without_contains(s: Seq<Seq<char>>, x: Seq<char>)
    ensures
        forall|y: Seq<char>| #[trigger] without(s, x).contains(y) <==> s.contains(y) && y != x,
    decreases s.len(),
{
    if s.len() > 0 {
        let dl = s.drop_last();
        lemma_without_contains(dl, x);
        let sub = without(dl, x);
        assert(dl.push(s.last()) =~= s);
        lemma_push_contains(dl, s.last());
        lemma_push_contains(sub, s.last());
    }
}

/// Removing a cell and releasing its bindings only removes edges, so no
/// cycle appears.
proof fn lemma_removal_keeps_acyclic(
    cells: Seq<Cell>,
    k: int,
    scope_before: Map<Seq<char>, Seq<char>>,
    scope_after: Map<Seq<char>, Seq<char>>,
    g0: Map<Seq<char>, Seq<Seq<char>>>,
    g1: Map<Seq<char>, Seq<Seq<char>>>,
)
    requires
        ids_unique(cells),
        0 <= k < cells.len(),
        scope_after == release(scope_before, cells[k].bindings@, cells[k].uuid@),
        dependency_graph(g0, cells, scope_before),
        dependency_graph(g1, cells.remove(k), scope_after),
        !cyclic(g0),
    ensures
        !cyclic(g1),
{
    let rest = cells.remove(k);
    assert forall|u: Seq<char>, v: Seq<char>| #[trigger] edge(g1, u, v) implies edge(g0, u, v) by {
        assert(cell_ids(rest).contains(u));
        let q = choose|q: int| 0 <= q < cell_ids(rest).len() && cell_ids(rest)[q] == u;
        let iq = if q < k { q } else { q + 1 };
        assert(rest[q] == cells[iq]);
        assert(g1[rest[q].uuid@].to_set().contains(v));
        assert(deps_set(rest[q], scope_after, rest).contains(v));
        let r = choose|r: Seq<char>| #[trigger] rest[q].required@.contains(r) && scope_after.contains_key(r) && scope_after[r] == v && v != rest[q].uuid@ && cell_ids(rest).contains(v);
        let p = choose|p: int| 0 <= p < cell_ids(rest).len() && cell_ids(rest)[p] == v;
        let ip = if p < k { p } else { p + 1 };
        assert(rest[p] == cells[ip]);
        assert(cell_ids(cells)[ip] == v);
        assert(deps_set(cells[iq], scope_before, cells).contains(v));
        assert(cell_ids(cells)[iq] == u);
        assert(g0[cells[iq].uuid@].to_set().contains(v));
    }
    if cyclic(g1) {
        let p = choose|p: Seq<Seq<char>>| is_cycle(g1, p);
        assert forall|i: int| 0 <= i < p.len() - 1 implies #[trigger] step(g0, p, i) by {
            assert(step(g1, p, i));
        }
        assert(is_cycle(g0, p));
    }
}

/// `v` without the entries equal to `x`.
fn remove_name(v: &Vec<String>, x: &String) -> (r: Vec<String>)
    ensures
        views(r@) == without(views(v@), x@),
        views(v@).no_duplicates() ==> views(r@).no_duplicates(),
{
    let mut r: Vec<String> = Vec::new();
    let mut i: usize = 0;
    while i < v.len()
        invariant
            i <= v@.len(),
            views(r@) == without(views(v@).subrange(0, i as int), x@),
            views(v@).no_duplicates() ==> views(r@).no_duplicates(),
            forall|y: Seq<char>| views(r@).contains(y) ==> views(v@).subrange(0, i as int).contains(y),
        decreases v.len() - i,
    {
        let ghost before = views(r@);
        proof {
            assert(views(v@).subrange(0, i + 1).drop_last() =~= views(v@).subrange(0, i as int));
        }
        if !(v[i] == *x) {
            r.push(v[i].clone());
            proof {
                assert(views(r@) =~= before.push(v@[i as int]@));
                if views(v@).no_duplicates() {
                    assert(!before.contains(v@[i as int]@)) by {
                        if before.contains(v@[i as int]@) {
                            let q = choose|q: int| 0 <= q < i && views(v@).subrange(0, i as int)[q] == v@[i as int]@;
                            assert(views(v@)[q] == views(v@)[i as int]);
                        }
                    }
                    assert forall|a: int, b: int| 0 <= a < views(r@).len() && 0 <= b < views(r@).len() && a != b implies views(r@)[a] != views(r@)[b] by {
                        if a == before.len() {
                            assert(before.contains(before[b]));
                        } else if b == before.len() {
                            assert(before.contains(before[a]));
                        }
                    }
                }
            }
        }
        proof {
            assert forall|y: Seq<char>| views(r@).contains(y) implies views(v@).subrange(0, i + 1).contains(y) by {
                let q = choose|q: int| 0 <= q < views(r@).len() && views(r@)[q] == y;
                if q < before.len() {
                    assert(before.contains(y));
                    let t = choose|t: int| 0 <= t < i && views(v@).subrange(0, i as int)[t] == y;
                    assert(views(v@).subrange(0, i + 1)[t] == y);
                } else {
                    assert(views(v@).subrange(0, i + 1)[i as int] == y);
                }
            }
        }
        i = i + 1;
    }
    assert(views(v@).subrange(0, v@.len() as int) =~= views(v@));
    r
}

/// Two dependency graphs of the same cells have the same edges.
pub proof fn lemma_same_edges(
    g1: Map<Seq<char>, Seq<Seq<char>>>,
    g2: Map<Seq<char>, Seq<Seq<char>>>,
    cells: Seq<Cell>,
    scope: Map<Seq<char>, Seq<char>>,
)
    requires
        dependency_graph(g1, cells, scope),
        dependency_graph(g2, cells, scope),
    ensures
        forall|u: Seq<char>, v: Seq<char>| #[trigger] edge(g1, u, v) <==> #[trigger] edge(g2, u, v),
{
    assert forall|u: Seq<char>, v: Seq<char>| #[trigger] edge(g1, u, v) <==> #[trigger] edge(g2, u, v) by {
        if g1.contains_key(u) {
            assert(cell_ids(cells).contains(u));
            let i = choose|i: int| 0 <= i < cell_ids(cells).len() && cell_ids(cells)[i] == u;
            assert(cells[i].uuid@ == u);
            assert(g1[cells[i].uuid@].to_set() == deps_set(cells[i], scope, cells));
            assert(g2[cells[i].uuid@].to_set() == deps_set(cells[i], scope, cells));
            assert(g1[u].contains(v) <==> g1[u].to_set().contains(v));
            assert(g2[u].contains(v) <==> g2[u].to_set().contains(v));
        }
    }
}

} // verus!
