use reactive_core::ast::{Expr, ExprContext, SourceLocation, Stmt, StmtKind};
use reactive_core::cell::Cell;
use reactive_core::errors::{NotebookErrors, ParseError, TopologyErrors};
use reactive_core::names::Scope;
use reactive_core::topology::Topology;

fn loc(row: usize, column: usize) -> SourceLocation {
    SourceLocation { row, column }
}

fn load(id: &str) -> Expr {
    Expr::Name { id: id.to_string(), ctx: ExprContext::Load }
}

fn store(id: &str) -> Expr {
    Expr::Name { id: id.to_string(), ctx: ExprContext::Store }
}

fn plus(left: Expr, right: Expr) -> Expr {
    Expr::BinOp { left: Box::new(left), right: Box::new(right) }
}

fn one_line(kind: StmtKind, width: usize) -> Vec<Stmt> {
    vec![Stmt { start: loc(1, 0), end: loc(1, width), kind }]
}

/// `target = value` on one line.
fn assign(target: &str, value: Expr, width: usize) -> Result<Vec<Stmt>, ParseError> {
    Ok(one_line(StmtKind::Assign { targets: vec![store(target)], value }, width))
}

fn cell(src: &str, parsed: Result<Vec<Stmt>, ParseError>, scope: &mut Scope) -> Cell {
    Cell::new_reactive(src, parsed, scope).unwrap()
}

fn sorted(mut v: Vec<String>) -> Vec<String> {
    v.sort();
    v
}

#[test]
fn test_trivial_deps() {
    let mut scope = Scope::new();
    let code_cell_1 = cell("a = 1", assign("a", Expr::Constant, 5), &mut scope);
    let code_cell_2 = cell("b = 2", assign("b", Expr::Constant, 5), &mut scope);
    let (id1, id2) = (code_cell_1.uuid.clone(), code_cell_2.uuid.clone());

    let topology = Topology::from_vec(vec![code_cell_1, code_cell_2], &scope).unwrap();

    assert!(topology.get_dependencies(&id1).is_empty() && topology.get_dependencies(&id2).is_empty());
    assert!(topology.get_dependents(&id1).is_empty() && topology.get_dependents(&id2).is_empty());
}

#[test]
fn test_build_deps_simple() {
    let mut scope = Scope::new();
    let code_cell_1 = cell("a = 1", assign("a", Expr::Constant, 5), &mut scope);
    let code_cell_2 = cell("b = a + 1", assign("b", plus(load("a"), Expr::Constant), 9), &mut scope);
    let (id1, id2) = (code_cell_1.uuid.clone(), code_cell_2.uuid.clone());

    let topology = Topology::from_vec(vec![code_cell_1, code_cell_2], &scope).unwrap();

    assert_eq!(topology.get_dependencies(&id2), vec![id1.clone()]);
    assert!(topology.get_dependencies(&id1).is_empty());
    assert_eq!(topology.get_dependents(&id1), vec![id2.clone()]);
    assert!(topology.get_dependents(&id2).is_empty());
}

#[test]
fn test_build_deps_while() {
    let mut scope = Scope::new();
    let code_cell_1 = cell("a = 1", assign("a", Expr::Constant, 5), &mut scope);
    let body = vec![Stmt {
        start: loc(2, 1),
        end: loc(2, 7),
        kind: StmtKind::AugAssign { target: store("a"), value: Expr::Constant },
    }];
    let looped = vec![Stmt {
        start: loc(1, 0),
        end: loc(2, 7),
        kind: StmtKind::While { test: Expr::Constant, body, orelse: vec![] },
    }];
    let code_cell_2 = cell("while True:\n a += 1", Ok(looped), &mut scope);
    let (id1, id2) = (code_cell_1.uuid.clone(), code_cell_2.uuid.clone());

    let topology = Topology::from_vec(vec![code_cell_1, code_cell_2], &scope).unwrap();

    assert_eq!(topology.get_dependencies(&id2), vec![id1.clone()]);
    assert_eq!(topology.get_dependents(&id1), vec![id2.clone()]);
}

#[test]
fn test_get_dependencies() {
    let mut scope = Scope::new();
    let code_cell_1 = cell("a = 1", assign("a", Expr::Constant, 5), &mut scope);
    let code_cell_2 = cell("b = a + 1", assign("b", plus(load("a"), Expr::Constant), 9), &mut scope);
    let cell_uuid_2 = code_cell_2.uuid.clone();
    let expected = code_cell_1.uuid.clone();

    let topology = Topology::from_vec(vec![code_cell_1, code_cell_2], &scope).unwrap();

    let dependencies = topology.get_dependencies(&cell_uuid_2);
    assert_eq!(dependencies[0], expected);
}

#[test]
fn test_get_dependents() {
    let mut scope = Scope::new();
    let code_cell_1 = cell("a = 1", assign("a", Expr::Constant, 5), &mut scope);
    let code_cell_2 = cell("b = a + 1", assign("b", plus(load("a"), Expr::Constant), 9), &mut scope);
    let cell_uuid_1 = code_cell_1.uuid.clone();
    let expected = code_cell_2.uuid.clone();

    let topology = Topology::from_vec(vec![code_cell_1, code_cell_2], &scope).unwrap();

    let dependents = topology.get_dependents(&cell_uuid_1);
    assert_eq!(dependents[0], expected);
}

#[test]
fn test_topo_sort() {
    let mut scope = Scope::new();
    let code_cell_1 = cell("a = 1", assign("a", Expr::Constant, 5), &mut scope);
    let code_cell_2 = cell("b = a + 1", assign("b", plus(load("a"), Expr::Constant), 9), &mut scope);

    let expect_order = vec![code_cell_1.uuid.clone(), code_cell_2.uuid.clone()];
    let topology = Topology::from_vec(vec![code_cell_1, code_cell_2], &scope).unwrap();

    let sorted = topology.topological_sort().unwrap();
    assert_eq!(sorted, expect_order);
}

#[test]
fn test_topo_sort_2() {
    let mut scope = Scope::new();
    let code_cell_1 = cell("a = 1", assign("a", Expr::Constant, 5), &mut scope);
    let code_cell_2 = cell("b = a + c", assign("b", plus(load("a"), load("c")), 9), &mut scope);
    let code_cell_3 = cell("c = 4", assign("c", Expr::Constant, 5), &mut scope);

    let expected_last = code_cell_2.uuid.clone();

    let topology = Topology::from_vec(vec![code_cell_1, code_cell_2, code_cell_3], &scope).unwrap();

    let sorted = topology.topological_sort().unwrap();
    assert_eq!(sorted.last().unwrap(), &expected_last);
}

fn four_cells(last: Option<(&str, Result<Vec<Stmt>, ParseError>)>) -> (Vec<Cell>, Scope) {
    let mut scope = Scope::new();
    let mut cells = vec![
        cell("a = 1", assign("a", Expr::Constant, 5), &mut scope),
        cell("b = a + c", assign("b", plus(load("a"), load("c")), 9), &mut scope),
        cell("c = d", assign("c", load("d"), 5), &mut scope),
    ];
    if let Some((src, parsed)) = last {
        cells.push(cell(src, parsed, &mut scope));
    }
    (cells, scope)
}

#[test]
fn test_topo_sort_3() {
    let (cells, scope) = four_cells(Some(("d = 4", assign("d", Expr::Constant, 5))));
    let expected_last = cells[1].uuid.clone();
    let expected_3rd = cells[2].uuid.clone();

    let topology = Topology::from_vec(cells, &scope).unwrap();

    let sorted = topology.topological_sort().unwrap();
    assert_eq!(sorted.last().unwrap(), &expected_last);
    assert_eq!(sorted.get(2).unwrap(), &expected_3rd);
}

#[test]
fn test_topo_sort_4_add_cell() {
    let (cells, scope) = four_cells(None);
    let expected_last = cells[1].uuid.clone();

    let topology = Topology::from_vec(cells, &scope).unwrap();

    let sorted = topology.topological_sort().unwrap();
    assert_eq!(sorted.last().unwrap(), &expected_last);
}

#[test]
fn test_topo_sort_cycle_detected() {
    let (cells, scope) = four_cells(Some(("d = b", assign("d", load("b"), 5))));

    let topology = Topology::from_vec(cells, &scope);
    assert!(topology.is_err());
    assert!(matches!(topology.err().unwrap(), TopologyErrors::CycleDetected));
}

#[test]
fn test_cycle_build_should_fail() {
    let (cells, scope) = four_cells(Some(("d = b", assign("d", load("b"), 5))));

    let topology = Topology::from_vec(cells, &scope);
    assert!(topology.is_err());
    assert!(matches!(topology.err().unwrap(), TopologyErrors::CycleDetected));
}

#[test]
fn test_execution_seq() {
    let mut scope = Scope::new();
    let code_cell_1 = cell("a = 1", assign("a", Expr::Constant, 5), &mut scope);
    let code_cell_2 = cell("b = a + c", assign("b", plus(load("a"), load("c")), 9), &mut scope);
    let code_cell_3 = cell("c = 3", assign("c", Expr::Constant, 5), &mut scope);
    let code_cell_4 = cell("d = 4", assign("d", Expr::Constant, 5), &mut scope);

    let target_uuid = code_cell_3.uuid.clone();
    let expected_seq = vec![code_cell_3.uuid.clone(), code_cell_2.uuid.clone()];

    let topology =
        Topology::from_vec(vec![code_cell_1, code_cell_2, code_cell_3, code_cell_4], &scope).unwrap();

    let execution_seq = topology.execution_seq(&target_uuid).unwrap();

    assert_eq!(execution_seq, expected_seq);
}

#[test]
fn test_execution_seq_2() {
    let mut scope = Scope::new();
    let code_cell_1 = cell("a = b + 1", assign("a", plus(load("b"), Expr::Constant), 9), &mut scope);
    let code_cell_2 = cell("b = 2", assign("b", Expr::Constant, 5), &mut scope);
    let code_cell_3 = cell("c = 1", assign("c", Expr::Constant, 5), &mut scope);

    let target_uuid = code_cell_2.uuid.clone();
    let expected_seq = vec![target_uuid.clone(), code_cell_1.uuid.clone()];

    let topology = Topology::from_vec(vec![code_cell_1, code_cell_2, code_cell_3], &scope).unwrap();

    let execution_seq = topology.execution_seq(&target_uuid).unwrap();

    assert_eq!(execution_seq, expected_seq,);
}

#[test]
fn test_assign_code_dependencies() {
    let mut scope = Scope::new();
    let cell_1 = cell("a = 1", assign("a", Expr::Constant, 5), &mut scope);
    let cell_2 = cell("b = a", assign("b", load("a"), 5), &mut scope);
    let cell_1_uuid = cell_1.uuid.clone();
    let cell_2_uuid = cell_2.uuid.clone();

    let topology = Topology::from_vec(vec![cell_1, cell_2], &scope).unwrap();

    let expected_dependencies = vec![cell_1_uuid.clone()];
    let dependencies = topology.get_dependencies(&cell_2_uuid);
    assert_eq!(dependencies[0], expected_dependencies[0]);
}

#[test]
fn test_assign_add_code_dependencies() {
    let mut scope = Scope::new();
    let cell_1 = cell("a = 1", assign("a", Expr::Constant, 5), &mut scope);
    let cell_2 = cell("b = a + 1", assign("b", plus(load("a"), Expr::Constant), 9), &mut scope);
    let cell_1_uuid = cell_1.uuid.clone();
    let cell_2_uuid = cell_2.uuid.clone();

    let topology = Topology::from_vec(vec![cell_1, cell_2], &scope).unwrap();

    assert_eq!(scope.get(&"a".to_string()).unwrap(), &cell_1_uuid);
    assert_eq!(scope.get(&"b".to_string()).unwrap(), &cell_2_uuid);

    let expected_dependencies = vec![cell_1_uuid.clone()];
    let dependencies = topology.get_dependencies(&cell_2_uuid);
    assert_eq!(dependencies[0], expected_dependencies[0]);
}

fn def(name: &str, params: &[&str], ret: Expr, width: usize) -> Result<Vec<Stmt>, ParseError> {
    let body = vec![Stmt {
        start: loc(1, 14),
        end: loc(1, width),
        kind: StmtKind::Return { value: Some(ret) },
    }];
    Ok(one_line(
        StmtKind::FunctionDef {
            name: name.to_string(),
            params: params.iter().map(|p| p.to_string()).collect(),
            body,
            is_async: false,
        },
        width,
    ))
}

#[test]
fn test_funndef_dependencies() {
    let mut scope = Scope::new();

    let cell_1 = cell("a = 1", assign("a", Expr::Constant, 5), &mut scope);
    let cell_2 = cell("def b(c, d): return a", def("b", &["c", "d"], load("a"), 21), &mut scope);
    let cell_1_uuid = cell_1.uuid.to_string();
    let cell_2_uuid = cell_2.uuid.to_string();

    let topology = Topology::from_vec(vec![cell_1, cell_2], &scope).unwrap();

    let expected_dependencies = vec![cell_1_uuid.clone()];
    let dependencies = topology.get_dependencies(&cell_2_uuid);
    assert_eq!(dependencies[0], expected_dependencies[0]);
}

#[test]
fn test_funndef_2_dependencies() {
    let mut scope = Scope::new();

    let call = Expr::Call { func: Box::new(load("add")), args: vec![Expr::Constant, Expr::Constant] };
    let cell_1 = cell("add(1,2)", Ok(one_line(StmtKind::Expr { value: call }, 8)), &mut scope);
    let cell_2 = cell(
        "def add(a, b): return a + b",
        def("add", &["a", "b"], plus(load("a"), load("b")), 27),
        &mut scope,
    );
    let cell_1_uuid = cell_1.uuid.to_string();
    let cell_2_uuid = cell_2.uuid.to_string();

    let topology = Topology::from_vec(vec![cell_1, cell_2], &scope).unwrap();

    let expected_dependents = vec![cell_1_uuid.clone()];
    let dependencies = topology.get_dependents(&cell_2_uuid);
    assert_eq!(dependencies[0], expected_dependents[0]);
}

#[test]
fn scenario_trivial_chain() {
    let mut scope = Scope::new();
    let a = cell("a = 1", assign("a", Expr::Constant, 5), &mut scope);
    let b = cell("b = a + 1", assign("b", plus(load("a"), Expr::Constant), 9), &mut scope);
    let (ia, ib) = (a.uuid.clone(), b.uuid.clone());
    let t = Topology::from_vec(vec![a, b], &scope).unwrap();
    assert_eq!(t.execution_seq(&ia).unwrap(), vec![ia.clone(), ib.clone()]);
    assert_eq!(t.execution_seq(&ib).unwrap(), vec![ia.clone(), ib.clone()]);
}

#[test]
fn scenario_forward_reference() {
    let mut scope = Scope::new();
    let a = cell("a = b + 1", assign("a", plus(load("b"), Expr::Constant), 9), &mut scope);
    let b = cell("b = 2", assign("b", Expr::Constant, 5), &mut scope);
    let (ia, ib) = (a.uuid.clone(), b.uuid.clone());
    let t = Topology::from_vec(vec![a, b], &scope).unwrap();
    assert_eq!(t.get_dependencies(&ia), vec![ib.clone()]);
    assert_eq!(t.get_dependents(&ib), vec![ia.clone()]);
    assert_eq!(t.execution_seq(&ib).unwrap(), vec![ib.clone(), ia.clone()]);
}

#[test]
fn scenario_plan_is_transitive_and_skips_unrelated() {
    let mut scope = Scope::new();
    let a = cell("a = 1", assign("a", Expr::Constant, 5), &mut scope);
    let b = cell("b = a", assign("b", load("a"), 5), &mut scope);
    let c = cell("c = b", assign("c", load("b"), 5), &mut scope);
    let d = cell("d = 9", assign("d", Expr::Constant, 5), &mut scope);
    let ids: Vec<String> = vec![&a, &b, &c, &d].iter().map(|x| x.uuid.clone()).collect();
    let t = Topology::from_vec(vec![a, b, c, d], &scope).unwrap();
    assert_eq!(t.execution_seq(&ids[1]).unwrap(), vec![ids[0].clone(), ids[1].clone(), ids[2].clone()]);
    assert_eq!(t.execution_seq(&ids[3]).unwrap(), vec![ids[3].clone()]);
    assert_eq!(t.execution_seq(&"missing".to_string()), Err(TopologyErrors::CellNotFound));
}

#[test]
fn plan_is_deterministic() {
    let (cells, scope) = four_cells(Some(("d = 4", assign("d", Expr::Constant, 5))));
    let target = cells[3].uuid.clone();
    let t = Topology::from_vec(cells, &scope).unwrap();
    let first = t.execution_seq(&target).unwrap();
    let second = t.execution_seq(&target).unwrap();
    assert_eq!(first, second);
    assert_eq!(first.len(), 3);
}

#[test]
fn reorder_requires_a_permutation() {
    let (cells, scope) = four_cells(Some(("d = 4", assign("d", Expr::Constant, 5))));
    let ids: Vec<String> = cells.iter().map(|c| c.uuid.clone()).collect();
    let mut t = Topology::from_vec(cells, &scope).unwrap();
    let reversed: Vec<String> = ids.iter().rev().cloned().collect();
    assert_eq!(t.reorder_cells(&reversed), Ok(()));
    assert_eq!(t.display_order, reversed);
    assert_eq!(t.reorder_cells(&vec![ids[0].clone()]), Err(TopologyErrors::CellNotFound));
    let doubled = vec![ids[0].clone(), ids[0].clone(), ids[1].clone(), ids[2].clone()];
    assert_eq!(t.reorder_cells(&doubled), Err(TopologyErrors::CellNotFound));
    assert_eq!(t.display_order, reversed);
    // the tie-break follows the new order: d first, then c, then a, then b
    let sorted = t.topological_sort().unwrap();
    assert_eq!(sorted, vec![ids[3].clone(), ids[2].clone(), ids[0].clone(), ids[1].clone()]);
}

#[test]
fn update_with_same_content_changes_nothing() {
    let mut scope = Scope::new();
    let a = cell("a = 1", assign("a", Expr::Constant, 5), &mut scope);
    let b = cell("b = a + 1", assign("b", plus(load("a"), Expr::Constant), 9), &mut scope);
    let (ia, ib) = (a.uuid.clone(), b.uuid.clone());
    let mut t = Topology::from_vec(vec![a, b], &scope).unwrap();
    // a different program is handed in, but the content is unchanged
    let r = t.update_cell(&ib, "b = a + 1", assign("zz", Expr::Constant, 6), &mut scope);
    assert_eq!(r, Ok(()));
    assert_eq!(t.get_dependencies(&ib), vec![ia.clone()]);
    assert_eq!(scope.get(&"b".to_string()), Some(&ib));
    assert_eq!(scope.get(&"zz".to_string()), None);
}

#[test]
fn update_rebinds_and_rebuilds() {
    let mut scope = Scope::new();
    let a = cell("a = 1", assign("a", Expr::Constant, 5), &mut scope);
    let b = cell("b = a + 1", assign("b", plus(load("a"), Expr::Constant), 9), &mut scope);
    let (ia, ib) = (a.uuid.clone(), b.uuid.clone());
    let mut t = Topology::from_vec(vec![a, b], &scope).unwrap();
    assert_eq!(t.update_cell(&ib, "x = 5", assign("x", Expr::Constant, 5), &mut scope), Ok(()));
    assert!(t.get_dependencies(&ib).is_empty());
    assert!(t.get_dependents(&ia).is_empty());
    assert_eq!(scope.get(&"b".to_string()), None);
    assert_eq!(scope.get(&"x".to_string()), Some(&ib));
    assert_eq!(t.get_cell(&ib).unwrap().content, "x = 5".to_string());
}

#[test]
fn update_that_closes_a_cycle_is_refused() {
    let mut scope = Scope::new();
    let a = cell("a = 1", assign("a", Expr::Constant, 5), &mut scope);
    let b = cell("b = a + 1", assign("b", plus(load("a"), Expr::Constant), 9), &mut scope);
    let (ia, ib) = (a.uuid.clone(), b.uuid.clone());
    let mut t = Topology::from_vec(vec![a, b], &scope).unwrap();
    let r = t.update_cell(&ia, "a = b", assign("a", load("b"), 5), &mut scope);
    assert_eq!(r, Err(NotebookErrors::Topology(TopologyErrors::CycleDetected)));
    assert_eq!(t.get_cell(&ia).unwrap().content, "a = 1".to_string());
    assert_eq!(t.get_dependencies(&ib), vec![ia.clone()]);
    assert_eq!(scope.get(&"a".to_string()), Some(&ia));
}

#[test]
fn update_with_parse_error_keeps_content_and_clears_analysis() {
    let mut scope = Scope::new();
    let a = cell("a = 1", assign("a", Expr::Constant, 5), &mut scope);
    let b = cell("b = a + 1", assign("b", plus(load("a"), Expr::Constant), 9), &mut scope);
    let (ia, ib) = (a.uuid.clone(), b.uuid.clone());
    let mut t = Topology::from_vec(vec![a, b], &scope).unwrap();
    let err = ParseError { line: 1, col: 3, message: "invalid syntax".to_string() };
    let r = t.update_cell(&ia, "a = = 1", Err(err.clone()), &mut scope);
    assert_eq!(r, Err(NotebookErrors::Parse(err)));
    let a_now = t.get_cell(&ia).unwrap();
    assert_eq!(a_now.content, "a = = 1".to_string());
    assert!(a_now.bindings.as_vec().is_empty() && a_now.statements.is_empty());
    assert_eq!(scope.get(&"a".to_string()), None);
    assert!(t.get_dependencies(&ib).is_empty());
}

#[test]
fn update_of_unknown_cell_fails() {
    let mut scope = Scope::new();
    let mut t = Topology::new();
    let r = t.update_cell(&"nope".to_string(), "a = 1", assign("a", Expr::Constant, 5), &mut scope);
    assert_eq!(r, Err(NotebookErrors::Topology(TopologyErrors::CellNotFound)));
}

#[test]
fn add_cell_rejects_duplicates_and_cycles() {
    let mut scope = Scope::new();
    let a = cell("a = b", assign("a", load("b"), 5), &mut scope);
    let ia = a.uuid.clone();
    let mut t = Topology::new();
    assert_eq!(t.add_cell(a, &scope), Ok(()));
    let again = Cell::with_id(ia.clone(), reactive_core::cell::CellType::ReactiveCode, "q = 1".to_string(), assign("q", Expr::Constant, 5), &mut Scope::new()).unwrap();
    assert_eq!(t.add_cell(again, &scope), Err(TopologyErrors::DuplicateId));
    let b = cell("b = a", assign("b", load("a"), 5), &mut scope);
    assert_eq!(t.add_cell(b, &scope), Err(TopologyErrors::CycleDetected));
    assert_eq!(t.display_order, vec![ia.clone()]);
}

#[test]
fn error_messages() {
    assert_eq!(TopologyErrors::CellNotFound.message(), "Cell not found");
    assert_eq!(TopologyErrors::CycleDetected.message(), "Cycle detected");
    assert_eq!(TopologyErrors::DuplicateId.message(), "Duplicate cell id");
}

#[test]
fn remove_cell_unbinds_and_rebuilds() {
    let mut scope = Scope::new();
    let a = cell("a = 1", assign("a", Expr::Constant, 5), &mut scope);
    let b = cell("b = a + 1", assign("b", plus(load("a"), Expr::Constant), 9), &mut scope);
    let (ia, ib) = (a.uuid.clone(), b.uuid.clone());
    let mut t = Topology::from_vec(vec![a, b], &scope).unwrap();
    let removed = t.remove_cell(&ia, &mut scope).unwrap();
    assert_eq!(removed.uuid, ia);
    assert_eq!(t.display_order, vec![ib.clone()]);
    assert!(t.get_cell(&ia).is_none());
    assert!(t.get_dependencies(&ib).is_empty());
    assert_eq!(scope.get(&"a".to_string()), None);
    assert_eq!(scope.get(&"b".to_string()), Some(&ib));
    // b still requires a, now unresolved
    assert!(t.get_cell(&ib).unwrap().required.contains(&"a".to_string()));
    assert!(matches!(t.remove_cell(&ia, &mut scope), Err(TopologyErrors::CellNotFound)));
}
