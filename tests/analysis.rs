use reactive_core::ast::{Alias, Comprehension, Expr, ExprContext, SourceLocation, Stmt, StmtKind};
use reactive_core::cell::{Cell, CellType};
use reactive_core::errors::ParseError;
use reactive_core::kernel_client::ExecutionType;
use reactive_core::names::{NameSet, Scope};

fn loc(row: usize, column: usize) -> SourceLocation {
    SourceLocation { row, column }
}

fn load(id: &str) -> Expr {
    Expr::Name { id: id.to_string(), ctx: ExprContext::Load }
}

fn store(id: &str) -> Expr {
    Expr::Name { id: id.to_string(), ctx: ExprContext::Store }
}

fn plus(left: Expr, right: Expr) -> Expr {
    Expr::BinOp { left: Box::new(left), right: Box::new(right) }
}

fn at(row: usize, width: usize, kind: StmtKind) -> Stmt {
    Stmt { start: loc(row, 0), end: loc(row, width), kind }
}

fn assign_at(row: usize, target: &str, value: Expr, width: usize) -> Stmt {
    at(row, width, StmtKind::Assign { targets: vec![store(target)], value })
}

fn names(set: &NameSet) -> Vec<String> {
    let mut v = set.as_vec().clone();
    v.sort();
    v.dedup();
    v
}

fn strings(v: &[&str]) -> Vec<String> {
    v.iter().map(|s| s.to_string()).collect()
}

fn abc() -> Result<Vec<Stmt>, ParseError> {
    Ok(vec![
        assign_at(1, "a", Expr::Constant, 5),
        assign_at(2, "b", Expr::Constant, 5),
        assign_at(3, "c", Expr::Constant, 5),
    ])
}

#[test]
fn setup_local_vars() {
    let mut scope = Scope::new();
    let cell = Cell::new_reactive("a = 1\nb = 2\nc = 3", abc(), &mut scope).unwrap();

    assert_eq!(names(&cell.bindings), strings(&["a", "b", "c"]));

    for n in ["a", "b", "c"] {
        assert_eq!(scope.get(&n.to_string()), Some(&cell.uuid));
    }
    assert_eq!(scope.get(&"d".to_string()), None);
}

#[test]
fn test_required_vars() {
    let mut scope = Scope::new();
    let cell_1 = Cell::new_reactive("a = 1\nb = 2\nc = 3", abc(), &mut scope).unwrap();

    assert!(names(&cell_1.required).is_empty());
    assert_eq!(names(&cell_1.bindings), strings(&["a", "b", "c"]));

    let sum = plus(plus(load("a"), load("b")), load("c"));
    let cell_2 = Cell::new_reactive("a + b + c", Ok(vec![at(1, 9, StmtKind::Expr { value: sum })]), &mut scope).unwrap();

    assert_eq!(names(&cell_2.required), strings(&["a", "b", "c"]));
    assert!(names(&cell_2.bindings).is_empty());
}

#[test]
fn statements_are_cut_and_classified() {
    let mut scope = Scope::new();
    let prog = vec![
        at(1, 8, StmtKind::Import { names: vec![Alias { name: "math".to_string(), asname: None }] }),
        assign_at(2, "x", Expr::Constant, 5),
        at(3, 1, StmtKind::Expr { value: load("x") }),
    ];
    let cell = Cell::new_reactive("import math\nx = 1\nx\n", Ok(prog), &mut scope).unwrap();
    let kinds: Vec<ExecutionType> = cell.statements.iter().map(|s| s.execution_type).collect();
    assert_eq!(kinds, vec![ExecutionType::Definition, ExecutionType::Exec, ExecutionType::Eval]);
    let texts: Vec<String> = cell.statements.iter().map(|s| s.content.clone()).collect();
    assert_eq!(texts, strings(&["import math", "x = 1", "x"]));
    assert_eq!(names(&cell.bindings), strings(&["math", "x"]));
    assert!(names(&cell.required).is_empty());
}

#[test]
fn overlapping_statement_is_dropped() {
    let mut scope = Scope::new();
    let first = Stmt { start: loc(1, 0), end: loc(1, 10), kind: StmtKind::Pass };
    let second = Stmt { start: loc(1, 5), end: loc(1, 12), kind: StmtKind::Break };
    let third = Stmt { start: loc(2, 0), end: loc(2, 4), kind: StmtKind::Continue };
    let cell = Cell::new_reactive("pass      x\nlast", Ok(vec![first, second, third]), &mut scope).unwrap();
    assert_eq!(cell.statements.len(), 2);
    assert_eq!(cell.statements[1].content, "last".to_string());
}

#[test]
fn function_parameters_shadow() {
    // A = `a = 1`, B = `def f(a): return a`
    let mut scope = Scope::new();
    let a = Cell::new_reactive("a = 1", Ok(vec![assign_at(1, "a", Expr::Constant, 5)]), &mut scope).unwrap();
    let body = vec![at(1, 19, StmtKind::Return { value: Some(load("a")) })];
    let def = StmtKind::FunctionDef { name: "f".to_string(), params: strings(&["a"]), body, is_async: false };
    let b = Cell::new_reactive("def f(a): return a", Ok(vec![at(1, 19, def)]), &mut scope).unwrap();
    assert!(names(&b.required).is_empty());
    assert_eq!(names(&b.bindings), strings(&["f"]));
    assert_eq!(names(&b.ignore_bindings), strings(&["a"]));
    assert_eq!(scope.get(&"a".to_string()), Some(&a.uuid));
    assert_eq!(scope.get(&"f".to_string()), Some(&b.uuid));
}

#[test]
fn reassigning_an_external_name_requires_it() {
    // A = `a = 1`, B = `a = 2`
    let mut scope = Scope::new();
    let a = Cell::new_reactive("a = 1", Ok(vec![assign_at(1, "a", Expr::Constant, 5)]), &mut scope).unwrap();
    let b = Cell::new_reactive("a = 2", Ok(vec![assign_at(1, "a", Expr::Constant, 5)]), &mut scope).unwrap();
    assert_eq!(names(&b.required), strings(&["a"]));
    assert!(names(&b.bindings).is_empty());
    assert_eq!(scope.get(&"a".to_string()), Some(&a.uuid));
}

#[test]
fn comprehension_targets_are_local() {
    // A = `a = 1`, B = `b = [a for i in range(3)]`
    let mut scope = Scope::new();
    let _a = Cell::new_reactive("a = 1", Ok(vec![assign_at(1, "a", Expr::Constant, 5)]), &mut scope).unwrap();
    let gen = Comprehension {
        target: store("i"),
        iter: Expr::Call { func: Box::new(load("range")), args: vec![Expr::Constant] },
        ifs: vec![],
    };
    let comp = Expr::ListComp { elt: Box::new(load("a")), generators: vec![gen] };
    let b = Cell::new_reactive("b = [a for i in range(3)]", Ok(vec![assign_at(1, "b", comp, 25)]), &mut scope).unwrap();
    assert_eq!(names(&b.required), strings(&["a", "range"]));
    assert_eq!(names(&b.bindings), strings(&["b"]));
    assert!(names(&b.ignore_bindings).is_empty());
}

#[test]
fn lambda_parameters_are_local() {
    // `f = lambda x, y: x + y + z`
    let mut scope = Scope::new();
    let lam = Expr::Lambda { params: strings(&["x", "y"]), body: Box::new(plus(plus(load("x"), load("y")), load("z"))) };
    let c = Cell::new_reactive("f = lambda x, y: x + y + z", Ok(vec![assign_at(1, "f", lam, 26)]), &mut scope).unwrap();
    assert_eq!(names(&c.required), strings(&["z"]));
    assert_eq!(names(&c.bindings), strings(&["f"]));
    assert!(names(&c.ignore_bindings).is_empty());
}

#[test]
fn import_alias_binds_the_alias() {
    let mut scope = Scope::new();
    let imp = StmtKind::Import { names: vec![Alias { name: "numpy".to_string(), asname: Some("np".to_string()) }] };
    let c = Cell::new_reactive("import numpy as np", Ok(vec![at(1, 18, imp)]), &mut scope).unwrap();
    assert_eq!(names(&c.bindings), strings(&["np"]));
    assert_eq!(scope.get(&"np".to_string()), Some(&c.uuid));
    assert_eq!(scope.get(&"numpy".to_string()), None);
}

#[test]
fn own_bindings_are_not_requirements() {
    // `a = 1\nb = a`
    let mut scope = Scope::new();
    let prog = vec![assign_at(1, "a", Expr::Constant, 5), assign_at(2, "b", load("a"), 5)];
    let c = Cell::new_reactive("a = 1\nb = a", Ok(prog), &mut scope).unwrap();
    assert_eq!(names(&c.bindings), strings(&["a", "b"]));
    assert!(names(&c.required).is_empty());
}

#[test]
fn subscript_and_attribute_read_only_the_base() {
    let mut scope = Scope::new();
    let sub = Expr::Subscript { value: Box::new(load("xs")), slice: Box::new(load("i")) };
    let attr = Expr::Attribute { value: Box::new(load("obj")), attr: "field".to_string() };
    let prog = vec![at(1, 5, StmtKind::Expr { value: sub }), at(2, 9, StmtKind::Expr { value: attr })];
    let c = Cell::new_reactive("xs[i]\nobj.field", Ok(prog), &mut scope).unwrap();
    assert_eq!(names(&c.required), strings(&["obj", "xs"]));
}

#[test]
fn for_loop_variable_is_not_bound() {
    let mut scope = Scope::new();
    let body = vec![at(2, 10, StmtKind::AugAssign { target: store("total"), value: load("i") })];
    let for_loop = StmtKind::For { target: store("i"), iter: load("items"), body, orelse: vec![], is_async: false };
    let c = Cell::new_reactive("for i in items:\n  total += i", Ok(vec![at(1, 15, for_loop)]), &mut scope).unwrap();
    assert_eq!(names(&c.bindings), strings(&["total"]));
    assert_eq!(names(&c.required), strings(&["i"]));
}

#[test]
fn parse_error_creates_no_cell() {
    let mut scope = Scope::new();
    let err = ParseError { line: 1, col: 2, message: "unexpected token".to_string() };
    let r = Cell::new_reactive("a = = 1", Err(err.clone()), &mut scope);
    assert_eq!(r.err(), Some(err));
}

#[test]
fn markdown_cells_are_inert() {
    let mut scope = Scope::new();
    let err = ParseError { line: 1, col: 0, message: "not code".to_string() };
    let c = Cell::new(CellType::Markdown, "# Title".to_string(), Err(err), &mut scope).unwrap();
    assert!(names(&c.bindings).is_empty() && names(&c.required).is_empty() && c.statements.is_empty());
    assert_eq!(c.uuid.chars().count(), 30);
    assert!(c.uuid.chars().all(|ch| ch.is_ascii_alphanumeric() || ch == '_' || ch == '-'));
}

#[test]
fn reanalysis_gives_the_same_sets() {
    let mut scope = Scope::new();
    let prog = || Ok(vec![assign_at(1, "a", plus(load("x"), Expr::Constant), 9), assign_at(2, "b", load("a"), 5)]);
    let mut c = Cell::new_reactive("a = x + 1\nb = a", prog(), &mut scope).unwrap();
    let before = (names(&c.bindings), names(&c.required), names(&c.ignore_bindings), c.statements.len());
    c.update_content("tmp", Ok(vec![]), &mut scope).unwrap();
    assert!(names(&c.bindings).is_empty());
    assert_eq!(scope.get(&"a".to_string()), None);
    c.update_content("a = x + 1\nb = a", prog(), &mut scope).unwrap();
    let after = (names(&c.bindings), names(&c.required), names(&c.ignore_bindings), c.statements.len());
    assert_eq!(before, after);
    assert_eq!(scope.get(&"b".to_string()), Some(&c.uuid));
}

#[test]
fn every_scope_entry_is_bound_by_its_owner() {
    let mut scope = Scope::new();
    let a = Cell::new_reactive("x = 1", Ok(vec![assign_at(1, "x", Expr::Constant, 5)]), &mut scope).unwrap();
    // an import takes the name over; the new owner binds it
    let imp = StmtKind::Import { names: vec![Alias { name: "x".to_string(), asname: None }] };
    let b = Cell::new_reactive("import x", Ok(vec![at(1, 8, imp)]), &mut scope).unwrap();
    let owner = scope.get(&"x".to_string()).unwrap().clone();
    assert_eq!(owner, b.uuid);
    assert!(b.bindings.contains(&"x".to_string()));
    assert!(a.bindings.contains(&"x".to_string()));
}

#[test]
fn multi_line_statement_keeps_all_rows() {
    let mut scope = Scope::new();
    let body = vec![Stmt { start: loc(2, 1), end: loc(2, 7), kind: StmtKind::AugAssign { target: store("a"), value: Expr::Constant } }];
    let looped = Stmt { start: loc(1, 0), end: loc(2, 7), kind: StmtKind::While { test: Expr::Constant, body, orelse: vec![] } };
    let c = Cell::new_reactive("while True:\n a += 1", Ok(vec![looped]), &mut scope).unwrap();
    assert_eq!(c.statements.len(), 1);
    assert_eq!(c.statements[0].execution_type, ExecutionType::Exec);
    assert_eq!(c.statements[0].content, "while True:\n a += 1".to_string());
}

#[test]
fn store_to_own_name_keeps_it_bound() {
    let mut scope = Scope::new();
    let prog = || vec![assign_at(1, "a", Expr::Constant, 5)];
    let mut c = Cell::new_reactive("a = 1", Ok(prog()), &mut scope).unwrap();
    // a second analysis meets `a` already held by this cell
    c.setup_local_vars(&prog(), &mut scope);
    assert_eq!(names(&c.bindings), strings(&["a"]));
    assert!(names(&c.required).is_empty());
    assert_eq!(scope.get(&"a".to_string()), Some(&c.uuid));
}
