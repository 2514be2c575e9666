use reactive_core::ast::{Expr, ExprContext, SourceLocation, Stmt, StmtKind};
use reactive_core::errors::{NotebookErrors, ParseError, TopologyErrors};
use reactive_core::kernel_client::{
    on_reply, transport_error_reply, ExecutionType, KernelClientErrors, MsgFromKernel, SinkRegistry, WsCmds,
    WsMessage,
};
use reactive_core::locals::{LocalValue, Locals};
use reactive_core::notebook::Notebook;

fn load(id: &str) -> Expr {
    Expr::Name { id: id.to_string(), ctx: ExprContext::Load }
}

fn assign(target: &str, value: Expr, width: usize) -> Result<Vec<Stmt>, ParseError> {
    let kind = StmtKind::Assign { targets: vec![Expr::Name { id: target.to_string(), ctx: ExprContext::Store }], value };
    Ok(vec![Stmt { start: SourceLocation { row: 1, column: 0 }, end: SourceLocation { row: 1, column: width }, kind }])
}

fn plus(left: Expr, right: Expr) -> Expr {
    Expr::BinOp { left: Box::new(left), right: Box::new(right) }
}

fn value(n: i64) -> LocalValue {
    LocalValue { value: serde_json::Value::from(n), local_type: ExecutionType::Exec }
}

fn reply(nb: &str, cell: &str, entries: &[(&str, i64)], ended: bool) -> MsgFromKernel {
    let mut locals = Locals::new();
    for (k, v) in entries {
        locals.insert(&k.to_string(), value(*v));
    }
    MsgFromKernel { notebook_uuid: nb.to_string(), cell_uuid: cell.to_string(), locals, error: None, ended }
}

fn chain() -> (Notebook, Vec<String>) {
    let mut nb = Notebook::empty();
    let a = nb.add_cell("a = 1", assign("a", Expr::Constant, 5)).unwrap();
    let b = nb.add_cell("b = a + 1", assign("b", plus(load("a"), Expr::Constant), 9)).unwrap();
    let c = nb.add_cell("c = 99", assign("c", Expr::Constant, 6)).unwrap();
    (nb, vec![a, b, c])
}

#[test]
fn scenario_cycle_rejection() {
    let mut nb = Notebook::empty();
    nb.add_cell("a = 1", assign("a", Expr::Constant, 5)).unwrap();
    nb.add_cell("b = a + c", assign("b", plus(load("a"), load("c")), 9)).unwrap();
    nb.add_cell("c = d", assign("c", load("d"), 5)).unwrap();
    let before = nb.topology.display_order.clone();
    let r = nb.add_cell("d = b", assign("d", load("b"), 5));
    assert_eq!(r, Err(NotebookErrors::Topology(TopologyErrors::CycleDetected)));
    assert_eq!(nb.topology.display_order, before);
    assert_eq!(nb.scope.get(&"d".to_string()), None);
}

#[test]
fn scenario_run_plans_minimal_set() {
    let (mut nb, ids) = chain();
    let msg = nb.eval_cell(&ids[1], "b = a + 1", assign("b", plus(load("a"), Expr::Constant), 9)).unwrap();
    let planned: Vec<String> = msg.execution_cells.iter().map(|c| c.uuid.clone()).collect();
    assert_eq!(planned, vec![ids[0].clone(), ids[1].clone()]);
    assert_eq!(msg.cell_uuid, ids[1]);
    assert_eq!(msg.notebook_uuid, nb.uuid);
    assert_eq!(msg.locals_of_deps.len(), 2);
    assert_eq!(msg.execution_cells[1].requirements, vec!["a".to_string()]);
    assert_eq!(msg.execution_cells[1].statements[0].content, "b = a + 1".to_string());
}

#[test]
fn inputs_come_from_dependencies() {
    let (mut nb, ids) = chain();
    assert!(nb.apply_reply(reply(&nb.uuid.clone(), &ids[0], &[("a", 1)], false)));
    assert!(nb.apply_reply(reply(&nb.uuid.clone(), &ids[2], &[("c", 99)], true)));
    let msg = nb.eval_cell(&ids[1], "b = a + 1", assign("b", plus(load("a"), Expr::Constant), 9)).unwrap();
    let inputs_of_b = &msg.locals_of_deps[1];
    assert_eq!(inputs_of_b.get(&"a".to_string()).map(|v| v.value.clone()), Some(serde_json::Value::from(1)));
    assert!(inputs_of_b.get(&"c".to_string()).is_none());
    assert!(msg.locals_of_deps[0].get(&"a".to_string()).is_none());
}

#[test]
fn later_reply_values_win() {
    let (mut nb, ids) = chain();
    let nid = nb.uuid.clone();
    assert!(nb.apply_reply(reply(&nid, &ids[0], &[("a", 1), ("x", 5)], false)));
    assert!(nb.apply_reply(reply(&nid, &ids[0], &[("a", 7)], true)));
    let a = nb.topology.get_cell(&ids[0]).unwrap();
    assert_eq!(a.locals.get(&"a".to_string()).map(|v| v.value.clone()), Some(serde_json::Value::from(7)));
    assert_eq!(a.locals.get(&"x".to_string()).map(|v| v.value.clone()), Some(serde_json::Value::from(5)));
    assert!(!nb.apply_reply(reply(&nid, "unknown", &[("a", 1)], true)));
}

#[test]
fn eval_of_unknown_cell_fails() {
    let (mut nb, _) = chain();
    let r = nb.eval_cell(&"nope".to_string(), "x", assign("x", Expr::Constant, 1));
    assert!(matches!(r, Err(NotebookErrors::Topology(TopologyErrors::CellNotFound))));
}

#[test]
fn eval_with_parse_error_reports_it() {
    let (mut nb, ids) = chain();
    let err = ParseError { line: 1, col: 4, message: "bad".to_string() };
    let r = nb.eval_cell(&ids[0], "a = (", Err(err.clone()));
    assert!(matches!(r, Err(NotebookErrors::Parse(e)) if e == err));
}

#[test]
fn notebook_from_sources() {
    let nb = Notebook::new(vec![
        ("a = 1".to_string(), assign("a", Expr::Constant, 5)),
        ("b = a".to_string(), assign("b", load("a"), 5)),
    ])
    .unwrap();
    assert_eq!(nb.topology.cells.len(), 2);
    assert_eq!(nb.uuid.chars().count(), 30);
    assert_eq!(nb.title, "Untitled Notebook".to_string());
    let err = ParseError { line: 1, col: 0, message: "x".to_string() };
    assert!(Notebook::new(vec![("?".to_string(), Err(err))]).is_err());
}

#[test]
fn reorder_through_the_notebook() {
    let (mut nb, ids) = chain();
    let new_order = vec![ids[2].clone(), ids[0].clone(), ids[1].clone()];
    assert_eq!(nb.reorder_cells(&new_order), Ok(()));
    assert_eq!(nb.topology.display_order, new_order);
}

#[test]
fn replies_become_client_frames() {
    let ok = WsMessage::from_reply(reply("n", "c1", &[("a", 3)], false));
    assert_eq!(ok.cmd, WsCmds::Res);
    assert_eq!(ok.cell_uuid, Some("c1".to_string()));
    assert!(ok.data.is_none() && ok.locals.is_some());
    let mut failed = reply("n", "c2", &[], true);
    failed.error = Some("boom".to_string());
    let err = WsMessage::from_reply(failed);
    assert_eq!(err.cmd, WsCmds::Error);
    assert_eq!(err.data, Some("boom".to_string()));
    assert!(err.locals.is_none());
}

#[test]
fn bridge_routing_decisions() {
    let streaming = reply("n", "c", &[], false);
    let last = reply("n", "c", &[], true);
    let a = on_reply(&streaming, true);
    assert!(a.deliver && a.keep_receiving);
    let b = on_reply(&last, false);
    assert!(!b.deliver && !b.keep_receiving);
    let t = transport_error_reply("n".to_string(), "c".to_string(), "socket closed".to_string());
    assert!(t.ended);
    assert_eq!(t.error, Some("socket closed".to_string()));
    assert_eq!(KernelClientErrors::CouldNotParse.message(), "Could not parse message");
}

#[test]
fn sink_registry_register_and_unregister() {
    let mut sinks: SinkRegistry<u32> = SinkRegistry::new();
    sinks.register_sink("n1".to_string(), 1);
    sinks.register_sink("n2".to_string(), 2);
    sinks.register_sink("n1".to_string(), 3);
    assert_eq!(sinks.get(&"n1".to_string()), Some(&3));
    sinks.unregister_sink(&"n1".to_string());
    assert_eq!(sinks.get(&"n1".to_string()), None);
    assert_eq!(sinks.get(&"n2".to_string()), Some(&2));
}
