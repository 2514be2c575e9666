use reactive_core::errors::TopologyErrors;
use reactive_core::graph::{closure, AdjList, Graph};

#[test]
fn graph_test_has_cycle() {
    let mut adj_list = AdjList::new();
    adj_list.insert("a".to_string(), vec!["b".to_string()]);
    adj_list.insert("b".to_string(), vec!["c".to_string()]);
    adj_list.insert("c".to_string(), vec!["a".to_string()]);
    assert_eq!(Graph::has_cycle(&adj_list), true);

    let mut adj_list = AdjList::new();
    adj_list.insert("a".to_string(), vec!["b".to_string()]);
    adj_list.insert("b".to_string(), vec!["c".to_string()]);
    adj_list.insert("c".to_string(), vec![]);
    assert_eq!(Graph::has_cycle(&adj_list), false);
}

#[test]
fn self_loop_is_a_cycle() {
    let mut adj_list = AdjList::new();
    adj_list.insert("a".to_string(), vec!["a".to_string()]);
    assert!(Graph::has_cycle(&adj_list));
}

#[test]
fn empty_graph_and_dangling_children_have_no_cycle() {
    assert!(!Graph::has_cycle(&AdjList::new()));
    let mut adj_list = AdjList::new();
    adj_list.insert("a".to_string(), vec!["x".to_string(), "y".to_string()]);
    adj_list.insert("b".to_string(), vec!["a".to_string(), "x".to_string()]);
    assert!(!Graph::has_cycle(&adj_list));
}

#[test]
fn later_insert_replaces_children() {
    let mut adj_list = AdjList::new();
    adj_list.insert("a".to_string(), vec!["b".to_string()]);
    adj_list.insert("b".to_string(), vec!["a".to_string()]);
    assert!(Graph::has_cycle(&adj_list));
    adj_list.insert("b".to_string(), vec![]);
    assert!(!Graph::has_cycle(&adj_list));
    assert_eq!(adj_list.get(&"b".to_string()), Some(&vec![]));
}

#[test]
fn add_node_first_time_ignores_children_then_extends() {
    let mut g = Graph::new();
    let a = "a".to_string();
    let b = "b".to_string();
    assert_eq!(g.add_node(&a, Some(&vec![b.clone()])), Ok(()));
    assert_eq!(g.get(&a), Some(&vec![]));
    assert_eq!(g.add_node(&a, Some(&vec![b.clone()])), Ok(()));
    assert_eq!(g.get(&a), Some(&vec![b.clone()]));
    assert_eq!(g.add_node(&b, None), Ok(()));
    assert_eq!(g.get(&b), Some(&vec![]));
    // b -> a would close a cycle: refused, graph unchanged
    assert_eq!(g.add_node(&b, Some(&vec![a.clone()])), Err(TopologyErrors::CycleDetected));
    assert_eq!(g.get(&b), Some(&vec![]));
    assert_eq!(g.get(&"zz".to_string()), None);
}

#[test]
fn has_cycle_util_reports_remaining_children() {
    let mut adj_list = AdjList::new();
    adj_list.insert("a".to_string(), vec!["b".to_string()]);
    let remaining = vec!["b".to_string()];
    assert!(Graph::has_cycle_util(&"a".to_string(), &adj_list, &remaining));
    assert!(!Graph::has_cycle_util(&"a".to_string(), &adj_list, &vec![]));
}

#[test]
fn closure_follows_edges_transitively() {
    let mut adj_list = AdjList::new();
    adj_list.insert("a".to_string(), vec!["b".to_string()]);
    adj_list.insert("b".to_string(), vec!["c".to_string()]);
    adj_list.insert("d".to_string(), vec!["a".to_string()]);
    let mut reached = closure(&adj_list, &"a".to_string());
    reached.sort();
    assert_eq!(reached, vec!["a".to_string(), "b".to_string(), "c".to_string()]);
}
