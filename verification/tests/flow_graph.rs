use tuirunner::components::flow_graph::{connector, pick_node, utf8_len_of, FlowGraph, FlowPiece};
use tuirunner::config::{RunCommand, Task, TaskMap, TasksConfig};
use tuirunner::runner::TaskRunner;
use tuirunner::store::Store;

fn task(deps: &[&str]) -> Task {
    Task {
        description: None,
        run: Some(RunCommand::Single("true".to_string())),
        cmd: None,
        working_dir: None,
        depends_on: if deps.is_empty() { None } else { Some(deps.iter().map(|d| d.to_string()).collect()) },
    }
}

fn runner(entries: &[(&str, &[&str])]) -> TaskRunner {
    let mut tasks = TaskMap::new();
    for (n, d) in entries {
        tasks.insert(n.to_string(), task(d));
    }
    TaskRunner::new(TasksConfig { tasks }, true).unwrap()
}

fn node(name: &str, pad: usize) -> FlowPiece {
    FlowPiece::Node { name: name.to_string(), pad }
}

#[test]
fn fan_out_draws_a_fork() {
    let r = runner(&[("a", &[]), ("bb", &["a"]), ("c", &["a"])]);
    let visible = r.execution_order().to_vec();
    let store = Store { runner: &r, visible_tasks: &visible };
    let rows = FlowGraph { store: &store }.rows();
    assert_eq!(rows.len(), 3);
    assert_eq!(rows[0], vec![FlowPiece::Blank { width: 3 }, FlowPiece::Connector("  ┌► "), node("bb", 0)]);
    assert_eq!(rows[1], vec![node("a", 0), FlowPiece::Connector("  ─┤   "), FlowPiece::Blank { width: 4 }]);
    assert_eq!(rows[2], vec![FlowPiece::Blank { width: 3 }, FlowPiece::Connector("  └► "), node("c", 1)]);
}

#[test]
fn chain_draws_straight_arrows_in_the_middle_row() {
    let r = runner(&[("a", &[]), ("b", &["a"])]);
    let visible = r.execution_order().to_vec();
    let store = Store { runner: &r, visible_tasks: &visible };
    let rows = FlowGraph { store: &store }.rows();
    assert_eq!(rows[1], vec![node("a", 0), FlowPiece::Connector(" ──► "), node("b", 0)]);
    assert_eq!(rows[0], vec![FlowPiece::Blank { width: 3 }, FlowPiece::Connector("        "), FlowPiece::Blank { width: 3 }]);
}

#[test]
fn connectors_and_rows_for_column_sizes() {
    assert_eq!(connector(2, 1, 0), " ─┐   ");
    assert_eq!(connector(2, 1, 1), "  ├► ");
    assert_eq!(connector(3, 2, 2), " ──► ");
    assert_eq!(pick_node(1, 1), Some(0));
    assert_eq!(pick_node(1, 0), None);
    assert_eq!(pick_node(2, 2), Some(1));
    assert_eq!(pick_node(5, 0), Some(1));
    assert_eq!(pick_node(5, 1), Some(3));
    assert_eq!(pick_node(5, 2), Some(4));
}

#[test]
fn widths_count_utf8_bytes() {
    assert_eq!(utf8_len_of("abc"), 3);
    assert_eq!(utf8_len_of("é"), 2);
    assert_eq!(utf8_len_of("▶"), 3);
}

#[test]
fn a_task_stands_one_column_right_of_its_deepest_dependency() {
    // c depends on a (column 0) and b (column 1): it goes to column 2.
    let r = runner(&[("a", &[]), ("b", &["a"]), ("c", &["a", "b"])]);
    let visible = r.execution_order().to_vec();
    let store = Store { runner: &r, visible_tasks: &visible };
    let rows = FlowGraph { store: &store }.rows();
    assert_eq!(
        rows[1],
        vec![node("a", 0), FlowPiece::Connector(" ──► "), node("b", 0), FlowPiece::Connector(" ──► "), node("c", 0)]
    );
}
