use tuirunner::config::{RunCommand, Task, TaskMap, TasksConfig};
use tuirunner::runner::{resolve_dependencies, RunnerError, TaskRunner, TaskStatus};

fn make_task(depends_on: Option<Vec<&str>>) -> Task {
    Task {
        description: None,
        run: Some(RunCommand::Single("echo test".to_string())),
        cmd: None,
        working_dir: None,
        depends_on: depends_on.map(|v| v.into_iter().map(String::from).collect()),
    }
}

fn table(entries: Vec<(&str, Option<Vec<&str>>)>) -> TaskMap {
    let mut tasks = TaskMap::new();
    for (name, deps) in entries {
        tasks.insert(name.to_string(), make_task(deps));
    }
    tasks
}

fn runner_for(entries: Vec<(&str, Option<Vec<&str>>)>) -> TaskRunner {
    TaskRunner::new(TasksConfig { tasks: table(entries) }, false).unwrap()
}

fn status(runner: &TaskRunner, name: &str) -> TaskStatus {
    runner.status(name).unwrap()
}

fn lines(runner: &TaskRunner, name: &str) -> Vec<String> {
    runner.state(name).unwrap().output.lines.clone()
}

#[test]
fn test_resolve_dependencies_simple_dag() {
    let tasks = table(vec![("A", None), ("B", Some(vec!["A"])), ("C", Some(vec!["B"]))]);

    let order = resolve_dependencies(&tasks).unwrap();
    assert_eq!(order, vec!["A", "B", "C"]);
}

#[test]
fn test_resolve_dependencies_multiple_roots() {
    let tasks = table(vec![("A", None), ("B", None), ("C", Some(vec!["A", "B"]))]);

    let order = resolve_dependencies(&tasks).unwrap();
    let idx_a = order.iter().position(|x| x == "A").unwrap();
    let idx_b = order.iter().position(|x| x == "B").unwrap();
    let idx_c = order.iter().position(|x| x == "C").unwrap();
    assert!(idx_a < idx_c);
    assert!(idx_b < idx_c);
}

#[test]
fn test_resolve_dependencies_cycle() {
    let tasks = table(vec![("A", Some(vec!["B"])), ("B", Some(vec!["C"])), ("C", Some(vec!["A"]))]);

    let res = resolve_dependencies(&tasks);
    assert!(res.is_err());
    match res.unwrap_err() {
        RunnerError::DependencyCycle { cycle } => {
            assert_eq!(cycle.first(), cycle.last());
            assert_eq!(cycle.len(), 4);
        }
    }
}

#[test]
fn runner_refuses_a_cycle_and_says_where() {
    let tasks = table(vec![("A", Some(vec!["B"])), ("B", Some(vec!["A"]))]);
    let err = TaskRunner::new(TasksConfig { tasks }, true).err().unwrap();
    assert_eq!(err, RunnerError::DependencyCycle { cycle: vec!["A".to_string(), "B".to_string(), "A".to_string()] });
    assert_eq!(err.message(), "Dependency cycle detected: A -> B -> A");
}

#[test]
fn new_runner_is_idle_with_empty_logs() {
    let runner = runner_for(vec![("b", Some(vec!["a"])), ("a", None)]);
    assert_eq!(runner.execution_order(), ["a", "b"]);
    assert_eq!(status(&runner, "a"), TaskStatus::Idle);
    assert!(lines(&runner, "b").is_empty());
    assert!(runner.status("missing").is_none());
    assert!(!runner.is_tui());
}

#[test]
fn subgraph_holds_targets_and_their_dependencies() {
    let runner = runner_for(vec![("a", None), ("b", Some(vec!["a"])), ("c", Some(vec!["b"])), ("d", None)]);
    let mut sub = runner.get_subgraph(&["c".to_string()]);
    sub.sort();
    assert_eq!(sub, vec!["a", "b", "c"]);
    let mut both = runner.get_subgraph(&["a".to_string(), "d".to_string()]);
    both.sort();
    assert_eq!(both, vec!["a", "d"]);
}

#[test]
fn queueing_marks_pending_and_restarts_the_log() {
    let mut runner = runner_for(vec![("a", None), ("b", Some(vec!["a"])), ("c", None)]);
    runner.push_output("c", "old".to_string());
    let sub = runner.run_task("b");
    let mut sorted = sub.clone();
    sorted.sort();
    assert_eq!(sorted, vec!["a", "b"]);
    assert_eq!(status(&runner, "a"), TaskStatus::Pending);
    assert_eq!(status(&runner, "b"), TaskStatus::Pending);
    assert_eq!(status(&runner, "c"), TaskStatus::Idle);
    assert_eq!(lines(&runner, "b"), vec!["=== Task queued: b ==="]);
    assert_eq!(lines(&runner, "c"), vec!["old"]);
}

#[test]
fn rounds_start_ready_tasks_and_fail_those_behind_a_failure() {
    let mut runner = runner_for(vec![("a", None), ("b", Some(vec!["a"])), ("c", Some(vec!["b"]))]);
    let sub = runner.run_all();
    assert_eq!(sub, vec!["a", "b", "c"]);

    let plan = runner.schedule_round(&sub);
    assert_eq!(plan.started, vec!["a"]);
    assert!(!plan.finished);
    assert_eq!(status(&runner, "a"), TaskStatus::Running);
    assert_eq!(lines(&runner, "a"), vec!["=== Starting task: a ==="]);
    assert_eq!(status(&runner, "b"), TaskStatus::Pending);

    runner.finish_task("a", &Err("boom".to_string()));
    assert_eq!(status(&runner, "a"), TaskStatus::Failed);
    assert_eq!(lines(&runner, "a").last().unwrap(), "=== Task failed: a: boom ===");

    let plan = runner.schedule_round(&sub);
    assert!(plan.started.is_empty());
    assert!(!plan.finished);
    assert_eq!(status(&runner, "b"), TaskStatus::Failed);
    assert_eq!(status(&runner, "c"), TaskStatus::Failed);
    assert_eq!(lines(&runner, "b").last().unwrap(), "Dependency task failed. Skipping execution.");

    let plan = runner.schedule_round(&sub);
    assert!(plan.started.is_empty());
    assert!(plan.finished);
}

#[test]
fn success_releases_the_next_task() {
    let mut runner = runner_for(vec![("a", None), ("b", Some(vec!["a"]))]);
    let sub = runner.run_all();
    let plan = runner.schedule_round(&sub);
    assert_eq!(plan.started, vec!["a"]);
    runner.finish_task("a", &Ok(()));
    assert_eq!(lines(&runner, "a").last().unwrap(), "=== Task succeeded: a ===");
    let plan = runner.schedule_round(&sub);
    assert_eq!(plan.started, vec!["b"]);
    runner.finish_task("b", &Ok(()));
    let plan = runner.schedule_round(&sub);
    assert!(plan.finished);
    assert_eq!(status(&runner, "b"), TaskStatus::Success);
}

#[test]
fn independent_tasks_start_together() {
    let mut runner = runner_for(vec![("a", None), ("b", None), ("c", Some(vec!["a", "b"]))]);
    let sub = runner.run_tasks(&["c".to_string()]);
    let plan = runner.schedule_round(&sub);
    let mut started = plan.started.clone();
    started.sort();
    assert_eq!(started, vec!["a", "b"]);
}

#[test]
fn clearing_logs_keeps_statuses() {
    let mut runner = runner_for(vec![("a", None), ("b", None)]);
    runner.push_output("a", "x".to_string());
    runner.push_output("b", "y".to_string());
    runner.clear_logs("a");
    assert!(lines(&runner, "a").is_empty());
    assert_eq!(lines(&runner, "b"), vec!["y"]);
    runner.clear_all_logs();
    assert!(lines(&runner, "b").is_empty());
    assert_eq!(status(&runner, "b"), TaskStatus::Idle);
    runner.clear_logs("nope");
}

#[test]
fn a_task_stopped_to_go_on_counts_as_succeeded() {
    let mut runner = runner_for(vec![("a", None), ("b", Some(vec!["a"]))]);
    assert!(!runner.request_stop("a", true));
    let sub = runner.run_all();
    runner.schedule_round(&sub);
    assert!(runner.request_stop("a", true));
    assert!(runner.state("a").unwrap().stopped_as_success);
    runner.finish_task("a", &Err("terminated".to_string()));
    assert_eq!(status(&runner, "a"), TaskStatus::Success);
    assert!(!runner.state("a").unwrap().stopped_as_success);
    assert_eq!(lines(&runner, "a").last().unwrap(), "=== Task succeeded: a ===");
    let plan = runner.schedule_round(&sub);
    assert_eq!(plan.started, vec!["b"]);
}

#[test]
fn a_task_stopped_plainly_fails_and_skips_its_dependants() {
    let mut runner = runner_for(vec![("a", None), ("b", Some(vec!["a"]))]);
    let sub = runner.run_all();
    runner.schedule_round(&sub);
    assert!(runner.request_stop("a", false));
    runner.finish_task("a", &Err("terminated".to_string()));
    assert_eq!(status(&runner, "a"), TaskStatus::Failed);
    runner.schedule_round(&sub);
    assert_eq!(status(&runner, "b"), TaskStatus::Failed);
    assert!(!runner.request_stop("missing", true));
}
