use tuirunner::config::{RunCommand, Task, TaskMap, TasksConfig};
use tuirunner::non_tui::{check_targets, failed_tasks, run_outcome, selected_tasks};
use tuirunner::runner::TaskRunner;

fn task(deps: &[&str]) -> Task {
    Task {
        description: None,
        run: Some(RunCommand::Single("true".to_string())),
        cmd: None,
        working_dir: None,
        depends_on: if deps.is_empty() { None } else { Some(deps.iter().map(|d| d.to_string()).collect()) },
    }
}

fn runner() -> TaskRunner {
    let mut tasks = TaskMap::new();
    tasks.insert("a".to_string(), task(&[]));
    tasks.insert("b".to_string(), task(&["a"]));
    tasks.insert("c".to_string(), task(&["b"]));
    TaskRunner::new(TasksConfig { tasks }, false).unwrap()
}

#[test]
fn unknown_target_is_reported_by_name() {
    let r = runner();
    assert_eq!(check_targets(r.tasks(), &["a".to_string(), "c".to_string()]), Ok(()));
    assert_eq!(
        check_targets(r.tasks(), &["a".to_string(), "x".to_string(), "y".to_string()]),
        Err("Task 'x' not found in configuration".to_string())
    );
}

#[test]
fn no_target_selects_everything() {
    let r = runner();
    assert_eq!(selected_tasks(&r, &[]), vec!["a", "b", "c"]);
    let mut sub = selected_tasks(&r, &["b".to_string()]);
    sub.sort();
    assert_eq!(sub, vec!["a", "b"]);
}

#[test]
fn failures_are_collected_and_reported() {
    let mut r = runner();
    let sub = r.run_all();
    let plan = r.schedule_round(&sub);
    assert_eq!(plan.started, vec!["a"]);
    assert!(failed_tasks(&r, &sub).is_empty());
    r.finish_task("a", &Err("exit 1".to_string()));
    r.schedule_round(&sub);
    let failed = failed_tasks(&r, &sub);
    assert_eq!(failed, vec!["a", "b", "c"]);
    assert_eq!(run_outcome(&failed), Err("Some tasks failed: a, b, c".to_string()));
    assert_eq!(run_outcome(&Vec::new()), Ok(()));
}
