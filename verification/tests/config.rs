use tuirunner::config::{validate_tasks_config, AppConfig, ConfigError, RunCommand, Task, TaskMap, TasksConfig};

fn task(run: Option<&str>, cmd: Option<&str>, deps: &[&str]) -> Task {
    Task {
        description: None,
        run: run.map(|r| RunCommand::Single(r.to_string())),
        cmd: cmd.map(|c| RunCommand::Multiple(vec![c.to_string()])),
        working_dir: None,
        depends_on: if deps.is_empty() { None } else { Some(deps.iter().map(|d| d.to_string()).collect()) },
    }
}

fn config(entries: Vec<(&str, Task)>) -> TasksConfig {
    let mut tasks = TaskMap::new();
    for (n, t) in entries {
        tasks.insert(n.to_string(), t);
    }
    TasksConfig { tasks }
}

#[test]
fn valid_table_passes() {
    let c = config(vec![("a", task(Some("true"), None, &[])), ("b", task(None, Some("echo"), &["a"]))]);
    assert_eq!(validate_tasks_config(&c), Ok(()));
    let app = AppConfig { tui: true, tasks: c };
    assert_eq!(app.validate(), Ok(()));
}

#[test]
fn reserved_name_is_refused() {
    let c = config(vec![("run", task(Some("true"), None, &[]))]);
    let e = validate_tasks_config(&c).unwrap_err();
    assert_eq!(e, ConfigError::ReservedName { task: "run".to_string() });
    assert_eq!(e.message(), "Task name 'run' is reserved");
}

#[test]
fn both_commands_are_refused() {
    let c = config(vec![("a", task(Some("x"), Some("y"), &[]))]);
    let e = validate_tasks_config(&c).unwrap_err();
    assert_eq!(e, ConfigError::ConflictingCommands { task: "a".to_string() });
    assert_eq!(e.message(), "Task 'a' sets both 'run' and 'cmd'");
}

#[test]
fn a_task_needs_a_command() {
    let c = config(vec![("a", task(None, None, &[]))]);
    let e = validate_tasks_config(&c).unwrap_err();
    assert_eq!(e, ConfigError::MissingCommand { task: "a".to_string() });
    assert_eq!(e.message(), "Task 'a' sets neither 'run' nor 'cmd'");
}

#[test]
fn unknown_dependency_is_refused_with_the_first_unknown() {
    let c = config(vec![
        ("a", task(Some("true"), None, &[])),
        ("b", task(Some("true"), None, &["a", "x", "y"])),
    ]);
    let e = validate_tasks_config(&c).unwrap_err();
    assert_eq!(e, ConfigError::UnknownDependency { task: "b".to_string(), dependency: "x".to_string() });
    assert_eq!(e.message(), "Task 'b' depends on non-existent task 'x'");
}

#[test]
fn first_task_in_table_order_is_reported() {
    let c = config(vec![
        ("a", task(Some("x"), Some("y"), &[])),
        ("run", task(Some("true"), None, &[])),
    ]);
    assert_eq!(validate_tasks_config(&c).unwrap_err(), ConfigError::ConflictingCommands { task: "a".to_string() });
}

#[test]
fn task_map_keeps_first_insertion_order_and_replaces_in_place() {
    let mut m = TaskMap::new();
    assert!(m.insert("b".to_string(), task(Some("1"), None, &[])).is_none());
    assert!(m.insert("a".to_string(), task(Some("2"), None, &[])).is_none());
    let prev = m.insert("b".to_string(), task(Some("3"), None, &[])).unwrap();
    assert!(matches!(prev.run, Some(RunCommand::Single(ref s)) if s == "1"));
    assert_eq!(m.keys(), vec!["b", "a"]);
    assert_eq!(m.len(), 2);
    assert!(m.contains_key("a"));
    assert!(!m.contains_key("c"));
    assert!(matches!(m.get("b").unwrap().run, Some(RunCommand::Single(ref s)) if s == "3"));
    assert_eq!(m.index_of("a"), Some(1));
    assert_eq!(m.deps_of("a"), Vec::<String>::new());
}
