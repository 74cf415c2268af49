use tuirunner::app::{App, AppAction, KeyContext};
use tuirunner::config::{RunCommand, Task, TaskMap, TasksConfig};
use tuirunner::input::{KeyCode, KeyEvent, KeyModifiers};
use tuirunner::runner::TaskRunner;

fn task(deps: &[&str]) -> Task {
    Task {
        description: None,
        run: Some(RunCommand::Single("true".to_string())),
        cmd: None,
        working_dir: None,
        depends_on: if deps.is_empty() { None } else { Some(deps.iter().map(|d| d.to_string()).collect()) },
    }
}

fn runner() -> TaskRunner {
    let mut tasks = TaskMap::new();
    tasks.insert("a".to_string(), task(&[]));
    tasks.insert("b".to_string(), task(&["a"]));
    tasks.insert("c".to_string(), task(&[]));
    TaskRunner::new(TasksConfig { tasks }, true).unwrap()
}

fn ctx() -> KeyContext {
    KeyContext {
        selected_running: false,
        input_channel_open: false,
        can_enter_interactive: false,
        logs_len: 0,
        has_description: false,
        terminal_height: 24,
    }
}

fn press(code: KeyCode) -> KeyEvent {
    KeyEvent::new(code, KeyModifiers::none())
}

#[test]
fn new_shows_all_tasks_in_execution_order() {
    let r = runner();
    let app = App::new(&r, &[]);
    assert_eq!(app.visible_tasks(), r.execution_order());
    assert_eq!(app.selected_task_index(), 0);
    assert!(app.auto_scroll());
    assert!(!app.should_exit());
    assert!(!app.is_interactive());
}

#[test]
fn new_with_targets_shows_their_subgraph_and_selects_the_first() {
    let r = runner();
    let app = App::new(&r, &["b".to_string()]);
    assert_eq!(app.visible_tasks(), ["a", "b"]);
    assert_eq!(app.selected_task_index(), 1);
    assert_eq!(app.selected_task_name(), Some("b".to_string()));
}

#[test]
fn keys_move_the_selection_within_the_list() {
    let r = runner();
    let mut app = App::new(&r, &[]);
    assert_eq!(app.handle_key_event(press(KeyCode::Up), ctx()), AppAction::Nothing);
    assert_eq!(app.selected_task_index(), 0);
    app.handle_key_event(press(KeyCode::Char('j')), ctx());
    app.handle_key_event(press(KeyCode::Down), ctx());
    app.handle_key_event(press(KeyCode::Down), ctx());
    assert_eq!(app.selected_task_index(), 2);
    app.handle_key_event(press(KeyCode::Char('k')), ctx());
    assert_eq!(app.selected_task_index(), 1);
}

#[test]
fn keys_ask_the_runner_for_work() {
    let r = runner();
    let mut app = App::new(&r, &[]);
    let name = app.selected_task_name().unwrap();
    assert_eq!(app.handle_key_event(press(KeyCode::Enter), ctx()), AppAction::RunTask(name.clone()));
    assert_eq!(app.handle_key_event(press(KeyCode::Char('c')), ctx()), AppAction::ClearLogs(name.clone()));
    assert_eq!(
        app.handle_key_event(press(KeyCode::Char('s')), ctx()),
        AppAction::StopTask { name: name.clone(), continue_downstream: false }
    );
    assert_eq!(
        app.handle_key_event(KeyEvent::new(KeyCode::Char('S'), KeyModifiers::shift()), ctx()),
        AppAction::StopTask { name, continue_downstream: true }
    );
    assert_eq!(app.handle_key_event(press(KeyCode::Char('A')), ctx()), AppAction::RunAll);
    assert_eq!(app.handle_key_event(press(KeyCode::Char('C')), ctx()), AppAction::ClearAllLogs);
    assert_eq!(app.handle_key_event(press(KeyCode::Char('q')), ctx()), AppAction::Quit);
    assert!(app.should_exit());
}

#[test]
fn scrolling_leaves_and_regains_follow_mode() {
    let r = runner();
    let mut app = App::new(&r, &[]);
    let c = KeyContext { logs_len: 100, ..ctx() };
    app.sync_scroll(100, 18, false);
    assert_eq!(app.log_scroll_offset(), 84);
    app.handle_key_event(press(KeyCode::PageUp), c);
    assert_eq!(app.log_scroll_offset(), 74);
    assert!(!app.auto_scroll());
    app.sync_scroll(100, 18, false);
    assert_eq!(app.log_scroll_offset(), 74);
    app.handle_key_event(press(KeyCode::PageDown), c);
    assert_eq!(app.log_scroll_offset(), 84);
    assert!(!app.auto_scroll());
    app.handle_key_event(KeyEvent::new(KeyCode::Down, KeyModifiers::shift()), c);
    assert!(app.auto_scroll());
    assert_eq!(app.log_scroll_offset(), 84);
}

#[test]
fn interactive_mode_sends_keys_to_the_task() {
    let r = runner();
    let mut app = App::new(&r, &[]);
    let running = KeyContext {
        selected_running: true,
        input_channel_open: true,
        can_enter_interactive: true,
        ..ctx()
    };
    assert_eq!(app.handle_key_event(press(KeyCode::Char('i')), running), AppAction::Nothing);
    assert!(app.is_interactive());
    assert_eq!(app.handle_key_event(press(KeyCode::Char('q')), running), AppAction::SendInput(vec![b'q']));
    assert_eq!(
        app.handle_key_event(KeyEvent::new(KeyCode::Char('c'), KeyModifiers::control()), running),
        AppAction::SendInput(vec![3])
    );
    assert_eq!(app.handle_key_event(press(KeyCode::Char('é')), running), AppAction::SendInput(vec![0xC3, 0xA9]));
    assert_eq!(app.handle_key_event(press(KeyCode::Up), running), AppAction::SendInput(vec![27, 91, 65]));
    assert_eq!(app.handle_key_event(press(KeyCode::Enter), running), AppAction::SendInput(vec![b'\n']));
    assert!(!app.should_exit());
    assert_eq!(app.handle_key_event(press(KeyCode::Esc), running), AppAction::Nothing);
    assert!(!app.is_interactive());
}

#[test]
fn interactive_mode_ends_when_the_task_stops() {
    let r = runner();
    let mut app = App::new(&r, &[]);
    let running = KeyContext { selected_running: true, input_channel_open: true, can_enter_interactive: true, ..ctx() };
    app.handle_key_event(press(KeyCode::Char('i')), running);
    assert!(app.is_interactive());
    // The task has stopped: the key is handled as usual.
    assert_eq!(app.handle_key_event(press(KeyCode::Char('q')), ctx()), AppAction::Quit);
    assert!(!app.is_interactive());
}

#[test]
fn i_needs_a_running_task() {
    let r = runner();
    let mut app = App::new(&r, &[]);
    app.handle_key_event(press(KeyCode::Char('i')), ctx());
    assert!(!app.is_interactive());
}

#[test]
fn esc_in_interactive_mode_only_leaves_the_mode() {
    let r = runner();
    let mut app = App::new(&r, &[]);
    let running = KeyContext { selected_running: true, input_channel_open: true, can_enter_interactive: true, ..ctx() };
    app.handle_key_event(press(KeyCode::Char('i')), running);
    assert!(app.is_interactive());
    // The task has stopped meanwhile: Esc still only leaves the mode.
    assert_eq!(app.handle_key_event(press(KeyCode::Esc), ctx()), AppAction::Nothing);
    assert!(!app.is_interactive());
    assert!(!app.should_exit());
    // Outside the mode, Esc quits.
    assert_eq!(app.handle_key_event(press(KeyCode::Esc), ctx()), AppAction::Quit);
    assert!(app.should_exit());
}
