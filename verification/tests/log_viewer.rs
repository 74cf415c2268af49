use tuirunner::components::log_viewer::{classify_log_line, LogLineKind, LogViewer};
use tuirunner::input::{KeyCode, KeyEvent, KeyModifiers};

fn key(code: KeyCode, modifiers: KeyModifiers) -> KeyEvent {
    KeyEvent::new(code, modifiers)
}

#[test]
fn test_page_navigation_clamps_to_log_bounds() {
    let page_down = key(KeyCode::PageDown, KeyModifiers::none());

    assert_eq!(
        LogViewer::handle_key_event(page_down, 10, 20, 5, false),
        Some((17, false))
    );
}

#[test]
fn test_shift_down_restores_auto_scroll_near_the_bottom() {
    let result =
        LogViewer::handle_key_event(key(KeyCode::Down, KeyModifiers::shift()), 24, 40, 10, false);

    assert_eq!(result, Some((32, true)));
}

#[test]
fn test_unhandled_key_does_not_change_scroll() {
    assert_eq!(
        LogViewer::handle_key_event(key(KeyCode::Char('j'), KeyModifiers::none()), 5, 20, 10, false),
        None
    );
}

#[test]
fn page_up_stops_at_the_top() {
    assert_eq!(
        LogViewer::handle_key_event(key(KeyCode::PageUp, KeyModifiers::none()), 4, 100, 20, false),
        Some((0, false))
    );
}

#[test]
fn shift_up_leaves_follow_mode() {
    assert_eq!(
        LogViewer::handle_key_event(key(KeyCode::Char('k'), KeyModifiers::shift()), 30, 100, 20, true),
        Some((29, false))
    );
}

#[test]
fn description_takes_two_more_rows() {
    // 40 lines, pane of 10 rows: 8 fit without a description, 6 with one.
    assert_eq!(
        LogViewer::handle_key_event(key(KeyCode::PageDown, KeyModifiers::none()), 30, 40, 10, false),
        Some((32, false))
    );
    assert_eq!(
        LogViewer::handle_key_event(key(KeyCode::PageDown, KeyModifiers::none()), 30, 40, 10, true),
        Some((34, false))
    );
}

#[test]
fn lines_are_classified_by_the_first_rule_that_fits() {
    assert_eq!(classify_log_line("=== Task failed: a ==="), LogLineKind::Banner);
    assert_eq!(classify_log_line("$ make"), LogLineKind::Command);
    assert_eq!(classify_log_line("\x1b[31mred failed\x1b[0m"), LogLineKind::Ansi);
    assert_eq!(classify_log_line("build Failed"), LogLineKind::Failure);
    assert_eq!(classify_log_line("it succeeded"), LogLineKind::Success);
    assert_eq!(classify_log_line("Success!"), LogLineKind::Success);
    assert_eq!(classify_log_line("plain"), LogLineKind::Plain);
    assert_eq!(classify_log_line(""), LogLineKind::Plain);
}

#[test]
fn visible_range_and_title() {
    let logs: Vec<String> = (0..10).map(|i| format!("line {}", i)).collect();
    let viewer = LogViewer {
        task_name: Some("build"),
        task_description: None,
        logs: &logs,
        scroll_offset: 7,
        is_interactive: false,
    };
    assert_eq!(viewer.visible_range(5), (7, 10));
    assert_eq!(viewer.visible_range(2), (7, 9));
    let past = LogViewer { scroll_offset: 12, ..viewer };
    assert_eq!(past.visible_range(5), (10, 10));
    assert_eq!(LogViewer::title("build", false), " Output: build ");
    assert_eq!(LogViewer::title("build", true), " Output (Interactive): build ");
}
