use tuirunner::config::{RunCommand, Task};
use tuirunner::runner::cmd::{
    command_echo, command_plan, command_step, output_line, prefix_color, strip_line_ending, task_prefix, CommandPlan,
    CommandStep, PrefixColor,
};

fn task(run: Option<RunCommand>, cmd: Option<RunCommand>) -> Task {
    Task { description: None, run, cmd, working_dir: None, depends_on: None }
}

#[test]
fn run_commands_are_silent_and_cmd_commands_echoed() {
    let p = command_plan(&task(Some(RunCommand::Single("make".to_string())), None)).unwrap();
    assert_eq!(p.commands, vec!["make"]);
    assert!(!p.echo);
    let p = command_plan(&task(None, Some(RunCommand::Multiple(vec!["a".to_string(), "b".to_string()])))).unwrap();
    assert_eq!(p.commands, vec!["a", "b"]);
    assert!(p.echo);
    assert!(command_plan(&task(None, None)).is_none());
}

#[test]
fn echoed_command_is_dimmed() {
    assert_eq!(command_echo("make all"), "\x1b[2m$ make all\x1b[0m");
}

#[test]
fn line_endings_are_removed_once() {
    assert_eq!(strip_line_ending("abc\n"), "abc");
    assert_eq!(strip_line_ending("abc\r\n"), "abc");
    assert_eq!(strip_line_ending("abc\r"), "abc");
    assert_eq!(strip_line_ending("abc\n\n"), "abc\n");
    assert_eq!(strip_line_ending("abc"), "abc");
    assert_eq!(strip_line_ending(""), "");
}

#[test]
fn output_bytes_become_lines() {
    assert_eq!(output_line(b"hello\r\n"), "hello");
    assert_eq!(output_line("héllo\n".as_bytes()), "héllo");
    assert_eq!(output_line(&[0x61, 0xFF, 0x0A]), "a\u{FFFD}");
}

#[test]
fn prefix_colours_follow_the_execution_order() {
    let order: Vec<String> = ["a", "b", "c", "d", "e", "f", "g"].iter().map(|s| s.to_string()).collect();
    assert_eq!(prefix_color(&order, "a"), PrefixColor::Blue);
    assert_eq!(prefix_color(&order, "b"), PrefixColor::Green);
    assert_eq!(prefix_color(&order, "f"), PrefixColor::Red);
    assert_eq!(prefix_color(&order, "g"), PrefixColor::Blue);
    assert_eq!(prefix_color(&order, "zzz"), PrefixColor::Blue);
}

#[test]
fn prefix_is_the_bracketed_name_in_bold() {
    let order = vec!["a".to_string(), "b".to_string()];
    let p = task_prefix(&order, "b");
    assert!(p.ends_with("\x1b[1m[b]\x1b[0m"));
    assert!(p == "\x1b[38;5;10m\x1b[1m[b]\x1b[0m" || p == "\x1b[m\x1b[1m[b]\x1b[0m");
}

#[test]
fn commands_run_in_turn_until_the_first_failure() {
    let plan = CommandPlan { commands: vec!["a".to_string(), "b".to_string()], echo: true };
    assert_eq!(
        command_step(&plan, 0, &Ok(())),
        CommandStep::Run { command: "a".to_string(), echo: Some("\x1b[2m$ a\x1b[0m".to_string()) }
    );
    assert_eq!(
        command_step(&plan, 1, &Err("exit 2".to_string())),
        CommandStep::Finished(Err("exit 2".to_string()))
    );
    assert_eq!(command_step(&plan, 2, &Ok(())), CommandStep::Finished(Ok(())));
    let quiet = CommandPlan { commands: vec!["a".to_string()], echo: false };
    assert_eq!(command_step(&quiet, 0, &Ok(())), CommandStep::Run { command: "a".to_string(), echo: None });
}
