use vstd::prelude::*;

use crate::config::{RunCommand, Task};
use crate::utils::{clone_strings, names};

verus! {

/// The commands of a task, in the order they run, and whether each is
/// echoed to the log before it runs.
pub struct CommandPlan {
    pub commands: Vec<String>,
    pub echo: bool,
}

/// The command lines of `c`, in order.
pub open spec fn command_lines(c: RunCommand) -> Seq<Seq<char>> {
    match c {
        RunCommand::Single(s) => seq![s@],
        RunCommand::Multiple(v) => names(v@),
    }
}

/// What a task runs: the commands of `run`, silently, or else those of
/// `cmd`, each echoed first; nothing when it has neither.
pub open spec fn plan_of(t: Task) -> Option<(Seq<Seq<char>>, bool)> {
    match t.run {
        Some(c) => Some((command_lines(c), false)),
        None => match t.cmd {
            Some(c) => Some((command_lines(c), true)),
            None => None,
        },
    }
}

/// A task's plan holds every command of its `run` list, in order, run
/// silently; without `run`, every command of its `cmd` list, in order, each
/// echoed; a single command is a list of one.
pub proof fn lemma_plan_holds_every_command(t: Task)
    ensures
        t.run matches Some(RunCommand::Multiple(v)) ==> plan_of(t) == Some((names(v@), false)),
        t.run matches Some(RunCommand::Single(c)) ==> plan_of(t) == Some((seq![c@], false)),
        t.run is None ==> (t.cmd matches Some(RunCommand::Multiple(v)) ==> plan_of(t) == Some((names(v@), true))),
        t.run is None ==> (t.cmd matches Some(RunCommand::Single(c)) ==> plan_of(t) == Some((seq![c@], true))),
        t.run is None && t.cmd is None ==> plan_of(t) is None,
{
}

fn lines_of(c: &RunCommand) -> (r: Vec<String>)
    ensures
        names(r@) == command_lines(*c),
{
    match c {
        RunCommand::Single(s) => {
            let mut v: Vec<String> = Vec::new();
            v.push(s.clone());
            proof {
                assert(names(v@) =~= seq![s@]);
            }
            v
        },
        RunCommand::Multiple(v) => clone_strings(v),
    }
}

/// The commands a task runs and whether they are echoed.
pub fn command_plan(task: &Task) -> (r: Option<CommandPlan>)
    ensures
        match r {
            Some(p) => plan_of(*task) == Some((names(p.commands@), p.echo)),
            None => plan_of(*task) is None,
        },
        task.run matches Some(RunCommand::Multiple(v)) ==> (r matches Some(p) && names(p.commands@) == names(v@)
            && !p.echo),
        task.run is None ==> (task.cmd matches Some(RunCommand::Multiple(v)) ==> (r matches Some(p) && names(
            p.commands@,
        ) == names(v@) && p.echo)),
{
    match &task.run {
        Some(c) => Some(CommandPlan { commands: lines_of(c), echo: false }),
        None => match &task.cmd {
            Some(c) => Some(CommandPlan { commands: lines_of(c), echo: true }),
            None => None,
        },
    }
}

/// The escape sequence that starts dim text.
pub open spec fn dim_on() -> Seq<char> {
    seq!['\x1b', '[', '2', 'm']
}

/// The escape sequence that resets all styling.
pub open spec fn style_reset() -> Seq<char> {
    seq!['\x1b', '[', '0', 'm']
}

/// Renders `text` dimmed with crossterm (`Stylize::dim`, then `to_string`).
/// On Unix targets crossterm writes the dim attribute as `ESC [2m`, then the
/// text, then the reset `ESC [0m`; attributes are written whatever `NO_COLOR`
/// says, which only silences colours. (On a native Windows console crossterm
/// takes its WinAPI path instead; the program supports Unix only.)
#[verifier::external_body]
fn dimmed(text: String) -> (r: String)
    ensures
        r@ == dim_on() + text@ + style_reset(),
{
    crossterm::style::Stylize::dim(text).to_string()
}

/// The log line that echoes a command before it runs: `$ ` and the command,
/// dimmed.
pub fn command_echo(cmd: &str) -> (r: String)
    ensures
        r@ == dim_on() + "$ "@ + cmd@ + style_reset(),
{
    let mut line = String::from_str("$ ");
    line.append(cmd);
    dimmed(line)
}

/// What a task's run does next, after `done` of its commands have run.
#[derive(Debug, PartialEq, Eq)]
pub enum CommandStep {
    /// Run this command, having first logged `echo` if there is one.
    Run { command: String, echo: Option<String> },
    /// The run is over, with this outcome.
    Finished(Result<(), String>),
}

/// The next step of a task's run, from its plan, the number of commands
/// that have run and the outcome of the last one (`Ok` before the first):
/// after a failure the run is over with that failure; else the next command
/// runs, echoed if the plan asks; after the last command the run is over and
/// succeeded.
pub fn command_step(plan: &CommandPlan, done: usize, last: &Result<(), String>) -> (r: CommandStep)
    ensures
        match *last {
            Err(e) => r == CommandStep::Finished(Err(e)),
            Ok(()) => if done < plan.commands@.len() {
                r matches CommandStep::Run { command, echo } && command@ == plan.commands@[done as int]@ && (
                if plan.echo {
                    echo matches Some(line) && line@ == dim_on() + "$ "@ + command@ + style_reset()
                } else {
                    echo is None
                })
            } else {
                r == CommandStep::Finished(Ok(()))
            },
        },
{
    match last {
        Err(e) => CommandStep::Finished(Err(e.clone())),
        Ok(()) => {
            if done < plan.commands.len() {
                let command = plan.commands[done].clone();
                let echo = if plan.echo {
                    Some(command_echo(command.as_str()))
                } else {
                    None
                };
                CommandStep::Run { command, echo }
            } else {
                CommandStep::Finished(Ok(()))
            }
        },
    }
}

/// The text that `String::from_utf8_lossy` makes of `bytes`.
pub uninterp spec fn lossy_text(bytes: Seq<u8>) -> Seq<char>;

/// Decodes bytes as UTF-8 with `String::from_utf8_lossy`, which puts the
/// replacement character in place of each invalid sequence. Its
/// documentation says that valid UTF-8 comes back as the text it encodes;
/// what invalid input gives is left to the name `lossy_text`.
#[verifier::external_body]
fn decode_lossy(bytes: &[u8]) -> (r: String)
    ensures
        r@ == lossy_text(bytes@),
        vstd::utf8::valid_utf8(bytes@) ==> r@ == vstd::utf8::decode_utf8(bytes@),
{
    String::from_utf8_lossy(bytes).into_owned()
}

/// `s` without one trailing newline, and then without one trailing
/// carriage return.
pub open spec fn strip_line_end(s: Seq<char>) -> Seq<char> {
    let a = if s.len() > 0 && s.last() == '\n' { s.drop_last() } else { s };
    if a.len() > 0 && a.last() == '\r' { a.drop_last() } else { a }
}

/// `s` without its line ending (`\n`, `\r\n`, or a lone `\r`).
pub fn strip_line_ending(s: &str) -> (r: String)
    ensures
        r@ == strip_line_end(s@),
{
    let n = s.unicode_len();
    let mut end = n;
    if end > 0 && s.get_char(end - 1) == '\n' {
        end = end - 1;
    }
    if end > 0 && s.get_char(end - 1) == '\r' {
        end = end - 1;
    }
    let kept = s.substring_char(0, end);
    proof {
        let a = if s@.len() > 0 && s@.last() == '\n' { s@.drop_last() } else { s@ };
        assert(a =~= s@.subrange(0, a.len() as int));
        assert(strip_line_end(s@) =~= s@.subrange(0, end as int));
    }
    kept.to_owned()
}

/// The log line made of one line of a command's output, as read with its
/// line ending: decoded as UTF-8 (invalid sequences replaced), the ending
/// removed.
pub fn output_line(bytes: &[u8]) -> (r: String)
    ensures
        r@ == strip_line_end(lossy_text(bytes@)),
        vstd::utf8::valid_utf8(bytes@) ==> r@ == strip_line_end(vstd::utf8::decode_utf8(bytes@)),
{
    let text = decode_lossy(bytes);
    strip_line_ending(text.as_str())
}

/// The colours that tell tasks' output apart on the console.
#[derive(Debug, Clone, Copy, PartialEq, Eq, Structural)]
pub enum PrefixColor {
    Blue,
    Green,
    Yellow,
    Magenta,
    Cyan,
    Red,
}

/// The colour of the task at position `i` of the execution order: the six
/// colours in turn.
pub open spec fn palette(i: int) -> PrefixColor {
    let k = i % 6;
    if k == 0 {
        PrefixColor::Blue
    } else if k == 1 {
        PrefixColor::Green
    } else if k == 2 {
        PrefixColor::Yellow
    } else if k == 3 {
        PrefixColor::Magenta
    } else if k == 4 {
        PrefixColor::Cyan
    } else {
        PrefixColor::Red
    }
}

/// Where `name` first stands in `order`, or 0 if it is not there.
pub open spec fn order_position(order: Seq<Seq<char>>, name: Seq<char>) -> int {
    match order.index_of_first(name) {
        Some(i) => i,
        None => 0,
    }
}

/// The colour of the console prefix of the task named `name`.
pub fn prefix_color(order: &[String], name: &str) -> (r: PrefixColor)
    ensures
        r == palette(order_position(names(order@), name@)),
{
    let ghost o = names(order@);
    let mut i: usize = 0;
    let mut pos: usize = 0;
    let mut found = false;
    while i < order.len() && !found
        invariant
            o == names(order@),
            i <= order@.len(),
            !found ==> pos == 0 && forall|j: int| 0 <= j < i ==> #[trigger] o[j] != name@,
            found ==> pos < order@.len() && o[pos as int] == name@ && forall|j: int|
                0 <= j < pos ==> #[trigger] o[j] != name@,
        decreases order@.len() - i + if found { 0int } else { 1int },
    {
        if crate::text::str_eq(order[i].as_str(), name) {
            pos = i;
            found = true;
        } else {
            i = i + 1;
        }
    }
    proof {
        if o.contains(name@) {
            o.index_of_first_ensures(name@);
            let f = o.index_of_first(name@)->0;
            if !found {
                assert(o[f] != name@);
            }
            if (pos as int) < f {
                assert(o[pos as int] != name@);
            }
            if f < pos {
                assert(o[f] != name@);
            }
            assert(order_position(o, name@) == pos);
        } else {
            o.index_of_first_ensures(name@);
            if found {
                assert(o.contains(name@));
            }
            assert(order_position(o, name@) == 0);
        }
    }
    let k = pos % 6;
    if k == 0 {
        PrefixColor::Blue
    } else if k == 1 {
        PrefixColor::Green
    } else if k == 2 {
        PrefixColor::Yellow
    } else if k == 3 {
        PrefixColor::Magenta
    } else if k == 4 {
        PrefixColor::Cyan
    } else {
        PrefixColor::Red
    }
}

/// The number crossterm writes for each colour in a 256-colour foreground
/// sequence.
pub open spec fn color_number(c: PrefixColor) -> Seq<char> {
    match c {
        PrefixColor::Blue => "12"@,
        PrefixColor::Green => "10"@,
        PrefixColor::Yellow => "11"@,
        PrefixColor::Magenta => "13"@,
        PrefixColor::Cyan => "14"@,
        PrefixColor::Red => "9"@,
    }
}

/// The escape sequence that sets the foreground colour `c`.
pub open spec fn foreground_on(c: PrefixColor) -> Seq<char> {
    seq!['\x1b', '['] + "38;5;"@ + color_number(c) + "m"@
}

/// The escape sequence that starts bold text.
pub open spec fn bold_on() -> Seq<char> {
    seq!['\x1b', '[', '1', 'm']
}

/// The foreground sequence crossterm writes when `NO_COLOR` silences colours.
pub open spec fn empty_foreground() -> Seq<char> {
    seq!['\x1b', '[', 'm']
}

/// `text` in colour `c` and bold: the foreground sequence, or an empty one
/// when colours are silenced, then bold, the text and the reset.
pub open spec fn styled_as(text: Seq<char>, c: PrefixColor, colored: bool) -> Seq<char> {
    (if colored { foreground_on(c) } else { empty_foreground() }) + bold_on() + text + style_reset()
}

/// Renders `text` bold in colour `color` with crossterm (`Stylize::with`,
/// `Stylize::bold`, then `to_string`). On Unix targets (the only ones the
/// program supports) crossterm writes the foreground
/// sequence, the bold sequence, the text and the reset; the colour number
/// is left out, leaving `ESC [m`, when the environment variable `NO_COLOR`
/// is set and not empty, which crossterm reads once per process. Which of
/// the two came out is not stated.
#[verifier::external_body]
fn bold_colored(text: String, color: PrefixColor) -> (r: String)
    ensures
        r@ == styled_as(text@, color, true) || r@ == styled_as(text@, color, false),
{
    let c = match color {
        PrefixColor::Blue => crossterm::style::Color::Blue,
        PrefixColor::Green => crossterm::style::Color::Green,
        PrefixColor::Yellow => crossterm::style::Color::Yellow,
        PrefixColor::Magenta => crossterm::style::Color::Magenta,
        PrefixColor::Cyan => crossterm::style::Color::Cyan,
        PrefixColor::Red => crossterm::style::Color::Red,
    };
    crossterm::style::Stylize::bold(crossterm::style::Stylize::with(text, c)).to_string()
}

/// The prefix of a task's lines on the console: its name in brackets, bold,
/// in the colour of its place in the execution order.
pub fn task_prefix(order: &[String], name: &str) -> (r: String)
    ensures
        r@ == styled_as("["@ + name@ + "]"@, palette(order_position(names(order@), name@)), true)
            || r@ == styled_as("["@ + name@ + "]"@, palette(order_position(names(order@), name@)), false),
{
    let color = prefix_color(order, name);
    let mut text = String::from_str("[");
    text.append(name);
    text.append("]");
    bold_colored(text, color)
}

} // verus!
