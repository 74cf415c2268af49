use vstd::prelude::*;

use crate::components::log_viewer::{max_scroll_for, scroll_after_key, LogViewer};
use crate::components::task_list::{list_event, TaskList, TaskListEvent};
use crate::input::{KeyCode, KeyEvent};
use crate::runner::{is_dependency_closure, TaskRunner};
use crate::utils::{clone_strings, contains_name, names, position_of, reaches};

verus! {

/// The state of the terminal interface, apart from the runner it drives.
pub struct App {
    selected_task_index: usize,
    log_scroll_offset: u16,
    exit: bool,
    auto_scroll: bool,
    visible_tasks: Vec<String>,
    is_interactive: bool,
}

/// The interface state in the mathematical model.
pub struct AppModel {
    pub selected: nat,
    pub scroll: u16,
    pub exit: bool,
    pub auto_scroll: bool,
    pub visible: Seq<Seq<char>>,
    pub interactive: bool,
}

/// What the interface asks of the runner and the terminal after a key.
#[derive(Debug, PartialEq, Eq)]
pub enum AppAction {
    Nothing,
    Quit,
    /// Bytes for the selected task's standard input.
    SendInput(Vec<u8>),
    RunAll,
    ClearAllLogs,
    RunTask(String),
    ClearLogs(String),
    /// Stop a task; with `continue_downstream` the tasks that depend on it
    /// go on as if it had succeeded.
    StopTask { name: String, continue_downstream: bool },
}

/// An action in the mathematical model.
pub enum ActionModel {
    Nothing,
    Quit,
    SendInput(Seq<u8>),
    RunAll,
    ClearAllLogs,
    RunTask(Seq<char>),
    ClearLogs(Seq<char>),
    StopTask(Seq<char>, bool),
}

/// What the interface reads from outside itself when a key comes.
#[derive(Clone, Copy)]
pub struct KeyContext {
    /// The selected task runs, by the statuses last read.
    pub selected_running: bool,
    /// The selected task's standard input can be written to now.
    pub input_channel_open: bool,
    /// The selected task can take input now (it runs and its input is open).
    pub can_enter_interactive: bool,
    /// The number of log lines of the selected task last read.
    pub logs_len: usize,
    /// The selected task has a description.
    pub has_description: bool,
    /// The terminal's height in rows.
    pub terminal_height: u16,
}

pub open spec fn action_model(a: AppAction) -> ActionModel {
    match a {
        AppAction::Nothing => ActionModel::Nothing,
        AppAction::Quit => ActionModel::Quit,
        AppAction::SendInput(b) => ActionModel::SendInput(b@),
        AppAction::RunAll => ActionModel::RunAll,
        AppAction::ClearAllLogs => ActionModel::ClearAllLogs,
        AppAction::RunTask(n) => ActionModel::RunTask(n@),
        AppAction::ClearLogs(n) => ActionModel::ClearLogs(n@),
        AppAction::StopTask { name, continue_downstream } => ActionModel::StopTask(name@, continue_downstream),
    }
}

/// The UTF-8 encoding of `c`.
pub open spec fn utf8_encode(c: char) -> Seq<u8> {
    let v = c as u32;
    if v < 0x80 {
        seq![v as u8]
    } else if v < 0x800 {
        seq![(0xC0 | (v >> 6)) as u8, (0x80 | (v & 0x3F)) as u8]
    } else if v < 0x10000 {
        seq![(0xE0 | (v >> 12)) as u8, (0x80 | ((v >> 6) & 0x3F)) as u8, (0x80 | (v & 0x3F)) as u8]
    } else {
        seq![
            (0xF0 | (v >> 18)) as u8,
            (0x80 | ((v >> 12) & 0x3F)) as u8,
            (0x80 | ((v >> 6) & 0x3F)) as u8,
            (0x80 | (v & 0x3F)) as u8,
        ]
    }
}

/// What a key sends to a task's input in interactive mode: Ctrl+letter its
/// control code (Ctrl+C 3, Ctrl+D 4, Ctrl+Z 26), a character its UTF-8
/// bytes, Enter a newline, Tab a tab, Backspace 8, Delete 127, the arrows
/// their escape sequences; any other key nothing.
pub open spec fn input_bytes(key: KeyEvent) -> Seq<u8> {
    match key.code {
        KeyCode::Char(c) => if key.modifiers.control {
            if 'a' <= c <= 'z' {
                seq![((c as u32) - ('a' as u32) + 1) as u8]
            } else if 'A' <= c <= 'Z' {
                seq![((c as u32) - ('A' as u32) + 1) as u8]
            } else {
                utf8_encode(c)
            }
        } else {
            utf8_encode(c)
        },
        KeyCode::Enter => seq![10u8],
        KeyCode::Tab => seq![9u8],
        KeyCode::Backspace => seq![8u8],
        KeyCode::Delete => seq![127u8],
        KeyCode::Up => seq![27u8, 91u8, 65u8],
        KeyCode::Down => seq![27u8, 91u8, 66u8],
        KeyCode::Right => seq![27u8, 91u8, 67u8],
        KeyCode::Left => seq![27u8, 91u8, 68u8],
        _ => Seq::empty(),
    }
}

/// The selected task's name, if the selection is on a task.
pub open spec fn selected_name(s: AppModel) -> Option<Seq<char>> {
    if s.selected < s.visible.len() {
        Some(s.visible[s.selected as int])
    } else {
        None
    }
}

/// `s` with the log scrolled back to follow the end.
pub open spec fn reset_scroll(s: AppModel) -> AppModel {
    AppModel { scroll: 0, auto_scroll: true, ..s }
}

/// The state after a key outside interactive mode, and the action asked.
pub open spec fn normal_step(s: AppModel, key: KeyEvent, ctx: KeyContext) -> (AppModel, ActionModel) {
    if key.code == KeyCode::Char('q') || key.code == KeyCode::Esc {
        (AppModel { exit: true, ..s }, ActionModel::Quit)
    } else if key.code == KeyCode::Char('i') {
        if selected_name(s) is Some && ctx.can_enter_interactive {
            (AppModel { interactive: true, ..s }, ActionModel::Nothing)
        } else {
            (s, ActionModel::Nothing)
        }
    } else if key.code == KeyCode::Char('A') {
        (reset_scroll(s), ActionModel::RunAll)
    } else if key.code == KeyCode::Char('C') {
        (reset_scroll(s), ActionModel::ClearAllLogs)
    } else {
        match list_event(key, s.selected as usize, s.visible) {
            Some((kind, name)) => if kind == 0 {
                let i: int = if !key.modifiers.shift && (key.code == KeyCode::Up || key.code == KeyCode::Char('k')) {
                    s.selected as int - 1
                } else {
                    s.selected as int + 1
                };
                (AppModel { selected: i as nat, ..reset_scroll(s) }, ActionModel::Nothing)
            } else if kind == 1 {
                (reset_scroll(s), ActionModel::RunTask(name))
            } else if kind == 2 {
                (reset_scroll(s), ActionModel::ClearLogs(name))
            } else if kind == 3 {
                (s, ActionModel::StopTask(name, false))
            } else {
                (s, ActionModel::StopTask(name, true))
            },
            None => if selected_name(s) is Some {
                match scroll_after_key(
                    key,
                    s.scroll,
                    ctx.logs_len,
                    ctx.terminal_height.saturating_sub(6),
                    ctx.has_description,
                ) {
                    Some((o, a)) => (AppModel { scroll: o, auto_scroll: a, ..s }, ActionModel::Nothing),
                    None => (s, ActionModel::Nothing),
                }
            } else {
                (s, ActionModel::Nothing)
            },
        }
    }
}

/// The state after a key, and the action asked. In interactive mode Esc
/// leaves the mode, and nothing else; while the selected task runs any other
/// key goes to the task's input; once the task stops running the mode ends
/// and any other key is handled as usual.
pub open spec fn app_step(s: AppModel, key: KeyEvent, ctx: KeyContext) -> (AppModel, ActionModel) {
    if s.interactive && key.code == KeyCode::Esc {
        (AppModel { interactive: false, ..s }, ActionModel::Nothing)
    } else if s.interactive && ctx.selected_running && selected_name(s) is Some {
        if ctx.input_channel_open && input_bytes(key).len() > 0 {
            (s, ActionModel::SendInput(input_bytes(key)))
        } else {
            (s, ActionModel::Nothing)
        }
    } else {
        normal_step(AppModel { interactive: false, ..s }, key, ctx)
    }
}

/// The arrow keys send the terminal's cursor sequences, `ESC [` and a
/// letter: A up, B down, C right (forward), D left (back), whatever
/// modifiers are held.
pub proof fn lemma_arrow_sequences(key: KeyEvent)
    ensures
        key.code == KeyCode::Up ==> input_bytes(key) == seq![0x1bu8, '[' as u8, 'A' as u8],
        key.code == KeyCode::Down ==> input_bytes(key) == seq![0x1bu8, '[' as u8, 'B' as u8],
        key.code == KeyCode::Right ==> input_bytes(key) == seq![0x1bu8, '[' as u8, 'C' as u8],
        key.code == KeyCode::Left ==> input_bytes(key) == seq![0x1bu8, '[' as u8, 'D' as u8],
{
}

/// Outside interactive mode, `r` without Shift, like Enter, runs the
/// selected task and brings its log back to the end.
pub proof fn lemma_r_runs_the_selected_task(s: AppModel, key: KeyEvent, ctx: KeyContext)
    requires
        !s.interactive,
        !key.modifiers.shift,
        key.code == KeyCode::Char('r') || key.code == KeyCode::Enter,
        s.selected < s.visible.len(),
        s.selected < usize::MAX,
    ensures
        app_step(s, key, ctx).1 == ActionModel::RunTask(s.visible[s.selected as int]),
        app_step(s, key, ctx).0 == (AppModel { scroll: 0, auto_scroll: true, ..s }),
{
    assert((s.selected as usize) as nat == s.selected);
}

/// The UTF-8 encoding of `c`.
pub fn encode_utf8(c: char) -> (r: Vec<u8>)
    ensures
        r@ == utf8_encode(c),
{
    let v = c as u32;
    if v < 0x80 {
        vec![v as u8]
    } else if v < 0x800 {
        vec![(0xC0 | (v >> 6)) as u8, (0x80 | (v & 0x3F)) as u8]
    } else if v < 0x10000 {
        vec![(0xE0 | (v >> 12)) as u8, (0x80 | ((v >> 6) & 0x3F)) as u8, (0x80 | (v & 0x3F)) as u8]
    } else {
        vec![
            (0xF0 | (v >> 18)) as u8,
            (0x80 | ((v >> 12) & 0x3F)) as u8,
            (0x80 | ((v >> 6) & 0x3F)) as u8,
            (0x80 | (v & 0x3F)) as u8,
        ]
    }
}

/// The bytes a key sends to a task's input in interactive mode.
pub fn key_input_bytes(key: KeyEvent) -> (r: Vec<u8>)
    ensures
        r@ == input_bytes(key),
        key.code == KeyCode::Right ==> r@ == seq![0x1bu8, '[' as u8, 'C' as u8],
        key.code == KeyCode::Left ==> r@ == seq![0x1bu8, '[' as u8, 'D' as u8],
        key.code == KeyCode::Up ==> r@ == seq![0x1bu8, '[' as u8, 'A' as u8],
        key.code == KeyCode::Down ==> r@ == seq![0x1bu8, '[' as u8, 'B' as u8],
{
    match key.code {
        KeyCode::Char(c) => {
            if key.modifiers.control {
                if 'a' <= c && c <= 'z' {
                    let b = ((c as u32) - ('a' as u32) + 1) as u8;
                    vec![b]
                } else if 'A' <= c && c <= 'Z' {
                    let b = ((c as u32) - ('A' as u32) + 1) as u8;
                    vec![b]
                } else {
                    encode_utf8(c)
                }
            } else {
                encode_utf8(c)
            }
        },
        KeyCode::Enter => vec![10u8],
        KeyCode::Tab => vec![9u8],
        KeyCode::Backspace => vec![8u8],
        KeyCode::Delete => vec![127u8],
        KeyCode::Up => vec![27u8, 91u8, 65u8],
        KeyCode::Down => vec![27u8, 91u8, 66u8],
        KeyCode::Right => vec![27u8, 91u8, 67u8],
        KeyCode::Left => vec![27u8, 91u8, 68u8],
        _ => Vec::new(),
    }
}

} // verus!

verus! {

/// The tasks the list shows when the interface opens: all, in execution
/// order, or, when some were named, those and what they depend on.
pub open spec fn initial_visible(order: Seq<Seq<char>>, initial: Seq<Seq<char>>, g: crate::utils::DepGraph) -> Seq<Seq<char>> {
    if initial.len() == 0 {
        order
    } else {
        order.filter(|a: Seq<char>| reaches(initial, a, g))
    }
}

impl App {
    pub closed spec fn model(&self) -> AppModel {
        AppModel {
            selected: self.selected_task_index as nat,
            scroll: self.log_scroll_offset,
            exit: self.exit,
            auto_scroll: self.auto_scroll,
            visible: names(self.visible_tasks@),
            interactive: self.is_interactive,
        }
    }

    /// The selection is on a task, or at the top of an empty list.
    pub open spec fn wf(&self) -> bool {
        self.model().selected == 0 || self.model().selected < self.model().visible.len()
    }

    /// The interface for a runner: the list shows every task, or the tasks
    /// named in `initial_tasks` and what they depend on; the first named task
    /// is selected if it is shown, else the top one; the log follows its end.
    pub fn new(runner: &TaskRunner, initial_tasks: &[String]) -> (app: App)
        ensures
            app.wf(),
            app.model().visible == initial_visible(
                runner.order_seq(),
                names(initial_tasks@),
                runner.task_map().dep_graph(),
            ),
            app.model().selected == if initial_tasks@.len() > 0 && app.model().visible.contains(
                initial_tasks@[0]@,
            ) {
                app.model().visible.index_of_first(initial_tasks@[0]@)->0 as nat
            } else {
                0
            },
            app.model().scroll == 0,
            app.model().auto_scroll,
            !app.model().exit,
            !app.model().interactive,
    {
        let order = runner.execution_order();
        let ghost o = names(order@);
        let ghost g = runner.task_map().dep_graph();
        let ghost init = names(initial_tasks@);
        let visible_tasks = if initial_tasks.len() == 0 {
            let mut v: Vec<String> = Vec::new();
            let mut i: usize = 0;
            while i < order.len()
                invariant
                    o == names(order@),
                    i <= order@.len(),
                    names(v@) == o.take(i as int),
                decreases order@.len() - i,
            {
                let ghost v0 = v@;
                v.push(order[i].clone());
                proof {
                    crate::utils::lemma_names_push(v0, v@.last());
                    assert(o.take(i + 1) =~= o.take(i as int).push(o[i as int]));
                }
                i += 1;
            }
            proof {
                assert(o.take(o.len() as int) =~= o);
            }
            v
        } else {
            let subgraph = runner.get_subgraph(initial_tasks);
            let ghost sub = names(subgraph@);
            let ghost pred = |a: Seq<char>| reaches(init, a, g);
            let mut v: Vec<String> = Vec::new();
            let mut i: usize = 0;
            while i < order.len()
                invariant
                    o == names(order@),
                    pred == (|a: Seq<char>| reaches(init, a, g)),
                    is_dependency_closure(sub, init, g),
                    sub == names(subgraph@),
                    i <= order@.len(),
                    names(v@) == o.take(i as int).filter(pred),
                decreases order@.len() - i,
            {
                let hit = contains_name(&subgraph, order[i].as_str());
                proof {
                    reveal_with_fuel(Seq::filter, 1);
                    assert(o.take(i + 1).drop_last() =~= o.take(i as int));
                    assert(o.take(i + 1).last() == order@[i as int]@);
                    let a = order@[i as int]@;
                    if sub.contains(a) {
                        assert(reaches(init, a, g));
                    } else if reaches(init, a, g) {
                        crate::runner::lemma_closure_holds_reachable(sub, init, g, a);
                    }
                }
                if hit {
                    let ghost v0 = v@;
                    v.push(order[i].clone());
                    proof {
                        crate::utils::lemma_names_push(v0, v@.last());
                    }
                }
                i += 1;
            }
            proof {
                assert(o.take(o.len() as int) =~= o);
            }
            v
        };
        let mut selected_task_index: usize = 0;
        if initial_tasks.len() > 0 {
            let first = &initial_tasks[0];
            match position_of(&visible_tasks, first) {
                Some(k) => {
                    selected_task_index = k;
                },
                None => {},
            }
            proof {
                let vs = names(visible_tasks@);
                if vs.contains(first@) {
                    vs.index_of_first_ensures(first@);
                    let f = vs.index_of_first(first@)->0;
                    assert(vs[f] == first@);
                    if selected_task_index < f {
                        assert(vs[selected_task_index as int] == first@);
                    }
                    assert(visible_tasks@[f]@ == first@);
                } else {
                    if selected_task_index != 0 {
                        assert(vs[selected_task_index as int] == first@);
                    }
                }
            }
        }
        App {
            selected_task_index,
            log_scroll_offset: 0,
            exit: false,
            auto_scroll: true,
            visible_tasks,
            is_interactive: false,
        }
    }

    /// Handles a key press: updates the selection, scrolling, interactive
    /// mode and exit flag, and says what the runner or the terminal is to do.
    pub fn handle_key_event(&mut self, key_event: KeyEvent, ctx: KeyContext) -> (action: AppAction)
        requires
            old(self).wf(),
        ensures
            final(self).wf(),
            (final(self).model(), action_model(action)) == app_step(old(self).model(), key_event, ctx),
            !old(self).model().interactive && !key_event.modifiers.shift && (key_event.code == KeyCode::Char('r')
                || key_event.code == KeyCode::Enter) && old(self).model().selected < old(self).model().visible.len()
                ==> action_model(action) == ActionModel::RunTask(
                old(self).model().visible[old(self).model().selected as int],
            ),
    {
        let has_name = self.selected_task_index < self.visible_tasks.len();
        let ghost names_len = self.model().visible.len();
        proof {
            assert(names_len == self.visible_tasks@.len());
        }
        if self.is_interactive {
            if key_event.code == KeyCode::Esc {
                self.is_interactive = false;
                return AppAction::Nothing;
            }
            if ctx.selected_running && has_name {
                if ctx.input_channel_open {
                    let bytes = key_input_bytes(key_event);
                    if bytes.len() > 0 {
                        return AppAction::SendInput(bytes);
                    }
                }
                return AppAction::Nothing;
            }
            self.is_interactive = false;
        }
        match key_event.code {
            KeyCode::Char('q') | KeyCode::Esc => {
                self.exit = true;
                return AppAction::Quit;
            },
            KeyCode::Char('i') => {
                if has_name && ctx.can_enter_interactive {
                    self.is_interactive = true;
                }
                return AppAction::Nothing;
            },
            KeyCode::Char('A') => {
                self.log_scroll_offset = 0;
                self.auto_scroll = true;
                return AppAction::RunAll;
            },
            KeyCode::Char('C') => {
                self.log_scroll_offset = 0;
                self.auto_scroll = true;
                return AppAction::ClearAllLogs;
            },
            _ => {},
        }
        let event = TaskList::handle_key_event(key_event, self.selected_task_index, self.visible_tasks.as_slice());
        match event {
            Some(TaskListEvent::Select(i)) => {
                self.selected_task_index = i;
                self.log_scroll_offset = 0;
                self.auto_scroll = true;
                AppAction::Nothing
            },
            Some(TaskListEvent::Run(name)) => {
                self.log_scroll_offset = 0;
                self.auto_scroll = true;
                AppAction::RunTask(name)
            },
            Some(TaskListEvent::Clear(name)) => {
                self.log_scroll_offset = 0;
                self.auto_scroll = true;
                AppAction::ClearLogs(name)
            },
            Some(TaskListEvent::Stop(name)) => AppAction::StopTask { name, continue_downstream: false },
            Some(TaskListEvent::StopAndNext(name)) => AppAction::StopTask { name, continue_downstream: true },
            None => {
                if has_name {
                    let area_height = ctx.terminal_height.saturating_sub(6);
                    let moved = LogViewer::handle_key_event(
                        key_event,
                        self.log_scroll_offset,
                        ctx.logs_len,
                        area_height,
                        ctx.has_description,
                    );
                    match moved {
                        Some((offset, auto)) => {
                            self.log_scroll_offset = offset;
                            self.auto_scroll = auto;
                        },
                        None => {},
                    }
                }
                AppAction::Nothing
            },
        }
    }

    /// Brings the scroll position in line with the log before drawing: the
    /// furthest position while the log follows its end, and never beyond it.
    pub fn sync_scroll(&mut self, logs_len: usize, area_height: u16, has_description: bool)
        requires
            old(self).wf(),
        ensures
            final(self).wf(),
            final(self).model() == (AppModel {
                scroll: if old(self).model().auto_scroll || old(self).model().scroll > max_scroll_for(
                    logs_len,
                    area_height,
                    has_description,
                ) {
                    max_scroll_for(logs_len, area_height, has_description)
                } else {
                    old(self).model().scroll
                },
                ..old(self).model()
            }),
    {
        let overhead: u16 = if has_description { 4 } else { 2 };
        let content_height = area_height.saturating_sub(overhead) as usize;
        let max_scroll = logs_len.saturating_sub(content_height) as u16;
        if self.auto_scroll || self.log_scroll_offset > max_scroll {
            self.log_scroll_offset = max_scroll;
        }
    }

    /// The index of the selected row.
    pub fn selected_task_index(&self) -> (r: usize)
        ensures
            r == self.model().selected,
    {
        self.selected_task_index
    }

    /// How far the log is scrolled.
    pub fn log_scroll_offset(&self) -> (r: u16)
        ensures
            r == self.model().scroll,
    {
        self.log_scroll_offset
    }

    /// The log follows its end.
    pub fn auto_scroll(&self) -> (r: bool)
        ensures
            r == self.model().auto_scroll,
    {
        self.auto_scroll
    }

    /// The interface is to close.
    pub fn should_exit(&self) -> (r: bool)
        ensures
            r == self.model().exit,
    {
        self.exit
    }

    /// Keys go to the selected task's input.
    pub fn is_interactive(&self) -> (r: bool)
        ensures
            r == self.model().interactive,
    {
        self.is_interactive
    }

    /// The tasks the list shows, in order.
    pub fn visible_tasks(&self) -> (r: &[String])
        ensures
            names(r@) == self.model().visible,
    {
        self.visible_tasks.as_slice()
    }

    /// The selected task's name, if the selection is on a task.
    pub fn selected_task_name(&self) -> (r: Option<String>)
        ensures
            match r {
                Some(n) => selected_name(self.model()) == Some(n@),
                None => selected_name(self.model()) is None,
            },
    {
        if self.selected_task_index < self.visible_tasks.len() {
            Some(self.visible_tasks[self.selected_task_index].clone())
        } else {
            None
        }
    }
}

} // verus!
