use vstd::prelude::*;

use crate::input::{KeyCode, KeyEvent};
use crate::runner::{statuses, status_at, TaskStatus};
use crate::store::Store;
use crate::utils::names;

verus! {

/// What a key press on the task list asks for.
#[derive(Debug, PartialEq, Eq)]
pub enum TaskListEvent {
    Select(usize),
    Run(String),
    Clear(String),
    Stop(String),
    StopAndNext(String),
}

/// The task list pane.
pub struct TaskList<'a> {
    pub store: &'a Store<'a>,
    pub selected_index: usize,
}

/// The marker shown before a task's name for each status.
pub open spec fn icon_of(status: TaskStatus) -> Seq<char> {
    match status {
        TaskStatus::Idle => "  ·  "@,
        TaskStatus::Pending => "  ~  "@,
        TaskStatus::Running => "  ▶  "@,
        TaskStatus::Success => "  ✔  "@,
        TaskStatus::Failed => "  ✘  "@,
    }
}

/// The key is one of `a` or `b`.
pub open spec fn code_is(code: KeyCode, a: KeyCode, b: KeyCode) -> bool {
    code == a || code == b
}

/// What a key press on the list gives: without Shift, Up/k and Down/j move
/// the selection by one within the list, r/Enter runs, c clears and s stops
/// the selected task; Shift+S (or Shift+s) stops it and lets what depends
/// on it go on. A move that changes nothing, or an action with nothing
/// selected, gives `None`.
pub open spec fn list_event(key: KeyEvent, current: usize, tasks: Seq<Seq<char>>) -> Option<(int, Seq<char>)> {
    // (0, i) selects; (1..4, name) acts: run, clear, stop, stop-and-next.
    let shift = key.modifiers.shift;
    let has = current < tasks.len();
    if !shift && code_is(key.code, KeyCode::Up, KeyCode::Char('k')) {
        if current > 0 { Some((0, seq![])) } else { None }
    } else if !shift && code_is(key.code, KeyCode::Down, KeyCode::Char('j')) {
        if current + 1 < tasks.len() { Some((0, seq![])) } else { None }
    } else if !shift && code_is(key.code, KeyCode::Char('r'), KeyCode::Enter) {
        if has { Some((1, tasks[current as int])) } else { None }
    } else if !shift && key.code == KeyCode::Char('c') {
        if has { Some((2, tasks[current as int])) } else { None }
    } else if !shift && key.code == KeyCode::Char('s') {
        if has { Some((3, tasks[current as int])) } else { None }
    } else if shift && code_is(key.code, KeyCode::Char('S'), KeyCode::Char('s')) {
        if has { Some((4, tasks[current as int])) } else { None }
    } else {
        None
    }
}

/// `e` is the event that `list_event` describes.
pub open spec fn event_matches(e: Option<TaskListEvent>, key: KeyEvent, current: usize, tasks: Seq<Seq<char>>) -> bool {
    let shift = key.modifiers.shift;
    match list_event(key, current, tasks) {
        None => e is None,
        Some((kind, name)) => match e {
            Some(TaskListEvent::Select(i)) => kind == 0 && if !shift && code_is(key.code, KeyCode::Up, KeyCode::Char('k')) {
                i == current - 1
            } else {
                i == current + 1
            },
            Some(TaskListEvent::Run(n)) => kind == 1 && n@ == name,
            Some(TaskListEvent::Clear(n)) => kind == 2 && n@ == name,
            Some(TaskListEvent::Stop(n)) => kind == 3 && n@ == name,
            Some(TaskListEvent::StopAndNext(n)) => kind == 4 && n@ == name,
            None => false,
        },
    }
}

/// Without Shift, `r` acts as Enter does: with a task selected, the event
/// is to run that task.
pub proof fn lemma_r_runs_the_selected_task(key: KeyEvent, current: usize, tasks: Seq<Seq<char>>, e: Option<TaskListEvent>)
    requires
        !key.modifiers.shift,
        key.code == KeyCode::Char('r') || key.code == KeyCode::Enter,
        current < tasks.len(),
        event_matches(e, key, current, tasks),
    ensures
        e matches Some(TaskListEvent::Run(n)) && n@ == tasks[current as int],
{
}

/// A succeeded task is marked with the check mark and a failed one with the
/// cross, and no other status carries either.
pub proof fn lemma_status_marks(status: TaskStatus)
    ensures
        icon_of(status).contains('✔') <==> status == TaskStatus::Success,
        icon_of(status).contains('✘') <==> status == TaskStatus::Failed,
{
    reveal_strlit("  ·  ");
    reveal_strlit("  ~  ");
    reveal_strlit("  ▶  ");
    reveal_strlit("  ✔  ");
    reveal_strlit("  ✘  ");
    let s = icon_of(status);
    if status == TaskStatus::Success {
        assert(s[2] == '✔');
    } else if status == TaskStatus::Failed {
        assert(s[2] == '✘');
    }
}

impl<'a> TaskList<'a> {
    /// The event a key press on the list asks for, if any.
    pub fn handle_key_event(key: KeyEvent, current_index: usize, visible_tasks: &[String]) -> (r: Option<TaskListEvent>)
        requires
            current_index == usize::MAX ==> !(!key.modifiers.shift && code_is(key.code, KeyCode::Down, KeyCode::Char('j'))),
        ensures
            event_matches(r, key, current_index, names(visible_tasks@)),
            !key.modifiers.shift && (key.code == KeyCode::Char('r') || key.code == KeyCode::Enter) && current_index
                < visible_tasks@.len() ==> (r matches Some(TaskListEvent::Run(n)) && n@ == visible_tasks@[current_index as int]@),
    {
        let has_shift = key.modifiers.shift;
        let order = visible_tasks;
        let mut idx = current_index;
        let ghost tasks = names(visible_tasks@);
        proof {
            assert(tasks.len() == visible_tasks@.len());
        }

        let up = match key.code {
            KeyCode::Up | KeyCode::Char('k') => !has_shift,
            _ => false,
        };
        let down = match key.code {
            KeyCode::Down | KeyCode::Char('j') => !has_shift,
            _ => false,
        };
        let run = match key.code {
            KeyCode::Char('r') | KeyCode::Enter => !has_shift,
            _ => false,
        };
        let clear = match key.code {
            KeyCode::Char('c') => !has_shift,
            _ => false,
        };
        let stop = match key.code {
            KeyCode::Char('s') => !has_shift,
            _ => false,
        };
        let stop_next = match key.code {
            KeyCode::Char('S') | KeyCode::Char('s') => has_shift,
            _ => false,
        };

        if up {
            idx = idx.saturating_sub(1);
        } else if down {
            if idx + 1 < order.len() {
                idx += 1;
            }
        } else if run {
            if idx < order.len() {
                return Some(TaskListEvent::Run(order[idx].clone()));
            }
        } else if clear {
            if idx < order.len() {
                return Some(TaskListEvent::Clear(order[idx].clone()));
            }
        } else if stop {
            if idx < order.len() {
                return Some(TaskListEvent::Stop(order[idx].clone()));
            }
        } else if stop_next {
            if idx < order.len() {
                return Some(TaskListEvent::StopAndNext(order[idx].clone()));
            }
        }

        if idx != current_index {
            Some(TaskListEvent::Select(idx))
        } else {
            None
        }
    }

    /// The marker shown before a task's name.
    pub fn status_icon(status: TaskStatus) -> (r: &'static str)
        ensures
            r@ == icon_of(status),
    {
        match status {
            TaskStatus::Idle => "  ·  ",
            TaskStatus::Pending => "  ~  ",
            TaskStatus::Running => "  ▶  ",
            TaskStatus::Success => "  ✔  ",
            TaskStatus::Failed => "  ✘  ",
        }
    }

    /// The rows of the list: each shown task's index and status, in order,
    /// passing over names that are not tasks.
    pub fn rows(&self) -> (r: Vec<(usize, TaskStatus)>)
        requires
            self.store.runner.wf(),
        ensures
            forall|k: int| 0 <= k < r@.len() ==> {
                &&& (#[trigger] r@[k]).0 < self.store.visible_tasks@.len()
                &&& status_at(
                    self.store.runner.task_map(),
                    statuses(self.store.runner.state_seq()),
                    self.store.visible_tasks@[r@[k].0 as int]@,
                ) == Some(r@[k].1)
            },
            forall|k: int, l: int| 0 <= k < l < r@.len() ==> r@[k].0 < r@[l].0,
            forall|i: int|
                0 <= i < self.store.visible_tasks@.len() && self.store.runner.task_map().key_seq().contains(
                    self.store.visible_tasks@[i]@,
                ) ==> exists|k: int| 0 <= k < r@.len() && #[trigger] r@[k].0 == i,
    {
        let runner = self.store.runner;
        let tasks = self.store.visible_tasks;
        let mut r: Vec<(usize, TaskStatus)> = Vec::new();
        let mut i: usize = 0;
        while i < tasks.len()
            invariant
                runner.wf(),
                runner == self.store.runner,
                tasks == self.store.visible_tasks,
                i <= tasks@.len(),
                forall|k: int| 0 <= k < r@.len() ==> {
                    &&& (#[trigger] r@[k]).0 < i
                    &&& status_at(runner.task_map(), statuses(runner.state_seq()), tasks@[r@[k].0 as int]@) == Some(r@[k].1)
                },
                forall|k: int, l: int| 0 <= k < l < r@.len() ==> r@[k].0 < r@[l].0,
                forall|j: int|
                    0 <= j < i && runner.task_map().key_seq().contains(tasks@[j]@) ==> exists|k: int|
                        0 <= k < r@.len() && #[trigger] r@[k].0 == j,
            decreases tasks@.len() - i,
        {
            let s = runner.status(tasks[i].as_str());
            let ghost r0 = r@;
            proof {
                runner.lemma_status_of(tasks@[i as int]@);
            }
            match s {
                Some(st) => {
                    r.push((i, st));
                    proof {
                        assert(r@[r@.len() - 1].0 == i);
                    }
                },
                None => {},
            }
            proof {
                assert forall|j: int|
                    0 <= j < i + 1 && runner.task_map().key_seq().contains(tasks@[j]@) implies exists|k: int|
                        0 <= k < r@.len() && #[trigger] r@[k].0 == j by {
                    if j < i {
                        let k = choose|k: int| 0 <= k < r0.len() && #[trigger] r0[k].0 == j;
                        assert(r@[k] == r0[k]);
                    } else {
                        assert(r@[r@.len() - 1].0 == i);
                    }
                }
            }
            i += 1;
        }
        r
    }
}

} // verus!
