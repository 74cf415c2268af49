use vstd::prelude::*;

use crate::input::{KeyCode, KeyEvent};
use crate::text::{contains_char, contains_str, has_infix, has_prefix, starts_with};

verus! {

/// The output pane of the selected task.
pub struct LogViewer<'a> {
    pub task_name: Option<&'a str>,
    pub task_description: Option<&'a str>,
    pub logs: &'a [String],
    pub scroll_offset: u16,
    pub is_interactive: bool,
}

/// How a log line is shown.
#[derive(Debug, Clone, Copy, PartialEq, Eq, Structural)]
pub enum LogLineKind {
    /// A line the runner wrote about a task: bold cyan.
    Banner,
    /// An echoed command: dimmed.
    Command,
    /// A line with terminal escape codes, shown as they say.
    Ansi,
    /// A line that speaks of a failure: bold red.
    Failure,
    /// A line that speaks of success: bold green.
    Success,
    /// Anything else, as it is.
    Plain,
}

/// The rows the borders, and the description with its rule, take from the pane.
pub open spec fn pane_overhead(has_description: bool) -> u16 {
    if has_description { 4 } else { 2 }
}

/// The furthest the pane can scroll: lines beyond what fits.
pub open spec fn max_scroll_for(logs_len: usize, area_height: u16, has_description: bool) -> u16 {
    let content_height = area_height.saturating_sub(pane_overhead(has_description)) as usize;
    (logs_len.saturating_sub(content_height)) as u16
}

/// The scroll position and follow-mode after a key press, or `None` for a
/// key the pane does not handle. Shift+Up/k and Shift+Down/j move one line,
/// PageUp and PageDown ten; moving down to within fifteen lines of the end
/// follows the end again. The position never passes the furthest scroll.
pub open spec fn scroll_after_key(
    key: KeyEvent,
    current_offset: u16,
    logs_len: usize,
    area_height: u16,
    has_description: bool,
) -> Option<(u16, bool)> {
    let max_scroll = max_scroll_for(logs_len, area_height, has_description);
    let shift = key.modifiers.shift;
    let moved: Option<(u16, bool)> = match key.code {
        KeyCode::Up if shift => Some((current_offset.saturating_sub(1), false)),
        KeyCode::Char('k') if shift => Some((current_offset.saturating_sub(1), false)),
        KeyCode::Down if shift => {
            let o = current_offset.saturating_add(1);
            Some((o, (o as usize) >= logs_len.saturating_sub(15)))
        },
        KeyCode::Char('j') if shift => {
            let o = current_offset.saturating_add(1);
            Some((o, (o as usize) >= logs_len.saturating_sub(15)))
        },
        KeyCode::PageUp => Some((current_offset.saturating_sub(10), false)),
        KeyCode::PageDown => Some((current_offset.saturating_add(10), false)),
        _ => None,
    };
    match moved {
        Some((o, auto)) => if auto || o > max_scroll {
            Some((max_scroll, auto))
        } else {
            Some((o, auto))
        },
        None => None,
    }
}

/// A scroll key never takes the pane past its furthest position, and a key
/// that moves down far enough brings the pane back to the end.
pub proof fn lemma_scroll_stays_in_bounds(
    key: KeyEvent,
    current_offset: u16,
    logs_len: usize,
    area_height: u16,
    has_description: bool,
)
    ensures
        scroll_after_key(key, current_offset, logs_len, area_height, has_description) matches Some((o, auto)) ==> {
            &&& o <= max_scroll_for(logs_len, area_height, has_description)
            &&& auto ==> o == max_scroll_for(logs_len, area_height, has_description)
        },
{
}

/// How `line` is shown: the first of these that fits it.
pub open spec fn kind_of_line(line: Seq<char>) -> LogLineKind {
    if has_prefix(line, "=== "@) {
        LogLineKind::Banner
    } else if has_prefix(line, "$ "@) {
        LogLineKind::Command
    } else if line.contains('\x1b') {
        LogLineKind::Ansi
    } else if has_infix(line, "failed"@) || has_infix(line, "Failed"@) {
        LogLineKind::Failure
    } else if has_infix(line, "succeeded"@) || has_infix(line, "Success"@) {
        LogLineKind::Success
    } else {
        LogLineKind::Plain
    }
}

/// How a log line is shown.
pub fn classify_log_line(line: &str) -> (k: LogLineKind)
    ensures
        k == kind_of_line(line@),
{
    if starts_with(line, "=== ") {
        LogLineKind::Banner
    } else if starts_with(line, "$ ") {
        LogLineKind::Command
    } else if contains_char(line, '\x1b') {
        LogLineKind::Ansi
    } else if contains_str(line, "failed") || contains_str(line, "Failed") {
        LogLineKind::Failure
    } else if contains_str(line, "succeeded") || contains_str(line, "Success") {
        LogLineKind::Success
    } else {
        LogLineKind::Plain
    }
}

impl<'a> LogViewer<'a> {
    /// Scrolls the pane for a key press; `None` for a key it does not handle.
    pub fn handle_key_event(
        key: KeyEvent,
        current_offset: u16,
        logs_len: usize,
        area_height: u16,
        has_description: bool,
    ) -> (r: Option<(u16, bool)>)
        ensures
            r == scroll_after_key(key, current_offset, logs_len, area_height, has_description),
    {
        let overhead: u16 = if has_description { 4 } else { 2 };
        let content_height = area_height.saturating_sub(overhead) as usize;
        let max_scroll = logs_len.saturating_sub(content_height) as u16;

        let mut offset = current_offset;
        let auto;
        let shift = key.modifiers.shift;

        let up = match key.code {
            KeyCode::Up | KeyCode::Char('k') => shift,
            _ => false,
        };
        let down = match key.code {
            KeyCode::Down | KeyCode::Char('j') => shift,
            _ => false,
        };
        if up {
            offset = offset.saturating_sub(1);
            auto = false;
        } else if down {
            offset = offset.saturating_add(1);
            auto = (offset as usize) >= logs_len.saturating_sub(15);
        } else {
            match key.code {
                KeyCode::PageUp => {
                    offset = offset.saturating_sub(10);
                    auto = false;
                },
                KeyCode::PageDown => {
                    offset = offset.saturating_add(10);
                    auto = false;
                },
                _ => {
                    return None;
                },
            }
        }

        if auto || offset > max_scroll {
            offset = max_scroll;
        }
        Some((offset, auto))
    }

    /// The lines that fit in a pane of `height` rows from the scroll position:
    /// their first index and the index after the last.
    pub fn visible_range(&self, height: u16) -> (r: (usize, usize))
        ensures
            r.0 <= r.1 <= self.logs@.len(),
            (self.scroll_offset as usize) < self.logs@.len() ==> {
                &&& r.0 == self.scroll_offset as usize
                &&& r.1 == if self.scroll_offset + height <= self.logs@.len() {
                    (self.scroll_offset + height) as usize
                } else {
                    self.logs@.len() as usize
                }
            },
            (self.scroll_offset as usize) >= self.logs@.len() ==> r.0 == r.1,
    {
        let start = self.scroll_offset as usize;
        let len = self.logs.len();
        if start < len {
            let want = start + height as usize;
            let end = if want < len { want } else { len };
            (start, end)
        } else {
            (len, len)
        }
    }

    /// The pane's title.
    pub fn title(name: &str, is_interactive: bool) -> (r: String)
        ensures
            r@ == if is_interactive {
                " Output (Interactive): "@ + name@ + " "@
            } else {
                " Output: "@ + name@ + " "@
            },
    {
        let mut r = if is_interactive {
            String::from_str(" Output (Interactive): ")
        } else {
            String::from_str(" Output: ")
        };
        r.append(name);
        r.append(" ");
        r
    }
}

} // verus!
