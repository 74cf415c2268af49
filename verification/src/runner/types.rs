use vstd::prelude::*;

use crate::runner::log_buffer::LogBuffer;
use crate::text::{join, joined};
use crate::utils::names;

verus! {

/// Where a task stands.
#[derive(Debug, Clone, Copy, PartialEq, Eq, Structural)]
pub enum TaskStatus {
    Idle,
    Pending,
    Running,
    Success,
    Failed,
}

/// The status and captured output of one task.
#[derive(Debug, Clone)]
pub struct TaskState {
    pub status: TaskStatus,
    pub output: LogBuffer,
    /// The task was stopped with its dependants let go on: when it ends it
    /// counts as succeeded.
    pub stopped_as_success: bool,
}

/// Why a task table cannot be run.
#[derive(Debug, PartialEq, Eq)]
pub enum RunnerError {
    DependencyCycle { cycle: Vec<String> },
}

/// The text that reports a cycle: its names joined by arrows.
pub open spec fn cycle_message(cycle: Seq<Seq<char>>) -> Seq<char> {
    "Dependency cycle detected: "@ + joined(cycle, " -> "@)
}

impl RunnerError {
    /// The error's text.
    pub fn message(&self) -> (r: String)
        ensures
            match self {
                RunnerError::DependencyCycle { cycle } => r@ == cycle_message(names(cycle@)),
            },
    {
        match self {
            RunnerError::DependencyCycle { cycle } => {
                let mut r = String::from_str("Dependency cycle detected: ");
                let body = join(cycle, " -> ");
                r.append(body.as_str());
                r
            },
        }
    }
}

} // verus!
