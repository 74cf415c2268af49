use vstd::prelude::*;

use crate::runner::TaskRunner;

verus! {

/// What the panes read: the runner, and the tasks the list shows.
pub struct Store<'a> {
    pub runner: &'a TaskRunner,
    pub visible_tasks: &'a [String],
}

} // verus!
