use vstd::prelude::*;

use crate::config::TaskMap;
use crate::runner::{is_dependency_closure, statuses, status_at, TaskRunner, TaskStatus};
use crate::text::{join, joined};
use crate::utils::names;

verus! {

/// `targets[k]` is not a task of `m`, and every target before it is.
pub open spec fn is_first_missing(m: TaskMap, targets: Seq<Seq<char>>, k: int) -> bool {
    &&& 0 <= k < targets.len()
    &&& !m.key_seq().contains(targets[k])
    &&& forall|j: int| 0 <= j < k ==> m.key_seq().contains(#[trigger] targets[j])
}

/// The text that reports a target that is not a task.
pub open spec fn not_found_message(name: Seq<char>) -> Seq<char> {
    "Task '"@ + name + "' not found in configuration"@
}

/// Checks that every target names a task; reports the first that does not.
pub fn check_targets(tasks: &TaskMap, targets: &[String]) -> (r: Result<(), String>)
    ensures
        match r {
            Ok(()) => forall|j: int| 0 <= j < targets@.len() ==> tasks.key_seq().contains(#[trigger] names(targets@)[j]),
            Err(msg) => exists|k: int|
                #[trigger] is_first_missing(*tasks, names(targets@), k) && msg@ == not_found_message(targets@[k]@),
        },
{
    let ghost t = names(targets@);
    let mut i: usize = 0;
    while i < targets.len()
        invariant
            t == names(targets@),
            i <= targets@.len(),
            forall|j: int| 0 <= j < i ==> tasks.key_seq().contains(#[trigger] t[j]),
        decreases targets@.len() - i,
    {
        if !tasks.contains_key(targets[i].as_str()) {
            let mut msg = String::from_str("Task '");
            msg.append(targets[i].as_str());
            msg.append("' not found in configuration");
            assert(is_first_missing(*tasks, t, i as int));
            return Err(msg);
        }
        i += 1;
    }
    Ok(())
}

/// The tasks a run covers: every task when no target is named, else the
/// targets and everything they depend on, directly or not.
pub fn selected_tasks(runner: &TaskRunner, targets: &[String]) -> (r: Vec<String>)
    requires
        runner.wf(),
    ensures
        targets@.len() == 0 ==> names(r@) == runner.task_map().key_seq(),
        targets@.len() > 0 ==> is_dependency_closure(names(r@), names(targets@), runner.task_map().dep_graph()),
        names(r@).no_duplicates(),
{
    if targets.len() == 0 {
        let tasks = runner.tasks();
        proof {
            tasks.lemma_shape();
        }
        tasks.keys()
    } else {
        runner.get_subgraph(targets)
    }
}

/// The names of `sub` whose task has failed, in the order of `sub`.
pub open spec fn failed_among(m: TaskMap, st: Seq<TaskStatus>, sub: Seq<Seq<char>>) -> Seq<Seq<char>> {
    sub.filter(|a: Seq<char>| status_at(m, st, a) == Some(TaskStatus::Failed))
}

/// The tasks of `subgraph` that have failed, in the order of `subgraph`.
pub fn failed_tasks(runner: &TaskRunner, subgraph: &[String]) -> (r: Vec<String>)
    requires
        runner.wf(),
    ensures
        names(r@) == failed_among(runner.task_map(), statuses(runner.state_seq()), names(subgraph@)),
{
    let ghost m = runner.task_map();
    let ghost st = statuses(runner.state_seq());
    let ghost sub = names(subgraph@);
    let ghost pred = |a: Seq<char>| status_at(m, st, a) == Some(TaskStatus::Failed);
    let mut r: Vec<String> = Vec::new();
    let mut i: usize = 0;
    while i < subgraph.len()
        invariant
            runner.wf(),
            m == runner.task_map(),
            st == statuses(runner.state_seq()),
            sub == names(subgraph@),
            pred == (|a: Seq<char>| status_at(m, st, a) == Some(TaskStatus::Failed)),
            i <= subgraph@.len(),
            names(r@) == sub.take(i as int).filter(pred),
        decreases subgraph@.len() - i,
    {
        let s = runner.status(subgraph[i].as_str());
        proof {
            runner.lemma_status_of(subgraph@[i as int]@);
            reveal_with_fuel(Seq::filter, 1);
            assert(sub.take(i + 1).drop_last() =~= sub.take(i as int));
            assert(sub.take(i + 1).last() == subgraph@[i as int]@);
        }
        let failed = match s {
            Some(TaskStatus::Failed) => true,
            _ => false,
        };
        if failed {
            let ghost r0 = r@;
            r.push(subgraph[i].clone());
            proof {
                crate::utils::lemma_names_push(r0, r@.last());
            }
        }
        i += 1;
    }
    proof {
        assert(sub.take(sub.len() as int) =~= sub);
    }
    r
}

/// The text that reports failed tasks.
pub open spec fn failure_message(failed: Seq<Seq<char>>) -> Seq<char> {
    "Some tasks failed: "@ + joined(failed, ", "@)
}

/// The outcome of a run on the console: success when no task failed, else
/// the failed tasks' names.
pub fn run_outcome(failed: &Vec<String>) -> (r: Result<(), String>)
    ensures
        match r {
            Ok(()) => failed@.len() == 0,
            Err(msg) => failed@.len() > 0 && msg@ == failure_message(names(failed@)),
        },
{
    if failed.len() == 0 {
        Ok(())
    } else {
        let mut msg = String::from_str("Some tasks failed: ");
        let body = join(failed, ", ");
        msg.append(body.as_str());
        Err(msg)
    }
}

} // verus!
