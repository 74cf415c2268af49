pub mod cmd;
pub mod log_buffer;
pub mod types;

pub use log_buffer::LogBuffer;
pub use types::{RunnerError, TaskState, TaskStatus};

use vstd::prelude::*;

use crate::config::{task_deps, Task, TaskMap, TasksConfig};
use crate::utils::{
    has_reachable_cycle, settles_at, sort_outcome,
    computes, finitely_reachable, is_cycle, is_topological_order, is_walk_to, names, reaches,
    reaches_in, topological_sort, walk_in, closed_under, DepGraph, TopologicalSortError,
};

verus! {

/// The names of every dependency listed by any of `tasks`.
pub open spec fn all_dep_names(tasks: Seq<Task>) -> Set<Seq<char>>
    decreases tasks.len(),
{
    if tasks.len() == 0 {
        Set::empty()
    } else {
        all_dep_names(tasks.drop_last()).union(task_deps(tasks.last()).to_set())
    }
}

proof fn lemma_all_dep_names(tasks: Seq<Task>)
    ensures
        all_dep_names(tasks).finite(),
        forall|i: int, j: int|
            0 <= i < tasks.len() && 0 <= j < task_deps(tasks[i]).len() ==> #[trigger] all_dep_names(
                tasks,
            ).contains(#[trigger] task_deps(tasks[i])[j]),
    decreases tasks.len(),
{
    if tasks.len() > 0 {
        lemma_all_dep_names(tasks.drop_last());
        assert forall|i: int, j: int|
            0 <= i < tasks.len() && 0 <= j < task_deps(tasks[i]).len() implies #[trigger] all_dep_names(
                tasks,
            ).contains(#[trigger] task_deps(tasks[i])[j]) by {
            if i < tasks.len() - 1 {
                assert(tasks.drop_last()[i] == tasks[i]);
            } else {
                assert(task_deps(tasks.last()).to_set().contains(task_deps(tasks[i])[j]));
            }
        }
    }
}

/// Every name a task table mentions: its tasks and their dependencies.
pub open spec fn name_universe(m: TaskMap) -> Set<Seq<char>> {
    m.key_seq().to_set().union(all_dep_names(m.task_seq()))
}

proof fn lemma_name_universe(m: TaskMap)
    requires
        m.well_formed(),
    ensures
        name_universe(m).finite(),
        closed_under(name_universe(m), m.dep_graph()),
        forall|i: int| 0 <= i < m.key_seq().len() ==> #[trigger] name_universe(m).contains(m.key_seq()[i]),
{
    m.lemma_shape();
    lemma_all_dep_names(m.task_seq());
    let u = name_universe(m);
    let g = m.dep_graph();
    assert forall|a: Seq<char>, j: int| u.contains(a) && 0 <= j < g(a).len() implies #[trigger] u.contains(
        g(a)[j],
    ) by {
        let i = m.key_index(a);
        assert(m.key_seq().contains(a));
        assert(all_dep_names(m.task_seq()).contains(task_deps(m.task_seq()[i])[j]));
    }
    assert forall|i: int| 0 <= i < m.key_seq().len() implies #[trigger] u.contains(m.key_seq()[i]) by {
        assert(m.key_seq().to_set().contains(m.key_seq()[i]));
    }
}

/// A result of ordering the tasks in the mathematical model.
pub open spec fn resolve_outcome(r: Result<Vec<String>, RunnerError>) -> Result<Seq<Seq<char>>, Seq<Seq<char>>> {
    match r {
        Ok(order) => Ok(names(order@)),
        Err(RunnerError::DependencyCycle { cycle }) => Err(names(cycle@)),
    }
}

/// Orders the tasks so that each comes after its dependencies, or reports a
/// cycle among them; it fails exactly when some cycle can be reached. The
/// order, or the cycle, is the one the depth-first search gives, visiting
/// the tasks in table order and each task's dependencies in the order
/// listed.
pub fn resolve_dependencies(tasks: &TaskMap) -> (r: Result<Vec<String>, RunnerError>)
    ensures
        match r {
            Ok(order) => is_topological_order(names(order@), tasks.key_seq(), tasks.dep_graph()),
            Err(RunnerError::DependencyCycle { cycle }) => {
                &&& is_cycle(names(cycle@), tasks.dep_graph())
                &&& reaches(tasks.key_seq(), names(cycle@)[0], tasks.dep_graph())
            },
        },
        r is Ok <==> !has_reachable_cycle(tasks.key_seq(), tasks.dep_graph()),
        exists|b: nat| #[trigger] settles_at(tasks.dep_graph(), tasks.key_seq(), b, resolve_outcome(r)),
{
    proof {
        use_type_invariant(tasks);
    }
    let nodes = tasks.keys();
    let get_dependencies = |node: &String| -> (r: Vec<String>)
        ensures
            names(r@) == tasks.dep_graph()(node@),
        { tasks.deps_of(node.as_str()) };
    proof {
        let g = tasks.dep_graph();
        lemma_name_universe(*tasks);
        assert(finitely_reachable(names(nodes@), g)) by {
            let u = name_universe(*tasks);
            assert forall|i: int| 0 <= i < names(nodes@).len() implies #[trigger] u.contains(
                names(nodes@)[i],
            ) by {
                assert(names(nodes@)[i] == tasks.key_seq()[i]);
            }
        }
        assert(computes(get_dependencies, g));
    }
    let ghost key_names = names(nodes@);
    let res = topological_sort(nodes, get_dependencies);
    proof {
        let g = tasks.dep_graph();
        assert(computes(get_dependencies, g));
        let b = choose|b: nat| #[trigger] settles_at(g, key_names, b, sort_outcome(res));
        assert(settles_at(g, tasks.key_seq(), b, sort_outcome(res)));
    }
    match res {
        Ok(order) => {
            proof {
                let g = tasks.dep_graph();
                assert(computes(get_dependencies, g));
                assert forall|c: Seq<Seq<char>>| !(#[trigger] is_cycle(c, g) && reaches(tasks.key_seq(), c[0], g)) by {
                    if is_cycle(c, g) && reaches(tasks.key_seq(), c[0], g) {
                        crate::utils::lemma_cycle_excludes_order(names(order@), tasks.key_seq(), g, c);
                    }
                }
            }
            Ok(order)
        },
        Err(TopologicalSortError::DependencyCycle { cycle }) => {
            proof {
                assert(computes(get_dependencies, tasks.dep_graph()));
            }
            Err(RunnerError::DependencyCycle { cycle })
        },
    }
}

} // verus!

verus! {

/// `w`, then `x` in front of it, is a walk from `x`.
proof fn lemma_prepend_walk(
    w: Seq<Seq<char>>,
    x: Seq<char>,
    d: Seq<char>,
    a: Seq<char>,
    g: DepGraph,
    s: Set<Seq<char>>,
)
    requires
        walk_in(w, seq![d], a, g, s),
        g(x).contains(d),
        s.contains(x),
    ensures
        walk_in(seq![x] + w, seq![x], a, g, s),
{
    let v = seq![x] + w;
    assert(w[0] == d);
    assert forall|i: int| 0 <= i < v.len() - 1 implies #[trigger] g(v[i]).contains(v[i + 1]) by {
        if i == 0 {
            assert(v[1] == w[0]);
        } else {
            let j = i - 1;
            assert(v[i] == w[j]);
            assert(v[i + 1] == w[j + 1]);
            assert(g(w[j]).contains(w[j + 1]));
        }
    }
    assert forall|i: int| 0 <= i < v.len() implies #[trigger] s.contains(v[i]) by {
        if i > 0 {
            assert(v[i] == w[i - 1]);
        }
    }
    assert(v.last() == w.last());
    assert(seq![x].contains(v[0]));
}

proof fn lemma_reaches_from_new(
    x: Seq<char>,
    d: Seq<char>,
    a: Seq<char>,
    g: DepGraph,
    s: Set<Seq<char>>,
    t: Set<Seq<char>>,
)
    requires
        reaches_in(seq![d], a, g, s),
        s.subset_of(t),
        g(x).contains(d),
        t.contains(x),
    ensures
        reaches_in(seq![x], a, g, t),
{
    let w = choose|w: Seq<Seq<char>>| #[trigger] walk_in(w, seq![d], a, g, s);
    assert(walk_in(w, seq![d], a, g, t));
    lemma_prepend_walk(w, x, d, a, g, t);
}

/// Adds to `subgraph` the task `target` and, unless `target` is there
/// already, everything it depends on, directly or not, that is not there yet.
pub fn get_subgraph(tasks: &TaskMap, target: &str, subgraph: &mut Vec<String>)
    requires
        names(old(subgraph)@).no_duplicates(),
    ensures
        names(final(subgraph)@).no_duplicates(),
        old(subgraph)@.len() <= final(subgraph)@.len(),
        names(final(subgraph)@).take(old(subgraph)@.len() as int) == names(old(subgraph)@),
        names(final(subgraph)@).contains(target@),
        names(old(subgraph)@).contains(target@) ==> names(final(subgraph)@) == names(old(subgraph)@),
        forall|a: Seq<char>, j: int|
            #![trigger names(final(subgraph)@).to_set().contains(a), tasks.dep_graph()(a)[j]]
            names(final(subgraph)@).to_set().contains(a) && !names(old(subgraph)@).to_set().contains(a)
                && 0 <= j < tasks.dep_graph()(a).len()
                ==> names(final(subgraph)@).contains(tasks.dep_graph()(a)[j]),
        forall|a: Seq<char>|
            names(final(subgraph)@).to_set().contains(a) && !names(old(subgraph)@).to_set().contains(a)
                ==> #[trigger] reaches_in(
                seq![target@],
                a,
                tasks.dep_graph(),
                names(final(subgraph)@).to_set().difference(names(old(subgraph)@).to_set()),
            ),
    decreases tasks.key_seq().to_set().difference(names(old(subgraph)@).to_set()).len(),
{
    proof {
        use_type_invariant(tasks);
        tasks.lemma_shape();
    }
    let ghost g = tasks.dep_graph();
    let ghost s0 = names(subgraph@);
    let ghost k = tasks.key_seq().to_set();
    if crate::utils::contains_name(subgraph, target) {
        return;
    }
    let ghost pre = subgraph@;
    subgraph.push(String::from_str(target));
    let ghost s1 = names(subgraph@);
    proof {
        crate::utils::lemma_names_push(pre, subgraph@.last());
        assert(s1 == s0.push(target@));
        crate::utils::lemma_to_set_push(s0, target@);
        assert(s1.take(s0.len() as int) =~= s0);
        assert forall|i: int, j: int| 0 <= i < s1.len() && 0 <= j < s1.len() && i != j implies s1[i] != s1[j] by {
            if i == s0.len() {
                assert(s0[j] == s1[j]);
            } else if j == s0.len() {
                assert(s0[i] == s1[i]);
            }
        }
        assert(s1[s0.len() as int] == target@);
        let nw = s1.to_set().difference(s0.to_set());
        assert forall|a: Seq<char>| s1.to_set().contains(a) && !s0.to_set().contains(a) implies #[trigger] reaches_in(
            seq![target@],
            a,
            g,
            nw,
        ) by {
            assert(a == target@);
            let w = seq![target@];
            assert(walk_in(w, seq![target@], a, g, nw));
        }
    }
    match tasks.get(target) {
        Some(task) => match &task.depends_on {
            Some(deps) => {
                proof {
                    assert(tasks.key_seq().contains(target@));
                    assert(g(target@) == names(deps@));
                }
                let mut i: usize = 0;
                while i < deps.len()
                    invariant
                        g == tasks.dep_graph(),
                        k == tasks.key_seq().to_set(),
                        k.contains(target@),
                        !s0.to_set().contains(target@),
                        s0 == names(old(subgraph)@),
                        g(target@) == names(deps@),
                        i <= deps@.len(),
                        names(subgraph@).no_duplicates(),
                        s0.len() < subgraph@.len(),
                        names(subgraph@).take(s0.len() as int) == s0,
                        names(subgraph@)[s0.len() as int] == target@,
                        forall|j: int| 0 <= j < i ==> #[trigger] names(subgraph@).contains(g(target@)[j]),
                        forall|a: Seq<char>, j: int|
                            #![trigger names(subgraph@).to_set().contains(a), g(a)[j]]
                            names(subgraph@).to_set().contains(a) && !s0.to_set().contains(a) && a != target@
                                && 0 <= j < g(a).len() ==> names(subgraph@).contains(g(a)[j]),
                        forall|a: Seq<char>|
                            names(subgraph@).to_set().contains(a) && !s0.to_set().contains(a)
                                ==> #[trigger] reaches_in(
                                seq![target@],
                                a,
                                g,
                                names(subgraph@).to_set().difference(s0.to_set()),
                            ),
                    decreases deps@.len() - i,
                {
                    let ghost sc = names(subgraph@);
                    proof {
                        let cur = sc.to_set();
                        assert(s0.to_set().subset_of(cur)) by {
                            assert forall|a: Seq<char>| s0.to_set().contains(a) implies cur.contains(a) by {
                                let q = choose|q: int| 0 <= q < s0.len() && s0[q] == a;
                                assert(sc.take(s0.len() as int)[q] == s0[q]);
                            }
                        }
                        assert(cur.contains(target@));
                        crate::utils::lemma_measure_drops(k, s0.to_set(), cur, target@);
                    }
                    get_subgraph(tasks, deps[i].as_str(), subgraph);
                    proof {
                        let d = deps@[i as int]@;
                        assert(g(target@)[i as int] == d);
                        let sf = names(subgraph@);
                        let nw = sf.to_set().difference(s0.to_set());
                        assert(sf.take(s0.len() as int) =~= s0) by {
                            assert forall|q: int| 0 <= q < s0.len() implies sf[q] == s0[q] by {
                                assert(sf.take(sc.len() as int)[q] == sc[q]);
                                assert(sc.take(s0.len() as int)[q] == s0[q]);
                            }
                        }
                        assert(sf[s0.len() as int] == target@) by {
                            assert(sf.take(sc.len() as int)[s0.len() as int] == sc[s0.len() as int]);
                        }
                        assert(sc.to_set().subset_of(sf.to_set())) by {
                            assert forall|a: Seq<char>| sc.to_set().contains(a) implies sf.to_set().contains(a) by {
                                let q = choose|q: int| 0 <= q < sc.len() && sc[q] == a;
                                assert(sf.take(sc.len() as int)[q] == sc[q]);
                            }
                        }
                        assert forall|j: int| 0 <= j < i + 1 implies #[trigger] sf.contains(g(target@)[j]) by {
                            if j < i {
                                assert(sc.contains(g(target@)[j]));
                                crate::utils::lemma_prefix_contains(sf, sc, g(target@)[j]);
                            }
                        }
                        assert forall|a: Seq<char>, j: int|
                            #![trigger sf.to_set().contains(a), g(a)[j]]
                            sf.to_set().contains(a) && !s0.to_set().contains(a) && a != target@ && 0 <= j < g(a).len()
                            implies sf.contains(g(a)[j]) by {
                            if sc.to_set().contains(a) {
                                assert(sc.contains(g(a)[j]));
                                crate::utils::lemma_prefix_contains(sf, sc, g(a)[j]);
                            } else {
                                assert(sf.contains(g(a)[j]));
                            }
                        }
                        assert forall|a: Seq<char>|
                            sf.to_set().contains(a) && !s0.to_set().contains(a) implies #[trigger] reaches_in(
                            seq![target@],
                            a,
                            g,
                            nw,
                        ) by {
                            if sc.to_set().contains(a) {
                                crate::utils::lemma_reaches_in_mono(
                                    seq![target@],
                                    a,
                                    g,
                                    sc.to_set().difference(s0.to_set()),
                                    nw,
                                );
                            } else {
                                assert(reaches_in(seq![d], a, g, sf.to_set().difference(sc.to_set())));
                                assert(sf.to_set().contains(target@)) by {
                                    assert(sf[s0.len() as int] == target@);
                                }
                                lemma_reaches_from_new(
                                    target@,
                                    d,
                                    a,
                                    g,
                                    sf.to_set().difference(sc.to_set()),
                                    nw,
                                );
                            }
                        }
                    }
                    i += 1;
                }
            },
            None => {
                proof {
                    assert(g(target@).len() == 0);
                }
            },
        },
        None => {
            proof {
                assert(g(target@).len() == 0);
            }
        },
    }
    proof {
        let sf = names(subgraph@);
        assert(sf.contains(target@)) by {
            assert(sf[s0.len() as int] == target@);
        }
    }
}

} // verus!

verus! {

/// `sub` lists, each once, exactly the names reachable from `targets`: the
/// targets, and every dependency, direct or not, of anything listed.
pub open spec fn is_dependency_closure(sub: Seq<Seq<char>>, targets: Seq<Seq<char>>, g: DepGraph) -> bool {
    &&& sub.no_duplicates()
    &&& forall|i: int| 0 <= i < targets.len() ==> #[trigger] sub.contains(targets[i])
    &&& forall|a: Seq<char>, j: int|
        #![trigger sub.contains(a), g(a)[j]]
        sub.contains(a) && 0 <= j < g(a).len() ==> sub.contains(g(a)[j])
    &&& forall|a: Seq<char>| #[trigger] sub.contains(a) ==> reaches(targets, a, g)
}

proof fn lemma_reaches_single(t: Seq<char>, targets: Seq<Seq<char>>, a: Seq<char>, g: DepGraph, s: Set<Seq<char>>)
    requires
        reaches_in(seq![t], a, g, s),
        targets.contains(t),
    ensures
        reaches(targets, a, g),
{
    let w = choose|w: Seq<Seq<char>>| #[trigger] walk_in(w, seq![t], a, g, s);
    assert(seq![t].contains(w[0]));
    assert(is_walk_to(w, targets, a, g));
}

/// The tasks named in `targets` together with everything they depend on,
/// directly or not.
pub fn subgraph_of(tasks: &TaskMap, targets: &[String]) -> (r: Vec<String>)
    ensures
        is_dependency_closure(names(r@), names(targets@), tasks.dep_graph()),
{
    let ghost g = tasks.dep_graph();
    let ghost ts = names(targets@);
    let mut sub: Vec<String> = Vec::new();
    proof {
        assert(names(sub@) =~= Seq::<Seq<char>>::empty());
    }
    let mut i: usize = 0;
    while i < targets.len()
        invariant
            g == tasks.dep_graph(),
            ts == names(targets@),
            i <= targets@.len(),
            names(sub@).no_duplicates(),
            forall|k: int| 0 <= k < i ==> #[trigger] names(sub@).contains(ts[k]),
            forall|a: Seq<char>, j: int|
                #![trigger names(sub@).contains(a), g(a)[j]]
                names(sub@).contains(a) && 0 <= j < g(a).len() ==> names(sub@).contains(g(a)[j]),
            forall|a: Seq<char>| #[trigger] names(sub@).contains(a) ==> reaches(ts, a, g),
        decreases targets@.len() - i,
    {
        let ghost s0 = names(sub@);
        get_subgraph(tasks, targets[i].as_str(), &mut sub);
        proof {
            let s1 = names(sub@);
            let t = targets@[i as int]@;
            assert(ts[i as int] == t);
            assert(ts.contains(t));
            assert forall|k: int| 0 <= k < i + 1 implies #[trigger] s1.contains(ts[k]) by {
                if k < i {
                    assert(s0.contains(ts[k]));
                    crate::utils::lemma_prefix_contains(s1, s0, ts[k]);
                }
            }
            assert forall|a: Seq<char>| #[trigger] s1.contains(a) implies reaches(ts, a, g) by {
                if s0.contains(a) {
                } else {
                    assert(s1.to_set().contains(a));
                    assert(!s0.to_set().contains(a));
                    lemma_reaches_single(t, ts, a, g, s1.to_set().difference(s0.to_set()));
                }
            }
            assert forall|a: Seq<char>, j: int|
                #![trigger s1.contains(a), g(a)[j]]
                s1.contains(a) && 0 <= j < g(a).len() implies s1.contains(g(a)[j]) by {
                if s0.contains(a) {
                    assert(s0.contains(g(a)[j]));
                    crate::utils::lemma_prefix_contains(s1, s0, g(a)[j]);
                } else {
                    assert(s1.to_set().contains(a));
                    assert(!s0.to_set().contains(a));
                }
            }
        }
        i += 1;
    }
    sub
}

/// The task table, the order that respects its dependencies, and each task's
/// status and output.
pub struct TaskRunner {
    tasks: TaskMap,
    execution_order: Vec<String>,
    states: Vec<TaskState>,
    is_tui: bool,
}

/// The statuses of `states`, in order.
pub open spec fn statuses(states: Seq<TaskState>) -> Seq<TaskStatus> {
    states.map_values(|s: TaskState| s.status)
}

/// A result of building a runner in the mathematical model: its order, or
/// the cycle that stopped it.
pub open spec fn new_outcome(r: Result<TaskRunner, RunnerError>) -> Result<Seq<Seq<char>>, Seq<Seq<char>>> {
    match r {
        Ok(runner) => Ok(runner.order_seq()),
        Err(RunnerError::DependencyCycle { cycle }) => Err(names(cycle@)),
    }
}

impl TaskRunner {
    pub closed spec fn task_map(&self) -> TaskMap {
        self.tasks
    }

    pub closed spec fn order_seq(&self) -> Seq<Seq<char>> {
        names(self.execution_order@)
    }

    /// The state of each task, in the order of the task table.
    pub closed spec fn state_seq(&self) -> Seq<TaskState> {
        self.states@
    }

    pub closed spec fn tui(&self) -> bool {
        self.is_tui
    }

    /// One state per task, and an order that respects the dependencies.
    pub open spec fn wf(&self) -> bool {
        &&& self.task_map().well_formed()
        &&& self.state_seq().len() == self.task_map().key_seq().len()
        &&& is_topological_order(self.order_seq(), self.task_map().key_seq(), self.task_map().dep_graph())
    }

    /// The state of the task named `a`, if there is one.
    pub open spec fn state_of(&self, a: Seq<char>) -> Option<TaskState> {
        if self.task_map().key_seq().contains(a) {
            Some(self.state_seq()[self.task_map().key_index(a)])
        } else {
            None
        }
    }

    /// Builds a runner for a task table: orders the tasks, and gives each an
    /// idle state with an empty log. Fails on a dependency cycle.
    pub fn new(tasks_config: TasksConfig, is_tui: bool) -> (r: Result<Self, RunnerError>)
        ensures
            match r {
                Ok(runner) => {
                    &&& runner.wf()
                    &&& runner.task_map() == tasks_config.tasks
                    &&& runner.tui() == is_tui
                    &&& forall|i: int| 0 <= i < runner.state_seq().len() ==> {
                        &&& (#[trigger] runner.state_seq()[i]).status == TaskStatus::Idle
                        &&& runner.state_seq()[i].output.lines@.len() == 0
                        &&& runner.state_seq()[i].output.version == 0
                        &&& !runner.state_seq()[i].stopped_as_success
                    }
                },
                Err(RunnerError::DependencyCycle { cycle }) => {
                    &&& is_cycle(names(cycle@), tasks_config.tasks.dep_graph())
                    &&& reaches(tasks_config.tasks.key_seq(), names(cycle@)[0], tasks_config.tasks.dep_graph())
                },
            },
            r is Ok <==> !has_reachable_cycle(tasks_config.tasks.key_seq(), tasks_config.tasks.dep_graph()),
            exists|b: nat| #[trigger] settles_at(
                tasks_config.tasks.dep_graph(),
                tasks_config.tasks.key_seq(),
                b,
                new_outcome(r),
            ),
    {
        let tasks = tasks_config.tasks;
        proof {
            use_type_invariant(&tasks);
        }
        let execution_order = match resolve_dependencies(&tasks) {
            Ok(order) => order,
            Err(e) => {
                return Err(e);
            },
        };
        let n = tasks.len();
        let mut states: Vec<TaskState> = Vec::new();
        let mut i: usize = 0;
        while i < n
            invariant
                i <= n,
                states@.len() == i,
                forall|k: int| 0 <= k < i ==> {
                    &&& (#[trigger] states@[k]).status == TaskStatus::Idle
                    &&& states@[k].output.lines@.len() == 0
                    &&& states@[k].output.version == 0
                    &&& !states@[k].stopped_as_success
                },
            decreases n - i,
        {
            states.push(TaskState { status: TaskStatus::Idle, output: LogBuffer::default(), stopped_as_success: false });
            i += 1;
        }
        Ok(TaskRunner { tasks, execution_order, states, is_tui })
    }

    /// The task table.
    pub fn tasks(&self) -> (r: &TaskMap)
        ensures
            *r == self.task_map(),
    {
        &self.tasks
    }

    /// The tasks in an order that respects their dependencies.
    pub fn execution_order(&self) -> (r: &[String])
        ensures
            names(r@) == self.order_seq(),
    {
        self.execution_order.as_slice()
    }

    /// Whether the runner drives the terminal interface.
    pub fn is_tui(&self) -> (r: bool)
        ensures
            r == self.tui(),
    {
        self.is_tui
    }

    /// The tasks named in `targets` and everything they depend on, directly or not.
    pub fn get_subgraph(&self, targets: &[String]) -> (r: Vec<String>)
        ensures
            is_dependency_closure(names(r@), names(targets@), self.task_map().dep_graph()),
    {
        subgraph_of(&self.tasks, targets)
    }

    /// The state of the task named `name`.
    pub fn state(&self, name: &str) -> (r: Option<&TaskState>)
        requires
            self.wf(),
        ensures
            match r {
                Some(s) => self.state_of(name@) == Some(*s),
                None => self.state_of(name@) is None,
            },
    {
        match self.tasks.index_of(name) {
            Some(i) => Some(&self.states[i]),
            None => None,
        }
    }

    /// The status of the task named `name`.
    pub fn status(&self, name: &str) -> (r: Option<TaskStatus>)
        requires
            self.wf(),
        ensures
            match r {
                Some(s) => self.state_of(name@) matches Some(st) && st.status == s,
                None => self.state_of(name@) is None,
            },
    {
        match self.state(name) {
            Some(s) => Some(s.status),
            None => None,
        }
    }
}

} // verus!

verus! {

/// The log line that opens a queued task's output.
pub open spec fn queued_line(a: Seq<char>) -> Seq<char> {
    "=== Task queued: "@ + a + " ==="@
}

/// The log line that opens a started task's output.
pub open spec fn starting_line(a: Seq<char>) -> Seq<char> {
    "=== Starting task: "@ + a + " ==="@
}

/// The log line of a task skipped because a dependency failed.
pub open spec fn dependency_failed_line() -> Seq<char> {
    "Dependency task failed. Skipping execution."@
}

/// The log line that closes a task that succeeded.
pub open spec fn succeeded_line(a: Seq<char>) -> Seq<char> {
    "=== Task succeeded: "@ + a + " ==="@
}

/// The log line that closes a task that failed, with the reason.
pub open spec fn failed_line(a: Seq<char>, reason: Seq<char>) -> Seq<char> {
    "=== Task failed: "@ + a + ": "@ + reason + " ==="@
}

/// `prefix`, then `name`, then `suffix`.
fn frame(prefix: &str, name: &str, suffix: &str) -> (r: String)
    ensures
        r@ == prefix@ + name@ + suffix@,
{
    let mut r = String::from_str(prefix);
    r.append(name);
    r.append(suffix);
    r
}

/// The status of the task named `a` in `st`, read in the order of `m`.
pub open spec fn status_at(m: TaskMap, st: Seq<TaskStatus>, a: Seq<char>) -> Option<TaskStatus> {
    if m.key_seq().contains(a) {
        Some(st[m.key_index(a)])
    } else {
        None
    }
}

/// Every dependency of `a` is a task that has succeeded.
pub open spec fn deps_all_succeeded(m: TaskMap, st: Seq<TaskStatus>, a: Seq<char>) -> bool {
    forall|j: int|
        0 <= j < m.dep_graph()(a).len() ==> #[trigger] status_at(m, st, m.dep_graph()(a)[j]) == Some(
            TaskStatus::Success,
        )
}

/// Some dependency of `a` is a task that has failed.
pub open spec fn some_dep_failed(m: TaskMap, st: Seq<TaskStatus>, a: Seq<char>) -> bool {
    exists|j: int|
        0 <= j < m.dep_graph()(a).len() && #[trigger] status_at(m, st, m.dep_graph()(a)[j]) == Some(
            TaskStatus::Failed,
        )
}

/// `a` waits to run and all it depends on has succeeded.
pub open spec fn ready_to_start(m: TaskMap, st: Seq<TaskStatus>, a: Seq<char>) -> bool {
    status_at(m, st, a) == Some(TaskStatus::Pending) && deps_all_succeeded(m, st, a)
}

/// The statuses after the scheduler has looked at the first `k` names of `w`
/// in turn, failing each waiting task that cannot start because a
/// dependency failed.
pub open spec fn scan_statuses(m: TaskMap, st: Seq<TaskStatus>, w: Seq<Seq<char>>, k: nat) -> Seq<TaskStatus>
    decreases k,
{
    if k == 0 || k > w.len() {
        st
    } else {
        let s = scan_statuses(m, st, w, (k - 1) as nat);
        let a = w[k - 1];
        if status_at(m, s, a) == Some(TaskStatus::Pending) && !deps_all_succeeded(m, s, a)
            && some_dep_failed(m, s, a) {
            s.update(m.key_index(a), TaskStatus::Failed)
        } else {
            s
        }
    }
}

/// What one round of the scheduler decided.
pub struct RoundPlan {
    /// The tasks it started, in the order met.
    pub started: Vec<String>,
    /// Nothing of the round is running or waiting: the scheduler stops.
    pub finished: bool,
}

/// The state at `i` may differ, no other.
pub open spec fn others_unchanged(old: Seq<TaskState>, new: Seq<TaskState>, i: int) -> bool {
    &&& new.len() == old.len()
    &&& forall|j: int| 0 <= j < old.len() && j != i ==> #[trigger] new[j] == old[j]
}

impl TaskRunner {
    fn take_state(&mut self, i: usize) -> (st: TaskState)
        requires
            i < old(self).state_seq().len(),
        ensures
            st == old(self).state_seq()[i as int],
            others_unchanged(old(self).state_seq(), final(self).state_seq(), i as int),
            final(self).task_map() == old(self).task_map(),
            final(self).order_seq() == old(self).order_seq(),
            final(self).tui() == old(self).tui(),
    {
        let mut st = TaskState { status: TaskStatus::Idle, output: LogBuffer::default(), stopped_as_success: false };
        self.states.set_and_swap(i, &mut st);
        st
    }

    fn put_state(&mut self, i: usize, st: TaskState)
        requires
            i < old(self).state_seq().len(),
        ensures
            final(self).state_seq() == old(self).state_seq().update(i as int, st),
            final(self).task_map() == old(self).task_map(),
            final(self).order_seq() == old(self).order_seq(),
            final(self).tui() == old(self).tui(),
    {
        self.states.set(i, st);
    }

    /// Appends a line to the output of the task named `task_name`, if there
    /// is such a task.
    pub fn push_output(&mut self, task_name: &str, line: String)
        requires
            old(self).wf(),
        ensures
            final(self).wf(),
            final(self).task_map() == old(self).task_map(),
            final(self).order_seq() == old(self).order_seq(),
            final(self).tui() == old(self).tui(),
            match old(self).state_of(task_name@) {
                Some(st) => {
                    let i = old(self).task_map().key_index(task_name@);
                    &&& others_unchanged(old(self).state_seq(), final(self).state_seq(), i)
                    &&& final(self).state_seq()[i].status == st.status
                    &&& final(self).state_seq()[i].stopped_as_success == st.stopped_as_success
                    &&& final(self).state_seq()[i].output.lines@ == st.output.lines@.push(line)
                    &&& final(self).state_seq()[i].output.version == crate::runner::log_buffer::next_version(st.output.version)
                },
                None => final(self).state_seq() == old(self).state_seq(),
            },
    {
        match self.tasks.index_of(task_name) {
            Some(i) => {
                let mut st = self.take_state(i);
                st.output.push(line);
                self.put_state(i, st);
            },
            None => {},
        }
    }

    /// Empties the output of the task named `task_name`, if there is such a task.
    pub fn clear_logs(&mut self, task_name: &str)
        requires
            old(self).wf(),
        ensures
            final(self).wf(),
            final(self).task_map() == old(self).task_map(),
            final(self).order_seq() == old(self).order_seq(),
            final(self).tui() == old(self).tui(),
            match old(self).state_of(task_name@) {
                Some(st) => {
                    let i = old(self).task_map().key_index(task_name@);
                    &&& others_unchanged(old(self).state_seq(), final(self).state_seq(), i)
                    &&& final(self).state_seq()[i].status == st.status
                    &&& final(self).state_seq()[i].stopped_as_success == st.stopped_as_success
                    &&& final(self).state_seq()[i].output.lines@.len() == 0
                    &&& final(self).state_seq()[i].output.version == crate::runner::log_buffer::next_version(st.output.version)
                },
                None => final(self).state_seq() == old(self).state_seq(),
            },
    {
        match self.tasks.index_of(task_name) {
            Some(i) => {
                let mut st = self.take_state(i);
                st.output.clear();
                self.put_state(i, st);
            },
            None => {},
        }
    }

    /// Empties the output of every task.
    pub fn clear_all_logs(&mut self)
        requires
            old(self).wf(),
        ensures
            final(self).wf(),
            final(self).task_map() == old(self).task_map(),
            final(self).order_seq() == old(self).order_seq(),
            final(self).tui() == old(self).tui(),
            final(self).state_seq().len() == old(self).state_seq().len(),
            forall|i: int| 0 <= i < old(self).state_seq().len() ==> {
                &&& (#[trigger] final(self).state_seq()[i]).status == old(self).state_seq()[i].status
                &&& final(self).state_seq()[i].stopped_as_success == old(self).state_seq()[i].stopped_as_success
                &&& final(self).state_seq()[i].output.lines@.len() == 0
                &&& final(self).state_seq()[i].output.version == crate::runner::log_buffer::next_version(
                    old(self).state_seq()[i].output.version,
                )
            },
    {
        let ghost s0 = self.state_seq();
        let mut i: usize = 0;
        while i < self.states.len()
            invariant
                self.wf(),
                self.task_map() == old(self).task_map(),
                self.order_seq() == old(self).order_seq(),
                self.tui() == old(self).tui(),
                s0 == old(self).state_seq(),
                self.state_seq().len() == s0.len(),
                i <= s0.len(),
                forall|j: int| i <= j < s0.len() ==> #[trigger] self.state_seq()[j] == s0[j],
                forall|j: int| 0 <= j < i ==> {
                    &&& (#[trigger] self.state_seq()[j]).status == s0[j].status
                    &&& self.state_seq()[j].stopped_as_success == s0[j].stopped_as_success
                    &&& self.state_seq()[j].output.lines@.len() == 0
                    &&& self.state_seq()[j].output.version == crate::runner::log_buffer::next_version(s0[j].output.version)
                },
            decreases s0.len() - i,
        {
            let mut st = self.take_state(i);
            st.output.clear();
            self.put_state(i, st);
            i += 1;
        }
    }
}

} // verus!

verus! {

/// What queueing the tasks named in `w` does to the states: each becomes
/// waiting with an output of one line that says so; the others stay.
pub open spec fn queue_effect(m: TaskMap, s0: Seq<TaskState>, s1: Seq<TaskState>, w: Seq<Seq<char>>) -> bool {
    &&& s1.len() == s0.len()
    &&& forall|i: int| 0 <= i < s0.len() ==> if w.contains(m.key_seq()[i]) {
        &&& (#[trigger] s1[i]).status == TaskStatus::Pending
        &&& s1[i].stopped_as_success == s0[i].stopped_as_success
        &&& s1[i].output.line_views() == seq![queued_line(m.key_seq()[i])]
        &&& s1[i].output.version == crate::runner::log_buffer::next_version(
            crate::runner::log_buffer::next_version(s0[i].output.version),
        )
    } else {
        s1[i] == s0[i]
    }
}

impl TaskRunner {
    /// Marks every task of `subgraph` as waiting, and restarts its output
    /// with a line that says so. Names that are not tasks are passed over.
    pub fn queue_tasks(&mut self, subgraph: &Vec<String>)
        requires
            old(self).wf(),
            names(subgraph@).no_duplicates(),
        ensures
            final(self).wf(),
            final(self).task_map() == old(self).task_map(),
            final(self).order_seq() == old(self).order_seq(),
            final(self).tui() == old(self).tui(),
            queue_effect(old(self).task_map(), old(self).state_seq(), final(self).state_seq(), names(subgraph@)),
    {
        proof {
            use_type_invariant(&self.tasks);
            self.tasks.lemma_shape();
        }
        let ghost s0 = self.state_seq();
        let ghost w = names(subgraph@);
        let ghost keys = self.task_map().key_seq();
        let mut k: usize = 0;
        while k < subgraph.len()
            invariant
                self.wf(),
                self.task_map() == old(self).task_map(),
                self.order_seq() == old(self).order_seq(),
                self.tui() == old(self).tui(),
                s0 == old(self).state_seq(),
                w == names(subgraph@),
                w.no_duplicates(),
                keys == self.task_map().key_seq(),
                keys.no_duplicates(),
                keys.len() == s0.len(),
                self.state_seq().len() == s0.len(),
                k <= w.len(),
                forall|i: int| 0 <= i < s0.len() ==> if w.take(k as int).contains(keys[i]) {
                    &&& (#[trigger] self.state_seq()[i]).status == TaskStatus::Pending
                    &&& self.state_seq()[i].stopped_as_success == s0[i].stopped_as_success
                    &&& self.state_seq()[i].output.line_views() == seq![queued_line(keys[i])]
                    &&& self.state_seq()[i].output.version == crate::runner::log_buffer::next_version(
                        crate::runner::log_buffer::next_version(s0[i].output.version),
                    )
                } else {
                    self.state_seq()[i] == s0[i]
                },
            decreases w.len() - k,
        {
            let name = &subgraph[k];
            let ghost before = self.state_seq();
            match self.tasks.index_of(name.as_str()) {
                Some(i) => {
                    let mut st = self.take_state(i);
                    st.status = TaskStatus::Pending;
                    st.output.clear();
                    let line = frame("=== Task queued: ", name.as_str(), " ===");
                    st.output.push(line);
                    self.put_state(i, st);
                    proof {
                        assert(keys[i as int] == w[k as int]);
                        let t0 = w.take(k as int);
                        assert(!t0.contains(w[k as int])) by {
                            if t0.contains(w[k as int]) {
                                let q = choose|q: int| 0 <= q < t0.len() && t0[q] == w[k as int];
                                assert(w[q] == w[k as int]);
                            }
                        }
                        assert(before[i as int] == s0[i as int]);
                        let lv = self.state_seq()[i as int].output.line_views();
                        assert(lv =~= seq![queued_line(keys[i as int])]);
                        assert forall|j: int| 0 <= j < s0.len() implies if w.take(k + 1).contains(keys[j]) {
                            &&& (#[trigger] self.state_seq()[j]).status == TaskStatus::Pending
                            &&& self.state_seq()[j].stopped_as_success == s0[j].stopped_as_success
                            &&& self.state_seq()[j].output.line_views() == seq![queued_line(keys[j])]
                            &&& self.state_seq()[j].output.version == crate::runner::log_buffer::next_version(
                                crate::runner::log_buffer::next_version(s0[j].output.version),
                            )
                        } else {
                            self.state_seq()[j] == s0[j]
                        } by {
                            let t1 = w.take(k + 1);
                            let t0 = w.take(k as int);
                            if j != i {
                                assert(keys[j] != w[k as int]);
                                if t1.contains(keys[j]) {
                                    let q = choose|q: int| 0 <= q < t1.len() && t1[q] == keys[j];
                                    assert(t0[q] == keys[j]);
                                } else {
                                    assert(!t0.contains(keys[j])) by {
                                        if t0.contains(keys[j]) {
                                            let q = choose|q: int| 0 <= q < t0.len() && t0[q] == keys[j];
                                            assert(t1[q] == keys[j]);
                                        }
                                    }
                                }
                            } else {
                                assert(t1[k as int] == keys[j]);
                            }
                        }
                    }
                },
                None => {
                    proof {
                        let t1 = w.take(k + 1);
                        let t0 = w.take(k as int);
                        assert forall|j: int| 0 <= j < s0.len() implies (t1.contains(keys[j])
                            == t0.contains(keys[j])) by {
                            if t1.contains(keys[j]) {
                                let q = choose|q: int| 0 <= q < t1.len() && t1[q] == keys[j];
                                if q == k {
                                    assert(keys.contains(w[k as int]));
                                }
                                assert(t0[q] == keys[j]);
                            }
                            if t0.contains(keys[j]) {
                                let q = choose|q: int| 0 <= q < t0.len() && t0[q] == keys[j];
                                assert(t1[q] == keys[j]);
                            }
                        }
                    }
                },
            }
            k += 1;
        }
        proof {
            assert(w.take(w.len() as int) =~= w);
        }
    }

    /// Queues the task named `target_name` and everything it depends on,
    /// and gives back those names for the scheduler to work through.
    pub fn run_task(&mut self, target_name: &str) -> (sub: Vec<String>)
        requires
            old(self).wf(),
        ensures
            final(self).wf(),
            final(self).task_map() == old(self).task_map(),
            final(self).order_seq() == old(self).order_seq(),
            final(self).tui() == old(self).tui(),
            is_dependency_closure(names(sub@), seq![target_name@], old(self).task_map().dep_graph()),
            queue_effect(old(self).task_map(), old(self).state_seq(), final(self).state_seq(), names(sub@)),
    {
        let mut targets: Vec<String> = Vec::new();
        targets.push(target_name.to_owned());
        proof {
            assert(names(targets@) =~= seq![target_name@]);
        }
        let sub = subgraph_of(&self.tasks, targets.as_slice());
        self.queue_tasks(&sub);
        sub
    }

    /// Queues the tasks named in `targets` and everything they depend on,
    /// and gives back those names for the scheduler to work through.
    pub fn run_tasks(&mut self, targets: &[String]) -> (sub: Vec<String>)
        requires
            old(self).wf(),
        ensures
            final(self).wf(),
            final(self).task_map() == old(self).task_map(),
            final(self).order_seq() == old(self).order_seq(),
            final(self).tui() == old(self).tui(),
            is_dependency_closure(names(sub@), names(targets@), old(self).task_map().dep_graph()),
            queue_effect(old(self).task_map(), old(self).state_seq(), final(self).state_seq(), names(sub@)),
    {
        let sub = subgraph_of(&self.tasks, targets);
        self.queue_tasks(&sub);
        sub
    }

    /// Queues every task, and gives back their names for the scheduler to
    /// work through.
    pub fn run_all(&mut self) -> (sub: Vec<String>)
        requires
            old(self).wf(),
        ensures
            final(self).wf(),
            final(self).task_map() == old(self).task_map(),
            final(self).order_seq() == old(self).order_seq(),
            final(self).tui() == old(self).tui(),
            names(sub@) == old(self).task_map().key_seq(),
            queue_effect(old(self).task_map(), old(self).state_seq(), final(self).state_seq(), names(sub@)),
    {
        let sub = self.tasks.keys();
        proof {
            self.tasks.lemma_shape();
        }
        self.queue_tasks(&sub);
        sub
    }

    /// Marks the task named `task_name`, if it is running, as stopped: with
    /// `continue_downstream` it will count as succeeded when it ends, so that
    /// what depends on it goes on; without, it ends as it ends. Says whether
    /// the task was running, that is whether its process is to be stopped.
    pub fn request_stop(&mut self, task_name: &str, continue_downstream: bool) -> (r: bool)
        requires
            old(self).wf(),
        ensures
            final(self).wf(),
            final(self).task_map() == old(self).task_map(),
            final(self).order_seq() == old(self).order_seq(),
            final(self).tui() == old(self).tui(),
            r == (old(self).state_of(task_name@) matches Some(st) && st.status == TaskStatus::Running),
            r ==> ({
                let i = old(self).task_map().key_index(task_name@);
                let st = old(self).state_seq()[i];
                &&& others_unchanged(old(self).state_seq(), final(self).state_seq(), i)
                &&& final(self).state_seq()[i] == (TaskState { stopped_as_success: continue_downstream, ..st })
            }),
            !r ==> final(self).state_seq() == old(self).state_seq(),
    {
        match self.tasks.index_of(task_name) {
            Some(i) => {
                if self.states[i].status == TaskStatus::Running {
                    let mut st = self.take_state(i);
                    st.stopped_as_success = continue_downstream;
                    self.put_state(i, st);
                    true
                } else {
                    false
                }
            },
            None => false,
        }
    }

    /// Records how a started task ended: its status becomes `Success` or
    /// `Failed`, and its output ends with a line that says which. A task
    /// stopped to let its dependants go on counts as succeeded whatever the
    /// outcome; the mark is then cleared.
    pub fn finish_task(&mut self, task_name: &str, outcome: &Result<(), String>)
        requires
            old(self).wf(),
        ensures
            final(self).wf(),
            final(self).task_map() == old(self).task_map(),
            final(self).order_seq() == old(self).order_seq(),
            final(self).tui() == old(self).tui(),
            match old(self).state_of(task_name@) {
                Some(st) => {
                    let i = old(self).task_map().key_index(task_name@);
                    &&& others_unchanged(old(self).state_seq(), final(self).state_seq(), i)
                    &&& final(self).state_seq()[i].output.version == crate::runner::log_buffer::next_version(st.output.version)
                    &&& !final(self).state_seq()[i].stopped_as_success
                    &&& (st.stopped_as_success || outcome is Ok) ==> {
                        &&& final(self).state_seq()[i].status == TaskStatus::Success
                        &&& final(self).state_seq()[i].output.line_views() == st.output.line_views().push(
                            succeeded_line(task_name@),
                        )
                    }
                    &&& match outcome {
                        Ok(()) => true,
                        Err(reason) => !st.stopped_as_success ==> {
                            &&& final(self).state_seq()[i].status == TaskStatus::Failed
                            &&& final(self).state_seq()[i].output.line_views() == st.output.line_views().push(
                                failed_line(task_name@, reason@),
                            )
                        },
                    }
                },
                None => final(self).state_seq() == old(self).state_seq(),
            },
    {
        match self.tasks.index_of(task_name) {
            Some(i) => {
                let mut st = self.take_state(i);
                let ghost lines0 = st.output.lines@;
                let counts_as_success = st.stopped_as_success;
                st.stopped_as_success = false;
                match outcome {
                    Ok(()) => {
                        st.status = TaskStatus::Success;
                        st.output.push(frame("=== Task succeeded: ", task_name, " ==="));
                    },
                    Err(_) if counts_as_success => {
                        st.status = TaskStatus::Success;
                        st.output.push(frame("=== Task succeeded: ", task_name, " ==="));
                    },
                    Err(reason) => {
                        st.status = TaskStatus::Failed;
                        let mut line = frame("=== Task failed: ", task_name, ": ");
                        line.append(reason.as_str());
                        line.append(" ===");
                        st.output.push(line);
                    },
                }
                proof {
                    assert(st.output.line_views() =~= lines0.map_values(|l: String| l@).push(
                        st.output.lines@.last()@,
                    ));
                }
                self.put_state(i, st);
            },
            None => {},
        }
    }
}

} // verus!

verus! {

/// The names of `w`, in order, that are ready to start under `st`.
pub open spec fn ready_names(m: TaskMap, st: Seq<TaskStatus>, w: Seq<Seq<char>>) -> Seq<Seq<char>> {
    w.filter(|a: Seq<char>| ready_to_start(m, st, a))
}

/// `t` is `s` with some waiting tasks turned failed.
pub open spec fn only_failures_added(s: Seq<TaskStatus>, t: Seq<TaskStatus>) -> bool {
    &&& t.len() == s.len()
    &&& forall|i: int|
        0 <= i < s.len() ==> #[trigger] t[i] == s[i] || (s[i] == TaskStatus::Pending && t[i]
            == TaskStatus::Failed)
}

proof fn lemma_status_at(m: TaskMap, s: Seq<TaskStatus>, a: Seq<char>)
    requires
        m.well_formed(),
        s.len() == m.key_seq().len(),
        m.key_seq().contains(a),
    ensures
        status_at(m, s, a) == Some(s[m.key_index(a)]),
        0 <= m.key_index(a) < s.len(),
        m.key_seq()[m.key_index(a)] == a,
{
    m.lemma_shape();
}

proof fn lemma_success_kept(m: TaskMap, s: Seq<TaskStatus>, t: Seq<TaskStatus>, a: Seq<char>)
    requires
        m.well_formed(),
        s.len() == m.key_seq().len(),
        only_failures_added(s, t),
    ensures
        deps_all_succeeded(m, s, a) == deps_all_succeeded(m, t, a),
        some_dep_failed(m, s, a) ==> some_dep_failed(m, t, a),
{
    m.lemma_shape();
    let d = m.dep_graph()(a);
    assert forall|j: int| 0 <= j < d.len() implies (status_at(m, s, d[j]) == Some(TaskStatus::Success))
        == (status_at(m, t, d[j]) == Some(TaskStatus::Success)) by {
        if m.key_seq().contains(d[j]) {
            let i = m.key_index(d[j]);
            assert(t[i] == s[i] || (s[i] == TaskStatus::Pending && t[i] == TaskStatus::Failed));
        }
    }
    if some_dep_failed(m, s, a) {
        let j = choose|j: int| 0 <= j < d.len() && #[trigger] status_at(m, s, d[j]) == Some(TaskStatus::Failed);
        let i = m.key_index(d[j]);
        assert(t[i] == s[i] || (s[i] == TaskStatus::Pending && t[i] == TaskStatus::Failed));
        assert(status_at(m, t, d[j]) == Some(TaskStatus::Failed));
    }
}

/// Two filters of `w` agree when their predicates agree on its elements.
proof fn lemma_filter_agrees(w: Seq<Seq<char>>, p: spec_fn(Seq<char>) -> bool, q: spec_fn(Seq<char>) -> bool)
    requires
        forall|i: int| 0 <= i < w.len() ==> p(#[trigger] w[i]) == q(w[i]),
    ensures
        w.filter(p) == w.filter(q),
    decreases w.len(),
{
    reveal_with_fuel(Seq::filter, 1);
    if w.len() > 0 {
        lemma_filter_agrees(w.drop_last(), p, q);
        assert(p(w[w.len() - 1]) == q(w[w.len() - 1]));
    }
}

/// Right after the targets and what they depend on are queued, the round
/// starts exactly the queued tasks that depend on nothing: tasks that do
/// not depend on each other start together.
pub proof fn lemma_first_round_starts_independent(
    m: TaskMap,
    s0: Seq<TaskState>,
    s1: Seq<TaskState>,
    w: Seq<Seq<char>>,
    targets: Seq<Seq<char>>,
)
    requires
        m.well_formed(),
        s0.len() == m.key_seq().len(),
        queue_effect(m, s0, s1, w),
        is_dependency_closure(w, targets, m.dep_graph()),
        forall|k: int| 0 <= k < w.len() ==> m.key_seq().contains(#[trigger] w[k]),
    ensures
        ready_names(m, statuses(s1), w) == w.filter(|a: Seq<char>| m.dep_graph()(a).len() == 0),
{
    let st = statuses(s1);
    let g = m.dep_graph();
    let p = |a: Seq<char>| ready_to_start(m, st, a);
    let q = |a: Seq<char>| g(a).len() == 0;
    assert forall|i: int| 0 <= i < w.len() implies p(#[trigger] w[i]) == q(w[i]) by {
        let a = w[i];
        assert(w.contains(a));
        lemma_status_at(m, st, a);
        let x = m.key_index(a);
        assert(w.contains(m.key_seq()[x]));
        assert(s1[x].status == TaskStatus::Pending);
        assert(status_at(m, st, a) == Some(TaskStatus::Pending));
        if g(a).len() > 0 {
            let d = g(a)[0];
            assert(w.contains(d));
            lemma_status_at(m, st, d);
            let y = m.key_index(d);
            assert(w.contains(m.key_seq()[y]));
            assert(s1[y].status == TaskStatus::Pending);
            assert(status_at(m, st, g(a)[0]) != Some(TaskStatus::Success));
            assert(!deps_all_succeeded(m, st, a));
        }
    }
    lemma_filter_agrees(w, p, q);
}

/// Once the scan has failed a task, the rest of the scan leaves it failed.
proof fn lemma_scan_keeps_failed(m: TaskMap, st: Seq<TaskStatus>, w: Seq<Seq<char>>, k: nat, j: nat, x: int)
    requires
        m.well_formed(),
        st.len() == m.key_seq().len(),
        k <= j <= w.len(),
        0 <= x < st.len(),
        scan_statuses(m, st, w, k)[x] == TaskStatus::Failed,
    ensures
        scan_statuses(m, st, w, j)[x] == TaskStatus::Failed,
    decreases j,
{
    if j > k {
        lemma_scan_keeps_failed(m, st, w, k, (j - 1) as nat, x);
        lemma_scan_only_fails(m, st, w, (j - 1) as nat);
        let s = scan_statuses(m, st, w, (j - 1) as nat);
        let a = w[j - 1];
        if status_at(m, s, a) == Some(TaskStatus::Pending) && !deps_all_succeeded(m, s, a)
            && some_dep_failed(m, s, a) {
            assert(scan_statuses(m, st, w, j) == s.update(m.key_index(a), TaskStatus::Failed));
        }
    }
}

/// The waiting task of `w` that comes first in `order`, at or before position `p`.
proof fn lemma_first_waiting(m: TaskMap, st: Seq<TaskStatus>, w: Seq<Seq<char>>, order: Seq<Seq<char>>, p: int) -> (p0: int)
    requires
        0 <= p < order.len(),
        w.contains(order[p]),
        status_at(m, st, order[p]) == Some(TaskStatus::Pending),
    ensures
        0 <= p0 <= p,
        w.contains(order[p0]),
        status_at(m, st, order[p0]) == Some(TaskStatus::Pending),
        forall|q: int|
            0 <= q < p0 && w.contains(order[q]) ==> #[trigger] status_at(m, st, order[q]) != Some(TaskStatus::Pending),
    decreases p,
{
    if exists|q: int|
        0 <= q < p && w.contains(order[q]) && #[trigger] status_at(m, st, order[q]) == Some(TaskStatus::Pending) {
        let q = choose|q: int|
            0 <= q < p && w.contains(order[q]) && #[trigger] status_at(m, st, order[q]) == Some(TaskStatus::Pending);
        lemma_first_waiting(m, st, w, order, q)
    } else {
        p
    }
}

/// A round over tasks that are all queued or done, where nothing runs but
/// something waits, starts a task or fails one: a run never stalls. It
/// needs the tasks of the run to be tasks of the table, closed under their
/// dependencies, and ordered by an execution order of the table.
pub proof fn lemma_round_makes_progress(m: TaskMap, order: Seq<Seq<char>>, st: Seq<TaskStatus>, w: Seq<Seq<char>>)
    requires
        m.well_formed(),
        st.len() == m.key_seq().len(),
        is_topological_order(order, m.key_seq(), m.dep_graph()),
        forall|k: int| 0 <= k < w.len() ==> m.key_seq().contains(#[trigger] w[k]),
        forall|a: Seq<char>, j: int|
            #![trigger w.contains(a), m.dep_graph()(a)[j]]
            w.contains(a) && 0 <= j < m.dep_graph()(a).len() ==> w.contains(m.dep_graph()(a)[j]),
        forall|k: int|
            0 <= k < w.len() ==> #[trigger] status_at(m, st, w[k]) != Some(TaskStatus::Running) && status_at(
                m,
                st,
                w[k],
            ) != Some(TaskStatus::Idle),
        exists|k: int| 0 <= k < w.len() && #[trigger] status_at(m, st, w[k]) == Some(TaskStatus::Pending),
    ensures
        ready_names(m, st, w).len() > 0 || exists|k: int|
            0 <= k < w.len() && #[trigger] status_at(m, scan_statuses(m, st, w, w.len()), w[k]) != status_at(
                m,
                st,
                w[k],
            ),
{
    let g = m.dep_graph();
    m.lemma_shape();
    let k0 = choose|k: int| 0 <= k < w.len() && #[trigger] status_at(m, st, w[k]) == Some(TaskStatus::Pending);
    assert(m.key_seq().contains(w[k0]));
    let r = choose|r: int| 0 <= r < m.key_seq().len() && m.key_seq()[r] == w[k0];
    assert(order.contains(m.key_seq()[r]));
    let p = choose|p: int| 0 <= p < order.len() && order[p] == w[k0];
    assert(w.contains(order[p]));
    let p0 = lemma_first_waiting(m, st, w, order, p);
    let a = order[p0];
    let k = choose|k: int| 0 <= k < w.len() && w[k] == a;
    // Every dependency of `a` comes earlier in the order, so it is done.
    assert forall|j: int| 0 <= j < g(a).len() implies #[trigger] status_at(m, st, g(a)[j]) == Some(
        TaskStatus::Success,
    ) || status_at(m, st, g(a)[j]) == Some(TaskStatus::Failed) by {
        let d = g(a)[j];
        assert(order.take(p0).contains(d));
        let q = choose|q: int| 0 <= q < order.take(p0).len() && order.take(p0)[q] == d;
        assert(order[q] == d);
        assert(w.contains(d));
        let kd = choose|kd: int| 0 <= kd < w.len() && w[kd] == d;
        assert(status_at(m, st, w[kd]) != Some(TaskStatus::Running));
        assert(m.key_seq().contains(w[kd]));
        lemma_status_at(m, st, d);
    }
    lemma_status_at(m, st, a);
    let x = m.key_index(a);
    if deps_all_succeeded(m, st, a) {
        let pred = |b: Seq<char>| ready_to_start(m, st, b);
        assert(pred(w[k]));
        w.lemma_filter_contains(pred, k);
        assert(ready_names(m, st, w).contains(a));
    } else {
        let j = choose|j: int| 0 <= j < g(a).len() && #[trigger] status_at(m, st, g(a)[j]) != Some(TaskStatus::Success);
        let d = g(a)[j];
        assert(status_at(m, st, d) == Some(TaskStatus::Failed));
        assert(w.contains(d));
        let kd = choose|kd: int| 0 <= kd < w.len() && w[kd] == d;
        assert(m.key_seq().contains(w[kd]));
        lemma_status_at(m, st, d);
        let y = m.key_index(d);
        let s = scan_statuses(m, st, w, k as nat);
        lemma_scan_only_fails(m, st, w, k as nat);
        lemma_status_at(m, s, a);
        lemma_status_at(m, s, d);
        assert(s[y] == st[y]);
        if s[x] == TaskStatus::Failed {
            lemma_scan_keeps_failed(m, st, w, k as nat, w.len(), x);
        } else {
            assert(s[x] == st[x]);
            assert(status_at(m, s, g(a)[j]) == Some(TaskStatus::Failed));
            assert(some_dep_failed(m, s, a));
            assert(!deps_all_succeeded(m, s, a));
            assert(w[(k + 1) - 1] == a);
            assert(scan_statuses(m, st, w, (k + 1) as nat) == s.update(x, TaskStatus::Failed));
            lemma_scan_keeps_failed(m, st, w, (k + 1) as nat, w.len(), x);
        }
        assert(scan_statuses(m, st, w, w.len())[x] != st[x]);
        let fs = scan_statuses(m, st, w, w.len());
        lemma_scan_only_fails(m, st, w, w.len());
        lemma_status_at(m, fs, a);
        assert(status_at(m, fs, w[k]) != status_at(m, st, w[k]));
    }
}

/// What a task still owes its run: two while it waits, one while it runs,
/// nothing once it is done (or is no task).
pub open spec fn owed(s: Option<TaskStatus>) -> nat {
    match s {
        Some(TaskStatus::Pending) => 2,
        Some(TaskStatus::Running) => 1,
        _ => 0,
    }
}

/// What the tasks of `w` still owe their run under the statuses `st`.
pub open spec fn run_measure(m: TaskMap, st: Seq<TaskStatus>, w: Seq<Seq<char>>) -> nat
    decreases w.len(),
{
    if w.len() == 0 {
        0
    } else {
        run_measure(m, st, w.drop_last()) + owed(status_at(m, st, w.last()))
    }
}

/// What is owed name by name adds up: no name owing more means no more in
/// all, and one owing less means less in all.
proof fn lemma_measure_pointwise(m: TaskMap, s: Seq<TaskStatus>, t: Seq<TaskStatus>, w: Seq<Seq<char>>)
    requires
        forall|k: int| 0 <= k < w.len() ==> owed(status_at(m, t, #[trigger] w[k])) <= owed(status_at(m, s, w[k])),
    ensures
        run_measure(m, t, w) <= run_measure(m, s, w),
        (exists|k: int| 0 <= k < w.len() && owed(status_at(m, t, #[trigger] w[k])) < owed(status_at(m, s, w[k])))
            ==> run_measure(m, t, w) < run_measure(m, s, w),
    decreases w.len(),
{
    if w.len() > 0 {
        let d = w.drop_last();
        assert forall|k: int| 0 <= k < d.len() implies owed(status_at(m, t, #[trigger] d[k])) <= owed(
            status_at(m, s, d[k]),
        ) by {
            assert(d[k] == w[k]);
        }
        lemma_measure_pointwise(m, s, t, d);
        assert(owed(status_at(m, t, w[w.len() - 1])) <= owed(status_at(m, s, w[w.len() - 1])));
        if exists|k: int| 0 <= k < w.len() && owed(status_at(m, t, #[trigger] w[k])) < owed(status_at(m, s, w[k])) {
            let k = choose|k: int| 0 <= k < w.len() && owed(status_at(m, t, #[trigger] w[k])) < owed(status_at(m, s, w[k]));
            if k < w.len() - 1 {
                assert(d[k] == w[k]);
            }
        }
    }
}

/// A round never raises what its run owes, and lowers it when it starts a
/// task or fails one.
pub proof fn lemma_round_measure(m: TaskMap, s0: Seq<TaskState>, s1: Seq<TaskState>, w: Seq<Seq<char>>, started: Seq<Seq<char>>)
    requires
        m.well_formed(),
        s0.len() == m.key_seq().len(),
        w.no_duplicates(),
        forall|k: int| 0 <= k < w.len() ==> m.key_seq().contains(#[trigger] w[k]),
        started == ready_names(m, statuses(s0), w),
        round_effect(m, s0, s1, w, started),
    ensures
        run_measure(m, statuses(s1), w) <= run_measure(m, statuses(s0), w),
        (started.len() > 0 || exists|k: int|
            0 <= k < w.len() && #[trigger] status_at(m, scan_statuses(m, statuses(s0), w, w.len()), w[k])
                != status_at(m, statuses(s0), w[k])) ==> run_measure(m, statuses(s1), w) < run_measure(
            m,
            statuses(s0),
            w,
        ),
{
    let st0 = statuses(s0);
    let st1 = statuses(s1);
    let fs = scan_statuses(m, st0, w, w.len());
    lemma_scan_only_fails(m, st0, w, w.len());
    lemma_filter_facts(w, |a: Seq<char>| ready_to_start(m, st0, a));
    assert forall|k: int| 0 <= k < w.len() implies owed(status_at(m, st1, #[trigger] w[k])) <= owed(status_at(m, st0, w[k]))
        && (started.contains(w[k]) || status_at(m, fs, w[k]) != status_at(m, st0, w[k]) ==> owed(
        status_at(m, st1, w[k]),
    ) < owed(status_at(m, st0, w[k]))) by {
        let a = w[k];
        lemma_status_at(m, st0, a);
        lemma_status_at(m, st1, a);
        lemma_status_at(m, fs, a);
        let i = m.key_index(a);
        if started.contains(a) {
            let q = choose|q: int| 0 <= q < started.len() && started[q] == a;
            assert(ready_to_start(m, st0, started[q]));
            assert(s1[i].status == TaskStatus::Running);
        } else if fs[i] != st0[i] {
            assert(s1[i].status == TaskStatus::Failed);
        } else {
            assert(s1[i] == s0[i]);
        }
    }
    lemma_measure_pointwise(m, st0, st1, w);
    if started.len() > 0 {
        assert(w.contains(started[0]));
        let k = choose|k: int| 0 <= k < w.len() && w[k] == started[0];
        assert(started.contains(w[k]));
        assert(owed(status_at(m, st1, w[k])) < owed(status_at(m, st0, w[k])));
    }
}

/// A task of the run that finishes lowers what the run owes.
pub proof fn lemma_finish_measure(m: TaskMap, st0: Seq<TaskStatus>, st1: Seq<TaskStatus>, w: Seq<Seq<char>>, a: Seq<char>)
    requires
        m.well_formed(),
        st0.len() == m.key_seq().len(),
        w.contains(a),
        m.key_seq().contains(a),
        status_at(m, st0, a) == Some(TaskStatus::Running),
        st1 == st0.update(m.key_index(a), TaskStatus::Success) || st1 == st0.update(m.key_index(a), TaskStatus::Failed),
    ensures
        run_measure(m, st1, w) < run_measure(m, st0, w),
{
    lemma_status_at(m, st0, a);
    assert forall|k: int| 0 <= k < w.len() implies owed(status_at(m, st1, #[trigger] w[k])) <= owed(status_at(m, st0, w[k]))
        by {
        if m.key_seq().contains(w[k]) {
            lemma_status_at(m, st0, w[k]);
            lemma_status_at(m, st1, w[k]);
        }
    }
    let k = choose|k: int| 0 <= k < w.len() && w[k] == a;
    lemma_status_at(m, st1, a);
    assert(owed(status_at(m, st1, w[k])) < owed(status_at(m, st0, w[k])));
    lemma_measure_pointwise(m, st0, st1, w);
}

/// A run ends, given commands that end: rounds never raise what the run
/// owes (a natural number), each task that finishes lowers it, and a round
/// taken while nothing of the run is running, something waits and nothing
/// is idle lowers it too; so the scheduler waits only while a task runs.
pub proof fn lemma_stalled_round_lowers(
    m: TaskMap,
    order: Seq<Seq<char>>,
    s0: Seq<TaskState>,
    s1: Seq<TaskState>,
    w: Seq<Seq<char>>,
    started: Seq<Seq<char>>,
)
    requires
        m.well_formed(),
        s0.len() == m.key_seq().len(),
        is_topological_order(order, m.key_seq(), m.dep_graph()),
        w.no_duplicates(),
        forall|k: int| 0 <= k < w.len() ==> m.key_seq().contains(#[trigger] w[k]),
        forall|a: Seq<char>, j: int|
            #![trigger w.contains(a), m.dep_graph()(a)[j]]
            w.contains(a) && 0 <= j < m.dep_graph()(a).len() ==> w.contains(m.dep_graph()(a)[j]),
        forall|k: int|
            0 <= k < w.len() ==> #[trigger] status_at(m, statuses(s0), w[k]) != Some(TaskStatus::Running)
                && status_at(m, statuses(s0), w[k]) != Some(TaskStatus::Idle),
        exists|k: int| 0 <= k < w.len() && #[trigger] status_at(m, statuses(s0), w[k]) == Some(TaskStatus::Pending),
        started == ready_names(m, statuses(s0), w),
        round_effect(m, s0, s1, w, started),
    ensures
        run_measure(m, statuses(s1), w) < run_measure(m, statuses(s0), w),
{
    lemma_round_makes_progress(m, order, statuses(s0), w);
    lemma_round_measure(m, s0, s1, w, started);
}

/// The scan only turns waiting tasks into failed ones.
pub proof fn lemma_scan_only_fails(m: TaskMap, st: Seq<TaskStatus>, w: Seq<Seq<char>>, k: nat)
    requires
        m.well_formed(),
        st.len() == m.key_seq().len(),
    ensures
        only_failures_added(st, scan_statuses(m, st, w, k)),
    decreases k,
{
    if k > 0 && k <= w.len() {
        lemma_scan_only_fails(m, st, w, (k - 1) as nat);
        let s = scan_statuses(m, st, w, (k - 1) as nat);
        let a = w[k - 1];
        if status_at(m, s, a) == Some(TaskStatus::Pending) && !deps_all_succeeded(m, s, a)
            && some_dep_failed(m, s, a) {
            lemma_status_at(m, s, a);
            let t = scan_statuses(m, st, w, k);
            assert forall|i: int| 0 <= i < st.len() implies #[trigger] t[i] == st[i] || (st[i]
                == TaskStatus::Pending && t[i] == TaskStatus::Failed) by {
                assert(s[i] == st[i] || (st[i] == TaskStatus::Pending && s[i] == TaskStatus::Failed));
            }
        }
    }
}

/// A task the scan turns failed was waiting, and has a dependency that has
/// failed once the scan is over: a failure spreads to what depends on it.
pub proof fn lemma_scan_failures_have_a_cause(
    m: TaskMap,
    st: Seq<TaskStatus>,
    w: Seq<Seq<char>>,
    k: nat,
    i: int,
)
    requires
        m.well_formed(),
        st.len() == m.key_seq().len(),
        0 <= i < st.len(),
        scan_statuses(m, st, w, k)[i] != st[i],
    ensures
        st[i] == TaskStatus::Pending,
        scan_statuses(m, st, w, k)[i] == TaskStatus::Failed,
        some_dep_failed(m, scan_statuses(m, st, w, k), m.key_seq()[i]),
    decreases k,
{
    m.lemma_shape();
    lemma_scan_only_fails(m, st, w, k);
    if k > 0 && k <= w.len() {
        let s = scan_statuses(m, st, w, (k - 1) as nat);
        let t = scan_statuses(m, st, w, k);
        lemma_scan_only_fails(m, st, w, (k - 1) as nat);
        let a = w[k - 1];
        if status_at(m, s, a) == Some(TaskStatus::Pending) && !deps_all_succeeded(m, s, a)
            && some_dep_failed(m, s, a) {
            lemma_status_at(m, s, a);
            assert(only_failures_added(s, t)) by {
                assert forall|q: int| 0 <= q < s.len() implies #[trigger] t[q] == s[q] || (s[q]
                    == TaskStatus::Pending && t[q] == TaskStatus::Failed) by {}
            }
            if i == m.key_index(a) {
                assert(m.key_seq()[i] == a);
                lemma_success_kept(m, s, t, a);
            } else {
                assert(t[i] == s[i]);
                lemma_scan_failures_have_a_cause(m, st, w, (k - 1) as nat, i);
                lemma_success_kept(m, s, t, m.key_seq()[i]);
            }
        } else {
            lemma_scan_failures_have_a_cause(m, st, w, (k - 1) as nat, i);
        }
    }
}

} // verus!

verus! {

impl TaskRunner {
    pub proof fn lemma_status_of(&self, a: Seq<char>)
        requires
            self.wf(),
        ensures
            status_at(self.task_map(), statuses(self.state_seq()), a) == match self.state_of(a) {
                Some(st) => Some(st.status),
                None => None,
            },
    {
        self.task_map().lemma_shape();
        if self.task_map().key_seq().contains(a) {
            lemma_status_at(self.task_map(), statuses(self.state_seq()), a);
        }
    }

    /// Whether every dependency in `deps` is a task that has succeeded.
    fn deps_succeeded(&self, deps: &Vec<String>, Ghost(a): Ghost<Seq<char>>) -> (r: bool)
        requires
            self.wf(),
            names(deps@) == self.task_map().dep_graph()(a),
        ensures
            r == deps_all_succeeded(self.task_map(), statuses(self.state_seq()), a),
    {
        let ghost m = self.task_map();
        let ghost st = statuses(self.state_seq());
        let mut j: usize = 0;
        while j < deps.len()
            invariant
                self.wf(),
                m == self.task_map(),
                st == statuses(self.state_seq()),
                names(deps@) == m.dep_graph()(a),
                j <= deps@.len(),
                forall|q: int| 0 <= q < j ==> #[trigger] status_at(m, st, m.dep_graph()(a)[q]) == Some(
                    TaskStatus::Success,
                ),
            decreases deps@.len() - j,
        {
            let s = self.status(deps[j].as_str());
            proof {
                self.lemma_status_of(deps@[j as int]@);
                assert(m.dep_graph()(a)[j as int] == deps@[j as int]@);
            }
            match s {
                Some(TaskStatus::Success) => {},
                _ => {
                    return false;
                },
            }
            j += 1;
        }
        true
    }

    /// Whether some dependency in `deps` is a task that has failed.
    fn dep_failed(&self, deps: &Vec<String>, Ghost(a): Ghost<Seq<char>>) -> (r: bool)
        requires
            self.wf(),
            names(deps@) == self.task_map().dep_graph()(a),
        ensures
            r == some_dep_failed(self.task_map(), statuses(self.state_seq()), a),
    {
        let ghost m = self.task_map();
        let ghost st = statuses(self.state_seq());
        let mut j: usize = 0;
        while j < deps.len()
            invariant
                self.wf(),
                m == self.task_map(),
                st == statuses(self.state_seq()),
                names(deps@) == m.dep_graph()(a),
                j <= deps@.len(),
                forall|q: int| 0 <= q < j ==> #[trigger] status_at(m, st, m.dep_graph()(a)[q]) != Some(
                    TaskStatus::Failed,
                ),
            decreases deps@.len() - j,
        {
            let s = self.status(deps[j].as_str());
            proof {
                self.lemma_status_of(deps@[j as int]@);
                assert(m.dep_graph()(a)[j as int] == deps@[j as int]@);
            }
            match s {
                Some(TaskStatus::Failed) => {
                    return true;
                },
                _ => {},
            }
            j += 1;
        }
        false
    }
}

} // verus!

verus! {

/// What a round does to the task states: the tasks it starts run and their
/// output restarts with a line that says so; the waiting tasks the scan fails
/// get a line that says why; every other state stays as it was.
pub open spec fn round_effect(
    m: TaskMap,
    s0: Seq<TaskState>,
    s1: Seq<TaskState>,
    w: Seq<Seq<char>>,
    started: Seq<Seq<char>>,
) -> bool {
    let st0 = statuses(s0);
    let fs = scan_statuses(m, st0, w, w.len());
    &&& s1.len() == s0.len()
    &&& forall|i: int|
        0 <= i < s0.len() ==> if started.contains(m.key_seq()[i]) {
            &&& (#[trigger] s1[i]).status == TaskStatus::Running
            &&& s1[i].stopped_as_success == s0[i].stopped_as_success
            &&& s1[i].output.line_views() == seq![starting_line(m.key_seq()[i])]
            &&& s1[i].output.version == crate::runner::log_buffer::next_version(
                crate::runner::log_buffer::next_version(s0[i].output.version),
            )
        } else if fs[i] != st0[i] {
            &&& s1[i].status == TaskStatus::Failed
            &&& s1[i].stopped_as_success == s0[i].stopped_as_success
            &&& s1[i].output.line_views() == s0[i].output.line_views().push(dependency_failed_line())
            &&& s1[i].output.version == crate::runner::log_buffer::next_version(s0[i].output.version)
        } else {
            s1[i] == s0[i]
        }
}

proof fn lemma_filter_facts(w: Seq<Seq<char>>, pred: spec_fn(Seq<char>) -> bool)
    requires
        w.no_duplicates(),
    ensures
        w.filter(pred).no_duplicates(),
        forall|q: int| 0 <= q < w.filter(pred).len() ==> #[trigger] w.contains(w.filter(pred)[q]),
        forall|q: int| 0 <= q < w.filter(pred).len() ==> pred(#[trigger] w.filter(pred)[q]),
    decreases w.len(),
{
    reveal_with_fuel(Seq::filter, 1);
    if w.len() > 0 {
        let d = w.drop_last();
        assert(d.no_duplicates()) by {
            assert forall|i: int, j: int| 0 <= i < d.len() && 0 <= j < d.len() && i != j implies d[i] != d[j] by {
                assert(d[i] == w[i] && d[j] == w[j]);
            }
        }
        lemma_filter_facts(d, pred);
        let f = w.filter(pred);
        let fd = d.filter(pred);
        assert forall|q: int| 0 <= q < fd.len() implies #[trigger] w.contains(fd[q]) by {
            assert(d.contains(fd[q]));
            let p = choose|p: int| 0 <= p < d.len() && d[p] == fd[q];
            assert(w[p] == fd[q]);
        }
        if pred(w.last()) {
            assert(f == fd.push(w.last()));
            assert(!fd.contains(w.last())) by {
                if fd.contains(w.last()) {
                    let q = choose|q: int| 0 <= q < fd.len() && fd[q] == w.last();
                    assert(d.contains(fd[q]));
                    let p = choose|p: int| 0 <= p < d.len() && d[p] == fd[q];
                    assert(w[p] == w[w.len() - 1]);
                }
            }
            assert forall|i: int, j: int| 0 <= i < f.len() && 0 <= j < f.len() && i != j implies f[i] != f[j] by {
                if i == fd.len() {
                    assert(fd[j] == f[j]);
                } else if j == fd.len() {
                    assert(fd[i] == f[i]);
                } else {
                    assert(fd[i] == f[i] && fd[j] == f[j]);
                }
            }
            assert forall|q: int| 0 <= q < f.len() implies #[trigger] w.contains(f[q]) by {
                if q < fd.len() {
                    assert(f[q] == fd[q]);
                } else {
                    assert(w[w.len() - 1] == f[q]);
                }
            }
            assert forall|q: int| 0 <= q < f.len() implies pred(#[trigger] f[q]) by {
                if q < fd.len() {
                    assert(f[q] == fd[q]);
                }
            }
        } else {
            assert(f == fd);
        }
    }
}

/// A task ready to start is never failed by the scan.
proof fn lemma_ready_untouched(m: TaskMap, st: Seq<TaskStatus>, w: Seq<Seq<char>>, k: nat, a: Seq<char>)
    requires
        m.well_formed(),
        st.len() == m.key_seq().len(),
        ready_to_start(m, st, a),
    ensures
        scan_statuses(m, st, w, k)[m.key_index(a)] == st[m.key_index(a)],
    decreases k,
{
    m.lemma_shape();
    lemma_status_at(m, st, a);
    if k > 0 && k <= w.len() {
        lemma_ready_untouched(m, st, w, (k - 1) as nat, a);
        let s = scan_statuses(m, st, w, (k - 1) as nat);
        lemma_scan_only_fails(m, st, w, (k - 1) as nat);
        let b = w[k - 1];
        if status_at(m, s, b) == Some(TaskStatus::Pending) && !deps_all_succeeded(m, s, b)
            && some_dep_failed(m, s, b) {
            lemma_status_at(m, s, b);
            if m.key_index(b) == m.key_index(a) {
                assert(b == a);
                lemma_success_kept(m, st, s, a);
            }
        }
    }
}

} // verus!

verus! {

impl TaskRunner {
    /// One round of the scheduler over the tasks of `subgraph`, in order:
    /// each waiting task whose dependencies have all succeeded is started,
    /// and each other waiting task with a failed dependency is failed. The
    /// round is the last when nothing in `subgraph` was running or waiting.
    pub fn schedule_round(&mut self, subgraph: &Vec<String>) -> (plan: RoundPlan)
        requires
            old(self).wf(),
            names(subgraph@).no_duplicates(),
            forall|k: int|
                0 <= k < subgraph@.len() ==> old(self).task_map().key_seq().contains(
                    #[trigger] names(subgraph@)[k],
                ),
        ensures
            final(self).wf(),
            final(self).task_map() == old(self).task_map(),
            final(self).order_seq() == old(self).order_seq(),
            final(self).tui() == old(self).tui(),
            names(plan.started@) == ready_names(
                old(self).task_map(),
                statuses(old(self).state_seq()),
                names(subgraph@),
            ),
            plan.finished == forall|q: int|
                0 <= q < subgraph@.len() ==> {
                    &&& #[trigger] status_at(
                        old(self).task_map(),
                        statuses(old(self).state_seq()),
                        names(subgraph@)[q],
                    ) != Some(TaskStatus::Running)
                    &&& status_at(
                        old(self).task_map(),
                        statuses(old(self).state_seq()),
                        names(subgraph@)[q],
                    ) != Some(TaskStatus::Pending)
                },
            round_effect(
                old(self).task_map(),
                old(self).state_seq(),
                final(self).state_seq(),
                names(subgraph@),
                names(plan.started@),
            ),
    {
        let ghost m = self.task_map();
        let ghost s0 = self.state_seq();
        let ghost st0 = statuses(s0);
        let ghost w = names(subgraph@);
        let ghost keys = m.key_seq();
        proof {
            m.lemma_shape();
        }
        let mut has_running = false;
        let mut has_pending = false;
        let mut to_start: Vec<String> = Vec::new();
        let mut k: usize = 0;
        proof {
            reveal_with_fuel(Seq::filter, 1);
            assert(w.take(0) =~= Seq::<Seq<char>>::empty());
            assert(names(to_start@) =~= Seq::<Seq<char>>::empty());
        }
        while k < subgraph.len()
            invariant
                self.wf(),
                m == self.task_map(),
                m == old(self).task_map(),
                self.order_seq() == old(self).order_seq(),
                self.tui() == old(self).tui(),
                s0 == old(self).state_seq(),
                st0 == statuses(s0),
                w == names(subgraph@),
                w.no_duplicates(),
                keys == m.key_seq(),
                keys.no_duplicates(),
                keys.len() == s0.len(),
                forall|q: int| 0 <= q < w.len() ==> keys.contains(#[trigger] w[q]),
                k <= w.len(),
                self.state_seq().len() == s0.len(),
                statuses(self.state_seq()) == scan_statuses(m, st0, w, k as nat),
                names(to_start@) == ready_names(m, st0, w.take(k as int)),
                has_running == exists|q: int| 0 <= q < k && #[trigger] status_at(m, st0, w[q]) == Some(TaskStatus::Running),
                has_pending == exists|q: int| 0 <= q < k && #[trigger] status_at(m, st0, w[q]) == Some(TaskStatus::Pending),
                forall|i: int| 0 <= i < s0.len() ==> if scan_statuses(m, st0, w, k as nat)[i] != st0[i] {
                    &&& (#[trigger] self.state_seq()[i]).status == TaskStatus::Failed
                    &&& self.state_seq()[i].stopped_as_success == s0[i].stopped_as_success
                    &&& self.state_seq()[i].output.line_views() == s0[i].output.line_views().push(dependency_failed_line())
                    &&& self.state_seq()[i].output.version == crate::runner::log_buffer::next_version(s0[i].output.version)
                } else {
                    self.state_seq()[i] == s0[i]
                },
                forall|q: int| k <= q < w.len() ==> #[trigger] scan_statuses(m, st0, w, k as nat)[m.key_index(w[q])] == st0[m.key_index(w[q])],
            decreases w.len() - k,
        {
            let name = &subgraph[k];
            let ghost a = w[k as int];
            let ghost sk = scan_statuses(m, st0, w, k as nat);
            let ghost cur = self.state_seq();
            proof {
                assert(name@ == a);
                assert(keys.contains(a));
                lemma_scan_only_fails(m, st0, w, k as nat);
                lemma_success_kept(m, st0, sk, a);
                lemma_status_at(m, sk, a);
                lemma_status_at(m, st0, a);
                reveal_with_fuel(Seq::filter, 1);
                assert(w.take(k + 1).drop_last() =~= w.take(k as int));
                assert(w.take(k + 1).last() == a);
            }
            let i = match self.tasks.index_of(name.as_str()) {
                Some(i) => i,
                None => {
                    proof {
                        assert(false);
                    }
                    0
                },
            };
            proof {
                assert(sk[i as int] == cur[i as int].status);
                assert(sk[i as int] == st0[i as int]);
                assert forall|q: int| k + 1 <= q < w.len() implies m.key_index(w[q]) != i by {
                    lemma_status_at(m, st0, w[q]);
                    assert(w[q] != w[k as int]);
                }
            }
            let status = self.states[i].status;
            match status {
                TaskStatus::Running => {
                    has_running = true;
                    proof {
                        assert(status_at(m, st0, w[k as int]) == Some(TaskStatus::Running));
                        assert(scan_statuses(m, st0, w, (k + 1) as nat) == sk);
                    }
                },
                TaskStatus::Pending => {
                    has_pending = true;
                    let deps = self.tasks.deps_of(name.as_str());
                    let all_ok = self.deps_succeeded(&deps, Ghost(a));
                    let any_failed = self.dep_failed(&deps, Ghost(a));
                    proof {
                        assert(status_at(m, st0, w[k as int]) == Some(TaskStatus::Pending));
                    }
                    if all_ok {
                        let ghost ts = to_start@;
                        to_start.push(name.clone());
                        proof {
                            crate::utils::lemma_names_push(ts, to_start@.last());
                            assert(scan_statuses(m, st0, w, (k + 1) as nat) == sk);
                        }
                    } else if any_failed {
                        let mut st = self.take_state(i);
                        st.status = TaskStatus::Failed;
                        let ghost lines0 = st.output.lines@;
                        st.output.push(String::from_str("Dependency task failed. Skipping execution."));
                        proof {
                            assert(st.output.line_views() =~= lines0.map_values(|l: String| l@).push(
                                dependency_failed_line(),
                            ));
                        }
                        self.put_state(i, st);
                        proof {
                            let sk1 = scan_statuses(m, st0, w, (k + 1) as nat);
                            assert(sk1 == sk.update(i as int, TaskStatus::Failed));
                            assert(statuses(self.state_seq()) =~= sk1);
                        }
                    } else {
                        proof {
                            assert(scan_statuses(m, st0, w, (k + 1) as nat) == sk);
                        }
                    }
                },
                _ => {
                    proof {
                        assert(scan_statuses(m, st0, w, (k + 1) as nat) == sk);
                    }
                },
            }
            proof {
                let sk1 = scan_statuses(m, st0, w, (k + 1) as nat);
                assert forall|q: int| k + 1 <= q < w.len() implies #[trigger] sk1[m.key_index(w[q])] == st0[m.key_index(w[q])] by {
                    assert(m.key_index(w[q]) != i);
                    assert(sk[m.key_index(w[q])] == st0[m.key_index(w[q])]);
                }
                assert(has_running == exists|q: int| 0 <= q < k + 1 && #[trigger] status_at(m, st0, w[q]) == Some(TaskStatus::Running)) by {
                    if status_at(m, st0, w[k as int]) == Some(TaskStatus::Running) {
                        assert(status_at(m, st0, w[k as int]) == Some(TaskStatus::Running));
                    }
                }
                assert(has_pending == exists|q: int| 0 <= q < k + 1 && #[trigger] status_at(m, st0, w[q]) == Some(TaskStatus::Pending)) by {
                    if status_at(m, st0, w[k as int]) == Some(TaskStatus::Pending) {
                        assert(status_at(m, st0, w[k as int]) == Some(TaskStatus::Pending));
                    }
                }
            }
            k += 1;
        }
        let ghost mid = self.state_seq();
        let ghost fs = scan_statuses(m, st0, w, w.len());
        let ghost r = ready_names(m, st0, w);
        proof {
            assert(w.take(w.len() as int) =~= w);
            lemma_filter_facts(w, |a: Seq<char>| ready_to_start(m, st0, a));
        }
        let mut q: usize = 0;
        while q < to_start.len()
            invariant
                self.wf(),
                m == self.task_map(),
                m == old(self).task_map(),
                self.order_seq() == old(self).order_seq(),
                self.tui() == old(self).tui(),
                s0 == old(self).state_seq(),
                st0 == statuses(s0),
                keys == m.key_seq(),
                keys.no_duplicates(),
                keys.len() == s0.len(),
                names(to_start@) == r,
                r == ready_names(m, st0, w),
                r.no_duplicates(),
                forall|p: int| 0 <= p < r.len() ==> ready_to_start(m, st0, #[trigger] r[p]),
                fs == scan_statuses(m, st0, w, w.len()),
                mid.len() == s0.len(),
                self.state_seq().len() == s0.len(),
                q <= r.len(),
                has_running == ((exists|p: int| 0 <= p < w.len() && #[trigger] status_at(m, st0, w[p]) == Some(TaskStatus::Running)) || q > 0),
                forall|i: int| 0 <= i < s0.len() ==> if fs[i] != st0[i] {
                    &&& (#[trigger] mid[i]).status == TaskStatus::Failed
                    &&& mid[i].stopped_as_success == s0[i].stopped_as_success
                    &&& mid[i].output.line_views() == s0[i].output.line_views().push(dependency_failed_line())
                    &&& mid[i].output.version == crate::runner::log_buffer::next_version(s0[i].output.version)
                } else {
                    mid[i] == s0[i]
                },
                forall|i: int| 0 <= i < s0.len() ==> if r.take(q as int).contains(keys[i]) {
                    &&& (#[trigger] self.state_seq()[i]).status == TaskStatus::Running
                    &&& self.state_seq()[i].stopped_as_success == s0[i].stopped_as_success
                    &&& self.state_seq()[i].output.line_views() == seq![starting_line(keys[i])]
                    &&& self.state_seq()[i].output.version == crate::runner::log_buffer::next_version(
                        crate::runner::log_buffer::next_version(s0[i].output.version),
                    )
                } else {
                    self.state_seq()[i] == mid[i]
                },
            decreases r.len() - q,
        {
            let name = &to_start[q];
            let ghost a = r[q as int];
            proof {
                assert(name@ == a);
                assert(ready_to_start(m, st0, a));
                lemma_status_at(m, st0, a);
                lemma_ready_untouched(m, st0, w, w.len(), a);
            }
            let i = match self.tasks.index_of(name.as_str()) {
                Some(i) => i,
                None => {
                    proof {
                        assert(false);
                    }
                    0
                },
            };
            let ghost before = self.state_seq();
            proof {
                let t0 = r.take(q as int);
                assert(!t0.contains(a)) by {
                    if t0.contains(a) {
                        let p = choose|p: int| 0 <= p < t0.len() && t0[p] == a;
                        assert(r[p] == r[q as int]);
                    }
                }
                assert(keys[i as int] == a);
                assert(before[i as int] == mid[i as int]);
                assert(fs[i as int] == st0[i as int]);
                assert(mid[i as int] == s0[i as int]);
            }
            let mut st = self.take_state(i);
            st.status = TaskStatus::Running;
            st.output.clear();
            st.output.push(frame("=== Starting task: ", name.as_str(), " ==="));
            proof {
                assert(st.output.line_views() =~= seq![starting_line(a)]);
            }
            self.put_state(i, st);
            has_running = true;
            proof {
                let t1 = r.take(q + 1);
                let t0 = r.take(q as int);
                assert forall|j: int| 0 <= j < s0.len() implies if t1.contains(keys[j]) {
                    &&& (#[trigger] self.state_seq()[j]).status == TaskStatus::Running
                    &&& self.state_seq()[j].stopped_as_success == s0[j].stopped_as_success
                    &&& self.state_seq()[j].output.line_views() == seq![starting_line(keys[j])]
                    &&& self.state_seq()[j].output.version == crate::runner::log_buffer::next_version(
                        crate::runner::log_buffer::next_version(s0[j].output.version),
                    )
                } else {
                    self.state_seq()[j] == mid[j]
                } by {
                    if j != i {
                        assert(keys[j] != a);
                        if t1.contains(keys[j]) {
                            let p = choose|p: int| 0 <= p < t1.len() && t1[p] == keys[j];
                            assert(t0[p] == keys[j]);
                        } else {
                            assert(!t0.contains(keys[j])) by {
                                if t0.contains(keys[j]) {
                                    let p = choose|p: int| 0 <= p < t0.len() && t0[p] == keys[j];
                                    assert(t1[p] == keys[j]);
                                }
                            }
                        }
                    } else {
                        assert(t1[q as int] == keys[j]);
                    }
                }
            }
            q += 1;
        }
        proof {
            let fin = self.state_seq();
            assert(r.take(r.len() as int) =~= r);
            if r.len() > 0 {
                assert(w.contains(r[0]));
                let p = choose|p: int| 0 <= p < w.len() && w[p] == r[0];
                lemma_status_at(m, st0, r[0]);
                assert(status_at(m, st0, w[p]) == Some(TaskStatus::Pending));
            }
            assert forall|i: int| 0 <= i < s0.len() implies if r.contains(keys[i]) {
                &&& (#[trigger] fin[i]).status == TaskStatus::Running
                &&& fin[i].stopped_as_success == s0[i].stopped_as_success
                &&& fin[i].output.line_views() == seq![starting_line(keys[i])]
                &&& fin[i].output.version == crate::runner::log_buffer::next_version(
                    crate::runner::log_buffer::next_version(s0[i].output.version),
                )
            } else if fs[i] != st0[i] {
                &&& fin[i].status == TaskStatus::Failed
                &&& fin[i].stopped_as_success == s0[i].stopped_as_success
                &&& fin[i].output.line_views() == s0[i].output.line_views().push(dependency_failed_line())
                &&& fin[i].output.version == crate::runner::log_buffer::next_version(s0[i].output.version)
            } else {
                fin[i] == s0[i]
            } by {
                if !r.contains(keys[i]) {
                    assert(fin[i] == mid[i]);
                }
            }
        }
        RoundPlan { started: to_start, finished: !has_running && !has_pending }
    }
}

} // verus!

verus! {

proof fn lemma_walk_stays_in(sub: Seq<Seq<char>>, targets: Seq<Seq<char>>, g: DepGraph, w: Seq<Seq<char>>, a: Seq<char>, k: int)
    requires
        is_dependency_closure(sub, targets, g),
        is_walk_to(w, targets, a, g),
        0 <= k < w.len(),
    ensures
        sub.contains(w[k]),
    decreases k,
{
    if k == 0 {
        let i = choose|i: int| 0 <= i < targets.len() && targets[i] == w[0];
        assert(sub.contains(targets[i]));
    } else {
        lemma_walk_stays_in(sub, targets, g, w, a, k - 1);
        let p = k - 1;
        let ds = g(w[p]);
        let nxt = w[p + 1];
        assert(ds.contains(nxt));
        let j = choose|j: int| 0 <= j < ds.len() && ds[j] == nxt;
        assert(sub.contains(g(w[p])[j]));
    }
}

/// Every node reachable from `targets` is in a closed set that holds them.
pub proof fn lemma_closure_holds_reachable(sub: Seq<Seq<char>>, targets: Seq<Seq<char>>, g: DepGraph, a: Seq<char>)
    requires
        is_dependency_closure(sub, targets, g),
        reaches(targets, a, g),
    ensures
        sub.contains(a),
{
    let w = choose|w: Seq<Seq<char>>| #[trigger] is_walk_to(w, targets, a, g);
    lemma_walk_stays_in(sub, targets, g, w, a, w.len() - 1);
}

/// The subgraph of a set of targets is determined: any two lists that meet
/// `is_dependency_closure` for the same targets hold the same names.
pub proof fn lemma_closure_unique(s1: Seq<Seq<char>>, s2: Seq<Seq<char>>, targets: Seq<Seq<char>>, g: DepGraph)
    requires
        is_dependency_closure(s1, targets, g),
        is_dependency_closure(s2, targets, g),
    ensures
        s1.to_set() == s2.to_set(),
{
    assert forall|a: Seq<char>| s1.to_set().contains(a) implies s2.to_set().contains(a) by {
        assert(s1.contains(a));
        lemma_closure_holds_reachable(s2, targets, g, a);
    }
    assert forall|a: Seq<char>| s2.to_set().contains(a) implies s1.to_set().contains(a) by {
        assert(s2.contains(a));
        lemma_closure_holds_reachable(s1, targets, g, a);
    }
    assert(s1.to_set() =~= s2.to_set());
}

} // verus!
