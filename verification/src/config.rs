use vstd::prelude::*;

use crate::text::str_eq;
use crate::utils::{clone_strings, names, DepGraph};

verus! {

/// The command or commands a task runs, each under `sh -c`.
#[derive(Debug, Clone)]
pub enum RunCommand {
    Single(String),
    Multiple(Vec<String>),
}

/// One task of the configuration.
#[derive(Debug, Clone)]
pub struct Task {
    /// A short explanation, shown beside the logs.
    pub description: Option<String>,
    /// Commands run without echoing them.
    pub run: Option<RunCommand>,
    /// Commands run with each one echoed first.
    pub cmd: Option<RunCommand>,
    /// The directory the commands run in.
    pub working_dir: Option<String>,
    /// The tasks that must succeed before this one starts.
    pub depends_on: Option<Vec<String>>,
}

/// The names of the tasks `t` depends on, in the order listed.
pub open spec fn task_deps(t: Task) -> Seq<Seq<char>> {
    match t.depends_on {
        Some(v) => names(v@),
        None => Seq::empty(),
    }
}

/// The tasks by name. Each name occurs once; the order is that of first
/// insertion.
pub struct TaskMap {
    keys: Vec<String>,
    values: Vec<Task>,
}

impl TaskMap {
    /// The names, in order.
    pub closed spec fn key_seq(&self) -> Seq<Seq<char>> {
        names(self.keys@)
    }

    /// The tasks, in the order of their names.
    pub closed spec fn task_seq(&self) -> Seq<Task> {
        self.values@
    }

    #[verifier::type_invariant]
    pub closed spec fn well_formed(&self) -> bool {
        &&& self.keys@.len() == self.values@.len()
        &&& names(self.keys@).no_duplicates()
    }

    /// What the type invariant means for the model.
    pub proof fn lemma_shape(&self)
        requires
            self.well_formed(),
        ensures
            self.key_seq().len() == self.task_seq().len(),
            self.key_seq().no_duplicates(),
    {
    }

    /// The index of name `a`, where it is a name of the map.
    pub open spec fn key_index(&self, a: Seq<char>) -> int {
        self.key_seq().index_of(a)
    }

    /// The task named `a`, if any.
    pub open spec fn lookup(&self, a: Seq<char>) -> Option<Task> {
        if self.key_seq().contains(a) {
            Some(self.task_seq()[self.key_index(a)])
        } else {
            None
        }
    }

    /// The dependency graph: a task's dependencies, and none for a name that
    /// is not a task.
    pub open spec fn dep_graph(&self) -> DepGraph {
        |a: Seq<char>|
            match self.lookup(a) {
                Some(t) => task_deps(t),
                None => Seq::empty(),
            }
    }

    /// An empty map.
    pub fn new() -> (m: Self)
        ensures
            m.key_seq() == Seq::<Seq<char>>::empty(),
            m.task_seq() == Seq::<Task>::empty(),
    {
        let m = TaskMap { keys: Vec::new(), values: Vec::new() };
        assert(names(m.keys@) =~= Seq::<Seq<char>>::empty());
        m
    }

    /// The number of tasks.
    pub fn len(&self) -> (n: usize)
        ensures
            n == self.key_seq().len(),
            n == self.task_seq().len(),
    {
        proof {
            use_type_invariant(self);
        }
        self.keys.len()
    }

    /// The index of the task named `name`.
    pub fn index_of(&self, name: &str) -> (r: Option<usize>)
        ensures
            match r {
                Some(i) => i < self.key_seq().len() && self.key_seq()[i as int] == name@
                    && self.key_index(name@) == i,
                None => !self.key_seq().contains(name@),
            },
    {
        proof {
            use_type_invariant(self);
        }
        let mut i: usize = 0;
        while i < self.keys.len()
            invariant
                i <= self.keys@.len(),
                names(self.keys@).no_duplicates(),
                forall|j: int| 0 <= j < i ==> #[trigger] self.keys@[j]@ != name@,
            decreases self.keys@.len() - i,
        {
            if str_eq(self.keys[i].as_str(), name) {
                proof {
                    let k = self.key_seq();
                    assert(k[i as int] == name@);
                    assert(k.contains(name@));
                    let j = k.index_of(name@);
                    assert(k[j] == name@);
                    assert(j == i);
                }
                return Some(i);
            }
            i += 1;
        }
        proof {
            let k = self.key_seq();
            assert forall|j: int| 0 <= j < k.len() implies k[j] != name@ by {
                assert(k[j] == self.keys@[j]@);
            }
        }
        None
    }

    /// Whether a task is named `name`.
    pub fn contains_key(&self, name: &str) -> (r: bool)
        ensures
            r == self.key_seq().contains(name@),
    {
        self.index_of(name).is_some()
    }

    /// The task named `name`, if any.
    pub fn get(&self, name: &str) -> (r: Option<&Task>)
        ensures
            match r {
                Some(t) => self.lookup(name@) == Some(*t),
                None => self.lookup(name@) is None,
            },
    {
        proof {
            use_type_invariant(self);
        }
        match self.index_of(name) {
            Some(i) => Some(&self.values[i]),
            None => None,
        }
    }

    /// The name at index `i`.
    pub fn key_at(&self, i: usize) -> (r: &String)
        requires
            i < self.key_seq().len(),
        ensures
            r@ == self.key_seq()[i as int],
    {
        &self.keys[i]
    }

    /// The task at index `i`.
    pub fn task_at(&self, i: usize) -> (r: &Task)
        requires
            i < self.task_seq().len(),
        ensures
            *r == self.task_seq()[i as int],
    {
        &self.values[i]
    }

    /// The names, in order.
    pub fn keys(&self) -> (r: Vec<String>)
        ensures
            names(r@) == self.key_seq(),
    {
        clone_strings(&self.keys)
    }

    /// Sets the task named `name`, in place if the name is there, at the end
    /// if not; gives back the task it replaces.
    pub fn insert(&mut self, name: String, task: Task) -> (r: Option<Task>)
        ensures
            match r {
                Some(prev) => {
                    &&& old(self).key_seq().contains(name@)
                    &&& prev == old(self).task_seq()[old(self).key_index(name@)]
                    &&& final(self).key_seq() == old(self).key_seq()
                    &&& final(self).task_seq() == old(self).task_seq().update(
                        old(self).key_index(name@),
                        task,
                    )
                },
                None => {
                    &&& !old(self).key_seq().contains(name@)
                    &&& final(self).key_seq() == old(self).key_seq().push(name@)
                    &&& final(self).task_seq() == old(self).task_seq().push(task)
                },
            },
    {
        proof {
            use_type_invariant(&*self);
        }
        let found = self.index_of(name.as_str());
        let mut whole = TaskMap::new();
        std::mem::swap(self, &mut whole);
        proof {
            use_type_invariant(&whole);
        }
        let TaskMap { mut keys, mut values } = whole;
        match found {
            Some(i) => {
                let mut t = task;
                values.set_and_swap(i, &mut t);
                *self = TaskMap { keys, values };
                Some(t)
            },
            None => {
                let ghost k0 = keys@;
                keys.push(name);
                values.push(task);
                proof {
                    assert(names(keys@) =~= names(k0).push(name@));
                    let k = names(keys@);
                    assert forall|a: int, b: int|
                        0 <= a < k.len() && 0 <= b < k.len() && a != b implies k[a] != k[b] by {
                        if a == k.len() - 1 {
                            assert(names(k0)[b] == k[b]);
                        } else if b == k.len() - 1 {
                            assert(names(k0)[a] == k[a]);
                        }
                    }
                }
                *self = TaskMap { keys, values };
                None
            },
        }
    }

    /// The dependencies listed for the task named `name`, none if it has no
    /// list or there is no such task.
    pub fn deps_of(&self, name: &str) -> (r: Vec<String>)
        ensures
            names(r@) == self.dep_graph()(name@),
    {
        match self.get(name) {
            Some(task) => match &task.depends_on {
                Some(deps) => clone_strings(deps),
                None => {
                    let r: Vec<String> = Vec::new();
                    assert(names(r@) =~= Seq::<Seq<char>>::empty());
                    r
                },
            },
            None => {
                let r: Vec<String> = Vec::new();
                assert(names(r@) =~= Seq::<Seq<char>>::empty());
                r
            },
        }
    }
}

/// The `tasks` table of the configuration.
pub struct TasksConfig {
    pub tasks: TaskMap,
}

impl Default for TasksConfig {
    fn default() -> (c: Self)
        ensures
            c.tasks.key_seq() == Seq::<Seq<char>>::empty(),
    {
        TasksConfig { tasks: TaskMap::new() }
    }
}

/// The whole configuration file.
pub struct AppConfig {
    pub tui: bool,
    pub tasks: TasksConfig,
}

/// Why a configuration is refused.
#[derive(Debug, PartialEq, Eq)]
pub enum ConfigError {
    /// A task is named `run`, which the command line reserves.
    ReservedName { task: String },
    /// A task sets both `run` and `cmd`.
    ConflictingCommands { task: String },
    /// A task sets neither `run` nor `cmd`.
    MissingCommand { task: String },
    /// A task depends on a name that no task has.
    UnknownDependency { task: String, dependency: String },
}

/// The text that reports a refused configuration.
pub open spec fn config_error_message(e: ConfigError) -> Seq<char> {
    match e {
        ConfigError::ReservedName { task } => "Task name '"@ + task@ + "' is reserved"@,
        ConfigError::ConflictingCommands { task } => "Task '"@ + task@ + "' sets both 'run' and 'cmd'"@,
        ConfigError::MissingCommand { task } => "Task '"@ + task@ + "' sets neither 'run' nor 'cmd'"@,
        ConfigError::UnknownDependency { task, dependency } => "Task '"@ + task@
            + "' depends on non-existent task '"@ + dependency@ + "'"@,
    }
}

impl ConfigError {
    /// The error's text.
    pub fn message(&self) -> (r: String)
        ensures
            r@ == config_error_message(*self),
    {
        match self {
            ConfigError::ReservedName { task } => {
                let mut r = String::from_str("Task name '");
                r.append(task.as_str());
                r.append("' is reserved");
                r
            },
            ConfigError::ConflictingCommands { task } => {
                let mut r = String::from_str("Task '");
                r.append(task.as_str());
                r.append("' sets both 'run' and 'cmd'");
                r
            },
            ConfigError::MissingCommand { task } => {
                let mut r = String::from_str("Task '");
                r.append(task.as_str());
                r.append("' sets neither 'run' nor 'cmd'");
                r
            },
            ConfigError::UnknownDependency { task, dependency } => {
                let mut r = String::from_str("Task '");
                r.append(task.as_str());
                r.append("' depends on non-existent task '");
                r.append(dependency.as_str());
                r.append("'");
                r
            },
        }
    }
}

/// The name no task may have.
pub open spec fn reserved_name() -> Seq<char> {
    seq!['r', 'u', 'n']
}

/// `d[k]` is not a task of `m`, and every entry before it is.
pub open spec fn is_first_unknown(m: TaskMap, d: Seq<Seq<char>>, k: int) -> bool {
    &&& 0 <= k < d.len()
    &&& !m.key_seq().contains(d[k])
    &&& forall|j: int| 0 <= j < k ==> m.key_seq().contains(#[trigger] d[j])
}

/// Index of the first dependency of `t` that is not a task of `m`.
pub open spec fn first_unknown_dep(m: TaskMap, t: Task) -> Option<int> {
    let d = task_deps(t);
    if exists|k: int| #[trigger] is_first_unknown(m, d, k) {
        Some(choose|k: int| #[trigger] is_first_unknown(m, d, k))
    } else {
        None
    }
}

/// The task at index `i` of `m` breaks none of the rules.
pub open spec fn task_ok(m: TaskMap, i: int) -> bool {
    let t = m.task_seq()[i];
    &&& m.key_seq()[i] != reserved_name()
    &&& !(t.run is Some && t.cmd is Some)
    &&& (t.run is Some || t.cmd is Some)
    &&& forall|k: int| 0 <= k < task_deps(t).len() ==> m.key_seq().contains(#[trigger] task_deps(t)[k])
}

/// `e` names the first rule that the task at index `i` breaks: the reserved
/// name, then both commands or none, then its first unknown dependency.
pub open spec fn describes_problem(m: TaskMap, i: int, e: ConfigError) -> bool {
    let name = m.key_seq()[i];
    let t = m.task_seq()[i];
    match e {
        ConfigError::ReservedName { task } => task@ == name && name == reserved_name(),
        ConfigError::ConflictingCommands { task } => {
            &&& task@ == name
            &&& name != reserved_name()
            &&& t.run is Some && t.cmd is Some
        },
        ConfigError::MissingCommand { task } => {
            &&& task@ == name
            &&& name != reserved_name()
            &&& t.run is None && t.cmd is None
        },
        ConfigError::UnknownDependency { task, dependency } => {
            &&& task@ == name
            &&& name != reserved_name()
            &&& !(t.run is Some && t.cmd is Some)
            &&& (t.run is Some || t.cmd is Some)
            &&& first_unknown_dep(m, t) matches Some(k) && dependency@ == task_deps(t)[k]
        },
    }
}

/// Checks the rules of a task table: no task is named `run`, each sets
/// exactly one of `run` and `cmd`, and every dependency names a task. Reports the first
/// broken rule of the first task, in table order, that breaks one.
pub fn validate_tasks_config(tasks_config: &TasksConfig) -> (r: Result<(), ConfigError>)
    ensures
        match r {
            Ok(()) => forall|i: int| 0 <= i < tasks_config.tasks.key_seq().len() ==> task_ok(tasks_config.tasks, i),
            Err(e) => exists|i: int|
                0 <= i < tasks_config.tasks.key_seq().len() && (forall|j: int|
                    0 <= j < i ==> task_ok(tasks_config.tasks, j)) && !task_ok(tasks_config.tasks, i)
                    && #[trigger] describes_problem(tasks_config.tasks, i, e),
        },
{
    let m = &tasks_config.tasks;
    proof {
        use_type_invariant(m);
    }
    let n = m.len();
    let mut i: usize = 0;
    while i < n
        invariant
            *m == tasks_config.tasks,
            n == m.key_seq().len(),
            n == m.task_seq().len(),
            i <= n,
            forall|j: int| 0 <= j < i ==> task_ok(*m, j),
        decreases n - i,
    {
        let name = m.key_at(i);
        let task = m.task_at(i);
        if str_eq(name.as_str(), "run") {
            proof {
                reveal_strlit("run");
                assert("run"@ =~= reserved_name());
            }
            let e = ConfigError::ReservedName { task: name.clone() };
            assert(describes_problem(*m, i as int, e));
            return Err(e);
        }
        proof {
            reveal_strlit("run");
            assert("run"@ =~= reserved_name());
        }
        if task.run.is_some() && task.cmd.is_some() {
            let e = ConfigError::ConflictingCommands { task: name.clone() };
            assert(describes_problem(*m, i as int, e));
            return Err(e);
        }
        if task.run.is_none() && task.cmd.is_none() {
            let e = ConfigError::MissingCommand { task: name.clone() };
            assert(describes_problem(*m, i as int, e));
            return Err(e);
        }
        match &task.depends_on {
            Some(deps) => {
                let mut k: usize = 0;
                while k < deps.len()
                    invariant
                        *m == tasks_config.tasks,
                        n == m.key_seq().len(),
                        n == m.task_seq().len(),
                        i < n,
                        *task == m.task_seq()[i as int],
                        task.depends_on == Some(*deps),
                        k <= deps@.len(),
                        name@ == m.key_seq()[i as int],
                        m.key_seq()[i as int] != reserved_name(),
                        !(task.run is Some && task.cmd is Some),
                        task.run is Some || task.cmd is Some,
                        forall|j: int| 0 <= j < i ==> task_ok(*m, j),
                        forall|j: int| 0 <= j < k ==> m.key_seq().contains(#[trigger] task_deps(*task)[j]),
                    decreases deps@.len() - k,
                {
                    if !m.contains_key(deps[k].as_str()) {
                        let e = ConfigError::UnknownDependency {
                            task: name.clone(),
                            dependency: deps[k].clone(),
                        };
                        proof {
                            // The first unknown dependency is unique: it is the one at `k`.
                            let d = task_deps(*task);
                            assert(is_first_unknown(*m, d, k as int));
                            let c = first_unknown_dep(*m, *task)->0;
                            if c < k {
                                assert(m.key_seq().contains(d[c]));
                            }
                            if c > k {
                                assert(m.key_seq().contains(d[k as int]));
                            }
                            assert(describes_problem(*m, i as int, e));
                        }
                        return Err(e);
                    }
                    k += 1;
                }
            },
            None => {},
        }
        i += 1;
    }
    Ok(())
}

impl AppConfig {
    /// Checks the task table's rules (see `validate_tasks_config`).
    pub fn validate(&self) -> (r: Result<(), ConfigError>)
        ensures
            match r {
                Ok(()) => forall|i: int| 0 <= i < self.tasks.tasks.key_seq().len() ==> task_ok(self.tasks.tasks, i),
                Err(e) => exists|i: int|
                    0 <= i < self.tasks.tasks.key_seq().len() && (forall|j: int|
                        0 <= j < i ==> task_ok(self.tasks.tasks, j)) && !task_ok(self.tasks.tasks, i)
                        && #[trigger] describes_problem(self.tasks.tasks, i, e),
            },
    {
        validate_tasks_config(&self.tasks)
    }
}

} // verus!
