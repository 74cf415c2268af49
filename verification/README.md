# tuirunner

`tuir` runs a graph of shell tasks, in dependency order and concurrently
where the graph allows, either with a terminal interface or on the console.

The library under `src/` holds the logic, verified with Verus:

- `utils`: the topological sort, with cycle detection, and the graph model
  (`DepGraph`, walks, reachability) the other contracts are stated in.
- `config`: the task table (`TaskMap`, names unique, in insertion order) and
  the configuration rules (`validate_tasks_config`).
- `runner`: the execution order, the dependency closure of a set of targets,
  task states and logs, and the scheduler's round (`schedule_round`): which
  waiting tasks start, which fail because a dependency failed, and when a run
  is over. `runner::cmd` says what a task runs and how output lines read.
- `components`, `app`, `input`, `store`: the interface's state machine (keys,
  selection, scrolling, interactive input) and the layout of its panes.
- `non_tui`, `cli`: console runs and command-line decisions.

`app/` is the program around it: argument parsing, reading the
configuration file, processes and threads, and drawing the terminal.
