use std::collections::HashMap;
use tuirunner::utils::{topological_sort, TopologicalSortError};

fn deps_of(map: &HashMap<String, Vec<String>>, n: &String) -> Vec<String> {
    map.get(n).cloned().unwrap_or_default()
}

fn graph(edges: &[(&str, &[&str])]) -> HashMap<String, Vec<String>> {
    let mut deps = HashMap::new();
    for (n, ds) in edges {
        deps.insert(n.to_string(), ds.iter().map(|d| d.to_string()).collect());
    }
    deps
}

fn strings(v: &[&str]) -> Vec<String> {
    v.iter().map(|s| s.to_string()).collect()
}

#[test]
fn test_topological_sort_simple() {
    // A -> B -> C
    let deps = graph(&[("A", &[]), ("B", &["A"]), ("C", &["B"])]);

    let nodes = strings(&["C", "B", "A"]);
    let result = topological_sort(nodes, |n: &String| deps_of(&deps, n)).unwrap();
    assert_eq!(result, vec!["A", "B", "C"]);
}

#[test]
fn test_topological_sort_cycle() {
    // A -> B -> C -> A
    let deps = graph(&[("A", &["B"]), ("B", &["C"]), ("C", &["A"])]);

    let nodes = strings(&["A", "B", "C"]);
    let result = topological_sort(nodes, |n: &String| deps_of(&deps, n));
    assert!(result.is_err());
    match result.unwrap_err() {
        TopologicalSortError::DependencyCycle { cycle } => {
            assert_eq!(cycle.first(), cycle.last());
            assert_eq!(cycle.len(), 4);
        }
    }
}

#[test]
fn cycle_is_the_path_from_the_repeated_node() {
    // A -> B -> C -> B: the cycle is B, C, B, reached from A.
    let deps = graph(&[("A", &["B"]), ("B", &["C"]), ("C", &["B"])]);
    let result = topological_sort(strings(&["A"]), |n: &String| deps_of(&deps, n));
    let err = result.unwrap_err();
    let TopologicalSortError::DependencyCycle { cycle } = &err;
    assert_eq!(cycle, &vec!["B", "C", "B"]);
    assert_eq!(err.message(), "Dependency cycle detected: B -> C -> B");
}

#[test]
fn self_loop_is_a_cycle() {
    let deps = graph(&[("A", &["A"])]);
    let err = topological_sort(strings(&["A"]), |n: &String| deps_of(&deps, n)).unwrap_err();
    let TopologicalSortError::DependencyCycle { cycle } = err;
    assert_eq!(cycle, vec!["A", "A"]);
}

#[test]
fn order_includes_dependencies_not_listed_and_respects_them() {
    // D is only reached through C.
    let deps = graph(&[("A", &[]), ("C", &["D", "A"]), ("D", &[])]);
    let order = topological_sort(strings(&["C", "A"]), |n: &String| deps_of(&deps, n)).unwrap();
    assert_eq!(order, vec!["D", "A", "C"]);
    // Each node once, after its dependencies.
    for (i, n) in order.iter().enumerate() {
        for d in deps_of(&deps, n) {
            let j = order.iter().position(|x| *x == d).unwrap();
            assert!(j < i);
        }
    }
}

#[test]
fn empty_input_gives_empty_order() {
    let deps: HashMap<String, Vec<String>> = HashMap::new();
    let order = topological_sort(Vec::new(), |n: &String| deps_of(&deps, n)).unwrap();
    assert!(order.is_empty());
}

#[test]
fn without_dependencies_the_input_comes_back_once_each() {
    let deps: HashMap<String, Vec<String>> = HashMap::new();
    let order = topological_sort(strings(&["B", "A", "B"]), |n: &String| deps_of(&deps, n)).unwrap();
    assert_eq!(order, vec!["B", "A"]);
}
