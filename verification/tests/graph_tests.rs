use value_resolver::graph::{DependencyGraph, ValuePath};

#[test]
fn test_topological_sort_simple() {
    let mut graph = DependencyGraph::new();
    // c depends on b, b depends on a
    // So resolution order should be: a, b, c
    graph.add_dependency(&ValuePath::new("c"), &ValuePath::new("b"));
    graph.add_dependency(&ValuePath::new("b"), &ValuePath::new("a"));

    let order = graph.topological_sort().unwrap();
    let paths: Vec<_> = order.iter().map(|p| p.as_str()).collect();

    // a should come before b, b before c
    let a_pos = paths.iter().position(|&x| x == "a").unwrap();
    let b_pos = paths.iter().position(|&x| x == "b").unwrap();
    let c_pos = paths.iter().position(|&x| x == "c").unwrap();

    assert!(a_pos < b_pos, "a should come before b");
    assert!(b_pos < c_pos, "b should come before c");
}

#[test]
fn test_topological_sort_independent_nodes() {
    let mut graph = DependencyGraph::new();
    graph.add_node(&ValuePath::new("a"));
    graph.add_node(&ValuePath::new("b"));
    graph.add_node(&ValuePath::new("c"));

    let order = graph.topological_sort().unwrap();
    assert_eq!(order.len(), 3);
}

#[test]
fn test_topological_sort_diamond_dependency() {
    let mut graph = DependencyGraph::new();
    // d depends on b and c, both depend on a
    //     a
    //    / \
    //   b   c
    //    \ /
    //     d
    graph.add_dependency(&ValuePath::new("b"), &ValuePath::new("a"));
    graph.add_dependency(&ValuePath::new("c"), &ValuePath::new("a"));
    graph.add_dependency(&ValuePath::new("d"), &ValuePath::new("b"));
    graph.add_dependency(&ValuePath::new("d"), &ValuePath::new("c"));

    let order = graph.topological_sort().unwrap();
    let paths: Vec<_> = order.iter().map(|p| p.as_str()).collect();

    let a_pos = paths.iter().position(|&x| x == "a").unwrap();
    let b_pos = paths.iter().position(|&x| x == "b").unwrap();
    let c_pos = paths.iter().position(|&x| x == "c").unwrap();
    let d_pos = paths.iter().position(|&x| x == "d").unwrap();

    assert!(a_pos < b_pos, "a should come before b");
    assert!(a_pos < c_pos, "a should come before c");
    assert!(b_pos < d_pos, "b should come before d");
    assert!(c_pos < d_pos, "c should come before d");
}

#[test]
fn test_cycle_detection_simple() {
    let mut graph = DependencyGraph::new();
    // a -> b -> c -> a (cycle)
    graph.add_dependency(&ValuePath::new("a"), &ValuePath::new("b"));
    graph.add_dependency(&ValuePath::new("b"), &ValuePath::new("c"));
    graph.add_dependency(&ValuePath::new("c"), &ValuePath::new("a"));

    let result = graph.topological_sort();
    assert!(result.is_err());
    let err_msg = result.unwrap_err().message();
    assert!(
        err_msg.contains("Circular dependency"),
        "Error should mention circular dependency: {}",
        err_msg
    );
}

#[test]
fn test_self_reference_cycle() {
    let mut graph = DependencyGraph::new();
    // a depends on itself
    graph.add_dependency(&ValuePath::new("a"), &ValuePath::new("a"));

    let result = graph.topological_sort();
    assert!(result.is_err());
}

#[test]
fn test_two_node_cycle() {
    let mut graph = DependencyGraph::new();
    // a -> b -> a
    graph.add_dependency(&ValuePath::new("a"), &ValuePath::new("b"));
    graph.add_dependency(&ValuePath::new("b"), &ValuePath::new("a"));

    let result = graph.topological_sort();
    assert!(result.is_err());
}

#[test]
fn test_empty_graph() {
    let graph = DependencyGraph::new();
    let order = graph.topological_sort().unwrap();
    assert!(order.is_empty());
}

#[test]
fn test_node_count() {
    let mut graph = DependencyGraph::new();
    assert_eq!(graph.node_count(), 0);

    graph.add_node(&ValuePath::new("a"));
    assert_eq!(graph.node_count(), 1);

    graph.add_dependency(&ValuePath::new("b"), &ValuePath::new("c"));
    assert_eq!(graph.node_count(), 3);
}

#[test]
fn test_is_empty() {
    let mut graph = DependencyGraph::new();
    assert!(graph.is_empty());

    graph.add_node(&ValuePath::new("a"));
    assert!(!graph.is_empty());
}

#[test]
fn test_duplicate_nodes() {
    let mut graph = DependencyGraph::new();
    graph.add_node(&ValuePath::new("a"));
    graph.add_node(&ValuePath::new("a"));
    graph.add_node(&ValuePath::new("a"));

    assert_eq!(graph.node_count(), 1);
}

#[test]
fn test_nested_paths() {
    let mut graph = DependencyGraph::new();
    graph.add_dependency(
        &ValuePath::new("result.message"),
        &ValuePath::new("config.greeting"),
    );
    graph.add_dependency(
        &ValuePath::new("config.greeting"),
        &ValuePath::new("base.value"),
    );

    let order = graph.topological_sort().unwrap();
    let paths: Vec<_> = order.iter().map(|p| p.as_str()).collect();

    let base_pos = paths.iter().position(|&x| x == "base.value").unwrap();
    let config_pos = paths.iter().position(|&x| x == "config.greeting").unwrap();
    let result_pos = paths.iter().position(|&x| x == "result.message").unwrap();

    assert!(base_pos < config_pos);
    assert!(config_pos < result_pos);
}

fn is_circle(chain: &[String], dependencies: &[(&str, &str)]) -> bool {
    chain.len() >= 2
        && chain.first() == chain.last()
        && chain.windows(2).all(|step| {
            dependencies
                .iter()
                .any(|(from, to)| *from == step[1] && *to == step[0])
        })
}

#[test]
fn cycle_error_names_a_real_cycle() {
    let dependencies = [("a", "b"), ("b", "c"), ("c", "a"), ("d", "a"), ("a", "e")];
    let mut graph = DependencyGraph::new();
    for (from, to) in dependencies.iter() {
        graph.add_dependency(&ValuePath::new(from), &ValuePath::new(to));
    }
    let error = graph.topological_sort().unwrap_err();
    assert!(is_circle(&error.chain, &dependencies), "{:?}", error.chain);
    assert_eq!(error.chain.len(), 4);
    let text = error.message();
    assert!(text.starts_with("Circular dependency detected in values. Cycle involves: "));
    assert_eq!(
        text,
        format!(
            "Circular dependency detected in values. Cycle involves: {}",
            error.chain.join(" -> ")
        )
    );
    for name in ["a", "b", "c"] {
        assert!(error.chain.iter().any(|n| n == name));
    }
}

#[test]
fn self_reference_is_a_cycle_of_one_path() {
    let mut graph = DependencyGraph::new();
    graph.add_dependency(&ValuePath::new("b"), &ValuePath::new("x"));
    graph.add_dependency(&ValuePath::new("a"), &ValuePath::new("a"));
    let error = graph.topological_sort().unwrap_err();
    assert_eq!(error.chain, vec!["a".to_string(), "a".to_string()]);
    assert_eq!(
        error.message(),
        "Circular dependency detected in values. Cycle involves: a -> a"
    );
}

#[test]
fn order_holds_every_node_once() {
    let mut graph = DependencyGraph::new();
    graph.add_dependency(&ValuePath::new("b"), &ValuePath::new("a"));
    graph.add_dependency(&ValuePath::new("b"), &ValuePath::new("a"));
    graph.add_node(&ValuePath::new("lonely"));
    graph.add_dependency(&ValuePath::new("c"), &ValuePath::new("b"));
    assert_eq!(graph.node_count(), 4);
    assert_eq!(graph.dependency_count(), 3);
    let order = graph.topological_sort().unwrap();
    let mut names: Vec<&str> = order.iter().map(|p| p.as_str()).collect();
    let position = |name: &str| names.iter().position(|n| *n == name).unwrap();
    assert!(position("a") < position("b"));
    assert!(position("b") < position("c"));
    names.sort();
    assert_eq!(names, vec!["a", "b", "c", "lonely"]);
}

#[test]
fn value_path_keeps_its_text() {
    let path = ValuePath::new("parent.child");
    assert_eq!(path.as_str(), "parent.child");
    assert_eq!(path.0, "parent.child");
    assert_eq!(path.clone(), path);
}

#[test]
fn the_search_takes_the_newest_dependent_first() {
    let mut graph = DependencyGraph::new();
    for (from, to) in [("b", "a"), ("a", "b"), ("c", "a"), ("a", "c")] {
        graph.add_dependency(&ValuePath::new(from), &ValuePath::new(to));
    }
    let error = graph.topological_sort().unwrap_err();
    assert_eq!(error.chain, vec!["a", "c", "a"]);
    assert_eq!(
        error.message(),
        "Circular dependency detected in values. Cycle involves: a -> c -> a"
    );
}
