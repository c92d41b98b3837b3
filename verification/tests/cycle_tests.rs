use helix_graph_algorithms::count::PositiveCount;
use helix_graph_algorithms::cycles::CycleOptions;
use helix_graph_algorithms::graph::Graph;
use helix_graph_algorithms::model::{Edge, EdgeId, GraphKind, Node};

#[test]
fn directed_cycles_are_bounded_canonical_and_include_self_loops() {
    let graph = Graph::new(
        GraphKind::DiGraph,
        vec![Node::new("a"), Node::new("b"), Node::new("c")],
        vec![
            Edge::new("aa", "a", "a"),
            Edge::new("ab", "a", "b"),
            Edge::new("ba", "b", "a"),
            Edge::new("bc", "b", "c"),
            Edge::new("ca", "c", "a"),
        ],
    )
    .unwrap();
    let result = graph.simple_cycles(CycleOptions {
        length_bound: PositiveCount::new(2).unwrap(),
        max_cycles: None,
    });
    assert_eq!(
        result
            .cycles
            .iter()
            .map(|cycle| cycle.node_ids.clone())
            .collect::<Vec<_>>(),
        [
            vec!["a".to_string()],
            vec!["a".to_string(), "b".to_string()]
        ]
    );
    assert!(!result.truncated);
}

#[test]
fn cycle_limit_stops_enumeration() {
    let graph = Graph::new(
        GraphKind::DiGraph,
        vec![Node::new("a"), Node::new("b")],
        vec![Edge::new("aa", "a", "a"), Edge::new("bb", "b", "b")],
    )
    .unwrap();
    let result = graph.simple_cycles(CycleOptions {
        length_bound: PositiveCount::new(1).unwrap(),
        max_cycles: PositiveCount::new(1),
    });
    assert_eq!(result.cycles.len(), 1);
    assert!(result.truncated);
}

#[test]
fn undirected_reverse_cycles_deduplicate() {
    let graph = Graph::new(
        GraphKind::Graph,
        vec![Node::new("a"), Node::new("b"), Node::new("c")],
        vec![
            Edge::new("ab", "a", "b"),
            Edge::new("bc", "b", "c"),
            Edge::new("ca", "c", "a"),
        ],
    )
    .unwrap();
    let result = graph.simple_cycles(CycleOptions {
        length_bound: PositiveCount::new(3).unwrap(),
        max_cycles: None,
    });
    assert!(result.cycles.iter().any(|cycle| cycle.node_ids.len() == 3));
}

#[test]
fn undirected_two_cycle_requires_distinct_parallel_edges() {
    let simple = Graph::new(
        GraphKind::Graph,
        vec![Node::new("a"), Node::new("b")],
        vec![Edge::new("ab", "a", "b")],
    )
    .unwrap();
    assert!(simple
        .simple_cycles(CycleOptions {
            length_bound: PositiveCount::new(2).unwrap(),
            max_cycles: None,
        })
        .cycles
        .is_empty());

    let parallel = Graph::new(
        GraphKind::MultiGraph,
        vec![Node::new("a"), Node::new("b")],
        vec![Edge::new("one", "a", "b"), Edge::new("two", "a", "b")],
    )
    .unwrap();
    let result = parallel.simple_cycles(CycleOptions {
        length_bound: PositiveCount::new(2).unwrap(),
        max_cycles: None,
    });
    assert_eq!(result.cycles.len(), 1);
    assert_eq!(result.cycles[0].node_ids, ["a", "b"]);
    assert_eq!(result.cycles[0].edge_ids.len(), 2);
}

#[test]
fn undirected_triangle_is_written_once_from_its_least_rotation() {
    let graph = Graph::new(
        GraphKind::Graph,
        vec![Node::new("c"), Node::new("a"), Node::new("b")],
        vec![
            Edge::new("bc", "b", "c"),
            Edge::new("ca", "c", "a"),
            Edge::new("ab", "a", "b"),
        ],
    )
    .unwrap();
    let result = graph.simple_cycles(CycleOptions {
        length_bound: PositiveCount::new(3).unwrap(),
        max_cycles: None,
    });
    assert_eq!(result.cycles.len(), 1);
    assert_eq!(result.cycles[0].node_ids, ["a", "b", "c"]);
    assert_eq!(
        result.cycles[0].edge_ids,
        [
            EdgeId::original("ab"),
            EdgeId::original("bc"),
            EdgeId::original("ca")
        ]
    );
    assert!(!result.truncated);
}

#[test]
fn directed_cycle_longer_than_the_bound_is_not_reported() {
    let graph = Graph::new(
        GraphKind::DiGraph,
        vec![Node::new("a"), Node::new("b"), Node::new("c")],
        vec![
            Edge::new("ab", "a", "b"),
            Edge::new("bc", "b", "c"),
            Edge::new("ca", "c", "a"),
        ],
    )
    .unwrap();
    let short = graph.simple_cycles(CycleOptions {
        length_bound: PositiveCount::new(2).unwrap(),
        max_cycles: None,
    });
    assert!(short.cycles.is_empty());
    let long = graph.simple_cycles(CycleOptions {
        length_bound: PositiveCount::new(3).unwrap(),
        max_cycles: PositiveCount::new(5),
    });
    assert_eq!(long.cycles.len(), 1);
    assert_eq!(long.cycles[0].node_ids, ["a", "b", "c"]);
    assert!(!long.truncated);
}

#[test]
fn parallel_directed_two_cycles_keep_the_least_edge_sequence() {
    let graph = Graph::new(
        GraphKind::MultiDiGraph,
        vec![Node::new("a"), Node::new("b")],
        vec![
            Edge::new("ab2", "a", "b"),
            Edge::new("ab1", "a", "b"),
            Edge::new("ba", "b", "a"),
        ],
    )
    .unwrap();
    let result = graph.simple_cycles(CycleOptions {
        length_bound: PositiveCount::new(2).unwrap(),
        max_cycles: None,
    });
    assert_eq!(result.cycles.len(), 1);
    assert_eq!(
        result.cycles[0].edge_ids,
        [EdgeId::original("ab1"), EdgeId::original("ba")]
    );
}

#[test]
fn directed_cycles_in_separate_components_are_all_listed() {
    let graph = Graph::new(
        GraphKind::DiGraph,
        vec![
            Node::new("a"),
            Node::new("b"),
            Node::new("c"),
            Node::new("d"),
            Node::new("e"),
        ],
        vec![
            Edge::new("ab", "a", "b"),
            Edge::new("ba", "b", "a"),
            Edge::new("bc", "b", "c"),
            Edge::new("cd", "c", "d"),
            Edge::new("de", "d", "e"),
            Edge::new("ec", "e", "c"),
            Edge::new("ed", "e", "d"),
        ],
    )
    .unwrap();
    let result = graph.simple_cycles(CycleOptions {
        length_bound: PositiveCount::new(5).unwrap(),
        max_cycles: None,
    });
    assert_eq!(
        result
            .cycles
            .iter()
            .map(|cycle| cycle.node_ids.clone())
            .collect::<Vec<_>>(),
        [
            vec!["a".to_string(), "b".to_string()],
            vec!["c".to_string(), "d".to_string(), "e".to_string()],
            vec!["d".to_string(), "e".to_string()],
        ]
    );
    assert!(!result.truncated);
}

#[test]
fn truncation_keeps_cycles_of_the_first_searched_component() {
    let graph = Graph::new(
        GraphKind::DiGraph,
        vec![Node::new("a"), Node::new("b")],
        vec![Edge::new("aa", "a", "a"), Edge::new("bb", "b", "b")],
    )
    .unwrap();
    let result = graph.simple_cycles(CycleOptions {
        length_bound: PositiveCount::new(1).unwrap(),
        max_cycles: PositiveCount::new(1),
    });
    assert!(result.truncated);
    assert_eq!(result.cycles.len(), 1);
    assert_eq!(result.cycles[0].node_ids, vec!["a".to_string()]);
    assert_eq!(result.cycles[0].edge_ids, vec![EdgeId::original("aa")]);
}
