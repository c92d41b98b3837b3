use helix_graph_algorithms::graph::Graph;
use helix_graph_algorithms::model::{Edge, EdgeId, GraphError, GraphKind, Node, TraversalDirection};
use helix_graph_algorithms::weight::{NonNegativeFiniteF64, PositiveFiniteF64};

#[test]
fn construction_sorts_records_and_builds_directional_adjacency() {
    let graph = Graph::new(
        GraphKind::DiGraph,
        vec![Node::new("b"), Node::new("a")],
        vec![Edge::new("edge", "a", "b")],
    )
    .unwrap();

    assert_eq!(
        graph
            .nodes()
            .iter()
            .map(|node| node.id.clone())
            .collect::<Vec<_>>(),
        ["a", "b"]
    );
    assert_eq!(graph.outgoing(graph.node_index("a").unwrap()).len(), 1);
    assert_eq!(graph.incoming(graph.node_index("b").unwrap()).len(), 1);
}

#[test]
fn construction_rejects_invalid_identity_endpoint_and_weight_states() {
    assert!(Graph::new(GraphKind::DiGraph, vec![Node::new("")], vec![]).is_ok());
    assert!(matches!(
        Graph::new(
            GraphKind::DiGraph,
            vec![Node::new("a"), Node::new("a")],
            vec![]
        ),
        Err(GraphError::DuplicateNode(id)) if id == "a"
    ));
    assert!(matches!(
        Graph::new(
            GraphKind::DiGraph,
            vec![Node::new("a")],
            vec![Edge::new("ab", "a", "b")]
        ),
        Err(GraphError::MissingEndpoint { endpoint: "target", node_id, .. }) if node_id == "b"
    ));
    assert!(matches!(
        Graph::new(
            GraphKind::DiGraph,
            vec![Node::new("a")],
            vec![Edge::new("aa", "a", "a").with_weight(f64::NAN.to_bits())]
        ),
        Err(GraphError::InvalidWeight { .. })
    ));
    assert_eq!(
        Graph::new(
            GraphKind::DiGraph,
            vec![Node::new("a")],
            vec![Edge::new("", "a", "a")]
        )
        .unwrap_err(),
        GraphError::EmptyEdgeId
    );
    assert!(matches!(
        Graph::new(
            GraphKind::DiGraph,
            vec![Node::new("a")],
            vec![Edge::new("aa", "missing", "a")]
        ),
        Err(GraphError::MissingEndpoint {
            endpoint: "source",
            ..
        })
    ));
    assert!(matches!(
        Graph::new(
            GraphKind::DiGraph,
            vec![Node::new("a")],
            vec![Edge::new("aa", "a", "a"), Edge::new("aa", "a", "a")]
        ),
        Err(GraphError::DuplicateEdge(id)) if id == EdgeId::original("aa")
    ));
}

#[test]
fn undirected_arc_iteration_does_not_duplicate_self_loops() {
    let graph = Graph::new(
        GraphKind::Graph,
        vec![Node::new("a"), Node::new("b")],
        vec![Edge::new("aa", "a", "a"), Edge::new("ab", "a", "b")],
    )
    .unwrap();
    let a = graph.node_index("a").unwrap();
    assert_eq!(graph.arcs(a, TraversalDirection::Both).len(), 2);
}

#[test]
fn bidirectional_arc_iteration_merges_incoming_and_outgoing_stably() {
    let graph = Graph::new(
        GraphKind::DiGraph,
        vec![
            Node::new("a"),
            Node::new("b"),
            Node::new("c"),
            Node::new("d"),
        ],
        vec![
            Edge::new("ca", "c", "a"),
            Edge::new("ab", "a", "b"),
            Edge::new("da", "d", "a"),
        ],
    )
    .unwrap();
    let neighbors = graph
        .arcs(graph.node_index("a").unwrap(), TraversalDirection::Both)
        .iter()
        .map(|arc| graph.node_id(arc.neighbor).clone())
        .collect::<Vec<_>>();
    assert_eq!(neighbors, ["b", "c", "d"]);
}

#[test]
fn layout_k_type_rejects_invalid_values() {
    assert!(PositiveFiniteF64::new(0.0f64.to_bits()).is_err());
    assert!(PositiveFiniteF64::new(f64::NAN.to_bits()).is_err());
}

#[test]
fn bit_validated_floats_accept_and_reject_by_value() {
    assert!(PositiveFiniteF64::new(1.0f64.to_bits()).is_ok());
    assert!(PositiveFiniteF64::new(0.0f64.to_bits()).is_err());
    assert!(PositiveFiniteF64::new((-0.0f64).to_bits()).is_err());
    assert!(PositiveFiniteF64::new(f64::INFINITY.to_bits()).is_err());
    assert!(NonNegativeFiniteF64::new(0.0f64.to_bits()).is_ok());
    assert!(NonNegativeFiniteF64::new((-0.0f64).to_bits()).is_ok());
    assert!(NonNegativeFiniteF64::new((-1.0f64).to_bits()).is_err());
    assert!(NonNegativeFiniteF64::new(f64::NEG_INFINITY.to_bits()).is_err());
    assert_eq!(
        f64::from_bits(PositiveFiniteF64::new(2.0f64.to_bits()).unwrap().get()),
        2.0
    );
    assert_eq!(
        f64::from_bits(NonNegativeFiniteF64::new(0.5f64.to_bits()).unwrap().get()),
        0.5
    );
}

#[test]
fn structural_edge_ids_stay_distinct_and_display_their_generation() {
    let original = EdgeId::original("reverse#1(edge)");
    let reverse = EdgeId::original("edge").reversed().unwrap();
    assert_ne!(original, reverse);
    assert_eq!(reverse.to_string(), "reverse#1(edge)");
    assert_eq!(original.to_string(), "reverse#1(edge)");
    assert_eq!(reverse.stored_id(), "edge");
    assert_eq!(reverse.reverse_generation(), 1);
    assert_eq!(
        EdgeId::synthesized_reverse("edge", u64::MAX)
            .unwrap()
            .reversed(),
        None
    );
    assert!(EdgeId::synthesized_reverse("edge", 0).is_none());
    assert_eq!(
        EdgeId::synthesized_reverse("edge", 42).unwrap().to_string(),
        "reverse#42(edge)"
    );
}

#[test]
fn graph_kinds_declare_direction_and_simple_kinds_reject_parallel_edges() {
    for (kind, directed, multigraph) in [
        (GraphKind::Graph, false, false),
        (GraphKind::DiGraph, true, false),
        (GraphKind::MultiGraph, false, true),
        (GraphKind::MultiDiGraph, true, true),
    ] {
        assert_eq!(kind.is_directed(), directed);
        assert_eq!(kind.is_multigraph(), multigraph);
    }
    let directed = Graph::new(
        GraphKind::DiGraph,
        vec![Node::new("a"), Node::new("b")],
        vec![Edge::new("ab", "a", "b"), Edge::new("ba", "b", "a")],
    )
    .unwrap();
    assert!(!directed.is_multigraph());
    assert!(matches!(
        Graph::new(
            GraphKind::DiGraph,
            vec![Node::new("a"), Node::new("b")],
            vec![Edge::new("ab", "a", "b"), Edge::new("ab2", "a", "b")]
        ),
        Err(GraphError::ParallelEdge { .. })
    ));
    assert!(matches!(
        Graph::new(
            GraphKind::Graph,
            vec![Node::new("a"), Node::new("b")],
            vec![Edge::new("ab", "a", "b"), Edge::new("ba", "b", "a")]
        ),
        Err(GraphError::ParallelEdge { .. })
    ));
    let multigraph = Graph::new(GraphKind::MultiGraph, vec![Node::new("a")], vec![]).unwrap();
    assert!(multigraph.is_multigraph());
    assert!(!multigraph.is_directed());
}

#[test]
fn lookups_find_nodes_and_edges_by_identity() {
    let graph = Graph::new(
        GraphKind::DiGraph,
        vec![Node::new("b"), Node::new("a")],
        vec![Edge::new("ab", "a", "b").with_weight(2.5f64.to_bits())],
    )
    .unwrap();
    assert_eq!(graph.node_count(), 2);
    assert_eq!(graph.edge_count(), 1);
    assert!(graph.contains_node("a"));
    assert!(!graph.contains_node("c"));
    assert!(graph.contains_edge(&EdgeId::original("ab")));
    assert!(!graph.contains_edge(&EdgeId::original("ba")));
    assert_eq!(graph.node_index("b").unwrap(), 1);
    assert!(matches!(graph.node_index("zz"), Err(GraphError::UnknownNode(id)) if id == "zz"));
    assert_eq!(graph.edge_endpoints(0), (0, 1));
    assert_eq!(graph.edge_at(0).weight, Some(2.5f64.to_bits()));
    assert_eq!(graph.node("a").unwrap().id, "a");
    assert!(graph.edge(&EdgeId::original("ab")).is_some());
}

#[test]
fn constrained_float_types_reject_invalid_states_during_decode() {
    assert!(PositiveFiniteF64::new(1.0f64.to_bits()).is_ok());
    assert!(PositiveFiniteF64::new(0.0f64.to_bits()).is_err());
    assert!(NonNegativeFiniteF64::new(0.0f64.to_bits()).is_ok());
    assert!(NonNegativeFiniteF64::new((-1.0f64).to_bits()).is_err());
    assert_eq!(f64::from_bits(PositiveFiniteF64::new(2.0f64.to_bits()).unwrap().get()), 2.0);
    assert_eq!(f64::from_bits(NonNegativeFiniteF64::new(0.5f64.to_bits()).unwrap().get()), 0.5);
}

#[test]
fn structural_edge_ids_round_trip_and_keep_user_strings_distinct() {
    let original = EdgeId::original("reverse#1(edge)");
    let reverse = EdgeId::original("edge").reversed().unwrap();
    assert_ne!(original, reverse);
    assert_eq!(reverse.to_string(), "reverse#1(edge)");
    assert_eq!(
        EdgeId::synthesized_reverse("edge", u64::MAX)
            .unwrap()
            .reversed(),
        None
    );
    assert!(EdgeId::synthesized_reverse("edge", 0).is_none());
    let synthesized = EdgeId::synthesized_reverse("edge", 42).unwrap();
    assert_eq!(synthesized.stored_id(), "edge");
    assert_eq!(synthesized.reverse_generation(), 42);
}

#[test]
fn graph_kind_is_declared_and_simple_kinds_reject_parallel_edges() {
    for (kind, directed, multigraph) in [
        (GraphKind::Graph, false, false),
        (GraphKind::DiGraph, true, false),
        (GraphKind::MultiGraph, false, true),
        (GraphKind::MultiDiGraph, true, true),
    ] {
        assert_eq!(kind.is_directed(), directed);
        assert_eq!(kind.is_multigraph(), multigraph);
    }
    let directed = Graph::new(
        GraphKind::DiGraph,
        vec![Node::new("a"), Node::new("b")],
        vec![Edge::new("ab", "a", "b"), Edge::new("ba", "b", "a")],
    )
    .unwrap();
    assert!(!directed.is_multigraph());
    assert!(matches!(
        Graph::new(
            GraphKind::DiGraph,
            vec![Node::new("a"), Node::new("b")],
            vec![Edge::new("ab", "a", "b"), Edge::new("ab2", "a", "b")]
        ),
        Err(GraphError::ParallelEdge { .. })
    ));
    let multigraph = Graph::new(GraphKind::MultiGraph, vec![Node::new("a")], vec![]).unwrap();
    assert!(multigraph.is_multigraph());
    assert!(!multigraph.is_directed());
}
