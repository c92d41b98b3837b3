use helix_graph_algorithms::count::PositiveCount;
use helix_graph_algorithms::centrality::{
    centrality_sources, BetweennessMode, BetweennessOptions, PathWeight,
};
use helix_graph_algorithms::community::{
    aggregate_initial_partition, aggregate_members, aggregate_pairs, assignment_for_original_nodes,
    canonical_communities, compress_communities, partition_precedes, trial_seed,
    validate_community_graph, Community, LeidenOptions, LouvainOptions,
};
use helix_graph_algorithms::graph::Graph;
use helix_graph_algorithms::layout::{jitter_degrees, SeedPosition};
use helix_graph_algorithms::model::{Edge, GraphError, GraphKind, Node};
use helix_graph_algorithms::random::{next_random, shuffle};

fn path(kind: GraphKind) -> Graph {
    Graph::new(
        kind,
        vec![Node::new("a"), Node::new("b"), Node::new("c")],
        vec![Edge::new("ab", "a", "b"), Edge::new("bc", "b", "c")],
    )
    .unwrap()
}

#[test]
fn generator_steps_and_shuffle_are_fixed_by_the_seed() {
    let mut seed = 42u64;
    assert_eq!(next_random(&mut seed), 10481999410520546993);
    assert_eq!(seed, 10481999410520546993);
    let mut values = vec![0, 1, 2, 3, 4];
    let mut rng = 7u64;
    shuffle(&mut values, &mut rng);
    assert_eq!(values, [4, 3, 2, 1, 0]);
    assert_eq!(rng, 5031285092534963243);
    let mut empty: Vec<usize> = Vec::new();
    let mut untouched = 9u64;
    shuffle(&mut empty, &mut untouched);
    assert!(empty.is_empty());
    assert_eq!(untouched, 9);
}

#[test]
fn shuffle_keeps_every_value_once() {
    let mut values = (0..50).collect::<Vec<usize>>();
    let mut rng = 123u64;
    shuffle(&mut values, &mut rng);
    let mut sorted = values.clone();
    sorted.sort();
    assert_eq!(sorted, (0..50).collect::<Vec<usize>>());
}

#[test]
fn sources_follow_the_mode() {
    assert_eq!(
        centrality_sources(3, BetweennessMode::Exact),
        (vec![0, 1, 2], None)
    );
    assert_eq!(
        centrality_sources(
            3,
            BetweennessMode::Sampled {
                sample_count: PositiveCount::new(2).unwrap(),
                seed: 42
            }
        ),
        (vec![1, 0], Some(2))
    );
    assert_eq!(
        centrality_sources(
            3,
            BetweennessMode::Auto {
                exact_through: 1000,
                sample_count: PositiveCount::new(100).unwrap(),
                seed: 42
            }
        ),
        (vec![0, 1, 2], None)
    );
    assert_eq!(
        centrality_sources(
            3,
            BetweennessMode::Auto {
                exact_through: 1,
                sample_count: PositiveCount::new(100).unwrap(),
                seed: 42
            }
        ),
        (vec![1, 0, 2], Some(3))
    );
    assert_eq!(
        centrality_sources(
            0,
            BetweennessMode::Sampled {
                sample_count: PositiveCount::new(1).unwrap(),
                seed: 7
            }
        ),
        (vec![], Some(0))
    );
}

#[test]
fn betweenness_option_presets() {
    let default = BetweennessOptions::default();
    assert_eq!(default.mode, BetweennessMode::Exact);
    assert!(default.normalized);
    assert!(!default.endpoints);
    assert_eq!(default.weight, PathWeight::Unweighted);
    let graphify = BetweennessOptions::graphify_default();
    assert_eq!(
        graphify.mode,
        BetweennessMode::Auto {
            exact_through: 1000,
            sample_count: PositiveCount::new(100).unwrap(),
            seed: 42
        }
    );
    assert!(graphify.normalized);
    assert_eq!(graphify.weight, PathWeight::Unweighted);
}

#[test]
fn weighted_mode_rejects_zero_weight() {
    let graph = Graph::new(
        GraphKind::DiGraph,
        vec![Node::new("a"), Node::new("b")],
        vec![Edge::new("ab", "a", "b").with_weight(0.0f64.to_bits())],
    )
    .unwrap();
    assert_eq!(
        graph.validate_centrality_weight(PathWeight::Weighted),
        Err(GraphError::InvalidOption(
            "weighted Brandes requires positive weights; edge ab has zero weight".to_string()
        ))
    );
    assert_eq!(graph.validate_centrality_weight(PathWeight::Unweighted), Ok(()));
    let positive = Graph::new(
        GraphKind::DiGraph,
        vec![Node::new("a"), Node::new("b")],
        vec![Edge::new("ab", "a", "b").with_weight(0.5f64.to_bits())],
    )
    .unwrap();
    assert_eq!(positive.validate_centrality_weight(PathWeight::Weighted), Ok(()));
}

#[test]
fn breadth_first_structure_of_a_path_and_a_diamond() {
    let graph = path(GraphKind::DiGraph);
    let dag = graph.single_source_unweighted(0);
    assert_eq!(dag.order, [0, 1, 2]);
    assert_eq!(dag.distance, [Some(0), Some(1), Some(2)]);
    assert_eq!(dag.predecessors, [vec![], vec![(0, 0)], vec![(1, 1)]]);
    let from_end = graph.single_source_unweighted(2);
    assert_eq!(from_end.order, [2]);
    assert_eq!(from_end.distance, [None, None, Some(0)]);

    let diamond = Graph::new(
        GraphKind::Graph,
        ["a", "b", "c", "d"].into_iter().map(Node::new).collect(),
        vec![
            Edge::new("ab", "a", "b"),
            Edge::new("ac", "a", "c"),
            Edge::new("bd", "b", "d"),
            Edge::new("cd", "c", "d"),
            Edge::new("bc", "b", "c"),
        ],
    )
    .unwrap();
    let dag = diamond.single_source_unweighted(0);
    assert_eq!(dag.order, [0, 1, 2, 3]);
    assert_eq!(dag.distance, [Some(0), Some(1), Some(1), Some(2)]);
    assert_eq!(dag.predecessors[3], [(1, 3), (2, 4)]);
    assert!(dag.predecessors[2].iter().all(|(node, _)| *node == 0));
}

#[test]
fn parallel_edges_are_separate_predecessors() {
    let graph = Graph::new(
        GraphKind::MultiDiGraph,
        vec![Node::new("a"), Node::new("b")],
        vec![Edge::new("one", "a", "b"), Edge::new("two", "a", "b")],
    )
    .unwrap();
    let dag = graph.single_source_unweighted(0);
    assert_eq!(dag.predecessors[1], [(0, 0), (0, 1)]);
}

#[test]
fn community_options_presets() {
    let louvain = LouvainOptions::default();
    assert_eq!(f64::from_bits(louvain.resolution.get()), 1.0);
    assert_eq!(f64::from_bits(louvain.threshold.get()), 1e-4);
    assert_eq!(louvain.seed, 42);
    assert_eq!(louvain.max_levels.get(), 10);
    let leiden = LeidenOptions::default();
    assert_eq!(f64::from_bits(leiden.resolution.get()), 1.0);
    assert_eq!(f64::from_bits(leiden.randomness.get()), 0.001);
    assert_eq!(leiden.seed, 42);
    assert_eq!(leiden.trials.get(), 1);
    assert_eq!(leiden.max_iterations.get(), 100);
    assert_eq!(leiden.max_levels.get(), 10);
}

#[test]
fn community_detection_requires_an_undirected_graph() {
    assert_eq!(
        validate_community_graph(&path(GraphKind::DiGraph), "Louvain"),
        Err(GraphError::InvalidOption(
            "Louvain requires an explicit undirected graph view".to_string()
        ))
    );
    assert_eq!(validate_community_graph(&path(GraphKind::MultiGraph), "Leiden"), Ok(()));
}

#[test]
fn trial_seeds_step_by_the_golden_ratio_constant() {
    assert_eq!(trial_seed(42, 0), 42);
    assert_eq!(trial_seed(42, 1), 11400714819323198527);
    assert_eq!(trial_seed(7, 2), 4354685564936845361);
}

#[test]
fn compression_numbers_communities_by_first_occurrence() {
    assert_eq!(compress_communities(&[5, 3, 5, 9, 3]), [0, 1, 0, 2, 1]);
    assert_eq!(compress_communities(&[]), Vec::<usize>::new());
    assert_eq!(compress_communities(&[0, 1, 2]), [0, 1, 2]);
    assert_eq!(compress_communities(&[usize::MAX, 0]), [0, 1]);
}

#[test]
fn lifting_assigns_each_original_member_its_community() {
    let members = vec![vec![2, 0], vec![1], vec![3]];
    assert_eq!(
        assignment_for_original_nodes(4, &members, &[7, 8, 7]),
        [7, 8, 7, 7]
    );
    assert_eq!(assignment_for_original_nodes(2, &[], &[]), [0, 0]);
}

#[test]
fn next_level_starts_from_the_parents_of_refined_communities() {
    assert_eq!(aggregate_initial_partition(&[4, 4, 9, 9], &[0, 1, 2, 2]), [0, 0, 1]);
    assert_eq!(aggregate_initial_partition(&[6, 6], &[1, 1]), [0, 1]);
    assert_eq!(aggregate_initial_partition(&[], &[]), Vec::<usize>::new());
}

#[test]
fn canonical_communities_are_named_by_their_first_member() {
    let graph = Graph::new(
        GraphKind::Graph,
        ["a", "b", "c", "d"].into_iter().map(Node::new).collect(),
        vec![],
    )
    .unwrap();
    let communities = canonical_communities(&graph, &[3, 1, 3, 2]);
    assert_eq!(communities.len(), 3);
    assert_eq!(communities[0].id, "a");
    assert_eq!(communities[0].node_ids, ["a", "c"]);
    assert_eq!(communities[1].id, "b");
    assert_eq!(communities[1].node_ids, ["b"]);
    assert_eq!(communities[2].id, "d");
    assert_eq!(communities[2].node_ids, ["d"]);
}

#[test]
fn layout_accepts_partial_initial_positions_and_rejects_bad_ones() {
    let graph = Graph::new(
        GraphKind::Graph,
        vec![Node::new("a"), Node::new("b")],
        vec![Edge::new("ab", "a", "b")],
    )
    .unwrap();
    let seed = |id: &str, x: f64, y: f64| SeedPosition {
        node_id: id.to_string(),
        x_bits: x.to_bits(),
        y_bits: y.to_bits(),
    };
    assert_eq!(
        graph.validate_initial_positions(&vec![seed("b", 0.25, 0.75)]),
        Ok(vec![1])
    );
    assert!(matches!(
        graph.validate_initial_positions(&vec![seed("missing", 0.0, 0.0)]),
        Err(GraphError::UnknownNode(id)) if id == "missing"
    ));
    assert_eq!(
        graph.validate_initial_positions(&vec![seed("a", f64::NAN, 0.0)]),
        Err(GraphError::InvalidOption(
            "initial position for a must be finite".to_string()
        ))
    );
    assert_eq!(
        graph.validate_initial_positions(&vec![seed("a", 0.0, 0.0), seed("a", 1.0, 1.0)]),
        Err(GraphError::InvalidOption(
            "duplicate initial position for a".to_string()
        ))
    );
}

#[test]
fn springs_skip_self_loops_and_select_weights() {
    let graph = Graph::new(
        GraphKind::MultiGraph,
        vec![Node::new("a"), Node::new("b")],
        vec![
            Edge::new("aa", "a", "a").with_weight(10.0f64.to_bits()),
            Edge::new("ab1", "a", "b").with_weight(2.0f64.to_bits()),
            Edge::new("ab2", "a", "b"),
        ],
    )
    .unwrap();
    assert_eq!(
        graph.layout_springs(true),
        [(0, 1, 2.0f64.to_bits()), (0, 1, 1.0f64.to_bits())]
    );
    assert_eq!(
        graph.layout_springs(false),
        [(0, 1, 1.0f64.to_bits()), (0, 1, 1.0f64.to_bits())]
    );
}

#[test]
fn jitter_direction_mixes_both_positions() {
    assert_eq!(jitter_degrees(1, 2), 61);
    assert_eq!(jitter_degrees(5, 9), 2);
    assert_eq!(jitter_degrees(0, 0), 0);
}

#[test]
fn partition_order_matches_community_list_order() {
    let community = |id: &str, members: &[&str]| Community {
        id: id.to_string(),
        node_ids: members.iter().map(|member| member.to_string()).collect(),
    };
    let ab = vec![community("a", &["a", "b"]), community("c", &["c"])];
    let ac = vec![community("a", &["a", "c"]), community("b", &["b"])];
    assert!(partition_precedes(&ab, &ac));
    assert!(!partition_precedes(&ac, &ab));
    assert!(!partition_precedes(&ab, &ab.clone()));
    assert!(partition_precedes(&ab[..1].to_vec(), &ab));
    assert!(!partition_precedes(&ab, &ab[..1].to_vec()));
    let b_first = vec![community("b", &["b"])];
    assert!(partition_precedes(&ab, &b_first));
    let derived_order = ab < ac;
    assert_eq!(partition_precedes(&ab, &ac), derived_order);
}

#[test]
fn aggregation_groups_members_and_merges_edge_pairs() {
    let members = vec![vec![0], vec![1, 2], vec![3]];
    assert_eq!(
        aggregate_members(&members, &[1, 0, 1]),
        [vec![1, 2], vec![0, 3]]
    );
    let (pairs, index) = aggregate_pairs(&vec![(0, 1), (2, 1), (0, 0), (1, 2)], &[1, 0, 1]);
    assert_eq!(pairs, [(0, 1), (1, 1)]);
    assert_eq!(index, [0, 0, 1, 0]);
    let (none, empty) = aggregate_pairs(&vec![], &[0]);
    assert!(none.is_empty() && empty.is_empty());
}

#[test]
fn breadth_first_order_is_first_in_first_out() {
    let graph = Graph::new(
        GraphKind::DiGraph,
        ["a", "b", "c", "d"].into_iter().map(Node::new).collect(),
        vec![
            Edge::new("ac", "a", "c"),
            Edge::new("ad", "a", "d"),
            Edge::new("cb", "c", "b"),
        ],
    )
    .unwrap();
    let dag = graph.single_source_unweighted(0);
    assert_eq!(dag.order, [0, 2, 3, 1]);
    assert_eq!(dag.distance, [Some(0), Some(2), Some(1), Some(1)]);
}
