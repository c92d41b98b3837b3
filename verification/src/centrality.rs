//! Brandes betweenness: options, source selection, weight validation and the
//! unweighted shortest-path structure that the accumulation walks.
use vstd::prelude::*;

use crate::count::PositiveCount;
use crate::graph::{Graph, arc_before, arcs_sorted, is_traversal_arc, lemma_permutation_covers};
use crate::model::{ArcRef, Edge, GraphError, TraversalDirection, edge_id_display};
use crate::random::{fisher_yates, lemma_fisher_yates_permutes, shuffle};
use crate::weight::{is_zero, is_zero_bits};

verus! {

/// Source-selection policy for Brandes centrality.
#[derive(Debug, Clone, Copy, PartialEq, Eq, Structural)]
pub enum BetweennessMode {
    /// Use every node as a source.
    Exact,
    /// Use a deterministic sample of source nodes.
    Sampled {
        /// Requested unique sources, clamped to graph size.
        sample_count: PositiveCount,
        /// Deterministic shuffle seed.
        seed: u64,
    },
    /// Use exact mode through a threshold, then sampled mode.
    Auto {
        /// Largest graph using exact mode.
        exact_through: usize,
        /// Requested unique sources above the threshold.
        sample_count: PositiveCount,
        /// Deterministic shuffle seed.
        seed: u64,
    },
}

/// Whether shortest paths use edge weights.
#[derive(Debug, Clone, Copy, PartialEq, Eq, Structural)]
pub enum PathWeight {
    /// Every edge costs one.
    Unweighted,
    /// Use the graph's selected weight, defaulting missing weights to one.
    Weighted,
}

/// Node and edge betweenness options.
#[derive(Debug, Clone, Copy, PartialEq, Eq, Structural)]
pub struct BetweennessOptions {
    /// Exact, sampled, or graph-size-selected sources.
    pub mode: BetweennessMode,
    /// Apply NetworkX-compatible normalization.
    pub normalized: bool,
    /// Include path endpoints in node centrality. Ignored by edge centrality.
    pub endpoints: bool,
    /// Weighted or unweighted shortest paths.
    pub weight: PathWeight,
}

impl Default for BetweennessOptions {
    fn default() -> (r: Self)
        ensures
            r == (BetweennessOptions {
                mode: BetweennessMode::Exact,
                normalized: true,
                endpoints: false,
                weight: PathWeight::Unweighted,
            }),
    {
        Self {
            mode: BetweennessMode::Exact,
            normalized: true,
            endpoints: false,
            weight: PathWeight::Unweighted,
        }
    }
}

impl BetweennessOptions {
    /// Graphify's audited exact/sample policy.
    pub fn graphify_default() -> (r: Self)
        ensures
            r.mode matches BetweennessMode::Auto { exact_through, sample_count, seed }
                && exact_through == 1000 && sample_count.spec_get() == 100 && seed == 42,
            r.normalized,
            !r.endpoints,
            r.weight == PathWeight::Unweighted,
    {
        let base = Self::default();
        Self {
            mode: BetweennessMode::Auto { exact_through: 1_000, sample_count: PositiveCount::known(100), seed: 42 },
            ..base
        }
    }
}

/// The positions `0 .. n`.
pub open spec fn all_positions(n: nat) -> Seq<usize> {
    Seq::new(n, |i: int| i as usize)
}

/// The number of sampled sources and the shuffle seed, or `None` when every
/// node is a source.
pub open spec fn sampling(node_count: nat, mode: BetweennessMode) -> Option<(nat, u64)> {
    match mode {
        BetweennessMode::Exact => None,
        BetweennessMode::Sampled { sample_count, seed } => Some(
            (if sample_count.spec_get() <= node_count { sample_count.spec_get() as nat } else { node_count }, seed),
        ),
        BetweennessMode::Auto { exact_through, sample_count, seed } => if node_count > exact_through {
            Some((if sample_count.spec_get() <= node_count { sample_count.spec_get() as nat } else { node_count }, seed))
        } else {
            None
        },
    }
}

/// The sources a mode selects: every node in order, or the first
/// `sample_count` positions of the seeded shuffle of all positions.
pub open spec fn source_plan(node_count: nat, mode: BetweennessMode) -> (Seq<usize>, Option<usize>) {
    match sampling(node_count, mode) {
        None => (all_positions(node_count), None),
        Some((count, seed)) => (
            fisher_yates(all_positions(node_count), node_count - 1, seed).0.take(count as int),
            Some(count as usize),
        ),
    }
}

/// Select the Brandes sources for a graph of `node_count` nodes.
pub fn centrality_sources(node_count: usize, mode: BetweennessMode) -> (r: (Vec<usize>, Option<usize>))
    ensures
        (r.0@, r.1) == source_plan(node_count as nat, mode),
        mode matches BetweennessMode::Sampled { sample_count, seed }
            ==> clamped_sample(node_count as nat, sample_count.spec_get() as nat, r.0@, r.1),
        mode matches BetweennessMode::Auto { exact_through, sample_count, seed } ==> (node_count > exact_through
            ==> clamped_sample(node_count as nat, sample_count.spec_get() as nat, r.0@, r.1)),
{
    proof {
        lemma_sources_clamped(node_count, mode);
    }
    let (sample_count, seed) = match mode {
        BetweennessMode::Exact => {
            return (positions(node_count), None);
        },
        BetweennessMode::Sampled { sample_count, seed } => (sample_count, seed),
        BetweennessMode::Auto { exact_through, sample_count, seed } => {
            if node_count > exact_through {
                (sample_count, seed)
            } else {
                return (positions(node_count), None);
            }
        },
    };
    let sample_count = sample_count.get();
    let sample_count = if sample_count <= node_count {
        sample_count
    } else {
        node_count
    };
    (sampled_sources(node_count, sample_count, seed), Some(sample_count))
}

/// The first `count` positions of the seeded shuffle of `0 .. node_count`.
fn sampled_sources(node_count: usize, count: usize, seed: u64) -> (r: Vec<usize>)
    requires
        count <= node_count,
    ensures
        r@ == fisher_yates(all_positions(node_count as nat), node_count - 1, seed).0.take(count as int),
{
    let mut sources = positions(node_count);
    let mut rng = seed;
    shuffle(&mut sources, &mut rng);
    proof {
        if node_count > 0 {
            lemma_fisher_yates_permutes(all_positions(node_count as nat), node_count - 1, seed);
        }
    }
    sources.truncate(count);
    sources
}

/// The positions `0 .. n` in order.
fn positions(n: usize) -> (r: Vec<usize>)
    ensures
        r@ == all_positions(n as nat),
{
    let mut r: Vec<usize> = Vec::new();
    let mut i: usize = 0;
    while i < n
        invariant
            i <= n,
            r@ == all_positions(i as nat),
        decreases n - i,
    {
        r.push(i);
        i = i + 1;
        assert(r@ =~= all_positions(i as nat));
    }
    r
}

/// Each selected source is a node, and no node is selected twice; a sample
/// holds exactly the clamped number of sources.
pub proof fn lemma_sources_distinct_nodes(node_count: usize, mode: BetweennessMode)
    ensures
        ({
            let plan = source_plan(node_count as nat, mode);
            &&& forall|i: int| 0 <= i < plan.0.len() ==> #[trigger] plan.0[i] < node_count
            &&& forall|i: int, j: int| 0 <= i < j < plan.0.len() ==> #[trigger] plan.0[i] != #[trigger] plan.0[j]
            &&& plan.0.len() == match plan.1 { None => node_count as nat, Some(k) => k as nat }
        }),
{
    let all = all_positions(node_count as nat);
    assert forall|i: int, j: int| 0 <= i < j < all.len() implies #[trigger] all[i] != #[trigger] all[j] by {}
    match sampling(node_count as nat, mode) {
        None => {},
        Some((count, seed)) => {
            if node_count > 0 {
                lemma_fisher_yates_permutes(all, node_count - 1, seed);
                let shuffled = fisher_yates(all, node_count - 1, seed).0;
                assert forall|i: int| 0 <= i < shuffled.len() implies #[trigger] shuffled[i] < node_count by {
                    lemma_multiset_member(all, shuffled, i);
                }
                assert(all.no_duplicates());
                lemma_multiset_no_duplicates(all, shuffled);
                assert forall|i: int, j: int| 0 <= i < j < shuffled.len() implies #[trigger] shuffled[i] != #[trigger] shuffled[j] by {}
            } else {
                assert(fisher_yates(all, node_count - 1, seed).0 == all);
            }
        },
    }
}

/// `sources` is a sample of `requested` nodes clamped to the `node_count`
/// nodes: it has `min(requested, node_count)` distinct nodes, reports that
/// number, and takes every node when the request is at least the node count.
pub open spec fn clamped_sample(node_count: nat, requested: nat, sources: Seq<usize>, count: Option<usize>) -> bool {
    let k = if requested < node_count { requested } else { node_count };
    &&& count == Some(k as usize)
    &&& sources.len() == k
    &&& forall|i: int| 0 <= i < sources.len() ==> #[trigger] sources[i] < node_count
    &&& forall|i: int, j: int| 0 <= i < j < sources.len() ==> #[trigger] sources[i] != #[trigger] sources[j]
    &&& requested >= node_count ==> forall|v: usize| v < node_count ==> #[trigger] sources.contains(v)
}

/// Every node in order, with no sample size.
pub open spec fn every_node(node_count: nat, sources: Seq<usize>, count: Option<usize>) -> bool {
    &&& count is None
    &&& sources.len() == node_count
    &&& forall|i: int| 0 <= i < sources.len() ==> #[trigger] sources[i] == i
}

/// A sampled mode takes `min(sample_count, node_count)` distinct sources, all
/// of them when the sample is at least the graph; exact mode, and auto mode
/// through its threshold, take every node in order.
pub proof fn lemma_sources_clamped(node_count: usize, mode: BetweennessMode)
    ensures
        ({
            let plan = source_plan(node_count as nat, mode);
            match mode {
                BetweennessMode::Exact => every_node(node_count as nat, plan.0, plan.1),
                BetweennessMode::Sampled { sample_count, seed } =>
                    clamped_sample(node_count as nat, sample_count.spec_get() as nat, plan.0, plan.1),
                BetweennessMode::Auto { exact_through, sample_count, seed } => if node_count > exact_through {
                    clamped_sample(node_count as nat, sample_count.spec_get() as nat, plan.0, plan.1)
                } else {
                    every_node(node_count as nat, plan.0, plan.1)
                },
            }
        }),
{
    lemma_sources_distinct_nodes(node_count, mode);
    let plan = source_plan(node_count as nat, mode);
    let n = node_count as nat;
    match mode {
        BetweennessMode::Exact => {},
        BetweennessMode::Sampled { sample_count, seed } => {
            lemma_sample_plan(node_count, mode, sample_count.spec_get() as nat, seed);
        },
        BetweennessMode::Auto { exact_through, sample_count, seed } => {
            if node_count > exact_through {
                lemma_sample_plan(node_count, mode, sample_count.spec_get() as nat, seed);
            }
        },
    }
}

/// Sampling with one seed is consistent across sizes: a smaller sample is a
/// prefix of a larger one.
pub proof fn lemma_sample_prefix(node_count: usize, small: PositiveCount, large: PositiveCount, seed: u64)
    requires
        small.spec_get() <= large.spec_get(),
    ensures
        ({
            let a = source_plan(node_count as nat, BetweennessMode::Sampled { sample_count: small, seed }).0;
            let b = source_plan(node_count as nat, BetweennessMode::Sampled { sample_count: large, seed }).0;
            &&& a.len() <= b.len()
            &&& a == b.take(a.len() as int)
        }),
{
    let n = node_count as nat;
    let a = source_plan(n, BetweennessMode::Sampled { sample_count: small, seed }).0;
    let b = source_plan(n, BetweennessMode::Sampled { sample_count: large, seed }).0;
    let ka: nat = if small.spec_get() <= n { small.spec_get() as nat } else { n };
    let kb: nat = if large.spec_get() <= n { large.spec_get() as nat } else { n };
    let all = all_positions(n);
    let shuffled = fisher_yates(all, node_count - 1, seed).0;
    if node_count > 0 {
        lemma_fisher_yates_permutes(all, node_count - 1, seed);
    } else {
        assert(shuffled == all);
    }
    assert(shuffled.len() == n);
    assert(a == shuffled.take(ka as int));
    assert(b == shuffled.take(kb as int));
    assert(ka <= kb);
    assert(a =~= b.take(a.len() as int));
}

/// The plan of a mode that samples `requested` sources with `seed`.
proof fn lemma_sample_plan(node_count: usize, mode: BetweennessMode, requested: nat, seed: u64)
    requires
        sampling(node_count as nat, mode) == Some((if requested <= node_count { requested } else { node_count as nat }, seed)),
    ensures
        clamped_sample(node_count as nat, requested, source_plan(node_count as nat, mode).0, source_plan(node_count as nat, mode).1),
{
    lemma_sources_distinct_nodes(node_count, mode);
    let plan = source_plan(node_count as nat, mode);
    let k: nat = if requested < node_count { requested } else { node_count as nat };
    assert(plan.1 == Some(k as usize));
    assert(plan.0.len() == k);
    if requested >= node_count {
        assert forall|v: usize| v < node_count implies #[trigger] plan.0.contains(v) by {
            lemma_permutation_covers(plan.0, node_count as int, v as int);
            let q = choose|q: int| 0 <= q < node_count && #[trigger] plan.0[q] == v as int;
        }
    }
}

/// A value of a permutation occurs in the original sequence.
proof fn lemma_multiset_member(a: Seq<usize>, b: Seq<usize>, i: int)
    requires
        b.to_multiset() == a.to_multiset(),
        0 <= i < b.len(),
    ensures
        a.contains(b[i]),
{
    broadcast use vstd::seq_lib::to_multiset_contains;

    assert(b.contains(b[i]));
    assert(b.to_multiset().count(b[i]) > 0);
    assert(a.to_multiset().count(b[i]) > 0);
}

/// A permutation of a sequence without repeats has no repeats.
proof fn lemma_multiset_no_duplicates(a: Seq<usize>, b: Seq<usize>)
    requires
        b.to_multiset() == a.to_multiset(),
        a.no_duplicates(),
    ensures
        b.no_duplicates(),
{
    a.lemma_multiset_has_no_duplicates();
    b.lemma_multiset_has_no_duplicates_conv();
}

/// The weight of edge `i` compares equal to zero.
pub open spec fn zero_weight_at(edges: Seq<Edge>, i: int) -> bool {
    edges[i].weight matches Some(w) && is_zero_bits(w)
}

/// Edge `i` is the first edge whose weight compares equal to zero.
pub open spec fn first_zero_weight(edges: Seq<Edge>, i: int) -> bool {
    &&& 0 <= i < edges.len()
    &&& zero_weight_at(edges, i)
    &&& forall|j: int| 0 <= j < i ==> !#[trigger] zero_weight_at(edges, j)
}

/// The message that rejects a zero weight on the edge with identity `id`.
pub open spec fn zero_weight_message(id: (Seq<char>, u64)) -> Seq<char> {
    "weighted Brandes requires positive weights; edge "@ + edge_id_display(id) + " has zero weight"@
}


impl Graph {
    /// Weighted shortest paths need strictly positive weights: reject the
    /// first edge whose weight is zero.
    pub fn validate_centrality_weight(&self, weight: PathWeight) -> (r: Result<(), GraphError>)
        requires
            self.wf(),
        ensures
            r is Ok <==> (weight == PathWeight::Unweighted || forall|j: int| 0 <= j < self.spec_edges().len()
                ==> !#[trigger] zero_weight_at(self.spec_edges(), j)),
            r matches Err(e) ==> exists|i: int| #[trigger] first_zero_weight(self.spec_edges(), i)
                && (e matches GraphError::InvalidOption(m) && m@ == zero_weight_message(self.spec_edges()[i].id@)),
    {
        if weight == PathWeight::Weighted {
            let edges = self.edges();
            let mut i: usize = 0;
            while i < edges.len()
                invariant
                    weight == PathWeight::Weighted,
                    edges@ == self.spec_edges(),
                    i <= edges.len(),
                    forall|j: int| 0 <= j < i ==> !#[trigger] zero_weight_at(self.spec_edges(), j),
                decreases edges.len() - i,
            {
                let zero = match edges[i].weight {
                    Some(w) => is_zero(w),
                    None => false,
                };
                if zero {
                    let mut message = String::from_str("weighted Brandes requires positive weights; edge ");
                    let id = edges[i].id.to_string();
                    message.append(id.as_str());
                    message.append(" has zero weight");
                    proof {
                        reveal_strlit("weighted Brandes requires positive weights; edge ");
                        reveal_strlit(" has zero weight");
                        assert(first_zero_weight(self.spec_edges(), i as int));
                        assert(zero_weight_at(self.spec_edges(), i as int));
                    }
                    return Err(GraphError::InvalidOption(message));
                }
                i = i + 1;
            }
        }
        Ok(())
    }
}


/// Edge `e` leads out of `u` into `v` when Brandes traverses the graph.
pub open spec fn out_step(g: Graph, u: usize, v: usize, e: usize) -> bool {
    is_traversal_arc(g.spec_endpoints(), g.spec_kind(), u as int, TraversalDirection::Out, ArcRef { neighbor: v, edge: e })
}

/// The hop count of a reached node.
pub open spec fn hops(dist: Seq<Option<usize>>, v: usize) -> int {
    dist[v as int].unwrap() as int
}

/// Edge `e` from `u` to `v` lies on a shortest path: both ends are reached
/// and `v` is one hop further than `u`.
pub open spec fn dag_pred(g: Graph, dist: Seq<Option<usize>>, u: usize, v: usize, e: usize) -> bool {
    &&& u < dist.len()
    &&& v < dist.len()
    &&& dist[u as int] is Some
    &&& dist[v as int] is Some
    &&& out_step(g, u, v, e)
    &&& hops(dist, u) + 1 == hops(dist, v)
}

/// `a` was settled before `b`.
pub open spec fn settled_before(order: Seq<usize>, a: usize, b: usize) -> bool {
    exists|p: int, q: int| 0 <= p < q < order.len() && #[trigger] order[p] == a && #[trigger] order[q] == b
}

/// Predecessor pairs listed by settling order of the predecessor, then by
/// edge rank.
pub open spec fn preds_in_order(g: Graph, order: Seq<usize>, row: Seq<(usize, usize)>) -> bool {
    forall|i: int, j: int| 0 <= i < j < row.len() ==> {
        ||| settled_before(order, (#[trigger] row[i]).0, (#[trigger] row[j]).0)
        ||| (row[i].0 == row[j].0 && g.spec_ranks()[row[i].1 as int] < g.spec_ranks()[row[j].1 as int])
    }
}

/// Nodes settle first in, first out: after the source, they follow the
/// settling order of their first predecessors, and nodes that share their
/// first predecessor follow the order in which its arcs are scanned, by node.
pub open spec fn settled_fifo(order: Seq<usize>, preds: Seq<Vec<(usize, usize)>>) -> bool {
    forall|i: int, j: int| 1 <= i < j < order.len() ==> {
        ||| settled_before(order, preds[#[trigger] order[i] as int]@[0].0, preds[#[trigger] order[j] as int]@[0].0)
        ||| (preds[order[i] as int]@[0].0 == preds[order[j] as int]@[0].0 && order[i] < order[j])
    }
}

/// The unweighted shortest-path structure of one Brandes source.
pub struct ShortestPathDag {
    /// Reached nodes in the order they were settled.
    pub order: Vec<usize>,
    /// For each node, the `(predecessor, edge)` pairs that end a shortest
    /// path into it.
    pub predecessors: Vec<Vec<(usize, usize)>>,
    /// Hop distance from the source; `None` where the node is unreached.
    pub distance: Vec<Option<usize>>,
}

/// `dag` is the breadth-first shortest-path structure of `source`: every
/// reached node is settled once, in nondecreasing distance, distances obey
/// every arc and are each witnessed by a predecessor one hop closer, and the
/// predecessor lists hold exactly the arcs that end shortest paths.
pub open spec fn is_shortest_path_dag(g: Graph, source: usize, dag: ShortestPathDag) -> bool {
    let n = g.spec_nodes().len();
    let dist = dag.distance@;
    let order = dag.order@;
    &&& dist.len() == n
    &&& dag.predecessors@.len() == n
    &&& dist[source as int] == Some(0usize)
    &&& order.len() >= 1 && order[0] == source
    &&& order.no_duplicates()
    &&& forall|v: usize| v < n ==> (#[trigger] dist[v as int] is Some <==> order.contains(v))
    &&& forall|i: int, j: int| 0 <= i < j < order.len() ==> hops(dist, #[trigger] order[i]) <= hops(dist, #[trigger] order[j])
    &&& forall|u: usize, v: usize, e: usize|
        u < n && dist[u as int] is Some && #[trigger] out_step(g, u, v, e) ==> v < n && dist[v as int] is Some && hops(dist, v) <= hops(dist, u) + 1
    &&& forall|v: usize| v < n && v != source && #[trigger] dist[v as int] is Some ==> exists|u: usize, e: usize| dag_pred(g, dist, u, v, e)
    &&& forall|v: usize, u: usize, e: usize| v < n ==> (#[trigger] dag.predecessors@[v as int]@.contains((u, e)) <==> dag_pred(g, dist, u, v, e))
    &&& forall|v: usize| v < n ==> (#[trigger] dag.predecessors@[v as int])@.no_duplicates()
    &&& forall|v: usize| v < n ==> preds_in_order(g, order, (#[trigger] dag.predecessors@[v as int])@)
}

/// `u` is settled at a position before `head`.
pub open spec fn settled_within(order: Seq<usize>, head: int, u: usize) -> bool {
    exists|i: int| 0 <= i < head && #[trigger] order[i] == u
}

/// The arc `(v, e)` appears among the first `k` arcs.
pub open spec fn arc_seen(arcs: Seq<ArcRef>, k: int, v: usize, e: usize) -> bool {
    exists|j: int| 0 <= j < k && #[trigger] arcs[j] == ArcRef { neighbor: v, edge: e }
}

/// `n` unreached distances.
fn unreached_distances(n: usize) -> (d: Vec<Option<usize>>)
    ensures
        d.len() == n,
        forall|i: int| 0 <= i < n ==> #[trigger] d@[i] is None,
{
    let mut d: Vec<Option<usize>> = Vec::new();
    let mut i: usize = 0;
    while i < n
        invariant
            i <= n,
            d.len() == i,
            forall|j: int| 0 <= j < i ==> #[trigger] d@[j] is None,
        decreases n - i,
    {
        d.push(None);
        i = i + 1;
    }
    d
}

/// `n` empty predecessor lists.
fn empty_rows(n: usize) -> (rows: Vec<Vec<(usize, usize)>>)
    ensures
        rows.len() == n,
        forall|i: int| 0 <= i < n ==> (#[trigger] rows@[i])@.len() == 0,
{
    let mut rows: Vec<Vec<(usize, usize)>> = Vec::new();
    let mut i: usize = 0;
    while i < n
        invariant
            i <= n,
            rows.len() == i,
            forall|j: int| 0 <= j < i ==> (#[trigger] rows@[j])@.len() == 0,
        decreases n - i,
    {
        rows.push(Vec::new());
        i = i + 1;
    }
    rows
}

/// The breadth-first queue and the facts that hold of it at every step.
#[verifier::opaque]
pub open spec fn bfs_core(g: Graph, source: usize, dist: Seq<Option<usize>>, preds: Seq<Vec<(usize, usize)>>, queue: Seq<usize>) -> bool {
    let n = g.spec_nodes().len();
    &&& source < n
    &&& dist.len() == n
    &&& preds.len() == n
    &&& dist[source as int] == Some(0usize)
    &&& queue.len() >= 1
    &&& queue[0] == source
    &&& queue.no_duplicates()
    &&& forall|i: int| 0 <= i < queue.len() ==> #[trigger] queue[i] < n
    &&& forall|v: usize| v < n ==> (#[trigger] dist[v as int] is Some <==> queue.contains(v))
    &&& forall|i: int, j: int| 0 <= i < j < queue.len() ==> hops(dist, #[trigger] queue[i]) <= hops(dist, #[trigger] queue[j])
    &&& forall|i: int| 0 <= i < queue.len() ==> hops(dist, #[trigger] queue[i]) <= i
    &&& forall|v: usize| v < n && v != source && #[trigger] dist[v as int] is Some ==> exists|u: usize, e: usize| dag_pred(g, dist, u, v, e)
    &&& forall|v: usize| v < n ==> (#[trigger] preds[v as int])@.no_duplicates()
    &&& forall|v: usize| v < n ==> preds_in_order(g, queue, (#[trigger] preds[v as int])@)
}

/// Every out-arc of a node settled before `head` has been relaxed, and the
/// predecessor lists hold the shortest-path arcs out of those nodes.
#[verifier::opaque]
pub open spec fn bfs_settled(g: Graph, dist: Seq<Option<usize>>, preds: Seq<Vec<(usize, usize)>>, queue: Seq<usize>, head: int) -> bool {
    let n = g.spec_nodes().len();
    &&& 0 <= head <= queue.len()
    &&& head < queue.len() ==> hops(dist, queue.last()) <= hops(dist, queue[head]) + 1
    &&& forall|i: int, v: usize, e: usize|
        0 <= i < head && #[trigger] out_step(g, queue[i], v, e) ==> v < n && dist[v as int] is Some && hops(dist, v) <= hops(dist, queue[i]) + 1
    &&& forall|v: usize, u: usize, e: usize| v < n ==> (#[trigger] preds[v as int]@.contains((u, e)) <==>
        (dag_pred(g, dist, u, v, e) && settled_within(queue, head, u)))
}

/// The scan of the arcs of `queue[head]` has relaxed its first `k` arcs.
#[verifier::opaque]
pub open spec fn bfs_scanning(
    g: Graph,
    dist: Seq<Option<usize>>,
    preds: Seq<Vec<(usize, usize)>>,
    queue: Seq<usize>,
    head: int,
    d: usize,
    arcs: Seq<ArcRef>,
    k: int,
) -> bool {
    let n = g.spec_nodes().len();
    let node = queue[head];
    &&& 0 <= head < queue.len()
    &&& dist[node as int] == Some(d)
    &&& d <= head
    &&& hops(dist, queue.last()) <= d + 1
    &&& arcs_sorted(g.spec_ranks(), arcs)
    &&& forall|a: ArcRef| #[trigger] arcs.contains(a) <==> is_traversal_arc(g.spec_endpoints(), g.spec_kind(), node as int, TraversalDirection::Out, a)
    &&& 0 <= k <= arcs.len()
    &&& forall|i: int, v: usize, e: usize|
        0 <= i < head && #[trigger] out_step(g, queue[i], v, e) ==> v < n && dist[v as int] is Some && hops(dist, v) <= hops(dist, queue[i]) + 1
    &&& forall|j: int| 0 <= j < k ==> (#[trigger] arcs[j]).neighbor < n && dist[arcs[j].neighbor as int] is Some
        && hops(dist, arcs[j].neighbor) <= d + 1
    &&& forall|v: usize, u: usize, e: usize| v < n ==> (#[trigger] preds[v as int]@.contains((u, e)) <==>
        (dag_pred(g, dist, u, v, e) && (settled_within(queue, head, u) || (u == node && arc_seen(arcs, k, v, e)))))
}

/// A queued node is no further than the last queued node.
proof fn lemma_queued_hops(dist: Seq<Option<usize>>, queue: Seq<usize>, v: usize)
    requires
        queue.contains(v),
        forall|i: int, j: int| 0 <= i < j < queue.len() ==> hops(dist, #[trigger] queue[i]) <= hops(dist, #[trigger] queue[j]),
    ensures
        hops(dist, v) <= hops(dist, queue.last()),
{
    let p = choose|p: int| 0 <= p < queue.len() && queue[p] == v;
    if p < queue.len() - 1 {
        assert(hops(dist, queue[p]) <= hops(dist, queue[queue.len() - 1]));
    }
}

/// Reaching a new neighbor through arc `k` appends it to the queue at one
/// hop past the scanned node, keeping the queue facts.
#[verifier::rlimit(100)]
proof fn lemma_reach_queue(
    g: Graph,
    source: usize,
    dist0: Seq<Option<usize>>,
    preds0: Seq<Vec<(usize, usize)>>,
    queue0: Seq<usize>,
    dist: Seq<Option<usize>>,
    preds: Seq<Vec<(usize, usize)>>,
    q: Seq<usize>,
    head: usize,
    d: usize,
    arcs: Seq<ArcRef>,
    k: usize,
)
    requires
        k < arcs.len(),
        arcs[k as int].neighbor < g.spec_nodes().len(),
        d + 1 <= usize::MAX,
        bfs_core(g, source, dist0, preds0, queue0),
        bfs_scanning(g, dist0, preds0, queue0, head as int, d, arcs, k as int),
        dist0[arcs[k as int].neighbor as int] is None,
        dist == dist0.update(arcs[k as int].neighbor as int, Some((d + 1) as usize)),
        q == queue0.push(arcs[k as int].neighbor),
        preds.len() == preds0.len(),
        forall|w: int| 0 <= w < preds.len() && w != arcs[k as int].neighbor ==> #[trigger] preds[w] == preds0[w],
        preds[arcs[k as int].neighbor as int]@ == preds0[arcs[k as int].neighbor as int]@.push((queue0[head as int], arcs[k as int].edge)),
    ensures
        forall|w: usize| w < g.spec_nodes().len() ==> (#[trigger] dist[w as int] is Some <==> q.contains(w)),
        q.no_duplicates(),
        forall|i: int| 0 <= i < q.len() ==> #[trigger] q[i] < g.spec_nodes().len(),
        forall|i: int, j: int| 0 <= i < j < q.len() ==> hops(dist, #[trigger] q[i]) <= hops(dist, #[trigger] q[j]),
        forall|i: int| 0 <= i < q.len() ==> hops(dist, #[trigger] q[i]) <= i,
        hops(dist, q.last()) <= d + 1,
{
    reveal(bfs_core);
    reveal(bfs_scanning);
    let n = g.spec_nodes().len();
    let node = queue0[head as int];
    let v = arcs[k as int].neighbor;
    let e = arcs[k as int].edge;
    assert(arcs.contains(arcs[k as int]));
    assert(out_step(g, node, v, e));
        assert(!queue0.contains(v));
        assert(q.subrange(0, queue0.len() as int) =~= queue0);
        assert forall|w: usize| w != v && w < n implies #[trigger] dist[w as int] == dist0[w as int] by {}
        assert forall|w: usize| w < n implies (#[trigger] dist[w as int] is Some <==> q.contains(w)) by {
            if w != v {
                if q.contains(w) {
                    let p = choose|p: int| 0 <= p < q.len() && q[p] == w;
                    assert(p < queue0.len());
                    assert(queue0[p] == w);
                }
                if queue0.contains(w) {
                    let p = choose|p: int| 0 <= p < queue0.len() && queue0[p] == w;
                    assert(q[p] == w);
                }
            } else {
                assert(q[queue0.len() as int] == w);
            }
        }
        assert forall|i: int| 0 <= i < queue0.len() implies #[trigger] q[i] == queue0[i] && hops(dist, q[i]) == hops(dist0, queue0[i]) by {
            assert(queue0.contains(queue0[i]));
        }
        assert(q.no_duplicates()) by {
            assert forall|i: int, j: int| 0 <= i < q.len() && 0 <= j < q.len() && i != j implies q[i] != q[j] by {
                if i < queue0.len() && j < queue0.len() {
                    assert(q[i] == queue0[i] && q[j] == queue0[j]);
                } else if i < queue0.len() {
                    assert(queue0.contains(q[i]));
                } else if j < queue0.len() {
                    assert(queue0.contains(q[j]));
                }
            }
        }
        assert forall|i: int, j: int| 0 <= i < j < q.len() implies hops(dist, #[trigger] q[i]) <= hops(dist, #[trigger] q[j]) by {
            if j == queue0.len() {
                assert(queue0.contains(queue0[i]));
                lemma_queued_hops(dist0, queue0, queue0[i]);
                assert(hops(dist0, queue0.last()) <= d + 1);
            } else {
                assert(q[i] == queue0[i] && q[j] == queue0[j]);
            }
        }
        assert forall|i: int| 0 <= i < q.len() implies hops(dist, #[trigger] q[i]) <= i by {
            if i < queue0.len() {
                assert(q[i] == queue0[i]);
            }
        }
        assert(hops(dist, q.last()) == d + 1);
}

/// Reaching a new neighbor through arc `k` gives it a shortest-path
/// predecessor and keeps those of the other nodes.
#[verifier::rlimit(100)]
proof fn lemma_reach_parent(
    g: Graph,
    source: usize,
    dist0: Seq<Option<usize>>,
    preds0: Seq<Vec<(usize, usize)>>,
    queue0: Seq<usize>,
    dist: Seq<Option<usize>>,
    preds: Seq<Vec<(usize, usize)>>,
    q: Seq<usize>,
    head: usize,
    d: usize,
    arcs: Seq<ArcRef>,
    k: usize,
)
    requires
        k < arcs.len(),
        arcs[k as int].neighbor < g.spec_nodes().len(),
        d + 1 <= usize::MAX,
        bfs_core(g, source, dist0, preds0, queue0),
        bfs_scanning(g, dist0, preds0, queue0, head as int, d, arcs, k as int),
        dist0[arcs[k as int].neighbor as int] is None,
        dist == dist0.update(arcs[k as int].neighbor as int, Some((d + 1) as usize)),
        q == queue0.push(arcs[k as int].neighbor),
        preds.len() == preds0.len(),
        forall|w: int| 0 <= w < preds.len() && w != arcs[k as int].neighbor ==> #[trigger] preds[w] == preds0[w],
        preds[arcs[k as int].neighbor as int]@ == preds0[arcs[k as int].neighbor as int]@.push((queue0[head as int], arcs[k as int].edge)),
    ensures
        forall|w: usize| w < g.spec_nodes().len() && w != source && #[trigger] dist[w as int] is Some ==> exists|u: usize, x: usize| dag_pred(g, dist, u, w, x),
{
    reveal(bfs_core);
    reveal(bfs_scanning);
    let n = g.spec_nodes().len();
    let node = queue0[head as int];
    let v = arcs[k as int].neighbor;
    let e = arcs[k as int].edge;
    assert(arcs.contains(arcs[k as int]));
    assert(out_step(g, node, v, e));
        assert(!queue0.contains(v));
        assert forall|w: usize, u: usize, x: usize| dag_pred(g, dist0, u, w, x) implies #[trigger] dag_pred(g, dist, u, w, x) by {
            assert(dist0[u as int] is Some && dist0[w as int] is Some);
            assert(u != v && w != v);
        }
        assert forall|w: usize| w < n && w != source && #[trigger] dist[w as int] is Some implies exists|u: usize, x: usize| dag_pred(g, dist, u, w, x) by {
            if w == v {
                assert(dag_pred(g, dist, node, v, e));
            } else {
                let (u, x) = choose|u: usize, x: usize| dag_pred(g, dist0, u, w, x);
                assert(dag_pred(g, dist, u, w, x));
            }
        }
}

/// Reaching a new neighbor through arc `k` relaxes that arc and keeps the
/// earlier relaxations.
#[verifier::rlimit(100)]
proof fn lemma_reach_relaxed(
    g: Graph,
    source: usize,
    dist0: Seq<Option<usize>>,
    preds0: Seq<Vec<(usize, usize)>>,
    queue0: Seq<usize>,
    dist: Seq<Option<usize>>,
    preds: Seq<Vec<(usize, usize)>>,
    q: Seq<usize>,
    head: usize,
    d: usize,
    arcs: Seq<ArcRef>,
    k: usize,
)
    requires
        k < arcs.len(),
        arcs[k as int].neighbor < g.spec_nodes().len(),
        d + 1 <= usize::MAX,
        bfs_core(g, source, dist0, preds0, queue0),
        bfs_scanning(g, dist0, preds0, queue0, head as int, d, arcs, k as int),
        dist0[arcs[k as int].neighbor as int] is None,
        dist == dist0.update(arcs[k as int].neighbor as int, Some((d + 1) as usize)),
        q == queue0.push(arcs[k as int].neighbor),
        preds.len() == preds0.len(),
        forall|w: int| 0 <= w < preds.len() && w != arcs[k as int].neighbor ==> #[trigger] preds[w] == preds0[w],
        preds[arcs[k as int].neighbor as int]@ == preds0[arcs[k as int].neighbor as int]@.push((queue0[head as int], arcs[k as int].edge)),
    ensures
        forall|i: int, w: usize, x: usize|
            0 <= i < head && #[trigger] out_step(g, q[i], w, x) ==> w < g.spec_nodes().len() && dist[w as int] is Some && hops(dist, w) <= hops(dist, q[i]) + 1,
        forall|j: int| 0 <= j < k + 1 ==> (#[trigger] arcs[j]).neighbor < g.spec_nodes().len() && dist[arcs[j].neighbor as int] is Some
            && hops(dist, arcs[j].neighbor) <= d + 1,
{
    reveal(bfs_core);
    reveal(bfs_scanning);
    let n = g.spec_nodes().len();
    let node = queue0[head as int];
    let v = arcs[k as int].neighbor;
    let e = arcs[k as int].edge;
    assert(arcs.contains(arcs[k as int]));
    assert(out_step(g, node, v, e));
        assert(!queue0.contains(v));
        assert forall|w: usize| w != v && w < n implies #[trigger] dist[w as int] == dist0[w as int] by {}
        assert forall|i: int| 0 <= i < queue0.len() implies #[trigger] q[i] == queue0[i] by {}
        assert forall|i: int, w: usize, x: usize|
            0 <= i < head && #[trigger] out_step(g, q[i], w, x) implies w < n && dist[w as int] is Some && hops(dist, w) <= hops(dist, q[i]) + 1 by {
            assert(q[i] == queue0[i]);
            assert(out_step(g, queue0[i], w, x));
            assert(w != v);
        }
        assert forall|j: int| 0 <= j < k + 1 implies (#[trigger] arcs[j]).neighbor < n && dist[arcs[j].neighbor as int] is Some
            && hops(dist, arcs[j].neighbor) <= d + 1 by {
            if j < k {
                assert(arcs[j].neighbor != v);
            }
        }
}

/// Reaching a new neighbor through arc `k` makes that arc its only
/// predecessor and leaves the other predecessor lists as they were.
#[verifier::rlimit(100)]
proof fn lemma_reach_preds(
    g: Graph,
    source: usize,
    dist0: Seq<Option<usize>>,
    preds0: Seq<Vec<(usize, usize)>>,
    queue0: Seq<usize>,
    dist: Seq<Option<usize>>,
    preds: Seq<Vec<(usize, usize)>>,
    q: Seq<usize>,
    head: usize,
    d: usize,
    arcs: Seq<ArcRef>,
    k: usize,
)
    requires
        k < arcs.len(),
        arcs[k as int].neighbor < g.spec_nodes().len(),
        d + 1 <= usize::MAX,
        bfs_core(g, source, dist0, preds0, queue0),
        bfs_scanning(g, dist0, preds0, queue0, head as int, d, arcs, k as int),
        dist0[arcs[k as int].neighbor as int] is None,
        dist == dist0.update(arcs[k as int].neighbor as int, Some((d + 1) as usize)),
        q == queue0.push(arcs[k as int].neighbor),
        preds.len() == preds0.len(),
        forall|w: int| 0 <= w < preds.len() && w != arcs[k as int].neighbor ==> #[trigger] preds[w] == preds0[w],
        preds[arcs[k as int].neighbor as int]@ == preds0[arcs[k as int].neighbor as int]@.push((queue0[head as int], arcs[k as int].edge)),
    ensures
        forall|w: usize| w < g.spec_nodes().len() ==> (#[trigger] preds[w as int])@.no_duplicates(),
        forall|w: usize| w < g.spec_nodes().len() ==> preds_in_order(g, q, (#[trigger] preds[w as int])@),
        forall|w: usize, u: usize, x: usize| w < g.spec_nodes().len() ==> (#[trigger] preds[w as int]@.contains((u, x)) <==>
            (dag_pred(g, dist, u, w, x) && (settled_within(q, head as int, u) || (u == queue0[head as int] && arc_seen(arcs, k + 1, w, x))))),
{
    reveal(bfs_core);
    reveal(bfs_scanning);
    let n = g.spec_nodes().len();
    let node = queue0[head as int];
    let v = arcs[k as int].neighbor;
    let e = arcs[k as int].edge;
    assert(arcs.contains(arcs[k as int]));
    assert(out_step(g, node, v, e));
        assert(!queue0.contains(v));
        assert(preds0[v as int]@.len() == 0) by {
            if preds0[v as int]@.len() > 0 {
                let (a, b) = preds0[v as int]@[0];
                assert(preds0[v as int]@.contains((a, b)));
            }
        }
        assert forall|i: int| 0 <= i < queue0.len() implies #[trigger] q[i] == queue0[i] by {}
        assert forall|w: usize| w < n implies (#[trigger] preds[w as int])@.no_duplicates() by {
            if w != v {
                assert(preds[w as int] == preds0[w as int]);
            } else {
                assert(preds[w as int]@.len() == 1);
            }
        }
        assert forall|w: usize| w < n implies preds_in_order(g, q, (#[trigger] preds[w as int])@) by {
            if w != v {
                assert(preds[w as int] == preds0[w as int]);
                let row = preds[w as int]@;
                assert forall|i: int, j: int| 0 <= i < j < row.len() implies {
                    ||| settled_before(q, (#[trigger] row[i]).0, (#[trigger] row[j]).0)
                    ||| (row[i].0 == row[j].0 && g.spec_ranks()[row[i].1 as int] < g.spec_ranks()[row[j].1 as int])
                } by {
                    if settled_before(queue0, row[i].0, row[j].0) {
                        let (p, r) = choose|p: int, r: int| 0 <= p < r < queue0.len() && #[trigger] queue0[p] == row[i].0 && #[trigger] queue0[r] == row[j].0;
                        assert(q[p] == queue0[p] && q[r] == queue0[r]);
                    }
                }
            }
        }
        assert forall|w: usize, u: usize, x: usize| w < n implies (#[trigger] preds[w as int]@.contains((u, x)) <==>
            (dag_pred(g, dist, u, w, x) && (settled_within(q, head as int, u) || (u == node && arc_seen(arcs, k + 1, w, x))))) by {
            assert(preds0[w as int]@.contains((u, x)) <==> (dag_pred(g, dist0, u, w, x)
                && (settled_within(queue0, head as int, u) || (u == node && arc_seen(arcs, k as int, w, x)))));
            lemma_arc_seen_next(arcs, k as int, w, x);
            lemma_settled_prefix(queue0, q, head as int, u);
            if w != v {
                assert(preds[w as int] == preds0[w as int]);
                if u == v {
                    assert(!settled_within(queue0, head as int, u)) by {
                        if settled_within(queue0, head as int, u) {
                            let i = choose|i: int| 0 <= i < head && #[trigger] queue0[i] == u;
                            assert(queue0.contains(u));
                        }
                    }
                    assert(u != node);
                    assert(!dag_pred(g, dist0, u, w, x));
                } else if dag_pred(g, dist0, u, w, x) || dag_pred(g, dist, u, w, x) {
                    assert(dist[u as int] == dist0[u as int]);
                    assert(dist[w as int] == dist0[w as int]);
                }
            } else {
                lemma_row_push(preds0[w as int]@, preds[w as int]@, (node, e));
                if dag_pred(g, dist, u, w, x) && settled_within(queue0, head as int, u) {
                    let i = choose|i: int| 0 <= i < head && #[trigger] queue0[i] == u;
                    assert(out_step(g, queue0[i], w, x));
                }
                if arc_seen(arcs, k as int, w, x) {
                    let j = choose|j: int| 0 <= j < k && #[trigger] arcs[j] == ArcRef { neighbor: w, edge: x };
                    assert(dist0[arcs[j].neighbor as int] is Some);
                }
                assert(dag_pred(g, dist, node, v, e));
            }
        }
}

/// Settling positions before `head` is unaffected by appending to the queue.
proof fn lemma_settled_prefix(queue0: Seq<usize>, q: Seq<usize>, head: int, u: usize)
    requires
        0 <= head <= queue0.len(),
        queue0.len() <= q.len(),
        forall|i: int| 0 <= i < queue0.len() ==> #[trigger] q[i] == queue0[i],
    ensures
        settled_within(q, head, u) == settled_within(queue0, head, u),
{
    if settled_within(q, head, u) {
        let i = choose|i: int| 0 <= i < head && #[trigger] q[i] == u;
        assert(queue0[i] == u);
    }
    if settled_within(queue0, head, u) {
        let i = choose|i: int| 0 <= i < head && #[trigger] queue0[i] == u;
        assert(q[i] == u);
    }
}

/// Reaching a new neighbor `v` of `queue[head]` through edge `e` keeps the
/// search facts and relaxes arc `k`.
proof fn lemma_relax_reach(
    g: Graph,
    source: usize,
    dist0: Seq<Option<usize>>,
    preds0: Seq<Vec<(usize, usize)>>,
    queue0: Seq<usize>,
    dist: Seq<Option<usize>>,
    preds: Seq<Vec<(usize, usize)>>,
    q: Seq<usize>,
    head: usize,
    d: usize,
    arcs: Seq<ArcRef>,
    k: usize,
)
    requires
        k < arcs.len(),
        arcs[k as int].neighbor < g.spec_nodes().len(),
        d + 1 <= usize::MAX,
        bfs_core(g, source, dist0, preds0, queue0),
        bfs_scanning(g, dist0, preds0, queue0, head as int, d, arcs, k as int),
        dist0[arcs[k as int].neighbor as int] is None,
        dist == dist0.update(arcs[k as int].neighbor as int, Some((d + 1) as usize)),
        q == queue0.push(arcs[k as int].neighbor),
        preds.len() == preds0.len(),
        forall|w: int| 0 <= w < preds.len() && w != arcs[k as int].neighbor ==> #[trigger] preds[w] == preds0[w],
        preds[arcs[k as int].neighbor as int]@ == preds0[arcs[k as int].neighbor as int]@.push((queue0[head as int], arcs[k as int].edge)),
    ensures
        bfs_core(g, source, dist, preds, q),
        bfs_scanning(g, dist, preds, q, head as int, d, arcs, k + 1),
{
    lemma_reach_queue(g, source, dist0, preds0, queue0, dist, preds, q, head, d, arcs, k);
    lemma_reach_parent(g, source, dist0, preds0, queue0, dist, preds, q, head, d, arcs, k);
    lemma_reach_relaxed(g, source, dist0, preds0, queue0, dist, preds, q, head, d, arcs, k);
    lemma_reach_preds(g, source, dist0, preds0, queue0, dist, preds, q, head, d, arcs, k);
    reveal(bfs_core);
    reveal(bfs_scanning);
    assert(q[0] == queue0[0]);
    assert(q[head as int] == queue0[head as int]);
}

/// Relaxing an arc of `queue[head]` into an already reached neighbor keeps
/// the search facts; the arc joins the predecessors exactly when it ends a
/// shortest path.
#[verifier::rlimit(80)]
proof fn lemma_relax_seen(
    g: Graph,
    source: usize,
    dist0: Seq<Option<usize>>,
    preds0: Seq<Vec<(usize, usize)>>,
    queue0: Seq<usize>,
    preds: Seq<Vec<(usize, usize)>>,
    head: usize,
    d: usize,
    arcs: Seq<ArcRef>,
    k: usize,
    is_next: bool,
)
    requires
        g.wf(),
        k < arcs.len(),
        bfs_core(g, source, dist0, preds0, queue0),
        bfs_scanning(g, dist0, preds0, queue0, head as int, d, arcs, k as int),
        dist0[arcs[k as int].neighbor as int] is Some,
        is_next == (dist0[arcs[k as int].neighbor as int].unwrap() == d + 1),
        preds.len() == preds0.len(),
        forall|w: int| 0 <= w < preds.len() && w != arcs[k as int].neighbor ==> #[trigger] preds[w] == preds0[w],
        is_next ==> preds[arcs[k as int].neighbor as int]@ == preds0[arcs[k as int].neighbor as int]@.push((queue0[head as int], arcs[k as int].edge)),
        !is_next ==> preds[arcs[k as int].neighbor as int] == preds0[arcs[k as int].neighbor as int],
    ensures
        bfs_core(g, source, dist0, preds, queue0),
        bfs_scanning(g, dist0, preds, queue0, head as int, d, arcs, k + 1),
{
    reveal(bfs_core);
    reveal(bfs_scanning);
    let n = g.spec_nodes().len();
    let node = queue0[head as int];
    let v = arcs[k as int].neighbor;
    let e = arcs[k as int].edge;
    assert(arcs.contains(arcs[k as int]));
    assert(out_step(g, node, v, e));
    assert(v < n);
    assert(queue0.contains(v));
    lemma_queued_hops(dist0, queue0, v);
        assert(dag_pred(g, dist0, node, v, e) == is_next);
        assert forall|w: usize| w < n && w != v implies #[trigger] preds[w as int] == preds0[w as int] by {}
        if is_next {
            assert(!preds0[v as int]@.contains((node, e))) by {
                if preds0[v as int]@.contains((node, e)) {
                    if settled_within(queue0, head as int, node) {
                        let i = choose|i: int| 0 <= i < head && #[trigger] queue0[i] == node;
                        assert(queue0[head as int] == node);
                    } else {
                        let j = choose|j: int| 0 <= j < k && #[trigger] arcs[j] == ArcRef { neighbor: v, edge: e };
                        assert(arc_before(g.spec_ranks(), arcs[j], arcs[k as int]));
                    }
                }
            }
            let row0 = preds0[v as int]@;
            let row = preds[v as int]@;
            assert(row =~= row0.push((node, e)));
            assert(row.no_duplicates()) by {
                assert forall|i: int, j: int| 0 <= i < row.len() && 0 <= j < row.len() && i != j implies row[i] != row[j] by {
                    if i < row0.len() && j < row0.len() {
                    } else if i < row0.len() {
                        assert(row0.contains(row[i]));
                    } else if j < row0.len() {
                        assert(row0.contains(row[j]));
                    }
                }
            }
            assert(preds_in_order(g, queue0, row)) by {
                assert forall|i: int, j: int| 0 <= i < j < row.len() implies {
                    ||| settled_before(queue0, (#[trigger] row[i]).0, (#[trigger] row[j]).0)
                    ||| (row[i].0 == row[j].0 && g.spec_ranks()[row[i].1 as int] < g.spec_ranks()[row[j].1 as int])
                } by {
                    if j == row0.len() {
                        let (u, x) = row[i];
                        assert(row0.contains((u, x)));
                        if settled_within(queue0, head as int, u) {
                            let p = choose|p: int| 0 <= p < head && #[trigger] queue0[p] == u;
                            assert(queue0[head as int] == node);
                            assert(settled_before(queue0, u, node));
                        } else {
                            let p = choose|p: int| 0 <= p < k && #[trigger] arcs[p] == ArcRef { neighbor: v, edge: x };
                            assert(arc_before(g.spec_ranks(), arcs[p], arcs[k as int]));
                        }
                    } else {
                        assert(row[i] == row0[i] && row[j] == row0[j]);
                    }
                }
            }
        }
        assert forall|w: usize, u: usize, x: usize| w < n implies (#[trigger] preds[w as int]@.contains((u, x)) <==>
            (dag_pred(g, dist0, u, w, x) && (settled_within(queue0, head as int, u) || (u == node && arc_seen(arcs, k + 1, w, x))))) by {
            assert(preds0[w as int]@.contains((u, x)) <==> (dag_pred(g, dist0, u, w, x)
                && (settled_within(queue0, head as int, u) || (u == node && arc_seen(arcs, k as int, w, x)))));
            lemma_arc_seen_next(arcs, k as int, w, x);
            if w != v {
                assert(preds[w as int] == preds0[w as int]);
            } else if is_next {
                lemma_row_push(preds0[w as int]@, preds[w as int]@, (node, e));
            } else {
                assert(preds[w as int] == preds0[w as int]);
            }
        }
}

/// A sequence extended by one value holds exactly the old values and the new one.
proof fn lemma_row_push(row0: Seq<(usize, usize)>, row: Seq<(usize, usize)>, x: (usize, usize))
    requires
        row == row0.push(x),
    ensures
        forall|y: (usize, usize)| #[trigger] row.contains(y) <==> (row0.contains(y) || y == x),
{
    assert forall|y: (usize, usize)| #[trigger] row.contains(y) <==> (row0.contains(y) || y == x) by {
        if row.contains(y) {
            let p = choose|p: int| 0 <= p < row.len() && row[p] == y;
            if p < row0.len() {
                assert(row0[p] == y);
            }
        }
        if row0.contains(y) {
            let p = choose|p: int| 0 <= p < row0.len() && row0[p] == y;
            assert(row[p] == y);
        }
        if y == x {
            assert(row[row0.len() as int] == y);
        }
    }
}

/// Seeing one more arc adds exactly that arc.
proof fn lemma_arc_seen_next(arcs: Seq<ArcRef>, k: int, w: usize, x: usize)
    requires
        0 <= k < arcs.len(),
    ensures
        arc_seen(arcs, k + 1, w, x) <==> (arc_seen(arcs, k, w, x) || arcs[k] == ArcRef { neighbor: w, edge: x }),
{
    if arc_seen(arcs, k + 1, w, x) && !arc_seen(arcs, k, w, x) {
        let j = choose|j: int| 0 <= j < k + 1 && #[trigger] arcs[j] == ArcRef { neighbor: w, edge: x };
        assert(j == k);
    }
    if arc_seen(arcs, k, w, x) {
        let j = choose|j: int| 0 <= j < k && #[trigger] arcs[j] == ArcRef { neighbor: w, edge: x };
        assert(arc_seen(arcs, k + 1, w, x));
    }
    if arcs[k] == (ArcRef { neighbor: w, edge: x }) {
        assert(arc_seen(arcs, k + 1, w, x));
    }
}

/// Relax arc `k` of the node being scanned: reach its neighbor if it is new,
/// and record the arc as a predecessor if it ends a shortest path.
fn relax_arc(
    g: &Graph,
    source: usize,
    distance: &mut Vec<Option<usize>>,
    predecessors: &mut Vec<Vec<(usize, usize)>>,
    queue: &mut Vec<usize>,
    head: usize,
    d: usize,
    arcs: &Vec<ArcRef>,
    k: usize,
)
    requires
        g.wf(),
        k < arcs.len(),
        head < old(queue).len(),
        bfs_core(*g, source, old(distance)@, old(predecessors)@, old(queue)@),
        bfs_scanning(*g, old(distance)@, old(predecessors)@, old(queue)@, head as int, d, arcs@, k as int),
    ensures
        bfs_core(*g, source, final(distance)@, final(predecessors)@, final(queue)@),
        bfs_scanning(*g, final(distance)@, final(predecessors)@, final(queue)@, head as int, d, arcs@, k + 1),
        head < final(queue).len(),
        final(queue)@[head as int] == old(queue)@[head as int],
        final(queue)@ == old(queue)@ || (final(queue)@ == old(queue)@.push(arcs@[k as int].neighbor)
            && !old(queue)@.contains(arcs@[k as int].neighbor)
            && final(predecessors)@[arcs@[k as int].neighbor as int]@ == seq![(old(queue)@[head as int], arcs@[k as int].edge)]),
        forall|w: int| 0 <= w < old(predecessors)@.len() && (#[trigger] old(predecessors)@[w])@.len() >= 1
            ==> final(predecessors)@[w]@.len() >= 1 && final(predecessors)@[w]@[0] == old(predecessors)@[w]@[0],
{
    let ghost dist0 = distance@;
    let ghost preds0 = predecessors@;
    let ghost queue0 = queue@;
    proof {
        reveal(bfs_core);
        reveal(bfs_scanning);
        assert(arcs@.contains(arcs@[k as int]));
    }
    let node = queue[head];
    let arc = arcs[k];
    let v = arc.neighbor;
    let e = arc.edge;
    if distance[v].is_none() {
        proof {
            reveal(bfs_scanning);
        }
        proof {
            reveal(bfs_core);
            reveal(bfs_scanning);
            if preds0[v as int]@.len() > 0 {
                let x = preds0[v as int]@[0];
                assert(preds0[v as int]@.contains(x));
                assert(dag_pred(*g, dist0, x.0, v, x.1));
            }
            assert(!queue0.contains(v));
        }
        distance.set(v, Some(d + 1));
        queue.push(v);
        predecessors[v].push((node, e));
        proof {
            assert(predecessors@[v as int]@ =~= seq![(node, e)]);
            assert(v < g.spec_nodes().len());
            lemma_relax_reach(*g, source, dist0, preds0, queue0, distance@, predecessors@, queue@, head, d, arcs@, k);
        }
    } else {
        let is_next = match distance[v] {
            Some(x) => x == d + 1,
            None => false,
        };
        if is_next {
            predecessors[v].push((node, e));
        }
        proof {
            lemma_relax_seen(*g, source, dist0, preds0, queue0, predecessors@, head, d, arcs@, k, is_next);
        }
    }
}

/// The search facts hold once the source alone is queued.
proof fn lemma_bfs_start(g: Graph, source: usize, dist: Seq<Option<usize>>, preds: Seq<Vec<(usize, usize)>>, queue: Seq<usize>)
    requires
        source < g.spec_nodes().len(),
        dist.len() == g.spec_nodes().len(),
        preds.len() == g.spec_nodes().len(),
        forall|v: int| 0 <= v < dist.len() && v != source ==> #[trigger] dist[v] is None,
        dist[source as int] == Some(0usize),
        forall|v: int| 0 <= v < preds.len() ==> (#[trigger] preds[v])@.len() == 0,
        queue == seq![source],
    ensures
        bfs_core(g, source, dist, preds, queue),
        bfs_settled(g, dist, preds, queue, 0),
{
    reveal(bfs_core);
    reveal(bfs_settled);
    let n = g.spec_nodes().len();
    assert forall|v: usize| v < n implies (#[trigger] dist[v as int] is Some <==> queue.contains(v)) by {
        if queue.contains(v) {
            let p = choose|p: int| 0 <= p < queue.len() && queue[p] == v;
            assert(p == 0);
        }
        if v == source {
            assert(queue[0] == v);
        }
    }
    assert forall|v: usize| v < n implies (#[trigger] preds[v as int])@.no_duplicates() by {
        assert(preds[v as int]@.len() == 0);
    }
    assert forall|v: usize, u: usize, e: usize| v < n implies !(#[trigger] preds[v as int]@.contains((u, e))) by {
        assert(preds[v as int]@.len() == 0);
    }
}

/// Facts about the node at the head of the queue, and the scan of its arcs
/// starting.
proof fn lemma_bfs_scan_start(
    g: Graph,
    source: usize,
    dist: Seq<Option<usize>>,
    preds: Seq<Vec<(usize, usize)>>,
    queue: Seq<usize>,
    head: usize,
)
    requires
        bfs_core(g, source, dist, preds, queue),
        bfs_settled(g, dist, preds, queue, head as int),
        head < queue.len(),
    ensures
        queue.len() <= g.spec_nodes().len(),
        dist.len() == g.spec_nodes().len(),
        preds.len() == g.spec_nodes().len(),
        queue[head as int] < g.spec_nodes().len(),
        dist[queue[head as int] as int] is Some,
        dist[queue[head as int] as int].unwrap() <= head,
        forall|arcs: Seq<ArcRef>|
            arcs_sorted(g.spec_ranks(), arcs) && (forall|a: ArcRef| #[trigger] arcs.contains(a) <==> is_traversal_arc(g.spec_endpoints(), g.spec_kind(), queue[head as int] as int, TraversalDirection::Out, a))
            ==> #[trigger] bfs_scanning(g, dist, preds, queue, head as int, dist[queue[head as int] as int].unwrap(), arcs, 0),
{
    reveal(bfs_core);
    reveal(bfs_settled);
    reveal(bfs_scanning);
    let n = g.spec_nodes().len();
    crate::cycles::lemma_distinct_len_bound(queue, n as int);
    assert(queue.contains(queue[head as int]));
    assert(hops(dist, queue[head as int]) <= head);
}

/// Once every arc of `queue[head]` is relaxed, the node counts as settled.
proof fn lemma_bfs_scan_end(
    g: Graph,
    source: usize,
    dist: Seq<Option<usize>>,
    preds: Seq<Vec<(usize, usize)>>,
    queue: Seq<usize>,
    head: usize,
    d: usize,
    arcs: Seq<ArcRef>,
)
    requires
        bfs_core(g, source, dist, preds, queue),
        bfs_scanning(g, dist, preds, queue, head as int, d, arcs, arcs.len() as int),
    ensures
        bfs_settled(g, dist, preds, queue, head + 1),
        queue.len() <= g.spec_nodes().len(),
        head < queue.len(),
{
    reveal(bfs_core);
    reveal(bfs_settled);
    reveal(bfs_scanning);
    let n = g.spec_nodes().len();
    crate::cycles::lemma_distinct_len_bound(queue, n as int);
    let node = queue[head as int];
    assert forall|i: int, v: usize, e: usize|
        0 <= i < head + 1 && #[trigger] out_step(g, queue[i], v, e) implies v < n && dist[v as int] is Some
            && hops(dist, v) <= hops(dist, queue[i]) + 1 by {
        if i == head {
            let a = ArcRef { neighbor: v, edge: e };
            assert(arcs.contains(a));
            let j = choose|j: int| 0 <= j < arcs.len() && arcs[j] == a;
            assert(arcs[j].neighbor == v);
        }
    }
    assert forall|v: usize, u: usize, e: usize| v < n implies (#[trigger] preds[v as int]@.contains((u, e)) <==>
        (dag_pred(g, dist, u, v, e) && settled_within(queue, head + 1, u))) by {
        if settled_within(queue, head + 1, u) && !settled_within(queue, head as int, u) {
            let i = choose|i: int| 0 <= i < head + 1 && #[trigger] queue[i] == u;
            assert(i == head);
            if dag_pred(g, dist, u, v, e) {
                let a = ArcRef { neighbor: v, edge: e };
                assert(arcs.contains(a));
                let j = choose|j: int| 0 <= j < arcs.len() && arcs[j] == a;
                assert(arc_seen(arcs, arcs.len() as int, v, e));
            }
        }
        if settled_within(queue, head as int, u) {
            let i = choose|i: int| 0 <= i < head && #[trigger] queue[i] == u;
            assert(settled_within(queue, head + 1, u));
        }
        if u == node {
            assert(queue[head as int] == u);
            assert(settled_within(queue, head + 1, u));
        }
    }
    if head + 1 < queue.len() {
        assert(hops(dist, queue[head as int]) <= hops(dist, queue[head + 1]));
    }
}

/// When the queue is exhausted, the search facts describe the shortest-path
/// structure.
proof fn lemma_bfs_finish(g: Graph, source: usize, dag: ShortestPathDag)
    requires
        bfs_core(g, source, dag.distance@, dag.predecessors@, dag.order@),
        bfs_settled(g, dag.distance@, dag.predecessors@, dag.order@, dag.order@.len() as int),
    ensures
        is_shortest_path_dag(g, source, dag),
{
    reveal(bfs_core);
    reveal(bfs_settled);
    let n = g.spec_nodes().len();
    let q = dag.order@;
    let dist = dag.distance@;
    assert forall|u: usize, v: usize, e: usize|
        u < n && dist[u as int] is Some && #[trigger] out_step(g, u, v, e) implies v < n && dist[v as int] is Some
            && hops(dist, v) <= hops(dist, u) + 1 by {
        assert(q.contains(u));
        let i = choose|i: int| 0 <= i < q.len() && q[i] == u;
        assert(out_step(g, q[i], v, e));
    }
    assert forall|v: usize, u: usize, e: usize| v < n implies (#[trigger] dag.predecessors@[v as int]@.contains((u, e)) <==> dag_pred(g, dist, u, v, e)) by {
        if dag_pred(g, dist, u, v, e) {
            assert(q.contains(u));
            let i = choose|i: int| 0 <= i < q.len() && q[i] == u;
            assert(settled_within(q, q.len() as int, u));
        }
    }
}

impl Graph {
    /// Breadth-first search from `source` along outgoing arcs, recording the
    /// settling order, hop distances and shortest-path predecessors.
    pub fn single_source_unweighted(&self, source: usize) -> (dag: ShortestPathDag)
        requires
            self.wf(),
            source < self.spec_nodes().len(),
        ensures
            is_shortest_path_dag(*self, source, dag),
            settled_fifo(dag.order@, dag.predecessors@),
    {
        let n = self.node_count();
        let mut distance = unreached_distances(n);
        let mut predecessors = empty_rows(n);
        distance.set(source, Some(0));
        let mut queue: Vec<usize> = Vec::new();
        queue.push(source);
        proof {
            assert(queue@ =~= seq![source]);
            lemma_bfs_start(*self, source, distance@, predecessors@, queue@);
        }
        let ghost mut disc: Seq<int> = seq![0int];
        let mut head: usize = 0;
        while head < queue.len()
            invariant
                self.wf(),
                n == self.spec_nodes().len(),
                bfs_core(*self, source, distance@, predecessors@, queue@),
                bfs_settled(*self, distance@, predecessors@, queue@, head as int),
                head <= queue.len(),
                disc.len() == queue.len(),
                predecessors.len() == n,
                forall|i: int| 0 <= i < queue.len() ==> #[trigger] queue@[i] < n,
                forall|i: int| 1 <= i < queue.len() ==> 0 <= #[trigger] disc[i] < head
                    && predecessors@[queue@[i] as int]@.len() >= 1 && predecessors@[queue@[i] as int]@[0].0 == queue@[disc[i]],
                forall|i: int, j: int| 1 <= i < j < queue.len() ==> #[trigger] disc[i] < #[trigger] disc[j]
                    || (disc[i] == disc[j] && queue@[i] < queue@[j]),
            decreases n - head,
        {
            proof {
                lemma_bfs_scan_start(*self, source, distance@, predecessors@, queue@, head);
            }
            let node = queue[head];
            let d = match distance[node] {
                Some(d) => d,
                None => 0,
            };
            let arcs = self.arcs(node, TraversalDirection::Out);
            assert(bfs_scanning(*self, distance@, predecessors@, queue@, head as int, d, arcs@, 0));
            let mut k: usize = 0;
            while k < arcs.len()
                invariant
                    self.wf(),
                    n == self.spec_nodes().len(),
                    head < queue.len(),
                    bfs_core(*self, source, distance@, predecessors@, queue@),
                    bfs_scanning(*self, distance@, predecessors@, queue@, head as int, d, arcs@, k as int),
                    node == queue@[head as int],
                    k <= arcs.len(),
                    arcs_sorted(self.spec_ranks(), arcs@),
                    disc.len() == queue.len(),
                    predecessors.len() == n,
                    forall|i: int| 0 <= i < queue.len() ==> #[trigger] queue@[i] < n,
                    forall|i: int| 1 <= i < queue.len() ==> 0 <= #[trigger] disc[i] <= head
                        && predecessors@[queue@[i] as int]@.len() >= 1 && predecessors@[queue@[i] as int]@[0].0 == queue@[disc[i]],
                    forall|i: int, j: int| 1 <= i < j < queue.len() ==> #[trigger] disc[i] < #[trigger] disc[j]
                        || (disc[i] == disc[j] && queue@[i] < queue@[j]),
                    forall|i: int| 1 <= i < queue.len() && #[trigger] disc[i] == head ==> k > 0 && queue@[i] <= arcs@[k - 1].neighbor,
                decreases arcs.len() - k,
            {
                let ghost q0 = queue@;
                let ghost p0 = predecessors@;
                relax_arc(self, source, &mut distance, &mut predecessors, &mut queue, head, d, &arcs, k);
                proof {
                    assert(bfs_core(*self, source, distance@, predecessors@, queue@));
                    assert(predecessors.len() == n && forall|i: int| 0 <= i < queue.len() ==> #[trigger] queue@[i] < n) by {
                        reveal(bfs_core);
                    }
                    if k > 0 {
                        assert(arc_before(self.spec_ranks(), arcs@[k - 1], arcs@[k as int]));
                    }
                    let d0 = disc;
                    if queue@.len() > q0.len() {
                        disc = disc.push(head as int);
                        let last = q0.len() as int;
                        assert(queue@[last] == arcs@[k as int].neighbor);
                        assert forall|i: int| 1 <= i < last && #[trigger] d0[i] == head implies queue@[i] < queue@[last] by {
                            assert(queue@[i] == q0[i]);
                            assert(q0.contains(q0[i]));
                        }
                    }
                    assert forall|i: int| 1 <= i < queue.len() implies 0 <= #[trigger] disc[i] <= head
                        && predecessors@[queue@[i] as int]@.len() >= 1 && predecessors@[queue@[i] as int]@[0].0 == queue@[disc[i]] by {
                        if i < q0.len() {
                            assert(queue@[i] == q0[i]);
                            assert(disc[i] == d0[i]);
                            assert(queue@[disc[i]] == q0[d0[i]]);
                        }
                    }
                    assert forall|i: int, j: int| 1 <= i < j < queue.len() implies #[trigger] disc[i] < #[trigger] disc[j]
                        || (disc[i] == disc[j] && queue@[i] < queue@[j]) by {
                        if j < q0.len() {
                            assert(disc[i] == d0[i] && disc[j] == d0[j]);
                            assert(queue@[i] == q0[i] && queue@[j] == q0[j]);
                        } else {
                            assert(disc[i] == d0[i]);
                            assert(queue@[i] == q0[i]);
                        }
                    }
                    assert forall|i: int| 1 <= i < queue.len() && #[trigger] disc[i] == head implies queue@[i] <= arcs@[k as int].neighbor by {
                        if i < q0.len() {
                            assert(disc[i] == d0[i]);
                            assert(queue@[i] == q0[i]);
                        }
                    }
                }
                k = k + 1;
            }
            proof {
                lemma_bfs_scan_end(*self, source, distance@, predecessors@, queue@, head, d, arcs@);
            }
            head = head + 1;
        }
        let dag = ShortestPathDag { order: queue, predecessors, distance };
        proof {
            lemma_bfs_finish(*self, source, dag);
            let order = dag.order@;
            let preds = dag.predecessors@;
            assert forall|i: int, j: int| 1 <= i < j < order.len() implies {
                ||| settled_before(order, preds[#[trigger] order[i] as int]@[0].0, preds[#[trigger] order[j] as int]@[0].0)
                ||| (preds[order[i] as int]@[0].0 == preds[order[j] as int]@[0].0 && order[i] < order[j])
            } by {
                if disc[i] < disc[j] {
                    assert(order[disc[i]] == preds[order[i] as int]@[0].0);
                    assert(order[disc[j]] == preds[order[j] as int]@[0].0);
                }
            }
        }
        dag
    }
}


/// `nodes` is a walk along out-arcs: each node is joined to the next by an
/// edge that Brandes traverses.
pub open spec fn is_out_walk(g: Graph, nodes: Seq<usize>) -> bool {
    &&& nodes.len() >= 1
    &&& forall|i: int| #![trigger nodes[i]] 0 <= i < nodes.len() - 1 ==> steps_to(g, nodes[i], nodes[i + 1])
}

/// Some edge leads out of `a` into `b`.
pub open spec fn steps_to(g: Graph, a: usize, b: usize) -> bool {
    exists|e: usize| #[trigger] out_step(g, a, b, e)
}

/// Breadth-first distances are never longer than a walk: the end of any walk
/// from the source is reached, at most as many hops away as the walk has steps.
pub proof fn lemma_hops_at_most_walk(g: Graph, source: usize, dag: ShortestPathDag, walk: Seq<usize>)
    requires
        source < g.spec_nodes().len(),
        is_shortest_path_dag(g, source, dag),
        is_out_walk(g, walk),
        walk[0] == source,
    ensures
        walk.last() < g.spec_nodes().len(),
        dag.distance@[walk.last() as int] is Some,
        hops(dag.distance@, walk.last()) <= walk.len() - 1,
    decreases walk.len(),
{
    if walk.len() > 1 {
        let prefix = walk.drop_last();
        assert forall|i: int| 0 <= i < prefix.len() - 1 implies steps_to(g, #[trigger] prefix[i], prefix[i + 1]) by {
            assert(prefix[i] == walk[i] && prefix[i + 1] == walk[i + 1]);
            assert(steps_to(g, walk[i], walk[i + 1]));
        }
        lemma_hops_at_most_walk(g, source, dag, prefix);
        let k = walk.len() - 2;
        assert(steps_to(g, walk[k], walk[k + 1]));
        let e = choose|e: usize| #[trigger] out_step(g, walk[k], walk[k + 1], e);
        assert(prefix.last() == walk[k]);
        assert(out_step(g, walk[k], walk[k + 1], e));
    }
}

/// Following shortest-path predecessors back from a reached node gives a
/// walk from the source with exactly its hop count of steps.
proof fn lemma_walk_back(g: Graph, source: usize, dist: Seq<Option<usize>>, v: usize) -> (walk: Seq<usize>)
    requires
        dist.len() == g.spec_nodes().len(),
        dist[source as int] == Some(0usize),
        forall|w: usize| w < dist.len() && w != source && #[trigger] dist[w as int] is Some ==> exists|u: usize, e: usize| dag_pred(g, dist, u, w, e),
        v < dist.len(),
        dist[v as int] is Some,
    ensures
        is_out_walk(g, walk),
        walk[0] == source,
        walk.last() == v,
        walk.len() == hops(dist, v) + 1,
    decreases dist[v as int].unwrap(),
{
    if v == source {
        seq![source]
    } else {
        let (u, e) = choose|u: usize, e: usize| dag_pred(g, dist, u, v, e);
        let before = lemma_walk_back(g, source, dist, u);
        let walk = before.push(v);
        assert forall|i: int| 0 <= i < walk.len() - 1 implies steps_to(g, #[trigger] walk[i], walk[i + 1]) by {
            if i < before.len() - 1 {
                assert(walk[i] == before[i] && walk[i + 1] == before[i + 1]);
                assert(steps_to(g, before[i], before[i + 1]));
            } else {
                assert(walk[i] == u && walk[i + 1] == v);
                assert(out_step(g, walk[i], walk[i + 1], e));
            }
        }
        walk
    }
}

/// Breadth-first distances are attained: every reached node ends a walk from
/// the source with exactly its hop count of steps.
pub proof fn lemma_hops_attained(g: Graph, source: usize, dag: ShortestPathDag, v: usize) -> (walk: Seq<usize>)
    requires
        is_shortest_path_dag(g, source, dag),
        v < g.spec_nodes().len(),
        dag.distance@[v as int] is Some,
    ensures
        is_out_walk(g, walk),
        walk[0] == source,
        walk.last() == v,
        walk.len() == hops(dag.distance@, v) + 1,
{
    lemma_walk_back(g, source, dag.distance@, v)
}

} // verus!
