//! Validated immutable graph: construction, adjacency and lookup.
use vstd::prelude::*;

use crate::model::{ArcRef, Attributes, Edge, EdgeId, GraphError, GraphKind, Node, NodeId, TraversalDirection, edge_id_lt, edge_id_order};
use crate::weight::{is_non_negative_finite, is_non_negative_finite_bits};
use crate::order::{Comparison, compare_str, lemma_str_lt_irreflexive, lemma_str_lt_transitive, lemma_str_total, lemma_str_lt_asymmetric, str_lt};

verus! {

/// Node identities are strictly increasing.
pub open spec fn node_ids_sorted(s: Seq<Node>) -> bool {
    forall|i: int, j: int| 0 <= i < j < s.len() ==> str_lt(#[trigger] s[i].id@, #[trigger] s[j].id@)
}

/// Input node `j` repeats the identity of an earlier input node.
pub open spec fn node_repeats(input: Seq<Node>, j: int) -> bool {
    exists|i: int| 0 <= i < j && #[trigger] input[i].id@ == input[j].id@
}

/// Some input node repeats an earlier identity.
pub open spec fn has_repeated_node(input: Seq<Node>) -> bool {
    exists|j: int| 0 <= j < input.len() && node_repeats(input, j)
}

/// `j` is the first input node that repeats an earlier identity.
pub open spec fn first_repeated_node(input: Seq<Node>, j: int) -> bool {
    &&& 0 <= j < input.len()
    &&& node_repeats(input, j)
    &&& forall|k: int| 0 <= k < j ==> !node_repeats(input, k)
}

/// Binary search of a sorted node sequence for an identity.
///
/// Returns whether the identity is present and the position of the first
/// node whose identity is not before it.
fn search_node(s: &Vec<Node>, id: &str) -> (r: (bool, usize))
    requires
        node_ids_sorted(s@),
    ensures
        r.1 <= s.len(),
        forall|i: int| 0 <= i < r.1 ==> str_lt(#[trigger] s@[i].id@, id@),
        r.0 ==> r.1 < s.len() && s@[r.1 as int].id@ == id@,
        !r.0 ==> forall|i: int| r.1 <= i < s.len() ==> str_lt(id@, #[trigger] s@[i].id@),
{
    let mut lo: usize = 0;
    let mut hi: usize = s.len();
    while lo < hi
        invariant
            node_ids_sorted(s@),
            lo <= hi <= s.len(),
            forall|i: int| 0 <= i < lo ==> str_lt(#[trigger] s@[i].id@, id@),
            forall|i: int| hi <= i < s.len() ==> str_lt(id@, #[trigger] s@[i].id@),
        decreases hi - lo,
    {
        let mid = lo + (hi - lo) / 2;
        match compare_str(s[mid].id.as_str(), id) {
            Comparison::Less => {
                assert forall|i: int| 0 <= i < mid + 1 implies str_lt(#[trigger] s@[i].id@, id@) by {
                    if i < mid {
                        lemma_str_lt_transitive(s@[i].id@, s@[mid as int].id@, id@);
                    }
                }
                lo = mid + 1;
            },
            Comparison::Greater => {
                proof {
                    lemma_str_total(s@[mid as int].id@, id@);
                }
                assert forall|i: int| mid <= i < s.len() implies str_lt(id@, #[trigger] s@[i].id@) by {
                    if i > mid {
                        lemma_str_lt_transitive(id@, s@[mid as int].id@, s@[i].id@);
                    }
                }
                hi = mid;
            },
            Comparison::Equal => {
                return (true, mid);
            },
        }
    }
    (false, lo)
}

/// Sort nodes by identity, rejecting the first repeated identity.
fn sort_nodes(input: Vec<Node>) -> (r: Result<Vec<Node>, GraphError>)
    ensures
        r is Ok <==> !has_repeated_node(input@),
        r matches Ok(s) ==> {
            &&& node_ids_sorted(s@)
            &&& s.len() == input.len()
            &&& forall|n: Node| s@.contains(n) <==> input@.contains(n)
        },
        r matches Err(e) ==> exists|j: int|
            first_repeated_node(input@, j) && e == GraphError::DuplicateNode(input@[j].id),
{
    let ghost inp = input@;
    let n = input.len();
    let mut sorted: Vec<Node> = Vec::new();
    let mut k: usize = 0;
    for node in it: input
        invariant
            inp == it.seq(),
            k == it.index(),
            k <= inp.len(),
            inp.len() == n,
            sorted.len() == k,
            node_ids_sorted(sorted@),
            forall|n: Node| sorted@.contains(n) <==> inp.take(k as int).contains(n),
            forall|j: int| 0 <= j < k ==> !node_repeats(inp, j),
    {
        assert(k < inp.len());
        assert(inp[k as int] == node);
        let (found, pos) = search_node(&sorted, node.id.as_str());
        if found {
            let ghost m = sorted@[pos as int];
            assert(sorted@.contains(m));
            assert(inp.take(k as int).contains(m));
            let ghost i = choose|i: int| 0 <= i < k && inp.take(k as int)[i] == m;
            assert(inp[i] == m);
            assert(node_repeats(inp, k as int));
            assert(first_repeated_node(inp, k as int));
            return Err(GraphError::DuplicateNode(node.id));
        }
        proof {
            assert forall|i: int| 0 <= i < k implies #[trigger] inp[i].id@ != inp[k as int].id@ by {
                assert(inp.take(k as int)[i] == inp[i]);
                assert(inp.take(k as int).contains(inp[i]));
                assert(sorted@.contains(inp[i]));
                let q = choose|q: int| 0 <= q < sorted.len() && sorted@[q] == inp[i];
                if q < pos {
                    assert(str_lt(sorted@[q].id@, node.id@));
                } else {
                    assert(str_lt(node.id@, sorted@[q].id@));
                }
                lemma_str_lt_irreflexive(node.id@);
            }
        }
        let ghost old_sorted = sorted@;
        sorted.insert(pos, node);
        proof {
            old_sorted.insert_ensures(pos as int, inp[k as int]);
            assert forall|i: int, j: int| 0 <= i < j < sorted@.len() implies str_lt(
                #[trigger] sorted@[i].id@,
                #[trigger] sorted@[j].id@,
            ) by {
                if j < pos {
                } else if j == pos {
                } else if i < pos {
                    assert(sorted@[j] == old_sorted[j - 1]);
                } else if i == pos {
                    assert(sorted@[j] == old_sorted[j - 1]);
                } else {
                    assert(sorted@[i] == old_sorted[i - 1]);
                    assert(sorted@[j] == old_sorted[j - 1]);
                }
            }
            assert(inp.take(k + 1) =~= inp.take(k as int).push(inp[k as int]));
            assert forall|n: Node| sorted@.contains(n) <==> inp.take(k + 1).contains(n) by {
                if sorted@.contains(n) {
                    let q = choose|q: int| 0 <= q < sorted.len() && sorted@[q] == n;
                    if q < pos {
                        assert(old_sorted[q] == n);
                        assert(old_sorted.contains(n));
                        assert(inp.take(k as int).contains(n));
                        let t = choose|t: int| 0 <= t < k && inp.take(k as int)[t] == n;
                        assert(inp.take(k + 1)[t] == n);
                    } else if q > pos {
                        assert(old_sorted[q - 1] == n);
                        assert(old_sorted.contains(n));
                        assert(inp.take(k as int).contains(n));
                        let t = choose|t: int| 0 <= t < k && inp.take(k as int)[t] == n;
                        assert(inp.take(k + 1)[t] == n);
                    } else {
                        assert(inp.take(k + 1)[k as int] == n);
                    }
                }
                if inp.take(k + 1).contains(n) {
                    let t = choose|t: int| 0 <= t < k + 1 && #[trigger] inp.take(k + 1)[t] == n;
                    if t == k {
                        assert(sorted@[pos as int] == n);
                    } else {
                        assert(inp.take(k as int)[t] == n);
                        assert(inp.take(k as int).contains(n));
                        assert(old_sorted.contains(n));
                        let q = choose|q: int| 0 <= q < old_sorted.len() && old_sorted[q] == n;
                        if q < pos {
                            assert(sorted@[q] == n);
                        } else {
                            assert(sorted@[q + 1] == n);
                        }
                    }
                }
            }
        }
        k = k + 1;
    }
    proof {
        assert(inp.take(k as int) =~= inp);
    }
    Ok(sorted)
}


/// Edge identities are strictly increasing.
pub open spec fn edge_ids_sorted(s: Seq<Edge>) -> bool {
    forall|i: int, j: int|
        0 <= i < j < s.len() ==> edge_id_lt(#[trigger] s[i].id@, #[trigger] s[j].id@)
}

/// Some node carries this identity.
pub open spec fn has_node_id(nodes: Seq<Node>, id: Seq<char>) -> bool {
    exists|i: int| 0 <= i < nodes.len() && #[trigger] nodes[i].id@ == id
}

/// The first check that an edge fails on its own, in the order they are made:
/// empty identity, missing source, missing target, invalid weight.
pub open spec fn edge_local_error(nodes: Seq<Node>, e: Edge) -> Option<GraphError> {
    if e.id@.0.len() == 0 {
        Some(GraphError::EmptyEdgeId)
    } else if !has_node_id(nodes, e.source@) {
        Some(GraphError::MissingEndpoint { edge_id: e.id, endpoint: "source", node_id: e.source })
    } else if !has_node_id(nodes, e.target@) {
        Some(GraphError::MissingEndpoint { edge_id: e.id, endpoint: "target", node_id: e.target })
    } else if e.weight is Some && !is_non_negative_finite_bits(e.weight->0) {
        Some(GraphError::InvalidWeight { edge_id: e.id, weight: e.weight->0 })
    } else {
        None
    }
}

/// Input edge `j` repeats the identity of an earlier input edge.
pub open spec fn edge_repeats(input: Seq<Edge>, j: int) -> bool {
    exists|i: int| 0 <= i < j && #[trigger] input[i].id@ == input[j].id@
}

/// The error that input edge `j` raises when the edges before it passed.
pub open spec fn edge_error_at(nodes: Seq<Node>, input: Seq<Edge>, j: int) -> Option<GraphError> {
    match edge_local_error(nodes, input[j]) {
        Some(err) => Some(err),
        None => if edge_repeats(input, j) {
            Some(GraphError::DuplicateEdge(input[j].id))
        } else {
            None
        },
    }
}

/// Some input edge is rejected.
pub open spec fn has_edge_error(nodes: Seq<Node>, input: Seq<Edge>) -> bool {
    exists|j: int| 0 <= j < input.len() && #[trigger] edge_error_at(nodes, input, j) is Some
}

/// `j` is the first rejected input edge.
pub open spec fn first_edge_error(nodes: Seq<Node>, input: Seq<Edge>, j: int) -> bool {
    &&& 0 <= j < input.len()
    &&& edge_error_at(nodes, input, j) is Some
    &&& forall|k: int| 0 <= k < j ==> #[trigger] edge_error_at(nodes, input, k) is None
}

/// Each edge's endpoints are given by node positions.
pub open spec fn endpoints_match(nodes: Seq<Node>, edges: Seq<Edge>, ends: Seq<(usize, usize)>) -> bool {
    &&& ends.len() == edges.len()
    &&& forall|e: int|
        0 <= e < edges.len() ==> {
            &&& (#[trigger] ends[e]).0 < nodes.len()
            &&& ends[e].1 < nodes.len()
            &&& nodes[ends[e].0 as int].id@ == edges[e].source@
            &&& nodes[ends[e].1 as int].id@ == edges[e].target@
        }
}

pub proof fn lemma_edge_id_lt_transitive(a: (Seq<char>, u64), b: (Seq<char>, u64), c: (Seq<char>, u64))
    requires
        edge_id_lt(a, b),
        edge_id_lt(b, c),
    ensures
        edge_id_lt(a, c),
{
    if str_lt(a.0, b.0) && str_lt(b.0, c.0) {
        lemma_str_lt_transitive(a.0, b.0, c.0);
    }
}

pub proof fn lemma_edge_id_lt_irreflexive(a: (Seq<char>, u64))
    ensures
        !edge_id_lt(a, a),
{
    lemma_str_lt_irreflexive(a.0);
}

pub proof fn lemma_edge_id_total(a: (Seq<char>, u64), b: (Seq<char>, u64))
    ensures
        edge_id_lt(a, b) || a == b || edge_id_lt(b, a),
{
    lemma_str_total(a.0, b.0);
}

/// Binary search of a sorted edge sequence for an identity.
fn search_edge(s: &Vec<Edge>, id: &EdgeId) -> (r: (bool, usize))
    requires
        edge_ids_sorted(s@),
    ensures
        r.1 <= s.len(),
        forall|i: int| 0 <= i < r.1 ==> edge_id_lt(#[trigger] s@[i].id@, id@),
        r.0 ==> r.1 < s.len() && s@[r.1 as int].id@ == id@,
        !r.0 ==> forall|i: int| r.1 <= i < s.len() ==> edge_id_lt(id@, #[trigger] s@[i].id@),
{
    let mut lo: usize = 0;
    let mut hi: usize = s.len();
    while lo < hi
        invariant
            edge_ids_sorted(s@),
            lo <= hi <= s.len(),
            forall|i: int| 0 <= i < lo ==> edge_id_lt(#[trigger] s@[i].id@, id@),
            forall|i: int| hi <= i < s.len() ==> edge_id_lt(id@, #[trigger] s@[i].id@),
        decreases hi - lo,
    {
        let mid = lo + (hi - lo) / 2;
        match s[mid].id.compare(id) {
            Comparison::Less => {
                assert forall|i: int| 0 <= i < mid + 1 implies edge_id_lt(#[trigger] s@[i].id@, id@) by {
                    if i < mid {
                        lemma_edge_id_lt_transitive(s@[i].id@, s@[mid as int].id@, id@);
                    }
                }
                lo = mid + 1;
            },
            Comparison::Greater => {
                proof {
                    lemma_edge_id_total(s@[mid as int].id@, id@);
                }
                assert forall|i: int| mid <= i < s.len() implies edge_id_lt(id@, #[trigger] s@[i].id@) by {
                    if i > mid {
                        lemma_edge_id_lt_transitive(id@, s@[mid as int].id@, s@[i].id@);
                    }
                }
                hi = mid;
            },
            Comparison::Equal => {
                return (true, mid);
            },
        }
    }
    (false, lo)
}

/// Validate edges in input order and sort them by identity, recording the
/// positions of their endpoints among the sorted nodes.
fn sort_edges(nodes: &Vec<Node>, input: Vec<Edge>) -> (r: Result<(Vec<Edge>, Vec<(usize, usize)>), GraphError>)
    requires
        node_ids_sorted(nodes@),
    ensures
        r is Ok <==> !has_edge_error(nodes@, input@),
        r matches Ok(out) ==> {
            &&& edge_ids_sorted(out.0@)
            &&& out.0.len() == input.len()
            &&& forall|e: Edge| out.0@.contains(e) <==> input@.contains(e)
            &&& endpoints_match(nodes@, out.0@, out.1@)
            &&& forall|e: int| 0 <= e < out.0.len() ==> #[trigger] edge_local_error(nodes@, out.0@[e]) is None
        },
        r matches Err(err) ==> exists|j: int|
            first_edge_error(nodes@, input@, j) && Some(err) == edge_error_at(nodes@, input@, j),
{
    let ghost inp = input@;
    let n = input.len();
    let mut sorted: Vec<Edge> = Vec::new();
    let mut ends: Vec<(usize, usize)> = Vec::new();
    let mut k: usize = 0;
    for edge in it: input
        invariant
            node_ids_sorted(nodes@),
            inp == it.seq(),
            k == it.index(),
            k <= inp.len(),
            inp.len() == n,
            sorted.len() == k,
            edge_ids_sorted(sorted@),
            endpoints_match(nodes@, sorted@, ends@),
            forall|e: Edge| sorted@.contains(e) <==> inp.take(k as int).contains(e),
            forall|j: int| 0 <= j < k ==> #[trigger] edge_error_at(nodes@, inp, j) is None,
            forall|e: int| 0 <= e < sorted.len() ==> #[trigger] edge_local_error(nodes@, sorted@[e]) is None,
    {
        assert(k < inp.len());
        assert(inp[k as int] == edge);
        if !edge.id.is_valid() {
            assert(first_edge_error(nodes@, inp, k as int));
            return Err(GraphError::EmptyEdgeId);
        }
        let (has_source, source) = search_node(nodes, edge.source.as_str());
        if !has_source {
            proof {
                assert forall|i: int| 0 <= i < nodes.len() implies #[trigger] nodes@[i].id@ != edge.source@ by {
                    if i < source {
                    } else {
                    }
                    lemma_str_lt_irreflexive(edge.source@);
                }
                assert(first_edge_error(nodes@, inp, k as int));
            }
            return Err(
                GraphError::MissingEndpoint { edge_id: edge.id, endpoint: "source", node_id: edge.source },
            );
        }
        let (has_target, target) = search_node(nodes, edge.target.as_str());
        if !has_target {
            proof {
                assert forall|i: int| 0 <= i < nodes.len() implies #[trigger] nodes@[i].id@ != edge.target@ by {
                    lemma_str_lt_irreflexive(edge.target@);
                }
                assert(first_edge_error(nodes@, inp, k as int));
            }
            return Err(
                GraphError::MissingEndpoint { edge_id: edge.id, endpoint: "target", node_id: edge.target },
            );
        }
        match edge.weight {
            Some(w) => {
                if !is_non_negative_finite(w) {
                    assert(first_edge_error(nodes@, inp, k as int));
                    return Err(GraphError::InvalidWeight { edge_id: edge.id, weight: w });
                }
            },
            None => {},
        }
        assert(edge_local_error(nodes@, edge) is None);
        let (found, pos) = search_edge(&sorted, &edge.id);
        if found {
            let ghost m = sorted@[pos as int];
            assert(sorted@.contains(m));
            assert(inp.take(k as int).contains(m));
            let ghost i = choose|i: int| 0 <= i < k && #[trigger] inp.take(k as int)[i] == m;
            assert(inp[i] == m);
            assert(edge_repeats(inp, k as int));
            assert(first_edge_error(nodes@, inp, k as int));
            return Err(GraphError::DuplicateEdge(edge.id));
        }
        proof {
            assert forall|i: int| 0 <= i < k implies #[trigger] inp[i].id@ != inp[k as int].id@ by {
                assert(inp.take(k as int)[i] == inp[i]);
                assert(inp.take(k as int).contains(inp[i]));
                assert(sorted@.contains(inp[i]));
                let q = choose|q: int| 0 <= q < sorted.len() && sorted@[q] == inp[i];
                if q < pos {
                    assert(edge_id_lt(sorted@[q].id@, edge.id@));
                } else {
                    assert(edge_id_lt(edge.id@, sorted@[q].id@));
                }
                lemma_edge_id_lt_irreflexive(edge.id@);
            }
            assert(!edge_repeats(inp, k as int));
        }
        let ghost old_sorted = sorted@;
        let ghost old_ends = ends@;
        let ghost e_k = edge;
        sorted.insert(pos, edge);
        ends.insert(pos, (source, target));
        proof {
            old_sorted.insert_ensures(pos as int, e_k);
            old_ends.insert_ensures(pos as int, (source, target));
            assert forall|i: int, j: int| 0 <= i < j < sorted@.len() implies edge_id_lt(
                #[trigger] sorted@[i].id@,
                #[trigger] sorted@[j].id@,
            ) by {
                if j < pos {
                } else if j == pos {
                } else if i < pos {
                    assert(sorted@[j] == old_sorted[j - 1]);
                } else if i == pos {
                    assert(sorted@[j] == old_sorted[j - 1]);
                } else {
                    assert(sorted@[i] == old_sorted[i - 1]);
                    assert(sorted@[j] == old_sorted[j - 1]);
                }
            }
            assert forall|e: int| 0 <= e < sorted.len() implies #[trigger] edge_local_error(nodes@, sorted@[e]) is None by {
                if e < pos {
                } else if e > pos {
                    assert(sorted@[e] == old_sorted[e - 1]);
                }
            }
            assert forall|e: int| 0 <= e < sorted.len() implies {
                &&& (#[trigger] ends@[e]).0 < nodes.len()
                &&& ends@[e].1 < nodes.len()
                &&& nodes@[ends@[e].0 as int].id@ == sorted@[e].source@
                &&& nodes@[ends@[e].1 as int].id@ == sorted@[e].target@
            } by {
                if e < pos {
                } else if e > pos {
                    assert(sorted@[e] == old_sorted[e - 1]);
                    assert(ends@[e] == old_ends[e - 1]);
                }
            }
            assert forall|e: Edge| sorted@.contains(e) <==> inp.take(k + 1).contains(e) by {
                if sorted@.contains(e) {
                    let q = choose|q: int| 0 <= q < sorted.len() && sorted@[q] == e;
                    if q < pos {
                        assert(old_sorted[q] == e);
                        assert(old_sorted.contains(e));
                        assert(inp.take(k as int).contains(e));
                        let t = choose|t: int| 0 <= t < k && #[trigger] inp.take(k as int)[t] == e;
                        assert(inp.take(k + 1)[t] == e);
                    } else if q > pos {
                        assert(old_sorted[q - 1] == e);
                        assert(old_sorted.contains(e));
                        assert(inp.take(k as int).contains(e));
                        let t = choose|t: int| 0 <= t < k && #[trigger] inp.take(k as int)[t] == e;
                        assert(inp.take(k + 1)[t] == e);
                    } else {
                        assert(inp.take(k + 1)[k as int] == e);
                    }
                }
                if inp.take(k + 1).contains(e) {
                    let t = choose|t: int| 0 <= t < k + 1 && #[trigger] inp.take(k + 1)[t] == e;
                    if t == k {
                        assert(sorted@[pos as int] == e);
                    } else {
                        assert(inp.take(k as int)[t] == e);
                        assert(inp.take(k as int).contains(e));
                        assert(old_sorted.contains(e));
                        let q = choose|q: int| 0 <= q < old_sorted.len() && old_sorted[q] == e;
                        if q < pos {
                            assert(sorted@[q] == e);
                        } else {
                            assert(sorted@[q + 1] == e);
                        }
                    }
                }
            }
            assert(edge_error_at(nodes@, inp, k as int) is None);
        }
        k = k + 1;
    }
    proof {
        assert(inp.take(k as int) =~= inp);
    }
    Ok((sorted, ends))
}


/// The endpoint pair that simple graphs keep unique: as stored for directed
/// kinds, and with the smaller identity first for undirected kinds.
pub open spec fn canonical_pair(kind: GraphKind, e: Edge) -> (Seq<char>, Seq<char>) {
    if kind.directed() || !str_lt(e.target@, e.source@) {
        (e.source@, e.target@)
    } else {
        (e.target@, e.source@)
    }
}

/// Sorted edge `k` repeats the endpoint pair of an earlier sorted edge.
pub open spec fn pair_repeats(kind: GraphKind, edges: Seq<Edge>, k: int) -> bool {
    exists|j: int|
        0 <= j < k && #[trigger] canonical_pair(kind, edges[j]) == canonical_pair(kind, edges[k])
}

/// A simple graph kind with a repeated endpoint pair.
pub open spec fn has_parallel_edge(kind: GraphKind, edges: Seq<Edge>) -> bool {
    !kind.multigraph() && exists|k: int| 0 <= k < edges.len() && #[trigger] pair_repeats(kind, edges, k)
}

/// `k` is the first sorted edge that repeats an endpoint pair.
pub open spec fn first_parallel_edge(kind: GraphKind, edges: Seq<Edge>, k: int) -> bool {
    &&& 0 <= k < edges.len()
    &&& pair_repeats(kind, edges, k)
    &&& forall|i: int| 0 <= i < k ==> !#[trigger] pair_repeats(kind, edges, i)
}

/// The error reported for sorted edge `k`'s repeated pair.
pub open spec fn parallel_error(kind: GraphKind, edges: Seq<Edge>, k: int, err: GraphError) -> bool {
    err matches GraphError::ParallelEdge { kind: ek, pair_source, pair_target } && ek == kind
        && (pair_source@, pair_target@) == canonical_pair(kind, edges[k])
}

/// Distinct node positions carry distinct identities.
pub proof fn lemma_sorted_ids_distinct(nodes: Seq<Node>, i: int, j: int)
    requires
        node_ids_sorted(nodes),
        0 <= i < nodes.len(),
        0 <= j < nodes.len(),
    ensures
        (nodes[i].id@ == nodes[j].id@) == (i == j),
        (i < j) == str_lt(nodes[i].id@, nodes[j].id@),
{
    if i < j {
        lemma_str_lt_asymmetric(nodes[i].id@, nodes[j].id@);
    } else if j < i {
        lemma_str_lt_asymmetric(nodes[j].id@, nodes[i].id@);
    } else {
        lemma_str_lt_irreflexive(nodes[i].id@);
    }
}

/// The canonical pair of an edge, as node positions.
fn index_pair(kind: GraphKind, end: (usize, usize)) -> (r: (usize, usize))
    ensures
        r == (if kind.directed() || end.0 <= end.1 {
            end
        } else {
            (end.1, end.0)
        }),
{
    if kind.is_directed() || end.0 <= end.1 {
        end
    } else {
        (end.1, end.0)
    }
}

/// Reject the first sorted edge of a simple graph whose endpoint pair repeats.
fn check_parallel(kind: GraphKind, nodes: &Vec<Node>, edges: &Vec<Edge>, ends: &Vec<(usize, usize)>) -> (r: Result<(), GraphError>)
    requires
        node_ids_sorted(nodes@),
        endpoints_match(nodes@, edges@, ends@),
    ensures
        r is Ok <==> !has_parallel_edge(kind, edges@),
        r matches Err(err) ==> exists|k: int|
            first_parallel_edge(kind, edges@, k) && parallel_error(kind, edges@, k, err),
{
    if kind.is_multigraph() {
        return Ok(());
    }
    let ghost pair_of = |x: int| if kind.directed() || ends@[x].0 <= ends@[x].1 {
        ends@[x]
    } else {
        (ends@[x].1, ends@[x].0)
    };
    // index pairs and identity pairs determine each other
    assert forall|x: int, y: int| 0 <= x < edges.len() && 0 <= y < edges.len() implies
        (#[trigger] pair_of(x) == #[trigger] pair_of(y)) == (canonical_pair(kind, edges@[x]) == canonical_pair(kind, edges@[y])) by {
        let (a, b) = (ends@[x].0 as int, ends@[x].1 as int);
        let (c, d) = (ends@[y].0 as int, ends@[y].1 as int);
        lemma_sorted_ids_distinct(nodes@, a, b);
        lemma_sorted_ids_distinct(nodes@, b, a);
        lemma_sorted_ids_distinct(nodes@, c, d);
        lemma_sorted_ids_distinct(nodes@, d, c);
        lemma_sorted_ids_distinct(nodes@, a, c);
        lemma_sorted_ids_distinct(nodes@, a, d);
        lemma_sorted_ids_distinct(nodes@, b, c);
        lemma_sorted_ids_distinct(nodes@, b, d);
    }
    let mut k: usize = 0;
    while k < edges.len()
        invariant
            !kind.multigraph(),
            node_ids_sorted(nodes@),
            endpoints_match(nodes@, edges@, ends@),
            k <= edges.len(),
            ends.len() == edges.len(),
            forall|i: int| 0 <= i < k ==> !#[trigger] pair_repeats(kind, edges@, i),
            forall|x: int, y: int| 0 <= x < edges.len() && 0 <= y < edges.len() ==>
                (#[trigger] pair_of(x) == #[trigger] pair_of(y)) == (canonical_pair(kind, edges@[x]) == canonical_pair(kind, edges@[y])),
            forall|x: int| 0 <= x < edges.len() ==> #[trigger] pair_of(x) == (if kind.directed() || ends@[x].0 <= ends@[x].1 {
                ends@[x]
            } else {
                (ends@[x].1, ends@[x].0)
            }),
        decreases edges.len() - k,
    {
        let pk = index_pair(kind, ends[k]);
        let mut j: usize = 0;
        while j < k
            invariant
                !kind.multigraph(),
                node_ids_sorted(nodes@),
                endpoints_match(nodes@, edges@, ends@),
                forall|i: int| 0 <= i < k ==> !#[trigger] pair_repeats(kind, edges@, i),
                k < edges.len(),
                j <= k,
                ends.len() == edges.len(),
                pk == pair_of(k as int),
                forall|x: int, y: int| 0 <= x < edges.len() && 0 <= y < edges.len() ==>
                    (#[trigger] pair_of(x) == #[trigger] pair_of(y)) == (canonical_pair(kind, edges@[x]) == canonical_pair(kind, edges@[y])),
                forall|x: int| 0 <= x < edges.len() ==> #[trigger] pair_of(x) == (if kind.directed() || ends@[x].0 <= ends@[x].1 {
                    ends@[x]
                } else {
                    (ends@[x].1, ends@[x].0)
                }),
                forall|i: int| 0 <= i < j ==> #[trigger] pair_of(i) != pk,
            decreases k - j,
        {
            let pj = index_pair(kind, ends[j]);
            if pj.0 == pk.0 && pj.1 == pk.1 {
                assert(pair_of(j as int) == pair_of(k as int));
                assert(pair_repeats(kind, edges@, k as int));
                let src = edges[k].source.clone();
                let tgt = edges[k].target.clone();
                proof {
                    lemma_sorted_ids_distinct(nodes@, ends@[k as int].0 as int, ends@[k as int].1 as int);
                    lemma_sorted_ids_distinct(nodes@, ends@[k as int].1 as int, ends@[k as int].0 as int);
                    assert(first_parallel_edge(kind, edges@, k as int));
                }
                if kind.is_directed() || ends[k].0 <= ends[k].1 {
                    return Err(GraphError::ParallelEdge { kind, pair_source: src, pair_target: tgt });
                } else {
                    return Err(GraphError::ParallelEdge { kind, pair_source: tgt, pair_target: src });
                }
            }
            j = j + 1;
        }
        assert forall|i: int| 0 <= i < k implies #[trigger] canonical_pair(kind, edges@[i]) != canonical_pair(kind, edges@[k as int]) by {
            assert(pair_of(i) != pair_of(k as int));
        }
        assert(!pair_repeats(kind, edges@, k as int));
        k = k + 1;
    }
    Ok(())
}


/// Multigraph keys: an absent key sorts first; present keys by identity order.
pub open spec fn key_lt(a: Option<String>, b: Option<String>) -> bool {
    match (a, b) {
        (None, Some(_)) => true,
        (Some(x), Some(y)) => str_lt(x@, y@),
        _ => false,
    }
}

/// Two multigraph keys are the same.
pub open spec fn key_eq(a: Option<String>, b: Option<String>) -> bool {
    match (a, b) {
        (None, None) => true,
        (Some(x), Some(y)) => x@ == y@,
        _ => false,
    }
}

pub open spec fn key_le(a: Option<String>, b: Option<String>) -> bool {
    key_lt(a, b) || key_eq(a, b)
}

/// Edge `i` comes before edge `j` in adjacency tie-breaking: by multigraph
/// key, then by position among the sorted edges.
pub open spec fn rank_before(edges: Seq<Edge>, i: int, j: int) -> bool {
    key_lt(edges[i].graphify_key, edges[j].graphify_key) || (key_eq(
        edges[i].graphify_key,
        edges[j].graphify_key,
    ) && i < j)
}

/// `ranks[e]` is the place of edge `e` in the tie-breaking order.
pub open spec fn ranks_valid(edges: Seq<Edge>, ranks: Seq<u32>) -> bool {
    &&& ranks.len() == edges.len()
    &&& forall|i: int| 0 <= i < ranks.len() ==> #[trigger] ranks[i] < edges.len()
    &&& forall|i: int, j: int|
        0 <= i < ranks.len() && 0 <= j < ranks.len() ==> ((#[trigger] ranks[i] < #[trigger] ranks[j])
            == rank_before(edges, i, j))
    &&& forall|i: int, j: int|
        0 <= i < ranks.len() && 0 <= j < ranks.len() && i != j ==> #[trigger] ranks[i]
            != #[trigger] ranks[j]
}

proof fn lemma_key_facts(a: Option<String>, b: Option<String>, c: Option<String>)
    ensures
        key_lt(a, b) || key_eq(a, b) || key_lt(b, a),
        !key_lt(a, a),
        key_eq(a, a),
        key_lt(a, b) ==> !key_eq(a, b) && !key_lt(b, a),
        key_eq(a, b) ==> key_eq(b, a),
        key_eq(a, b) && key_eq(b, c) ==> key_eq(a, c),
        key_lt(a, b) && key_lt(b, c) ==> key_lt(a, c),
        key_lt(a, b) && key_eq(b, c) ==> key_lt(a, c),
        key_eq(a, b) && key_lt(b, c) ==> key_lt(a, c),
{
    match (a, b, c) {
        (Some(x), Some(y), Some(z)) => {
            lemma_str_total(x@, y@);
            lemma_str_lt_irreflexive(x@);
            if str_lt(x@, y@) {
                lemma_str_lt_asymmetric(x@, y@);
            }
            if str_lt(x@, y@) && str_lt(y@, z@) {
                lemma_str_lt_transitive(x@, y@, z@);
            }
        },
        (Some(x), Some(y), None) => {
            lemma_str_total(x@, y@);
            lemma_str_lt_irreflexive(x@);
            if str_lt(x@, y@) {
                lemma_str_lt_asymmetric(x@, y@);
            }
        },
        (Some(x), None, _) => {
            lemma_str_lt_irreflexive(x@);
        },
        _ => {},
    }
}

/// Three-way comparison of multigraph keys.
fn compare_keys(a: &Option<String>, b: &Option<String>) -> (c: Comparison)
    ensures
        c is Less <==> key_lt(*a, *b),
        c is Equal <==> key_eq(*a, *b),
        c is Greater <==> key_lt(*b, *a),
{
    proof {
        lemma_key_facts(*a, *b, *b);
        lemma_key_facts(*b, *a, *a);
    }
    match (a, b) {
        (None, None) => Comparison::Equal,
        (None, Some(_)) => Comparison::Less,
        (Some(_), None) => Comparison::Greater,
        (Some(x), Some(y)) => {
            let c = compare_str(x.as_str(), y.as_str());
            proof {
                lemma_str_total(x@, y@);
            }
            c
        },
    }
}

/// Adjacency tie-breaking ranks of the sorted edges.
fn edge_ranks(edges: &Vec<Edge>) -> (ranks: Vec<u32>)
    requires
        edges.len() <= u32::MAX,
    ensures
        ranks_valid(edges@, ranks@),
{
    let m = edges.len();
    let mut any_key = false;
    let mut i: usize = 0;
    while i < m
        invariant
            m == edges.len(),
            i <= m,
            !any_key ==> forall|j: int| 0 <= j < i ==> (#[trigger] edges@[j]).graphify_key is None,
        decreases m - i,
    {
        if edges[i].graphify_key.is_some() {
            any_key = true;
        }
        i = i + 1;
    }
    if !any_key {
        let mut ranks: Vec<u32> = Vec::new();
        let mut r: usize = 0;
        while r < m
            invariant
                m == edges.len(),
                m <= u32::MAX,
                r <= m,
                ranks.len() == r,
                forall|j: int| 0 <= j < r ==> #[trigger] ranks@[j] == j,
            decreases m - r,
        {
            ranks.push(r as u32);
            r = r + 1;
        }
        assert forall|i: int, j: int| 0 <= i < m && 0 <= j < m implies ((#[trigger] ranks@[i]
            < #[trigger] ranks@[j]) == rank_before(edges@, i, j)) by {
            assert(edges@[i].graphify_key is None);
            assert(edges@[j].graphify_key is None);
        }
        return ranks;
    }
    // place edge positions in tie-breaking order
    let mut order: Vec<usize> = Vec::new();
    let mut k: usize = 0;
    while k < m
        invariant
            m == edges.len(),
            k <= m,
            order.len() == k,
            forall|p: int| 0 <= p < k ==> #[trigger] order@[p] < k,
            forall|p: int, q: int| 0 <= p < q < k ==> rank_before(edges@, #[trigger] order@[p] as int, #[trigger] order@[q] as int),
        decreases m - k,
    {
        let ghost kk = edges@[k as int].graphify_key;
        // upper bound: first place whose key is after edge k's key
        let mut lo: usize = 0;
        let mut hi: usize = k;
        while lo < hi
            invariant
                m == edges.len(),
                k < m,
                order.len() == k,
                lo <= hi <= k,
                kk == edges@[k as int].graphify_key,
                forall|p: int| 0 <= p < k ==> #[trigger] order@[p] < k,
                forall|p: int, q: int| 0 <= p < q < k ==> rank_before(edges@, #[trigger] order@[p] as int, #[trigger] order@[q] as int),
                forall|p: int| 0 <= p < lo ==> key_le(edges@[#[trigger] order@[p] as int].graphify_key, kk),
                forall|p: int| hi <= p < k ==> key_lt(kk, edges@[#[trigger] order@[p] as int].graphify_key),
            decreases hi - lo,
        {
            let mid = lo + (hi - lo) / 2;
            let c = compare_keys(&edges[k].graphify_key, &edges[order[mid]].graphify_key);
            let ghost km = edges@[order@[mid as int] as int].graphify_key;
            match c {
                Comparison::Less => {
                    assert forall|p: int| mid <= p < k implies key_lt(kk, edges@[#[trigger] order@[p] as int].graphify_key) by {
                        if p > mid {
                            let kp = edges@[order@[p] as int].graphify_key;
                            assert(rank_before(edges@, order@[mid as int] as int, order@[p] as int));
                            lemma_key_facts(kk, km, kp);
                        }
                    }
                    hi = mid;
                },
                _ => {
                    assert forall|p: int| 0 <= p < mid + 1 implies key_le(edges@[#[trigger] order@[p] as int].graphify_key, kk) by {
                        lemma_key_facts(km, kk, kk);
                        lemma_key_facts(kk, km, km);
                        if p < mid {
                            let kp = edges@[order@[p] as int].graphify_key;
                            assert(rank_before(edges@, order@[p] as int, order@[mid as int] as int));
                            lemma_key_facts(kp, km, kk);
                        }
                    }
                    lo = mid + 1;
                },
            }
        }
        let ghost old_order = order@;
        order.insert(lo, k);
        proof {
            old_order.insert_ensures(lo as int, k);
            assert forall|p: int, q: int| 0 <= p < q < k + 1 implies rank_before(edges@, #[trigger] order@[p] as int, #[trigger] order@[q] as int) by {
                if q < lo {
                } else if q == lo {
                    let kp = edges@[order@[p] as int].graphify_key;
                    lemma_key_facts(kp, kk, kk);
                } else if p < lo {
                    assert(order@[q] == old_order[q - 1]);
                } else if p == lo {
                    assert(order@[q] == old_order[q - 1]);
                } else {
                    assert(order@[p] == old_order[p - 1]);
                    assert(order@[q] == old_order[q - 1]);
                }
            }
            assert forall|p: int| 0 <= p < k + 1 implies #[trigger] order@[p] < k + 1 by {
                if p < lo {
                } else if p > lo {
                    assert(order@[p] == old_order[p - 1]);
                }
            }
        }
        k = k + 1;
    }
    // order is a permutation: distinct entries below m
    assert forall|p: int, q: int| 0 <= p < m && 0 <= q < m && p != q implies #[trigger] order@[p] != #[trigger] order@[q] by {
        let (a, b) = if p < q { (p, q) } else { (q, p) };
        assert(rank_before(edges@, order@[a] as int, order@[b] as int));
        let ka = edges@[order@[a] as int].graphify_key;
        lemma_key_facts(ka, ka, ka);
    }
    let mut ranks: Vec<u32> = Vec::new();
    let mut z: usize = 0;
    while z < m
        invariant
            m == edges.len(),
            z <= m,
            ranks.len() == z,
            forall|j: int| 0 <= j < z ==> #[trigger] ranks@[j] == 0,
        decreases m - z,
    {
        ranks.push(0);
        z = z + 1;
    }
    let mut p: usize = 0;
    while p < m
        invariant
            m == edges.len(),
            m <= u32::MAX,
            order.len() == m,
            ranks.len() == m,
            p <= m,
            forall|q: int| 0 <= q < m ==> #[trigger] order@[q] < m,
            forall|q: int, r: int| 0 <= q < m && 0 <= r < m && q != r ==> #[trigger] order@[q] != #[trigger] order@[r],
            forall|q: int| 0 <= q < p ==> #[trigger] ranks@[order@[q] as int] == q,
        decreases m - p,
    {
        let ghost before = ranks@;
        ranks.set(order[p], p as u32);
        assert forall|q: int| 0 <= q < p + 1 implies #[trigger] ranks@[order@[q] as int] == q by {
            if q < p {
                assert(order@[q] != order@[p as int]);
            }
        }
        p = p + 1;
    }
    assert forall|i: int| 0 <= i < m implies #[trigger] ranks@[i] < m by {
        lemma_permutation_covers(order@, m as int, i);
        let q = choose|q: int| 0 <= q < m && #[trigger] order@[q] == i;
        assert(ranks@[order@[q] as int] == q);
    }
    assert forall|i: int, j: int| 0 <= i < m && 0 <= j < m implies ((#[trigger] ranks@[i]
        < #[trigger] ranks@[j]) == rank_before(edges@, i, j)) by {
        lemma_permutation_covers(order@, m as int, i);
        lemma_permutation_covers(order@, m as int, j);
        let qi = choose|q: int| 0 <= q < m && #[trigger] order@[q] == i;
        let qj = choose|q: int| 0 <= q < m && #[trigger] order@[q] == j;
        assert(ranks@[order@[qi] as int] == qi);
        assert(ranks@[order@[qj] as int] == qj);
        let ki = edges@[i].graphify_key;
        let kj = edges@[j].graphify_key;
        lemma_key_facts(ki, kj, ki);
        if qj < qi {
            assert(rank_before(edges@, order@[qj] as int, order@[qi] as int));
        }
    }
    assert forall|i: int, j: int| 0 <= i < m && 0 <= j < m && i != j implies #[trigger] ranks@[i]
        != #[trigger] ranks@[j] by {
        lemma_permutation_covers(order@, m as int, i);
        lemma_permutation_covers(order@, m as int, j);
        let qi = choose|q: int| 0 <= q < m && #[trigger] order@[q] == i;
        let qj = choose|q: int| 0 <= q < m && #[trigger] order@[q] == j;
        assert(ranks@[order@[qi] as int] == qi);
        assert(ranks@[order@[qj] as int] == qj);
    }
    ranks
}

/// A sequence of `n` distinct values below `n` takes every value below `n`.
pub proof fn lemma_permutation_covers(s: Seq<usize>, n: int, e: int)
    requires
        s.len() == n,
        0 <= e < n,
        forall|q: int| 0 <= q < n ==> #[trigger] s[q] < n,
        forall|q: int, r: int| 0 <= q < n && 0 <= r < n && q != r ==> #[trigger] s[q] != #[trigger] s[r],
    ensures
        exists|q: int| 0 <= q < n && #[trigger] s[q] == e,
{
    let t = s.map_values(|x: usize| x as int);
    assert(t.no_duplicates()) by {
        assert forall|q: int, r: int| 0 <= q < n && 0 <= r < n && q != r implies t[q] != t[r] by {
            assert(s[q] != s[r]);
        }
    }
    t.unique_seq_to_set();
    let range = vstd::set_lib::set_int_range(0, n);
    vstd::set_lib::lemma_int_range(0, n);
    assert(t.to_set().subset_of(range)) by {
        assert forall|x: int| t.to_set().contains(x) implies range.contains(x) by {
            let q = choose|q: int| 0 <= q < t.len() && t[q] == x;
            assert(s[q] < n);
        }
    }
    vstd::set_lib::lemma_subset_equality(t.to_set(), range);
    assert(range.contains(e));
    assert(t.to_set().contains(e));
    let q = choose|q: int| 0 <= q < t.len() && t[q] == e;
    assert(s[q] == e);
}


/// Adjacency order: by neighbor position, then by edge rank.
pub open spec fn arc_before(ranks: Seq<u32>, a: ArcRef, b: ArcRef) -> bool {
    a.neighbor < b.neighbor || (a.neighbor == b.neighbor && ranks[a.edge as int]
        < ranks[b.edge as int])
}

/// The arcs are strictly increasing in adjacency order.
pub open spec fn arcs_sorted(ranks: Seq<u32>, row: Seq<ArcRef>) -> bool {
    forall|i: int, j: int| 0 <= i < j < row.len() ==> arc_before(ranks, #[trigger] row[i], #[trigger] row[j])
}

/// Adjacency lists in adjacency order never repeat an arc: in particular an
/// undirected traversal lists a self-loop once.
pub proof fn lemma_sorted_arcs_distinct(ranks: Seq<u32>, row: Seq<ArcRef>)
    requires
        arcs_sorted(ranks, row),
    ensures
        row.no_duplicates(),
{
    assert forall|i: int, j: int| 0 <= i < row.len() && 0 <= j < row.len() && i != j implies row[i] != row[j] by {
        if i < j {
            assert(arc_before(ranks, row[i], row[j]));
        } else {
            assert(arc_before(ranks, row[j], row[i]));
        }
    }
}

/// Edge `a.edge` leaves node `u` for `a.neighbor`.
pub open spec fn is_out_arc(ends: Seq<(usize, usize)>, u: int, a: ArcRef) -> bool {
    a.edge < ends.len() && ends[a.edge as int].0 == u && ends[a.edge as int].1 == a.neighbor
}

/// Edge `a.edge` enters node `u` from `a.neighbor`.
pub open spec fn is_in_arc(ends: Seq<(usize, usize)>, u: int, a: ArcRef) -> bool {
    a.edge < ends.len() && ends[a.edge as int].1 == u && ends[a.edge as int].0 == a.neighbor
}

/// The arc of node `u` for edge `e` in the given direction.
pub open spec fn is_row_arc(ends: Seq<(usize, usize)>, u: int, a: ArcRef, outgoing: bool) -> bool {
    if outgoing {
        is_out_arc(ends, u, a)
    } else {
        is_in_arc(ends, u, a)
    }
}

/// Ranks of distinct edges differ.
pub open spec fn ranks_distinct(ranks: Seq<u32>) -> bool {
    forall|i: int, j: int|
        0 <= i < ranks.len() && 0 <= j < ranks.len() && i != j ==> #[trigger] ranks[i]
            != #[trigger] ranks[j]
}

/// Where `arc` belongs in a sorted row that holds no arc of the same edge.
fn arc_position(row: &Vec<ArcRef>, ranks: &Vec<u32>, arc: ArcRef) -> (p: usize)
    requires
        arcs_sorted(ranks@, row@),
        ranks_distinct(ranks@),
        arc.edge < ranks.len(),
        forall|i: int| 0 <= i < row.len() ==> (#[trigger] row@[i]).edge < ranks.len() && row@[i].edge != arc.edge,
    ensures
        p <= row.len(),
        forall|i: int| 0 <= i < p ==> arc_before(ranks@, #[trigger] row@[i], arc),
        forall|i: int| p <= i < row.len() ==> arc_before(ranks@, arc, #[trigger] row@[i]),
{
    let mut lo: usize = 0;
    let mut hi: usize = row.len();
    while lo < hi
        invariant
            arcs_sorted(ranks@, row@),
            ranks_distinct(ranks@),
            arc.edge < ranks.len(),
            forall|i: int| 0 <= i < row.len() ==> (#[trigger] row@[i]).edge < ranks.len() && row@[i].edge != arc.edge,
            lo <= hi <= row.len(),
            forall|i: int| 0 <= i < lo ==> arc_before(ranks@, #[trigger] row@[i], arc),
            forall|i: int| hi <= i < row.len() ==> arc_before(ranks@, arc, #[trigger] row@[i]),
        decreases hi - lo,
    {
        let mid = lo + (hi - lo) / 2;
        let m = row[mid];
        let before = m.neighbor < arc.neighbor || (m.neighbor == arc.neighbor && ranks[m.edge] < ranks[arc.edge]);
        if before {
            assert forall|i: int| 0 <= i < mid + 1 implies arc_before(ranks@, #[trigger] row@[i], arc) by {
                if i < mid {
                    assert(arc_before(ranks@, row@[i], row@[mid as int]));
                }
            }
            lo = mid + 1;
        } else {
            assert(ranks@[m.edge as int] != ranks@[arc.edge as int]);
            assert forall|i: int| mid <= i < row.len() implies arc_before(ranks@, arc, #[trigger] row@[i]) by {
                if i > mid {
                    assert(arc_before(ranks@, row@[mid as int], row@[i]));
                }
            }
            hi = mid;
        }
    }
    lo
}

/// Adjacency rows of every node, each sorted in adjacency order.
fn build_rows(n: usize, ends: &Vec<(usize, usize)>, ranks: &Vec<u32>, outgoing: bool) -> (rows: Vec<Vec<ArcRef>>)
    requires
        ranks.len() == ends.len(),
        ranks_distinct(ranks@),
        forall|e: int| 0 <= e < ends.len() ==> (#[trigger] ends@[e]).0 < n && ends@[e].1 < n,
    ensures
        rows.len() == n,
        forall|u: int| 0 <= u < n ==> arcs_sorted(ranks@, #[trigger] rows@[u]@),
        forall|u: int, a: ArcRef| 0 <= u < n ==> (#[trigger] rows@[u]@.contains(a) <==> is_row_arc(ends@, u, a, outgoing)),
{
    let mut rows: Vec<Vec<ArcRef>> = Vec::new();
    let mut u: usize = 0;
    while u < n
        invariant
            u <= n,
            rows.len() == u,
            forall|v: int| 0 <= v < u ==> (#[trigger] rows@[v])@.len() == 0,
        decreases n - u,
    {
        rows.push(Vec::new());
        u = u + 1;
    }
    let m = ends.len();
    let mut e: usize = 0;
    while e < m
        invariant
            m == ends.len(),
            ranks.len() == ends.len(),
            ranks_distinct(ranks@),
            forall|x: int| 0 <= x < ends.len() ==> (#[trigger] ends@[x]).0 < n && ends@[x].1 < n,
            e <= m,
            rows.len() == n,
            forall|v: int| 0 <= v < n ==> arcs_sorted(ranks@, #[trigger] rows@[v]@),
            forall|v: int, a: ArcRef| 0 <= v < n ==> (#[trigger] rows@[v]@.contains(a) <==> (is_row_arc(ends@, v, a, outgoing) && a.edge < e)),
        decreases m - e,
    {
        let (s, t) = ends[e];
        let (u, arc) = if outgoing {
            (s, ArcRef { neighbor: t, edge: e })
        } else {
            (t, ArcRef { neighbor: s, edge: e })
        };
        proof {
            assert forall|i: int| 0 <= i < rows@[u as int]@.len() implies (#[trigger] rows@[u as int]@[i]).edge < ranks.len() && rows@[u as int]@[i].edge != arc.edge by {
                assert(rows@[u as int]@.contains(rows@[u as int]@[i]));
            }
        }
        let p = arc_position(&rows[u], ranks, arc);
        let ghost old_rows = rows@;
        let ghost old_row = rows@[u as int]@;
        rows[u].insert(p, arc);
        proof {
            old_row.insert_ensures(p as int, arc);
            let new_row = rows@[u as int]@;
            assert(new_row == old_row.insert(p as int, arc));
            assert forall|i: int, j: int| 0 <= i < j < new_row.len() implies arc_before(ranks@, #[trigger] new_row[i], #[trigger] new_row[j]) by {
                if j < p {
                } else if j == p {
                } else if i < p {
                    assert(new_row[j] == old_row[j - 1]);
                    assert(arc_before(ranks@, arc, old_row[j - 1]));
                    assert(arc_before(ranks@, old_row[i], arc));
                } else if i == p {
                    assert(new_row[j] == old_row[j - 1]);
                } else {
                    assert(new_row[i] == old_row[i - 1]);
                    assert(new_row[j] == old_row[j - 1]);
                }
            }
            assert forall|v: int, a: ArcRef| 0 <= v < n implies (#[trigger] rows@[v]@.contains(a) <==> (is_row_arc(ends@, v, a, outgoing) && a.edge < e + 1)) by {
                if v == u {
                    if rows@[v]@.contains(a) {
                        let q = choose|q: int| 0 <= q < new_row.len() && new_row[q] == a;
                        if q < p {
                            assert(old_row[q] == a);
                            assert(old_row.contains(a));
                        } else if q > p {
                            assert(old_row[q - 1] == a);
                            assert(old_row.contains(a));
                        }
                    }
                    if is_row_arc(ends@, v, a, outgoing) && a.edge < e + 1 {
                        if a.edge == e {
                            assert(new_row[p as int] == a);
                        } else {
                            assert(old_row.contains(a));
                            let q = choose|q: int| 0 <= q < old_row.len() && old_row[q] == a;
                            if q < p {
                                assert(new_row[q] == a);
                            } else {
                                assert(new_row[q + 1] == a);
                            }
                        }
                    }
                } else {
                    assert(rows@[v] == old_rows[v]);
                    if a.edge == e {
                        assert(!is_row_arc(ends@, v, a, outgoing));
                    }
                }
            }
            assert forall|v: int| 0 <= v < n implies arcs_sorted(ranks@, #[trigger] rows@[v]@) by {
                if v != u {
                    assert(rows@[v] == old_rows[v]);
                }
            }
        }
        e = e + 1;
    }
    rows
}


/// Compressed adjacency rows: row `u` is `arcs[offsets[u]..offsets[u + 1]]`.
#[derive(Debug, Clone, PartialEq)]
struct Csr {
    offsets: Vec<usize>,
    arcs: Vec<ArcRef>,
}

impl Csr {
    spec fn wf(&self) -> bool {
        &&& self.offsets.len() >= 1
        &&& self.offsets@[0] == 0
        &&& self.offsets@[self.offsets.len() - 1] == self.arcs.len()
        &&& forall|u: int| 0 <= u < self.offsets.len() - 1 ==> #[trigger] self.offsets@[u] <= self.offsets@[u + 1]
        &&& forall|u: int| 0 <= u < self.offsets.len() ==> #[trigger] self.offsets@[u] <= self.arcs.len()
    }

    spec fn row_count(&self) -> int {
        self.offsets.len() - 1
    }

    spec fn csr_row(&self, u: int) -> Seq<ArcRef> {
        self.arcs@.subrange(self.offsets@[u] as int, self.offsets@[u + 1] as int)
    }

    fn from_rows(rows: Vec<Vec<ArcRef>>) -> (c: Self)
        ensures
            c.wf(),
            c.row_count() == rows.len(),
            forall|u: int| 0 <= u < rows.len() ==> #[trigger] c.csr_row(u) == rows@[u]@,
    {
        let mut offsets: Vec<usize> = Vec::new();
        let mut arcs: Vec<ArcRef> = Vec::new();
        offsets.push(0);
        let mut u: usize = 0;
        while u < rows.len()
            invariant
                u <= rows.len(),
                offsets.len() == u + 1,
                offsets@[0] == 0,
                offsets@[u as int] == arcs.len(),
                forall|v: int| 0 <= v < u ==> #[trigger] offsets@[v] <= offsets@[v + 1],
                forall|v: int| 0 <= v <= u ==> #[trigger] offsets@[v] <= arcs.len(),
                forall|v: int| 0 <= v < u ==> arcs@.subrange(offsets@[v] as int, offsets@[v + 1] as int) == (#[trigger] rows@[v])@,
            decreases rows.len() - u,
        {
            let ghost before = arcs@;
            let mut i: usize = 0;
            while i < rows[u].len()
                invariant
                    u < rows.len(),
                    i <= rows@[u as int].len(),
                    arcs@ == before + rows@[u as int]@.take(i as int),
                decreases rows@[u as int].len() - i,
            {
                arcs.push(rows[u][i]);
                assert(rows@[u as int]@.take(i + 1) == rows@[u as int]@.take(i as int).push(rows@[u as int]@[i as int]));
                i = i + 1;
            }
            assert(rows@[u as int]@.take(i as int) =~= rows@[u as int]@);
            let ghost old_offsets = offsets@;
            offsets.push(arcs.len());
            assert forall|v: int| 0 <= v < u + 1 implies arcs@.subrange(offsets@[v] as int, offsets@[v + 1] as int) == (#[trigger] rows@[v])@ by {
                if v < u {
                    assert(offsets@[v] == old_offsets[v]);
                    assert(offsets@[v + 1] == old_offsets[v + 1]);
                    assert(old_offsets[v + 1] <= before.len());
                    assert(arcs@.subrange(offsets@[v] as int, offsets@[v + 1] as int) =~= before.subrange(offsets@[v] as int, offsets@[v + 1] as int));
                } else {
                    assert(arcs@.subrange(offsets@[v] as int, offsets@[v + 1] as int) =~= rows@[u as int]@);
                }
            }
            u = u + 1;
        }
        Csr { offsets, arcs }
    }

    fn row(&self, node: usize) -> (r: &[ArcRef])
        requires
            self.wf(),
            node < self.row_count(),
        ensures
            r@ == self.csr_row(node as int),
    {
        let lo = self.offsets[node];
        let hi = self.offsets[node + 1];
        vstd::slice::slice_subrange(self.arcs.as_slice(), lo, hi)
    }
}


/// Input edge `x` has the endpoint pair of an input edge with a smaller identity.
pub open spec fn input_pair_repeats(kind: GraphKind, edges: Seq<Edge>, x: int) -> bool {
    exists|y: int|
        0 <= y < edges.len() && edge_id_lt(edges[y].id@, edges[x].id@) && #[trigger] canonical_pair(
            kind,
            edges[y],
        ) == canonical_pair(kind, edges[x])
}

/// A simple graph kind whose input edges repeat an endpoint pair.
pub open spec fn has_input_parallel(kind: GraphKind, edges: Seq<Edge>) -> bool {
    !kind.multigraph() && exists|x: int| 0 <= x < edges.len() && #[trigger] input_pair_repeats(kind, edges, x)
}

/// Input edge `x` has the smallest identity among the edges that repeat a pair.
pub open spec fn first_input_parallel(kind: GraphKind, edges: Seq<Edge>, x: int) -> bool {
    &&& 0 <= x < edges.len()
    &&& input_pair_repeats(kind, edges, x)
    &&& forall|z: int|
        0 <= z < edges.len() && #[trigger] input_pair_repeats(kind, edges, z) ==> !edge_id_lt(
            edges[z].id@,
            edges[x].id@,
        )
}

/// The graph that `Graph::new` accepts: no repeated node identity, no
/// rejected edge, and no repeated endpoint pair in a simple graph kind.
pub open spec fn valid_graph_input(kind: GraphKind, nodes: Seq<Node>, edges: Seq<Edge>) -> bool {
    &&& !has_repeated_node(nodes)
    &&& !has_edge_error(nodes, edges)
    &&& !has_input_parallel(kind, edges)
}

/// The error that `Graph::new` reports for invalid input.
pub open spec fn construction_error(kind: GraphKind, nodes: Seq<Node>, edges: Seq<Edge>, err: GraphError) -> bool {
    if has_repeated_node(nodes) {
        exists|j: int| first_repeated_node(nodes, j) && err == GraphError::DuplicateNode(nodes[j].id)
    } else if has_edge_error(nodes, edges) {
        exists|j: int| first_edge_error(nodes, edges, j) && Some(err) == edge_error_at(nodes, edges, j)
    } else {
        exists|x: int| first_input_parallel(kind, edges, x) && parallel_error(kind, edges, x, err)
    }
}

/// Every identity appearing in a sorted, duplicate-free arrangement of the
/// same edges keeps its relative order.
proof fn lemma_sorted_position_order(s: Seq<Edge>, j: int, k: int)
    requires
        edge_ids_sorted(s),
        0 <= j < s.len(),
        0 <= k < s.len(),
    ensures
        (j < k) == edge_id_lt(s[j].id@, s[k].id@),
{
    if j < k {
    } else if k < j {
        assert(edge_id_lt(s[k].id@, s[j].id@));
        if edge_id_lt(s[j].id@, s[k].id@) {
            lemma_edge_id_lt_transitive(s[j].id@, s[k].id@, s[j].id@);
            lemma_edge_id_lt_irreflexive(s[j].id@);
        }
    } else {
        lemma_edge_id_lt_irreflexive(s[j].id@);
    }
}

/// Parallel edges found in sorted order are the parallel edges of the input.
proof fn lemma_parallel_input(kind: GraphKind, sorted: Seq<Edge>, input: Seq<Edge>)
    requires
        edge_ids_sorted(sorted),
        sorted.len() == input.len(),
        forall|e: Edge| sorted.contains(e) <==> input.contains(e),
    ensures
        has_parallel_edge(kind, sorted) == has_input_parallel(kind, input),
        forall|k: int, err: GraphError| first_parallel_edge(kind, sorted, k) && parallel_error(kind, sorted, k, err)
            ==> exists|x: int| first_input_parallel(kind, input, x) && parallel_error(kind, input, x, err),
{
    assert forall|x: int, k: int| 0 <= x < input.len() && 0 <= k < sorted.len() && #[trigger] sorted[k] == #[trigger] input[x] implies
        input_pair_repeats(kind, input, x) == pair_repeats(kind, sorted, k) by {
        if input_pair_repeats(kind, input, x) {
            let y = choose|y: int|
                0 <= y < input.len() && edge_id_lt(input[y].id@, input[x].id@) && #[trigger] canonical_pair(kind, input[y]) == canonical_pair(kind, input[x]);
            assert(input.contains(input[y]));
            let j = choose|j: int| 0 <= j < sorted.len() && #[trigger] sorted[j] == input[y];
            lemma_sorted_position_order(sorted, j, k);
            assert(canonical_pair(kind, sorted[j]) == canonical_pair(kind, sorted[k]));
        }
        if pair_repeats(kind, sorted, k) {
            let j = choose|j: int| 0 <= j < k && #[trigger] canonical_pair(kind, sorted[j]) == canonical_pair(kind, sorted[k]);
            assert(sorted.contains(sorted[j]));
            let y = choose|y: int| 0 <= y < input.len() && #[trigger] input[y] == sorted[j];
            lemma_sorted_position_order(sorted, j, k);
            assert(canonical_pair(kind, input[y]) == canonical_pair(kind, input[x]));
        }
    }
    if has_parallel_edge(kind, sorted) {
        let k = choose|k: int| 0 <= k < sorted.len() && #[trigger] pair_repeats(kind, sorted, k);
        assert(sorted.contains(sorted[k]));
        let x = choose|x: int| 0 <= x < input.len() && #[trigger] input[x] == sorted[k];
        assert(input_pair_repeats(kind, input, x));
    }
    if has_input_parallel(kind, input) {
        let x = choose|x: int| 0 <= x < input.len() && #[trigger] input_pair_repeats(kind, input, x);
        assert(input.contains(input[x]));
        let k = choose|k: int| 0 <= k < sorted.len() && #[trigger] sorted[k] == input[x];
        assert(pair_repeats(kind, sorted, k));
    }
    assert forall|k: int, err: GraphError| first_parallel_edge(kind, sorted, k) && parallel_error(kind, sorted, k, err)
        implies exists|x: int| first_input_parallel(kind, input, x) && parallel_error(kind, input, x, err) by {
        assert(sorted.contains(sorted[k]));
        let x = choose|x: int| 0 <= x < input.len() && #[trigger] input[x] == sorted[k];
        assert forall|z: int| 0 <= z < input.len() && #[trigger] input_pair_repeats(kind, input, z) implies !edge_id_lt(
            input[z].id@,
            input[x].id@,
        ) by {
            assert(input.contains(input[z]));
            let i = choose|i: int| 0 <= i < sorted.len() && #[trigger] sorted[i] == input[z];
            assert(pair_repeats(kind, sorted, i));
            lemma_sorted_position_order(sorted, i, k);
        }
        assert(first_input_parallel(kind, input, x));
    }
}

/// Validated immutable graph used by every algorithm.
#[derive(Debug, Clone, PartialEq)]
pub struct Graph {
    kind: GraphKind,
    graph_attributes: Attributes,
    nodes: Vec<Node>,
    edges: Vec<Edge>,
    endpoints: Vec<(usize, usize)>,
    edge_ranks: Vec<u32>,
    outgoing: Csr,
    incoming: Csr,
}

/// The structural facts every graph satisfies.
pub open spec fn graph_valid(
    kind: GraphKind,
    nodes: Seq<Node>,
    edges: Seq<Edge>,
    ends: Seq<(usize, usize)>,
    ranks: Seq<u32>,
) -> bool {
    &&& node_ids_sorted(nodes)
    &&& edge_ids_sorted(edges)
    &&& endpoints_match(nodes, edges, ends)
    &&& forall|e: int| 0 <= e < edges.len() ==> #[trigger] edge_local_error(nodes, edges[e]) is None
    &&& !has_parallel_edge(kind, edges)
    &&& edges.len() <= u32::MAX
    &&& ranks_valid(edges, ranks)
}

impl Graph {
    /// Declared kind.
    pub closed spec fn spec_kind(&self) -> GraphKind {
        self.kind
    }

    /// Graph-level attributes.
    pub closed spec fn spec_attributes(&self) -> Attributes {
        self.graph_attributes
    }

    /// Nodes in identity order.
    pub closed spec fn spec_nodes(&self) -> Seq<Node> {
        self.nodes@
    }

    /// Edges in identity order.
    pub closed spec fn spec_edges(&self) -> Seq<Edge> {
        self.edges@
    }

    /// Positions of each edge's source and target among the nodes.
    pub closed spec fn spec_endpoints(&self) -> Seq<(usize, usize)> {
        self.endpoints@
    }

    /// Adjacency tie-breaking rank of each edge.
    pub closed spec fn spec_ranks(&self) -> Seq<u32> {
        self.edge_ranks@
    }

    /// Stored outgoing arcs of node `u`, in adjacency order.
    pub closed spec fn out_row(&self, u: int) -> Seq<ArcRef> {
        self.outgoing.csr_row(u)
    }

    /// Stored incoming arcs of node `u`, in adjacency order.
    pub closed spec fn in_row(&self, u: int) -> Seq<ArcRef> {
        self.incoming.csr_row(u)
    }

    /// Internal consistency of the compressed rows.
    pub closed spec fn rows_wf(&self) -> bool {
        &&& self.outgoing.wf()
        &&& self.incoming.wf()
        &&& self.outgoing.row_count() == self.nodes.len()
        &&& self.incoming.row_count() == self.nodes.len()
    }

    /// A validated graph.
    pub open spec fn wf(&self) -> bool {
        &&& graph_valid(self.spec_kind(), self.spec_nodes(), self.spec_edges(), self.spec_endpoints(), self.spec_ranks())
        &&& self.rows_wf()
        &&& forall|u: int| 0 <= u < self.spec_nodes().len() ==> arcs_sorted(self.spec_ranks(), #[trigger] self.out_row(u))
        &&& forall|u: int| 0 <= u < self.spec_nodes().len() ==> arcs_sorted(self.spec_ranks(), #[trigger] self.in_row(u))
        &&& forall|u: int, a: ArcRef| 0 <= u < self.spec_nodes().len() ==> (#[trigger] self.out_row(u).contains(a) <==> is_out_arc(self.spec_endpoints(), u, a))
        &&& forall|u: int, a: ArcRef| 0 <= u < self.spec_nodes().len() ==> (#[trigger] self.in_row(u).contains(a) <==> is_in_arc(self.spec_endpoints(), u, a))
    }

    /// Validate and construct a graph.
    pub fn new(kind: GraphKind, nodes: Vec<Node>, edges: Vec<Edge>) -> (r: Result<Self, GraphError>)
        requires
            edges.len() <= u32::MAX,
        ensures
            r is Ok <==> valid_graph_input(kind, nodes@, edges@),
            r matches Ok(g) ==> {
                &&& g.wf()
                &&& g.spec_kind() == kind
                &&& g.spec_attributes()@ == Map::<String, serde_json::Value>::empty()
                &&& g.spec_nodes().len() == nodes.len()
                &&& forall|n: Node| g.spec_nodes().contains(n) <==> nodes@.contains(n)
                &&& g.spec_edges().len() == edges.len()
                &&& forall|e: Edge| g.spec_edges().contains(e) <==> edges@.contains(e)
            },
            r matches Err(err) ==> construction_error(kind, nodes@, edges@, err),
    {
        Self::with_attributes(kind, std::collections::BTreeMap::new(), nodes, edges)
    }

    /// Validate and construct a graph with graph-level metadata.
    pub fn with_attributes(kind: GraphKind, graph_attributes: Attributes, nodes: Vec<Node>, edges: Vec<Edge>) -> (r: Result<Self, GraphError>)
        requires
            edges.len() <= u32::MAX,
        ensures
            r is Ok <==> valid_graph_input(kind, nodes@, edges@),
            r matches Ok(g) ==> {
                &&& g.wf()
                &&& g.spec_kind() == kind
                &&& g.spec_attributes() == graph_attributes
                &&& g.spec_nodes().len() == nodes.len()
                &&& forall|n: Node| g.spec_nodes().contains(n) <==> nodes@.contains(n)
                &&& g.spec_edges().len() == edges.len()
                &&& forall|e: Edge| g.spec_edges().contains(e) <==> edges@.contains(e)
            },
            r matches Err(err) ==> construction_error(kind, nodes@, edges@, err),
    {
        let ghost in_nodes = nodes@;
        let ghost in_edges = edges@;
        let sorted_nodes = match sort_nodes(nodes) {
            Ok(s) => s,
            Err(err) => {
                return Err(err);
            },
        };
        // edge checks see the same node identities as the input
        proof {
            assert forall|id: Seq<char>| has_node_id(sorted_nodes@, id) == has_node_id(in_nodes, id) by {
                if has_node_id(sorted_nodes@, id) {
                    let i = choose|i: int| 0 <= i < sorted_nodes.len() && #[trigger] sorted_nodes@[i].id@ == id;
                    assert(sorted_nodes@.contains(sorted_nodes@[i]));
                    let j = choose|j: int| 0 <= j < in_nodes.len() && in_nodes[j] == sorted_nodes@[i];
                    assert(in_nodes[j].id@ == id);
                }
                if has_node_id(in_nodes, id) {
                    let j = choose|j: int| 0 <= j < in_nodes.len() && #[trigger] in_nodes[j].id@ == id;
                    assert(in_nodes.contains(in_nodes[j]));
                    let i = choose|i: int| 0 <= i < sorted_nodes.len() && sorted_nodes@[i] == in_nodes[j];
                    assert(sorted_nodes@[i].id@ == id);
                }
            }
            assert forall|e: Edge| #[trigger] edge_local_error(sorted_nodes@, e) == edge_local_error(in_nodes, e) by {
                assert(has_node_id(sorted_nodes@, e.source@) == has_node_id(in_nodes, e.source@));
                assert(has_node_id(sorted_nodes@, e.target@) == has_node_id(in_nodes, e.target@));
            }
            assert forall|j: int|
                #![trigger edge_error_at(sorted_nodes@, in_edges, j)]
                #![trigger edge_error_at(in_nodes, in_edges, j)]
                0 <= j < in_edges.len() implies edge_error_at(sorted_nodes@, in_edges, j) == edge_error_at(in_nodes, in_edges, j) by {
                assert(edge_local_error(sorted_nodes@, in_edges[j]) == edge_local_error(in_nodes, in_edges[j]));
            }
            if has_edge_error(sorted_nodes@, in_edges) {
                let j = choose|j: int| 0 <= j < in_edges.len() && #[trigger] edge_error_at(sorted_nodes@, in_edges, j) is Some;
                assert(edge_error_at(in_nodes, in_edges, j) is Some);
            }
            if has_edge_error(in_nodes, in_edges) {
                let j = choose|j: int| 0 <= j < in_edges.len() && #[trigger] edge_error_at(in_nodes, in_edges, j) is Some;
                assert(edge_error_at(sorted_nodes@, in_edges, j) is Some);
            }
        }
        let (sorted_edges, endpoints) = match sort_edges(&sorted_nodes, edges) {
            Ok(out) => out,
            Err(err) => {
                proof {
                    let j = choose|j: int| first_edge_error(sorted_nodes@, in_edges, j) && Some(err) == edge_error_at(sorted_nodes@, in_edges, j);
                    assert(first_edge_error(in_nodes, in_edges, j));
                }
                return Err(err);
            },
        };
        proof {
            lemma_parallel_input(kind, sorted_edges@, in_edges);
            assert forall|e: int| 0 <= e < sorted_edges.len() implies #[trigger] edge_local_error(sorted_nodes@, sorted_edges@[e]) is None by {
            }
        }
        match check_parallel(kind, &sorted_nodes, &sorted_edges, &endpoints) {
            Ok(()) => {},
            Err(err) => {
                return Err(err);
            },
        }
        let edge_ranks = edge_ranks(&sorted_edges);
        let outgoing_rows = build_rows(sorted_nodes.len(), &endpoints, &edge_ranks, true);
        let incoming_rows = build_rows(sorted_nodes.len(), &endpoints, &edge_ranks, false);
        let outgoing = Csr::from_rows(outgoing_rows);
        let incoming = Csr::from_rows(incoming_rows);
        let g = Graph {
            kind,
            graph_attributes,
            nodes: sorted_nodes,
            edges: sorted_edges,
            endpoints,
            edge_ranks,
            outgoing,
            incoming,
        };
        proof {
            assert forall|u: int| 0 <= u < g.spec_nodes().len() implies arcs_sorted(g.spec_ranks(), #[trigger] g.out_row(u)) by {
                assert(g.out_row(u) == outgoing_rows@[u]@);
            }
            assert forall|u: int| 0 <= u < g.spec_nodes().len() implies arcs_sorted(g.spec_ranks(), #[trigger] g.in_row(u)) by {
                assert(g.in_row(u) == incoming_rows@[u]@);
            }
            assert forall|u: int, a: ArcRef| 0 <= u < g.spec_nodes().len() implies (#[trigger] g.out_row(u).contains(a) <==> is_out_arc(g.spec_endpoints(), u, a)) by {
                assert(g.out_row(u) == outgoing_rows@[u]@);
                assert(outgoing_rows@[u]@.contains(a) <==> is_row_arc(endpoints@, u, a, true));
            }
            assert forall|u: int, a: ArcRef| 0 <= u < g.spec_nodes().len() implies (#[trigger] g.in_row(u).contains(a) <==> is_in_arc(g.spec_endpoints(), u, a)) by {
                assert(g.in_row(u) == incoming_rows@[u]@);
                assert(incoming_rows@[u]@.contains(a) <==> is_row_arc(endpoints@, u, a, false));
            }
        }
        Ok(g)
    }
}


/// Pushing an element adds exactly that element.
pub proof fn lemma_push_contains<T>(s: Seq<T>, x: T)
    ensures
        forall|a: T| #[trigger] s.push(x).contains(a) <==> (s.contains(a) || a == x),
{
    assert forall|a: T| #[trigger] s.push(x).contains(a) <==> (s.contains(a) || a == x) by {
        if s.push(x).contains(a) && a != x {
            let q = choose|q: int| 0 <= q < s.push(x).len() && s.push(x)[q] == a;
            assert(s[q] == a);
        }
        if s.contains(a) {
            let q = choose|q: int| 0 <= q < s.len() && s[q] == a;
            assert(s.push(x)[q] == a);
        }
        if a == x {
            assert(s.push(x)[s.len() as int] == a);
        }
    }
}

/// Undirected graphs ignore the requested direction and use both.
pub open spec fn effective_direction(kind: GraphKind, direction: TraversalDirection) -> TraversalDirection {
    if kind.directed() {
        direction
    } else {
        TraversalDirection::Both
    }
}

/// `a` is an arc of node `u` when traversing in `direction`. Traversing both
/// ways lists a self-loop once.
pub open spec fn is_traversal_arc(
    ends: Seq<(usize, usize)>,
    kind: GraphKind,
    u: int,
    direction: TraversalDirection,
    a: ArcRef,
) -> bool {
    match effective_direction(kind, direction) {
        TraversalDirection::Out => is_out_arc(ends, u, a),
        TraversalDirection::In => is_in_arc(ends, u, a),
        TraversalDirection::Both => is_out_arc(ends, u, a) || (is_in_arc(ends, u, a) && a.neighbor != u),
    }
}

/// Some edge carries this identity.
pub open spec fn has_edge_id(edges: Seq<Edge>, id: (Seq<char>, u64)) -> bool {
    exists|i: int| 0 <= i < edges.len() && #[trigger] edges[i].id@ == id
}

impl Graph {
    /// Declared graph topology contract.
    pub fn kind(&self) -> (k: GraphKind)
        ensures
            k == self.spec_kind(),
    {
        self.kind
    }

    /// Whether the graph is directed.
    pub fn is_directed(&self) -> (b: bool)
        ensures
            b == self.spec_kind().directed(),
    {
        self.kind.is_directed()
    }

    /// Whether the graph declares support for parallel endpoint-pair edges.
    pub fn is_multigraph(&self) -> (b: bool)
        ensures
            b == self.spec_kind().multigraph(),
    {
        self.kind.is_multigraph()
    }

    /// Graph-level immutable attributes.
    pub fn attributes(&self) -> (a: &Attributes)
        ensures
            *a == self.spec_attributes(),
    {
        &self.graph_attributes
    }

    /// Number of nodes.
    pub fn node_count(&self) -> (n: usize)
        ensures
            n == self.spec_nodes().len(),
    {
        self.nodes.len()
    }

    /// Number of stored edges.
    pub fn edge_count(&self) -> (m: usize)
        ensures
            m == self.spec_edges().len(),
    {
        self.edges.len()
    }

    /// Nodes in deterministic external-ID order.
    pub fn nodes(&self) -> (s: &[Node])
        ensures
            s@ == self.spec_nodes(),
    {
        self.nodes.as_slice()
    }

    /// Edges in deterministic stable-ID order.
    pub fn edges(&self) -> (s: &[Edge])
        ensures
            s@ == self.spec_edges(),
    {
        self.edges.as_slice()
    }

    /// Look up a node.
    pub fn node(&self, id: &str) -> (r: Option<&Node>)
        requires
            self.wf(),
        ensures
            r is Some <==> has_node_id(self.spec_nodes(), id@),
            r matches Some(n) ==> n.id@ == id@ && self.spec_nodes().contains(*n),
    {
        let (found, pos) = search_node(&self.nodes, id);
        if found {
            assert(self.spec_nodes()[pos as int] == self.nodes@[pos as int]);
            Some(&self.nodes[pos])
        } else {
            proof {
                assert forall|i: int| 0 <= i < self.nodes.len() implies #[trigger] self.nodes@[i].id@ != id@ by {
                    lemma_str_lt_irreflexive(id@);
                }
            }
            None
        }
    }

    /// Look up an edge.
    pub fn edge(&self, id: &EdgeId) -> (r: Option<&Edge>)
        requires
            self.wf(),
        ensures
            r is Some <==> has_edge_id(self.spec_edges(), id@),
            r matches Some(e) ==> e.id@ == id@ && self.spec_edges().contains(*e),
    {
        let (found, pos) = search_edge(&self.edges, id);
        if found {
            assert(self.spec_edges()[pos as int] == self.edges@[pos as int]);
            Some(&self.edges[pos])
        } else {
            proof {
                assert forall|i: int| 0 <= i < self.edges.len() implies #[trigger] self.edges@[i].id@ != id@ by {
                    lemma_edge_id_lt_irreflexive(id@);
                }
            }
            None
        }
    }

    /// Whether the graph contains a node.
    pub fn contains_node(&self, id: &str) -> (b: bool)
        requires
            self.wf(),
        ensures
            b == has_node_id(self.spec_nodes(), id@),
    {
        self.node(id).is_some()
    }

    /// Whether the graph contains an edge.
    pub fn contains_edge(&self, id: &EdgeId) -> (b: bool)
        requires
            self.wf(),
        ensures
            b == has_edge_id(self.spec_edges(), id@),
    {
        self.edge(id).is_some()
    }

    /// Position of a node in identity order.
    pub fn node_index(&self, id: &str) -> (r: Result<usize, GraphError>)
        requires
            self.wf(),
        ensures
            r is Ok <==> has_node_id(self.spec_nodes(), id@),
            r matches Ok(i) ==> i < self.spec_nodes().len() && self.spec_nodes()[i as int].id@ == id@,
            r matches Err(e) ==> e matches GraphError::UnknownNode(missing) && missing@ == id@,
    {
        let (found, pos) = search_node(&self.nodes, id);
        if found {
            Ok(pos)
        } else {
            proof {
                assert forall|i: int| 0 <= i < self.nodes.len() implies #[trigger] self.nodes@[i].id@ != id@ by {
                    lemma_str_lt_irreflexive(id@);
                }
            }
            Err(GraphError::UnknownNode(id.to_owned()))
        }
    }

    /// Identity of the node at a position.
    pub fn node_id(&self, index: usize) -> (id: &NodeId)
        requires
            index < self.spec_nodes().len(),
        ensures
            *id == self.spec_nodes()[index as int].id,
    {
        &self.nodes[index].id
    }

    /// The edge at a position.
    pub fn edge_at(&self, index: usize) -> (e: &Edge)
        requires
            index < self.spec_edges().len(),
        ensures
            *e == self.spec_edges()[index as int],
    {
        &self.edges[index]
    }

    /// Node positions of the source and target of the edge at a position.
    pub fn edge_endpoints(&self, index: usize) -> (ends: (usize, usize))
        requires
            self.wf(),
            index < self.spec_edges().len(),
        ensures
            ends == self.spec_endpoints()[index as int],
            ends.0 < self.spec_nodes().len(),
            ends.1 < self.spec_nodes().len(),
    {
        self.endpoints[index]
    }

    /// Stored outgoing arcs of a node.
    pub fn outgoing(&self, node: usize) -> (r: &[ArcRef])
        requires
            self.wf(),
            node < self.spec_nodes().len(),
        ensures
            r@ == self.out_row(node as int),
    {
        self.outgoing.row(node)
    }

    /// Stored incoming arcs of a node.
    pub fn incoming(&self, node: usize) -> (r: &[ArcRef])
        requires
            self.wf(),
            node < self.spec_nodes().len(),
        ensures
            r@ == self.in_row(node as int),
    {
        self.incoming.row(node)
    }

    /// Arcs of a node in adjacency order. Undirected graphs always traverse
    /// both ways; traversing both ways lists each self-loop once.
    pub fn arcs(&self, node: usize, direction: TraversalDirection) -> (r: Vec<ArcRef>)
        requires
            self.wf(),
            node < self.spec_nodes().len(),
        ensures
            arcs_sorted(self.spec_ranks(), r@),
            forall|a: ArcRef| #[trigger] r@.contains(a) <==> is_traversal_arc(self.spec_endpoints(), self.spec_kind(), node as int, direction, a),
    {
        let direction = if self.kind.is_directed() {
            direction
        } else {
            TraversalDirection::Both
        };
        let ghost ends = self.spec_endpoints();
        let ghost ranks = self.spec_ranks();
        let out = self.outgoing(node);
        let inc = self.incoming(node);
        let mut r: Vec<ArcRef> = Vec::new();
        match direction {
            TraversalDirection::Out => {
                let mut i: usize = 0;
                while i < out.len()
                    invariant
                        i <= out@.len(),
                        r@ == out@.take(i as int),
                    decreases out@.len() - i,
                {
                    r.push(out[i]);
                    assert(out@.take(i + 1) == out@.take(i as int).push(out@[i as int]));
                    i = i + 1;
                }
                assert(out@.take(i as int) =~= out@);
                return r;
            },
            TraversalDirection::In => {
                let mut i: usize = 0;
                while i < inc.len()
                    invariant
                        i <= inc@.len(),
                        r@ == inc@.take(i as int),
                    decreases inc@.len() - i,
                {
                    r.push(inc[i]);
                    assert(inc@.take(i + 1) == inc@.take(i as int).push(inc@[i as int]));
                    i = i + 1;
                }
                assert(inc@.take(i as int) =~= inc@);
                return r;
            },
            TraversalDirection::Both => {},
        }
        // arcs of one edge never sit in both lists, except for self-loops
        assert forall|p: int, q: int| 0 <= p < out@.len() && 0 <= q < inc@.len() && inc@[q].neighbor != node implies
            arc_before(ranks, #[trigger] out@[p], #[trigger] inc@[q]) || arc_before(ranks, inc@[q], out@[p]) by {
            assert(self.out_row(node as int).contains(out@[p]));
            assert(self.in_row(node as int).contains(inc@[q]));
            assert(out@[p].edge != inc@[q].edge);
        }
        let mut i: usize = 0;
        let mut j: usize = 0;
        while i < out.len() || j < inc.len()
            invariant
                self.wf(),
                node < self.spec_nodes().len(),
                ends == self.spec_endpoints(),
                ranks == self.spec_ranks(),
                out@ == self.out_row(node as int),
                inc@ == self.in_row(node as int),
                arcs_sorted(ranks, out@),
                arcs_sorted(ranks, inc@),
                forall|p: int, q: int| 0 <= p < out@.len() && 0 <= q < inc@.len() && inc@[q].neighbor != node ==>
                    arc_before(ranks, #[trigger] out@[p], #[trigger] inc@[q]) || arc_before(ranks, inc@[q], out@[p]),
                i <= out@.len(),
                j <= inc@.len(),
                arcs_sorted(ranks, r@),
                forall|a: ArcRef| #[trigger] r@.contains(a) <==> (out@.take(i as int).contains(a) || (inc@.take(j as int).contains(a) && a.neighbor != node)),
                r@.len() > 0 ==> forall|q: int| i <= q < out@.len() ==> arc_before(ranks, r@.last(), #[trigger] out@[q]),
                r@.len() > 0 ==> forall|q: int| j <= q < inc@.len() && inc@[q].neighbor != node ==> arc_before(ranks, r@.last(), #[trigger] inc@[q]),
            decreases out@.len() - i + inc@.len() - j,
        {
            if j < inc.len() && inc[j].neighbor == node {
                proof {
                    assert(inc@.take(j + 1) == inc@.take(j as int).push(inc@[j as int]));
                    lemma_push_contains(inc@.take(j as int), inc@[j as int]);
                }
                j = j + 1;
            } else {
                proof {
                    if i < out@.len() {
                        assert(self.out_row(node as int).contains(out@[i as int]));
                    }
                    if j < inc@.len() {
                        assert(self.in_row(node as int).contains(inc@[j as int]));
                    }
                }
                let take_out = i < out.len() && (j >= inc.len() || out[i].neighbor < inc[j].neighbor || (
                out[i].neighbor == inc[j].neighbor && self.edge_ranks[out[i].edge] <= self.edge_ranks[inc[j].edge]));
                let ghost old_r = r@;
                if take_out {
                    proof {
                        assert(self.out_row(node as int).contains(out@[i as int]));
                        if j < inc@.len() {
                            assert(self.in_row(node as int).contains(inc@[j as int]));
                            assert(self.edge_ranks@ == ranks);
                        }
                    }
                    r.push(out[i]);
                    proof {
                        assert(out@.take(i + 1) == out@.take(i as int).push(out@[i as int]));
                        assert(r@ == old_r.push(out@[i as int]));
                        lemma_push_contains(old_r, out@[i as int]);
                        lemma_push_contains(out@.take(i as int), out@[i as int]);
                        assert forall|p: int, q: int| 0 <= p < q < r@.len() implies arc_before(ranks, #[trigger] r@[p], #[trigger] r@[q]) by {
                            if q == r@.len() - 1 && old_r.len() > 0 {
                                assert(arc_before(ranks, old_r.last(), out@[i as int]));
                                if p < old_r.len() - 1 {
                                    assert(arc_before(ranks, old_r[p], old_r.last()));
                                }
                            }
                        }
                        assert forall|q: int| i + 1 <= q < out@.len() implies arc_before(ranks, r@.last(), #[trigger] out@[q]) by {
                        }
                        assert forall|q: int| j <= q < inc@.len() && inc@[q].neighbor != node implies arc_before(ranks, r@.last(), #[trigger] inc@[q]) by {
                            if q > j {
                                assert(arc_before(ranks, inc@[j as int], inc@[q]));
                            }
                        }
                    }
                    i = i + 1;
                } else {
                    assert(j < inc@.len());
                    assert(inc@[j as int].neighbor != node);
                    proof {
                        assert(self.in_row(node as int).contains(inc@[j as int]));
                        if i < out@.len() {
                            assert(self.out_row(node as int).contains(out@[i as int]));
                            assert(self.edge_ranks@ == ranks);
                            assert(arc_before(ranks, inc@[j as int], out@[i as int]));
                        }
                    }
                    r.push(inc[j]);
                    proof {
                        assert(inc@.take(j + 1) == inc@.take(j as int).push(inc@[j as int]));
                        assert(r@ == old_r.push(inc@[j as int]));
                        lemma_push_contains(old_r, inc@[j as int]);
                        lemma_push_contains(inc@.take(j as int), inc@[j as int]);
                        assert forall|p: int, q: int| 0 <= p < q < r@.len() implies arc_before(ranks, #[trigger] r@[p], #[trigger] r@[q]) by {
                            if q == r@.len() - 1 && old_r.len() > 0 {
                                assert(arc_before(ranks, old_r.last(), inc@[j as int]));
                                if p < old_r.len() - 1 {
                                    assert(arc_before(ranks, old_r[p], old_r.last()));
                                }
                            }
                        }
                        assert forall|q: int| i <= q < out@.len() implies arc_before(ranks, r@.last(), #[trigger] out@[q]) by {
                            if q > i {
                                assert(arc_before(ranks, out@[i as int], out@[q]));
                            }
                        }
                        assert forall|q: int| j + 1 <= q < inc@.len() && inc@[q].neighbor != node implies arc_before(ranks, r@.last(), #[trigger] inc@[q]) by {
                        }
                    }
                    j = j + 1;
                }
            }
        }
        assert(out@.take(i as int) =~= out@);
        assert(inc@.take(j as int) =~= inc@);
        r
    }
}

} // verus!
