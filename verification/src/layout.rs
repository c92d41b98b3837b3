//! The discrete side of the Fruchterman–Reingold layout: checking requested
//! starting positions, the list of springs, and the fallback jitter angle.
use vstd::prelude::*;

use crate::cycles::cleared_flags;
use crate::graph::{Graph, has_node_id};
use crate::model::{GraphError, NodeId};
use crate::weight::{is_finite, is_finite_bits, ONE_BITS};

verus! {

/// A requested starting position: a node identity and the bit patterns of
/// its two coordinates.
#[derive(Debug, Clone, PartialEq, Eq)]
pub struct SeedPosition {
    /// External node identity.
    pub node_id: NodeId,
    /// Horizontal coordinate, as the bits of an `f64`.
    pub x_bits: u64,
    /// Vertical coordinate, as the bits of an `f64`.
    pub y_bits: u64,
}

/// Both coordinates are finite.
pub open spec fn seed_finite(p: SeedPosition) -> bool {
    is_finite_bits(p.x_bits) && is_finite_bits(p.y_bits)
}

/// An earlier request names the same node as request `i`.
pub open spec fn seed_repeated(ps: Seq<SeedPosition>, i: int) -> bool {
    exists|j: int| 0 <= j < i && #[trigger] ps[j].node_id@ == ps[i].node_id@
}

/// Request `i` is rejected: a coordinate is not finite, the node is unknown,
/// or an earlier request named the same node.
pub open spec fn seed_rejected(g: Graph, ps: Seq<SeedPosition>, i: int) -> bool {
    ||| !seed_finite(ps[i])
    ||| !has_node_id(g.spec_nodes(), ps[i].node_id@)
    ||| seed_repeated(ps, i)
}

/// The error that rejects request `i`, by the first check it fails.
pub open spec fn seed_error(g: Graph, ps: Seq<SeedPosition>, i: int, e: GraphError) -> bool {
    let id = ps[i].node_id@;
    if !seed_finite(ps[i]) {
        e matches GraphError::InvalidOption(m) && m@ == "initial position for "@ + id + " must be finite"@
    } else if !has_node_id(g.spec_nodes(), id) {
        e matches GraphError::UnknownNode(m) && m@ == id
    } else {
        e matches GraphError::InvalidOption(m) && m@ == "duplicate initial position for "@ + id
    }
}

/// A set of requests is accepted exactly when every request has two finite
/// coordinates, names a node of the graph, and names a node no other request
/// names: a request whose `x` or `y` bits encode NaN or an infinity is
/// refused.
pub proof fn lemma_accepted_positions_finite(g: Graph, ps: Seq<SeedPosition>, accepted: bool)
    requires
        accepted <==> forall|i: int| 0 <= i < ps.len() ==> !#[trigger] seed_rejected(g, ps, i),
    ensures
        accepted <==> {
            &&& forall|i: int| 0 <= i < ps.len() ==> is_finite_bits((#[trigger] ps[i]).x_bits) && is_finite_bits(ps[i].y_bits)
            &&& forall|i: int| 0 <= i < ps.len() ==> has_node_id(g.spec_nodes(), (#[trigger] ps[i]).node_id@)
            &&& forall|i: int, j: int| 0 <= i < j < ps.len() ==> (#[trigger] ps[i]).node_id@ != (#[trigger] ps[j]).node_id@
        },
        accepted ==> forall|i: int| 0 <= i < ps.len() ==> is_finite_bits((#[trigger] ps[i]).x_bits) && is_finite_bits(ps[i].y_bits),
        (exists|i: int| 0 <= i < ps.len() && (!is_finite_bits((#[trigger] ps[i]).x_bits) || !is_finite_bits(ps[i].y_bits))) ==> !accepted,
{
    if accepted {
        assert forall|i: int| 0 <= i < ps.len() implies is_finite_bits((#[trigger] ps[i]).x_bits) && is_finite_bits(ps[i].y_bits) by {
            assert(!seed_rejected(g, ps, i));
        }
        assert forall|i: int| 0 <= i < ps.len() implies has_node_id(g.spec_nodes(), (#[trigger] ps[i]).node_id@) by {
            assert(!seed_rejected(g, ps, i));
        }
        assert forall|i: int, j: int| 0 <= i < j < ps.len() implies (#[trigger] ps[i]).node_id@ != (#[trigger] ps[j]).node_id@ by {
            assert(!seed_rejected(g, ps, j));
            if ps[i].node_id@ == ps[j].node_id@ {
                assert(seed_repeated(ps, j));
            }
        }
    }
    if exists|i: int| 0 <= i < ps.len() && (!is_finite_bits((#[trigger] ps[i]).x_bits) || !is_finite_bits(ps[i].y_bits)) {
        let i = choose|i: int| 0 <= i < ps.len() && (!is_finite_bits((#[trigger] ps[i]).x_bits) || !is_finite_bits(ps[i].y_bits));
        assert(seed_rejected(g, ps, i));
    }
    if !accepted {
        let i = choose|i: int| 0 <= i < ps.len() && #[trigger] seed_rejected(g, ps, i);
        if seed_repeated(ps, i) {
            let j = choose|j: int| 0 <= j < i && #[trigger] ps[j].node_id@ == ps[i].node_id@;
            assert(ps[j].node_id@ == ps[i].node_id@);
        }
    }
}

impl Graph {
    /// Check the requested starting positions in order and give the node
    /// position of each; the first rejected request decides the error.
    pub fn validate_initial_positions(&self, positions: &Vec<SeedPosition>) -> (r: Result<Vec<usize>, GraphError>)
        requires
            self.wf(),
        ensures
            r is Ok <==> forall|i: int| 0 <= i < positions.len() ==> !#[trigger] seed_rejected(*self, positions@, i),
            r matches Ok(nodes) ==> nodes.len() == positions.len() && forall|i: int| 0 <= i < nodes.len() ==>
                #[trigger] nodes@[i] < self.spec_nodes().len() && self.spec_nodes()[nodes@[i] as int].id@ == positions@[i].node_id@,
            r matches Err(e) ==> exists|i: int| 0 <= i < positions.len() && #[trigger] seed_rejected(*self, positions@, i)
                && (forall|j: int| 0 <= j < i ==> !#[trigger] seed_rejected(*self, positions@, j)) && seed_error(*self, positions@, i, e),
            r is Ok ==> forall|i: int| 0 <= i < positions.len()
                ==> is_finite_bits((#[trigger] positions@[i]).x_bits) && is_finite_bits(positions@[i].y_bits),
    {
        let n = self.node_count();
        let mut seen = cleared_flags(n);
        let mut nodes: Vec<usize> = Vec::new();
        let mut i: usize = 0;
        proof {
            assert forall|a: int, b: int| 0 <= a < n && 0 <= b < n && a != b implies #[trigger] self.spec_nodes()[a].id@ != #[trigger] self.spec_nodes()[b].id@ by {
                crate::graph::lemma_sorted_ids_distinct(self.spec_nodes(), a, b);
            }
        }
        while i < positions.len()
            invariant
                self.wf(),
                n == self.spec_nodes().len(),
                i <= positions.len(),
                seen.len() == n,
                nodes.len() == i,
                forall|j: int| 0 <= j < i ==> !#[trigger] seed_rejected(*self, positions@, j),
                forall|j: int| 0 <= j < i ==> #[trigger] nodes@[j] < n && self.spec_nodes()[nodes@[j] as int].id@ == positions@[j].node_id@,
                forall|v: int| 0 <= v < n ==> (#[trigger] seen@[v] <==> exists|j: int| 0 <= j < i && #[trigger] nodes@[j] == v),
                forall|a: int, b: int| 0 <= a < n && 0 <= b < n && a != b ==> #[trigger] self.spec_nodes()[a].id@ != #[trigger] self.spec_nodes()[b].id@,
            decreases positions.len() - i,
        {
            let p = &positions[i];
            if !is_finite(p.x_bits) || !is_finite(p.y_bits) {
                let mut message = String::from_str("initial position for ");
                message.append(p.node_id.as_str());
                message.append(" must be finite");
                proof {
                    reveal_strlit("initial position for ");
                    reveal_strlit(" must be finite");
                    assert(seed_rejected(*self, positions@, i as int));
                }
                return Err(GraphError::InvalidOption(message));
            }
            let node = match self.node_index(p.node_id.as_str()) {
                Ok(v) => v,
                Err(e) => {
                    proof {
                        assert(seed_rejected(*self, positions@, i as int));
                    }
                    return Err(e);
                },
            };
            if seen[node] {
                let mut message = String::from_str("duplicate initial position for ");
                message.append(p.node_id.as_str());
                proof {
                    reveal_strlit("duplicate initial position for ");
                    let j = choose|j: int| 0 <= j < i && #[trigger] nodes@[j] == node;
                    assert(positions@[j].node_id@ == positions@[i as int].node_id@);
                    assert(seed_repeated(positions@, i as int));
                    assert(seed_rejected(*self, positions@, i as int));
                }
                return Err(GraphError::InvalidOption(message));
            }
            proof {
                assert(!seed_repeated(positions@, i as int)) by {
                    if seed_repeated(positions@, i as int) {
                        let j = choose|j: int| 0 <= j < i && #[trigger] positions@[j].node_id@ == positions@[i as int].node_id@;
                        assert(self.spec_nodes()[nodes@[j] as int].id@ == self.spec_nodes()[node as int].id@);
                        assert(seen@[nodes@[j] as int]);
                    }
                }
                assert(!seed_rejected(*self, positions@, i as int));
            }
            let ghost before = nodes@;
            seen.set(node, true);
            nodes.push(node);
            proof {
                assert forall|v: int| 0 <= v < n implies (#[trigger] seen@[v] <==> exists|j: int| 0 <= j < i + 1 && #[trigger] nodes@[j] == v) by {
                    if v == node {
                        assert(nodes@[i as int] == v);
                    } else {
                        if seen@[v] {
                            let j = choose|j: int| 0 <= j < i && #[trigger] before[j] == v;
                            assert(nodes@[j] == v);
                        }
                        if exists|j: int| 0 <= j < i + 1 && #[trigger] nodes@[j] == v {
                            let j = choose|j: int| 0 <= j < i + 1 && #[trigger] nodes@[j] == v;
                            assert(before[j] == v);
                        }
                    }
                }
            }
            i = i + 1;
        }
        proof {
            lemma_accepted_positions_finite(*self, positions@, true);
        }
        Ok(nodes)
    }
}

/// The springs among the first `k` edges: each edge between two distinct
/// nodes pulls its endpoints together with its selected weight, or weight one.
pub open spec fn springs_upto(g: Graph, weighted: bool, k: int) -> Seq<(usize, usize, u64)>
    decreases k,
{
    if k <= 0 {
        seq![]
    } else {
        let before = springs_upto(g, weighted, k - 1);
        let ends = g.spec_endpoints()[k - 1];
        if ends.0 == ends.1 {
            before
        } else {
            let weight = if weighted {
                match g.spec_edges()[k - 1].weight {
                    Some(w) => w,
                    None => ONE_BITS,
                }
            } else {
                ONE_BITS
            };
            before.push((ends.0, ends.1, weight))
        }
    }
}

/// The weight the spring of edge `k` pulls with: its selected weight when
/// weights are used and present, else one.
pub open spec fn edge_pull(g: Graph, weighted: bool, k: int) -> u64 {
    if weighted {
        match g.spec_edges()[k].weight {
            Some(w) => w,
            None => ONE_BITS,
        }
    } else {
        ONE_BITS
    }
}

/// Spring `i` comes from edge `idx[i]`: the edges are taken in increasing
/// order, each joins two distinct nodes and gives the spring from its source
/// to its target, and every such edge among the first `k` gives a spring.
pub open spec fn springs_from_edges(g: Graph, weighted: bool, k: int, springs: Seq<(usize, usize, u64)>, idx: Seq<int>) -> bool {
    &&& idx.len() == springs.len()
    &&& forall|i: int, j: int| 0 <= i < j < idx.len() ==> #[trigger] idx[i] < #[trigger] idx[j]
    &&& forall|i: int| 0 <= i < idx.len() ==> {
        &&& 0 <= #[trigger] idx[i] < k
        &&& g.spec_endpoints()[idx[i]].0 != g.spec_endpoints()[idx[i]].1
        &&& springs[i] == (g.spec_endpoints()[idx[i]].0, g.spec_endpoints()[idx[i]].1, edge_pull(g, weighted, idx[i]))
    }
    &&& forall|e: int| 0 <= e < k && g.spec_endpoints()[e].0 != g.spec_endpoints()[e].1
        ==> exists|i: int| 0 <= i < idx.len() && #[trigger] idx[i] == e
}

/// Every edge between two distinct nodes gives exactly one spring, from its
/// source to its target, in edge order; only self-loops give none.
pub proof fn lemma_springs_from_edges(g: Graph, weighted: bool, k: int)
    requires
        0 <= k,
    ensures
        exists|idx: Seq<int>| #[trigger] springs_from_edges(g, weighted, k, springs_upto(g, weighted, k), idx),
    decreases k,
{
    if k == 0 {
        assert(springs_from_edges(g, weighted, 0, springs_upto(g, weighted, 0), Seq::<int>::empty()));
    } else {
        lemma_springs_from_edges(g, weighted, k - 1);
        let before = springs_upto(g, weighted, k - 1);
        let idx0 = choose|idx: Seq<int>| #[trigger] springs_from_edges(g, weighted, k - 1, before, idx);
        let ends = g.spec_endpoints()[k - 1];
        if ends.0 == ends.1 {
            assert(springs_from_edges(g, weighted, k, springs_upto(g, weighted, k), idx0)) by {
                assert forall|e: int| 0 <= e < k && g.spec_endpoints()[e].0 != g.spec_endpoints()[e].1
                    implies exists|i: int| 0 <= i < idx0.len() && #[trigger] idx0[i] == e by {
                    assert(e < k - 1);
                }
            }
        } else {
            let idx = idx0.push(k - 1);
            let r = springs_upto(g, weighted, k);
            assert(r == before.push((ends.0, ends.1, edge_pull(g, weighted, k - 1))));
            assert(springs_from_edges(g, weighted, k, r, idx)) by {
                assert forall|i: int, j: int| 0 <= i < j < idx.len() implies #[trigger] idx[i] < #[trigger] idx[j] by {
                    if j < idx0.len() {
                        assert(idx[i] == idx0[i] && idx[j] == idx0[j]);
                    } else {
                        assert(idx[i] == idx0[i]);
                    }
                }
                assert forall|i: int| 0 <= i < idx.len() implies {
                    &&& 0 <= #[trigger] idx[i] < k
                    &&& g.spec_endpoints()[idx[i]].0 != g.spec_endpoints()[idx[i]].1
                    &&& r[i] == (g.spec_endpoints()[idx[i]].0, g.spec_endpoints()[idx[i]].1, edge_pull(g, weighted, idx[i]))
                } by {
                    if i < idx0.len() {
                        assert(idx[i] == idx0[i]);
                        assert(r[i] == before[i]);
                    }
                }
                assert forall|e: int| 0 <= e < k && g.spec_endpoints()[e].0 != g.spec_endpoints()[e].1
                    implies exists|i: int| 0 <= i < idx.len() && #[trigger] idx[i] == e by {
                    if e < k - 1 {
                        let i = choose|i: int| 0 <= i < idx0.len() && #[trigger] idx0[i] == e;
                        assert(idx[i] == e);
                    } else {
                        assert(idx[idx0.len() as int] == e);
                    }
                }
            }
        }
    }
}

impl Graph {
    /// The attracting springs of the layout, in edge order; self-loops pull
    /// nothing and are left out.
    pub fn layout_springs(&self, weighted: bool) -> (r: Vec<(usize, usize, u64)>)
        requires
            self.wf(),
        ensures
            r@ == springs_upto(*self, weighted, self.spec_edges().len() as int),
            exists|idx: Seq<int>| #[trigger] springs_from_edges(*self, weighted, self.spec_edges().len() as int, r@, idx),
    {
        let m = self.edge_count();
        let mut springs: Vec<(usize, usize, u64)> = Vec::new();
        let mut e: usize = 0;
        while e < m
            invariant
                self.wf(),
                m == self.spec_edges().len(),
                e <= m,
                springs@ == springs_upto(*self, weighted, e as int),
            decreases m - e,
        {
            let (source, target) = self.edge_endpoints(e);
            if source != target {
                let weight = if weighted {
                    match self.edge_at(e).weight {
                        Some(w) => w,
                        None => ONE_BITS,
                    }
                } else {
                    ONE_BITS
                };
                springs.push((source, target, weight));
            }
            e = e + 1;
        }
        proof {
            lemma_springs_from_edges(*self, weighted, m as int);
        }
        springs
    }
}

/// The fallback direction, in whole degrees, that separates two coincident
/// nodes.
pub open spec fn jitter_degrees_spec(left: usize, right: usize) -> usize {
    ((vstd::wrapping::usize_specs::wrapping_mul(left, 31) ^ vstd::wrapping::usize_specs::wrapping_mul(right, 17)) % 360) as usize
}

/// The fallback direction, in whole degrees, for the pair `(left, right)`.
pub fn jitter_degrees(left: usize, right: usize) -> (r: usize)
    ensures
        r == jitter_degrees_spec(left, right),
        r < 360,
{
    (left.wrapping_mul(31) ^ right.wrapping_mul(17)) % 360
}

} // verus!
