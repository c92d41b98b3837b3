//! Bounded simple-cycle enumeration.
use vstd::prelude::*;

use crate::graph::{Graph, arcs_sorted, is_traversal_arc, is_out_arc, is_in_arc, lemma_push_contains, lemma_permutation_covers};
use crate::model::{ArcRef, EdgeId, NodeId, TraversalDirection};
use crate::order::Comparison;
use crate::count::PositiveCount;
use crate::centrality::{is_out_walk, out_step, steps_to};

verus! {

/// Bounded cycle-enumeration options.
#[derive(Debug, Clone, Copy, PartialEq, Eq, Structural)]
pub struct CycleOptions {
    /// Maximum number of edges in a returned cycle.
    pub length_bound: PositiveCount,
    /// Optional output cap (positive when present).
    pub max_cycles: Option<PositiveCount>,
}

/// One canonical simple cycle. The first node is not repeated at the end.
#[derive(Debug, Clone, PartialEq, Eq)]
pub struct Cycle {
    /// Canonically rotated node sequence.
    pub node_ids: Vec<NodeId>,
    /// One representative edge per adjacent node pair, including the closing
    /// edge from the last node to the first.
    pub edge_ids: Vec<EdgeId>,
}

/// Bounded cycle output and truncation state.
#[derive(Debug, Clone, PartialEq, Eq)]
pub struct CycleResult {
    /// Cycles in canonical deterministic order.
    pub cycles: Vec<Cycle>,
    /// True only when `max_cycles` stopped enumeration.
    pub truncated: bool,
}

/// Edge `e` leads from node `a` to node `b`: along its direction in a
/// directed graph, either way in an undirected one.
pub open spec fn joins(g: Graph, a: int, b: int, e: int) -> bool {
    &&& 0 <= e < g.spec_edges().len()
    &&& {
        ||| (g.spec_endpoints()[e].0 == a && g.spec_endpoints()[e].1 == b)
        ||| (!g.spec_kind().directed() && g.spec_endpoints()[e].0 == b && g.spec_endpoints()[e].1 == a)
    }
}

/// The values of a sequence are pairwise distinct.
pub open spec fn distinct(s: Seq<usize>) -> bool {
    forall|i: int, j: int| 0 <= i < s.len() && 0 <= j < s.len() && i != j ==> #[trigger] s[i] != #[trigger] s[j]
}

/// A simple cycle of at most `bound` edges, given by node and edge positions:
/// edge `i` leads from node `i` to node `i + 1` (cyclically).
pub open spec fn is_bounded_simple_cycle(g: Graph, nodes: Seq<usize>, edges: Seq<usize>, bound: int) -> bool {
    &&& 1 <= nodes.len() <= bound
    &&& edges.len() == nodes.len()
    &&& distinct(nodes)
    &&& distinct(edges)
    &&& forall|i: int| 0 <= i < nodes.len() ==> #[trigger] nodes[i] < g.spec_nodes().len()
    &&& forall|i: int|
        0 <= i < nodes.len() ==> #[trigger] joins(g, nodes[i] as int, nodes[(i + 1) % nodes.len() as int] as int, edges[i] as int)
}

/// The sequence read cyclically from `offset`.
pub open spec fn rotate(s: Seq<usize>, offset: int) -> Seq<usize> {
    Seq::new(s.len(), |i: int| s[(offset + i) % s.len() as int])
}

/// The edges of a cycle traversed backwards, matching the reversed node order.
pub open spec fn reverse_edges(edges: Seq<usize>) -> Seq<usize> {
    Seq::new(edges.len(), |i: int| edges[(2 * edges.len() - 2 - i) % edges.len() as int])
}

/// Lexicographic strict order of two sequences.
pub open spec fn seq_lt(a: Seq<usize>, b: Seq<usize>) -> bool {
    exists|k: int|
        #![trigger a.take(k), b.take(k)]
        0 <= k <= a.len() && k <= b.len() && a.take(k) == b.take(k) && ((k == a.len() && k
            < b.len()) || (k < a.len() && k < b.len() && a[k] < b[k]))
}

/// Order of cycle forms: by node sequence, then by edge sequence.
pub open spec fn form_lt(a: (Seq<usize>, Seq<usize>), b: (Seq<usize>, Seq<usize>)) -> bool {
    seq_lt(a.0, b.0) || (a.0 == b.0 && seq_lt(a.1, b.1))
}

/// A rotation of the cycle, read forwards (`reversed` false) or backwards.
pub open spec fn cycle_form(nodes: Seq<usize>, edges: Seq<usize>, reversed: bool, offset: int) -> (Seq<usize>, Seq<usize>) {
    if reversed {
        (rotate(nodes.reverse(), offset), rotate(reverse_edges(edges), offset))
    } else {
        (rotate(nodes, offset), rotate(edges, offset))
    }
}

/// The forms a cycle may be written in: every rotation, and in an undirected
/// graph every rotation of the reversal.
pub open spec fn is_form_of(directed: bool, nodes: Seq<usize>, edges: Seq<usize>, form: (Seq<usize>, Seq<usize>)) -> bool {
    exists|reversed: bool, offset: int|
        0 <= offset < nodes.len() && (!directed || !reversed) && #[trigger] cycle_form(nodes, edges, reversed, offset) == form
}

/// `form` is the least way to write the cycle.
pub open spec fn is_canonical_form(directed: bool, nodes: Seq<usize>, edges: Seq<usize>, form: (Seq<usize>, Seq<usize>)) -> bool {
    &&& is_form_of(directed, nodes, edges, form)
    &&& forall|reversed: bool, offset: int|
        0 <= offset < nodes.len() && (!directed || !reversed) ==> !form_lt(#[trigger] cycle_form(nodes, edges, reversed, offset), form)
}

proof fn lemma_seq_lt_transitive(a: Seq<usize>, b: Seq<usize>, c: Seq<usize>)
    requires
        seq_lt(a, b),
        seq_lt(b, c),
    ensures
        seq_lt(a, c),
{
    let k1 = choose|k: int|
        #![trigger a.take(k), b.take(k)]
        0 <= k <= a.len() && k <= b.len() && a.take(k) == b.take(k) && ((k == a.len() && k
            < b.len()) || (k < a.len() && k < b.len() && a[k] < b[k]));
    let k2 = choose|k: int|
        #![trigger b.take(k), c.take(k)]
        0 <= k <= b.len() && k <= c.len() && b.take(k) == c.take(k) && ((k == b.len() && k
            < c.len()) || (k < b.len() && k < c.len() && b[k] < c[k]));
    let k = if k1 <= k2 {
        k1
    } else {
        k2
    };
    assert(a.take(k) =~= c.take(k)) by {
        assert forall|i: int| 0 <= i < k implies a[i] == c[i] by {
            assert(a.take(k1)[i] == b.take(k1)[i]);
            assert(b.take(k2)[i] == c.take(k2)[i]);
        }
    }
    if k1 < k2 {
        assert(b.take(k2)[k1] == c.take(k2)[k1]);
    } else if k2 < k1 {
        assert(a.take(k1)[k2] == b.take(k1)[k2]);
    }
    assert(a.take(k) == c.take(k));
}

proof fn lemma_seq_total_from(a: Seq<usize>, b: Seq<usize>, i: int)
    requires
        0 <= i <= a.len(),
        i <= b.len(),
        a.take(i) == b.take(i),
    ensures
        seq_lt(a, b) || a == b || seq_lt(b, a),
    decreases a.len() - i,
{
    if i == a.len() && i == b.len() {
        assert(a =~= a.take(i));
        assert(b =~= b.take(i));
    } else if i == a.len() {
        assert(b.take(i) == a.take(i));
    } else if i == b.len() {
        assert(b.take(i) == a.take(i));
    } else if a[i] != b[i] {
        assert(b.take(i) == a.take(i));
    } else {
        assert(a.take(i + 1) =~= b.take(i + 1)) by {
            assert forall|j: int| 0 <= j < i implies a[j] == b[j] by {
                assert(a.take(i)[j] == a[j]);
                assert(b.take(i)[j] == b[j]);
            }
        }
        lemma_seq_total_from(a, b, i + 1);
    }
}

/// Lexicographic order is a strict total order.
proof fn lemma_seq_lt_facts(a: Seq<usize>, b: Seq<usize>, c: Seq<usize>)
    ensures
        !seq_lt(a, a),
        seq_lt(a, b) ==> !seq_lt(b, a) && a != b,
        seq_lt(a, b) && seq_lt(b, c) ==> seq_lt(a, c),
        seq_lt(a, b) || a == b || seq_lt(b, a),
{
    if seq_lt(a, b) && seq_lt(b, c) {
        lemma_seq_lt_transitive(a, b, c);
    }
    if seq_lt(a, b) && seq_lt(b, a) {
        lemma_seq_lt_transitive(a, b, a);
    }
    assert(a.take(0) =~= b.take(0));
    lemma_seq_total_from(a, b, 0);
}

proof fn lemma_form_lt_facts(a: (Seq<usize>, Seq<usize>), b: (Seq<usize>, Seq<usize>), c: (Seq<usize>, Seq<usize>))
    ensures
        !form_lt(a, a),
        form_lt(a, b) ==> !form_lt(b, a) && a != b,
        form_lt(a, b) && form_lt(b, c) ==> form_lt(a, c),
        form_lt(a, b) || a == b || form_lt(b, a),
{
    lemma_seq_lt_facts(a.0, b.0, c.0);
    lemma_seq_lt_facts(a.1, b.1, c.1);
    lemma_seq_lt_facts(b.0, a.0, c.0);
    lemma_seq_lt_facts(b.1, a.1, c.1);
    lemma_seq_lt_facts(a.0, c.0, b.0);
}


/// Lexicographic comparison of two position sequences.
fn compare_seqs(a: &Vec<usize>, b: &Vec<usize>) -> (c: Comparison)
    ensures
        c is Less <==> seq_lt(a@, b@),
        c is Equal <==> a@ == b@,
        c is Greater <==> seq_lt(b@, a@),
{
    proof {
        lemma_seq_lt_facts(a@, b@, a@);
        lemma_seq_lt_facts(b@, a@, b@);
    }
    let mut i: usize = 0;
    assert(a@.take(0) =~= b@.take(0));
    while i < a.len() && i < b.len()
        invariant
            i <= a@.len(),
            i <= b@.len(),
            a@.take(i as int) == b@.take(i as int),
        decreases a@.len() - i,
    {
        if a[i] < b[i] {
            assert(seq_lt(a@, b@)) by {
                assert(a@.take(i as int) == b@.take(i as int));
            }
            proof {
                lemma_seq_lt_facts(a@, b@, a@);
            }
            return Comparison::Less;
        }
        if a[i] > b[i] {
            assert(seq_lt(b@, a@)) by {
                assert(b@.take(i as int) == a@.take(i as int));
            }
            proof {
                lemma_seq_lt_facts(b@, a@, b@);
            }
            return Comparison::Greater;
        }
        assert(a@.take(i + 1) =~= b@.take(i + 1)) by {
            assert forall|j: int| 0 <= j < i + 1 implies a@[j] == b@[j] by {
                if j < i {
                    assert(a@.take(i as int)[j] == a@[j]);
                    assert(b@.take(i as int)[j] == b@[j]);
                }
            }
        }
        i = i + 1;
    }
    if a.len() < b.len() {
        assert(seq_lt(a@, b@)) by {
            assert(a@.take(i as int) == b@.take(i as int));
        }
        Comparison::Less
    } else if a.len() > b.len() {
        assert(seq_lt(b@, a@)) by {
            assert(b@.take(i as int) == a@.take(i as int));
        }
        Comparison::Greater
    } else {
        assert(a@ =~= a@.take(i as int));
        assert(b@ =~= b@.take(i as int));
        Comparison::Equal
    }
}

/// A value in `0 .. 2 * m` taken modulo `m`.
proof fn lemma_mod_once(x: int, m: int)
    requires
        0 <= x < 2 * m,
    ensures
        x % m == (if x < m { x } else { x - m }),
{
    if x < m {
        vstd::arithmetic::div_mod::lemma_small_mod(x as nat, m as nat);
    } else {
        vstd::arithmetic::div_mod::lemma_mod_add_multiples_vanish(x - m, m);
        vstd::arithmetic::div_mod::lemma_small_mod((x - m) as nat, m as nat);
    }
}

/// Position `offset + index` of a sequence of `length` values read cyclically.
fn cyclic_index(offset: usize, index: usize, length: usize) -> (r: usize)
    requires
        offset < length,
        index < length,
    ensures
        r == (offset + index) % (length as int),
        r < length,
{
    proof {
        lemma_mod_once(offset + index, length as int);
    }
    if index < length - offset {
        offset + index
    } else {
        index - (length - offset)
    }
}

/// Position of the `index`-th edge when a cycle of `length` edges is read
/// backwards.
fn reverse_index(index: usize, length: usize) -> (r: usize)
    requires
        index < length,
    ensures
        r == (2 * length - 2 - index) % (length as int),
        r < length,
{
    proof {
        lemma_mod_once(2 * length - 2 - index, length as int);
    }
    if index < length - 1 {
        length - 2 - index
    } else {
        length - 1
    }
}

/// Compare the rotation of `left` at `left_offset` with the rotation of
/// `right` at `right_offset`: by nodes, then by edges.
fn compare_rotations(
    left: &(Vec<usize>, Vec<usize>),
    left_offset: usize,
    right: &(Vec<usize>, Vec<usize>),
    right_offset: usize,
) -> (c: Comparison)
    requires
        left.0.len() >= 1,
        left.1.len() == left.0.len(),
        right.0.len() == left.0.len(),
        right.1.len() == left.0.len(),
        left_offset < left.0.len(),
        right_offset < left.0.len(),
    ensures
        ({
            let l = (rotate(left.0@, left_offset as int), rotate(left.1@, left_offset as int));
            let r = (rotate(right.0@, right_offset as int), rotate(right.1@, right_offset as int));
            &&& c is Less <==> form_lt(l, r)
            &&& c is Equal <==> l == r
            &&& c is Greater <==> form_lt(r, l)
        }),
{
    let length = left.0.len();
    let ghost ln = rotate(left.0@, left_offset as int);
    let ghost rn = rotate(right.0@, right_offset as int);
    let ghost le = rotate(left.1@, left_offset as int);
    let ghost re = rotate(right.1@, right_offset as int);
    proof {
        lemma_form_lt_facts((ln, le), (rn, re), (ln, le));
        lemma_form_lt_facts((rn, re), (ln, le), (rn, re));
    }
    let mut index: usize = 0;
    assert(ln.take(0) =~= rn.take(0));
    while index < length
        invariant
            length == left.0.len(),
            length == right.0.len(),
            left_offset < length,
            right_offset < length,
            ln == rotate(left.0@, left_offset as int),
            rn == rotate(right.0@, right_offset as int),
            index <= length,
            ln.take(index as int) == rn.take(index as int),
        decreases length - index,
    {
        let x = left.0[cyclic_index(left_offset, index, length)];
        let y = right.0[cyclic_index(right_offset, index, length)];
        assert(x == ln[index as int]);
        assert(y == rn[index as int]);
        if x < y {
            assert(seq_lt(ln, rn)) by {
                assert(ln.take(index as int) == rn.take(index as int));
            }
            proof {
                lemma_form_lt_facts((ln, le), (rn, re), (ln, le));
                lemma_form_lt_facts((rn, re), (ln, le), (rn, re));
                lemma_seq_lt_facts(ln, rn, ln);
            }
            return Comparison::Less;
        }
        if x > y {
            assert(seq_lt(rn, ln)) by {
                assert(rn.take(index as int) == ln.take(index as int));
            }
            proof {
                lemma_form_lt_facts((ln, le), (rn, re), (ln, le));
                lemma_form_lt_facts((rn, re), (ln, le), (rn, re));
                lemma_seq_lt_facts(rn, ln, rn);
            }
            return Comparison::Greater;
        }
        assert(ln.take(index + 1) =~= rn.take(index + 1)) by {
            assert forall|j: int| 0 <= j < index + 1 implies ln[j] == rn[j] by {
                if j < index {
                    assert(ln.take(index as int)[j] == ln[j]);
                    assert(rn.take(index as int)[j] == rn[j]);
                }
            }
        }
        index = index + 1;
    }
    assert(ln =~= ln.take(index as int));
    assert(rn =~= rn.take(index as int));
    let mut index: usize = 0;
    assert(le.take(0) =~= re.take(0));
    while index < length
        invariant
            length == left.0.len(),
            length == left.1.len(),
            length == right.1.len(),
            left_offset < length,
            right_offset < length,
            le == rotate(left.1@, left_offset as int),
            re == rotate(right.1@, right_offset as int),
            index <= length,
            le.take(index as int) == re.take(index as int),
            ln == rotate(left.0@, left_offset as int),
            rn == rotate(right.0@, right_offset as int),
            ln == rn,
        decreases length - index,
    {
        let x = left.1[cyclic_index(left_offset, index, length)];
        let y = right.1[cyclic_index(right_offset, index, length)];
        assert(x == le[index as int]);
        assert(y == re[index as int]);
        if x < y {
            assert(seq_lt(le, re)) by {
                assert(le.take(index as int) == re.take(index as int));
            }
            proof {
                lemma_form_lt_facts((ln, le), (rn, re), (ln, le));
                lemma_form_lt_facts((rn, re), (ln, le), (rn, re));
                lemma_seq_lt_facts(le, re, le);
            }
            return Comparison::Less;
        }
        if x > y {
            assert(seq_lt(re, le)) by {
                assert(re.take(index as int) == le.take(index as int));
            }
            proof {
                lemma_form_lt_facts((ln, le), (rn, re), (ln, le));
                lemma_form_lt_facts((rn, re), (ln, le), (rn, re));
                lemma_seq_lt_facts(re, le, re);
            }
            return Comparison::Greater;
        }
        assert(le.take(index + 1) =~= re.take(index + 1)) by {
            assert forall|j: int| 0 <= j < index + 1 implies le[j] == re[j] by {
                if j < index {
                    assert(le.take(index as int)[j] == le[j]);
                    assert(re.take(index as int)[j] == re[j]);
                }
            }
        }
        index = index + 1;
    }
    assert(le =~= le.take(index as int));
    assert(re =~= re.take(index as int));
    proof {
        lemma_form_lt_facts((ln, le), (rn, re), (ln, le));
    }
    Comparison::Equal
}

/// The sequence read cyclically from `offset`.
fn rotated(s: &Vec<usize>, offset: usize) -> (r: Vec<usize>)
    requires
        s.len() >= 1,
        offset < s.len(),
    ensures
        r@ == rotate(s@, offset as int),
{
    let length = s.len();
    let mut r: Vec<usize> = Vec::new();
    let mut i: usize = 0;
    while i < length
        invariant
            length == s.len(),
            offset < length,
            i <= length,
            r.len() == i,
            forall|j: int| 0 <= j < i ==> #[trigger] r@[j] == s@[(offset + j) % length as int],
        decreases length - i,
    {
        r.push(s[cyclic_index(offset, i, length)]);
        i = i + 1;
    }
    assert(r@ =~= rotate(s@, offset as int));
    r
}

/// The least way to write the cycle given by a path and its closing edge.
fn canonical_cycle(directed: bool, path_nodes: &Vec<usize>, path_edges: &Vec<usize>) -> (form: (Vec<usize>, Vec<usize>))
    requires
        path_nodes.len() >= 1,
        path_edges.len() == path_nodes.len(),
    ensures
        is_canonical_form(directed, path_nodes@, path_edges@, (form.0@, form.1@)),
{
    let length = path_nodes.len();
    let forward = (path_nodes.clone(), path_edges.clone());
    let mut reverse_nodes: Vec<usize> = Vec::new();
    let mut reverse_edges_v: Vec<usize> = Vec::new();
    let mut i: usize = 0;
    while i < length
        invariant
            length == path_nodes.len(),
            length == path_edges.len(),
            length >= 1,
            i <= length,
            reverse_nodes.len() == i,
            reverse_edges_v.len() == i,
            forall|j: int| 0 <= j < i ==> #[trigger] reverse_nodes@[j] == path_nodes@.reverse()[j],
            forall|j: int| 0 <= j < i ==> #[trigger] reverse_edges_v@[j] == reverse_edges(path_edges@)[j],
        decreases length - i,
    {
        reverse_nodes.push(path_nodes[length - 1 - i]);
        reverse_edges_v.push(path_edges[reverse_index(i, length)]);
        i = i + 1;
    }
    let backward = (reverse_nodes, reverse_edges_v);
    assert(backward.0@ =~= path_nodes@.reverse());
    assert(backward.1@ =~= reverse_edges(path_edges@));
    let ghost nodes = path_nodes@;
    let ghost edges = path_edges@;
    let sequence_count: usize = if directed {
        1
    } else {
        2
    };
    let mut best_reversed = false;
    let mut best_offset: usize = 0;
    let mut sequence_index: usize = 0;
    assert(forward.0@ == nodes && forward.1@ == edges);
    while sequence_index < sequence_count
        invariant
            length == nodes.len(),
            length == edges.len(),
            length >= 1,
            forward.0@ == nodes,
            forward.1@ == edges,
            backward.0@ == nodes.reverse(),
            backward.1@ == reverse_edges(edges),
            sequence_count == (if directed { 1usize } else { 2usize }),
            sequence_index <= sequence_count,
            best_offset < length,
            directed ==> !best_reversed,
            sequence_index == 0 ==> !best_reversed && best_offset == 0,
            forall|reversed: bool, offset: int|
                0 <= offset < length && (!directed || !reversed) && ((!reversed && sequence_index >= 1) || (reversed && sequence_index >= 2))
                    ==> !form_lt(#[trigger] cycle_form(nodes, edges, reversed, offset), cycle_form(nodes, edges, best_reversed, best_offset as int)),
        decreases sequence_count - sequence_index,
    {
        let mut offset: usize = 0;
        while offset < length
            invariant
                length == nodes.len(),
                length == edges.len(),
                length >= 1,
                    forward.0@ == nodes,
                forward.1@ == edges,
                backward.0@ == nodes.reverse(),
                backward.1@ == reverse_edges(edges),
                sequence_count == (if directed { 1usize } else { 2usize }),
                sequence_index < sequence_count,
                offset <= length,
                best_offset < length,
                directed ==> !best_reversed,
                forall|reversed: bool, off: int|
                    0 <= off < length && (!directed || !reversed) && ((!reversed && sequence_index >= 1) || (reversed && sequence_index >= 2)
                        || ((reversed == (sequence_index == 1)) && off < offset))
                        ==> !form_lt(#[trigger] cycle_form(nodes, edges, reversed, off), cycle_form(nodes, edges, best_reversed, best_offset as int)),
                sequence_index == 0 && offset == 0 ==> !best_reversed && best_offset == 0,
            decreases length - offset,
        {
            let ghost cur = cycle_form(nodes, edges, sequence_index == 1, offset as int);
            let ghost best = cycle_form(nodes, edges, best_reversed, best_offset as int);
            if sequence_index == 0 && offset == 0 {
                proof {
                    lemma_form_lt_facts(cur, cur, cur);
                }
            } else {
                let candidate = if sequence_index == 1 {
                    &backward
                } else {
                    &forward
                };
                let incumbent = if best_reversed {
                    &backward
                } else {
                    &forward
                };
                let c = compare_rotations(candidate, offset, incumbent, best_offset);
                if matches!(c, Comparison::Less) {
                    proof {
                        assert forall|reversed: bool, off: int|
                            0 <= off < length && (!directed || !reversed) && ((!reversed && sequence_index >= 1) || (reversed && sequence_index >= 2)
                                || ((reversed == (sequence_index == 1)) && off < offset + 1))
                                implies !form_lt(#[trigger] cycle_form(nodes, edges, reversed, off), cur) by {
                            let other = cycle_form(nodes, edges, reversed, off);
                            lemma_form_lt_facts(other, best, cur);
                            lemma_form_lt_facts(cur, best, other);
                            lemma_form_lt_facts(other, cur, best);
                            if reversed == (sequence_index == 1) && off == offset {
                                lemma_form_lt_facts(cur, cur, cur);
                            }
                        }
                    }
                    best_reversed = sequence_index == 1;
                    best_offset = offset;
                } else {
                    proof {
                        lemma_form_lt_facts(cur, best, cur);
                    }
                }
            }
            offset = offset + 1;
        }
        sequence_index = sequence_index + 1;
    }
    let chosen = if best_reversed {
        &backward
    } else {
        &forward
    };
    let form = (rotated(&chosen.0, best_offset), rotated(&chosen.1, best_offset));
    proof {
        let f = cycle_form(nodes, edges, best_reversed, best_offset as int);
        assert((form.0@, form.1@) == f);
        assert(is_form_of(directed, nodes, edges, f));
    }
    form
}


/// `form` is the canonical form of some simple cycle of at most `bound` edges.
pub open spec fn is_cycle_form(g: Graph, bound: int, form: (Seq<usize>, Seq<usize>)) -> bool {
    exists|nodes: Seq<usize>, edges: Seq<usize>|
        #[trigger] is_canonical_form(g.spec_kind().directed(), nodes, edges, form) && is_bounded_simple_cycle(g, nodes, edges, bound)
}

/// The found cycles: canonical forms in increasing node order.
pub open spec fn store_wf(g: Graph, bound: int, store: Seq<(Vec<usize>, Vec<usize>)>) -> bool {
    &&& forall|i: int, j: int| 0 <= i < j < store.len() ==> seq_lt((#[trigger] store[i]).0@, (#[trigger] store[j]).0@)
    &&& forall|i: int| 0 <= i < store.len() ==> is_cycle_form(g, bound, ((#[trigger] store[i]).0@, store[i].1@))
    &&& forall|i: int| 0 <= i < store.len() ==> form_in_range(g, ((#[trigger] store[i]).0@, store[i].1@))
}

/// A form of positions that name nodes and edges of the graph.
pub open spec fn form_in_range(g: Graph, form: (Seq<usize>, Seq<usize>)) -> bool {
    &&& form.0.len() == form.1.len()
    &&& forall|i: int| 0 <= i < form.0.len() ==> #[trigger] form.0[i] < g.spec_nodes().len()
    &&& forall|i: int| 0 <= i < form.1.len() ==> #[trigger] form.1[i] < g.spec_edges().len()
}

/// The elements of a cycle's forms are the cycle's elements.
proof fn lemma_form_in_range(g: Graph, nodes: Seq<usize>, edges: Seq<usize>, reversed: bool, offset: int)
    requires
        nodes.len() >= 1,
        edges.len() == nodes.len(),
        0 <= offset < nodes.len(),
        forall|i: int| 0 <= i < nodes.len() ==> #[trigger] nodes[i] < g.spec_nodes().len(),
        forall|i: int| 0 <= i < edges.len() ==> #[trigger] edges[i] < g.spec_edges().len(),
    ensures
        form_in_range(g, cycle_form(nodes, edges, reversed, offset)),
{
    let f = cycle_form(nodes, edges, reversed, offset);
    let l = nodes.len() as int;
    assert forall|i: int| 0 <= i < f.0.len() implies #[trigger] f.0[i] < g.spec_nodes().len() by {
        if reversed {
            assert(f.0[i] == nodes.reverse()[(offset + i) % l]);
        } else {
            assert(f.0[i] == nodes[(offset + i) % l]);
        }
    }
    assert forall|i: int| 0 <= i < f.1.len() implies #[trigger] f.1[i] < g.spec_edges().len() by {
        if reversed {
            let k = (offset + i) % l;
            assert(f.1[i] == reverse_edges(edges)[k]);
            assert(reverse_edges(edges)[k] == edges[(2 * l - 2 - k) % l]);
        } else {
            assert(f.1[i] == edges[(offset + i) % l]);
        }
    }
}

/// The store holds a form with the node sequence of `f` and an edge sequence
/// no greater than that of `f`.
pub open spec fn covers(store: Seq<(Vec<usize>, Vec<usize>)>, f: (Seq<usize>, Seq<usize>)) -> bool {
    exists|i: int| 0 <= i < store.len() && #[trigger] store[i].0@ == f.0 && (store[i].1@ == f.1 || seq_lt(store[i].1@, f.1))
}

/// Some entry of the store holds node sequence `nodes`.
pub open spec fn holds_nodes(store: Seq<(Vec<usize>, Vec<usize>)>, nodes: Seq<usize>) -> bool {
    exists|j: int| 0 <= j < store.len() && #[trigger] store[j].0@ == nodes
}

/// Record a found cycle form, keeping the least edge sequence for each node
/// sequence.
fn record_cycle(g: &Graph, bound: usize, store: &mut Vec<(Vec<usize>, Vec<usize>)>, form: (Vec<usize>, Vec<usize>))
    requires
        store_wf(*g, bound as int, old(store)@),
        is_cycle_form(*g, bound as int, (form.0@, form.1@)),
        form_in_range(*g, (form.0@, form.1@)),
    ensures
        store_wf(*g, bound as int, final(store)@),
        old(store)@.len() <= final(store)@.len() <= old(store)@.len() + 1,
        covers(final(store)@, (form.0@, form.1@)),
        forall|f: (Seq<usize>, Seq<usize>)| #[trigger] covers(old(store)@, f) ==> covers(final(store)@, f),
        forall|i: int| 0 <= i < final(store)@.len()
            ==> holds_nodes(old(store)@, (#[trigger] final(store)@[i]).0@) || final(store)@[i].0@ == form.0@,
{
    let mut lo: usize = 0;
    let mut hi: usize = store.len();
    while lo < hi
        invariant
            store_wf(*g, bound as int, store@),
            store@ == old(store)@,
            is_cycle_form(*g, bound as int, (form.0@, form.1@)),
            form_in_range(*g, (form.0@, form.1@)),
            lo <= hi <= store.len(),
            forall|i: int| 0 <= i < lo ==> seq_lt((#[trigger] store@[i]).0@, form.0@),
            forall|i: int| hi <= i < store.len() ==> seq_lt(form.0@, (#[trigger] store@[i]).0@),
        decreases hi - lo,
    {
        let mid = lo + (hi - lo) / 2;
        match compare_seqs(&store[mid].0, &form.0) {
            Comparison::Less => {
                assert forall|i: int| 0 <= i < mid + 1 implies seq_lt((#[trigger] store@[i]).0@, form.0@) by {
                    if i < mid {
                        lemma_seq_lt_transitive(store@[i].0@, store@[mid as int].0@, form.0@);
                    }
                }
                lo = mid + 1;
            },
            Comparison::Greater => {
                assert forall|i: int| mid <= i < store.len() implies seq_lt(form.0@, (#[trigger] store@[i]).0@) by {
                    if i > mid {
                        lemma_seq_lt_transitive(form.0@, store@[mid as int].0@, store@[i].0@);
                    }
                }
                hi = mid;
            },
            Comparison::Equal => {
                let ghost before = store@;
                let ghost fm = (form.0@, form.1@);
                let replace = matches!(compare_seqs(&form.1, &store[mid].1), Comparison::Less);
                proof {
                    lemma_seq_lt_facts(form.1@, before[mid as int].1@, form.1@);
                }
                if replace {
                    store.set(mid, form);
                    proof {
                        assert(store@[mid as int].0@ == fm.0);
                        assert(covers(store@, fm));
                        assert forall|f: (Seq<usize>, Seq<usize>)| #[trigger] covers(before, f) implies covers(store@, f) by {
                            let i = choose|i: int| 0 <= i < before.len() && #[trigger] before[i].0@ == f.0 && (before[i].1@ == f.1 || seq_lt(before[i].1@, f.1));
                            if i == mid {
                                lemma_seq_lt_facts(fm.1, before[i].1@, f.1);
                                assert(store@[i].0@ == f.0);
                            } else {
                                assert(store@[i] == before[i]);
                            }
                        }
                    }
                    assert forall|i: int, j: int| 0 <= i < j < store.len() implies seq_lt((#[trigger] store@[i]).0@, (#[trigger] store@[j]).0@) by {
                        assert(store@[i].0@ == before[i].0@);
                        assert(store@[j].0@ == before[j].0@);
                    }
                    assert forall|i: int| 0 <= i < store.len() implies is_cycle_form(*g, bound as int, ((#[trigger] store@[i]).0@, store@[i].1@)) by {
                        if i != mid {
                            assert(store@[i] == before[i]);
                        }
                    }
                    assert forall|i: int| 0 <= i < store.len() implies form_in_range(*g, ((#[trigger] store@[i]).0@, store@[i].1@)) by {
                        if i != mid {
                            assert(store@[i] == before[i]);
                        }
                    }
                    assert forall|i: int| 0 <= i < store.len()
                        implies holds_nodes(before, (#[trigger] store@[i]).0@) || store@[i].0@ == fm.0 by {
                        if i != mid {
                            assert(store@[i] == before[i]);
                            assert(before[i].0@ == store@[i].0@);
                        }
                    }
                } else {
                    proof {
                        assert(store@[mid as int].0@ == fm.0);
                        assert(covers(store@, fm));
                        assert forall|i: int| 0 <= i < store.len()
                            implies holds_nodes(before, (#[trigger] store@[i]).0@) || store@[i].0@ == fm.0 by {
                            assert(before[i].0@ == store@[i].0@);
                        }
                    }
                }
                return;
            },
        }
    }
    let ghost before = store@;
    store.insert(lo, form);
    proof {
        before.insert_ensures(lo as int, form);
        assert(store@[lo as int] == form);
        assert(covers(store@, (form.0@, form.1@)));
        assert forall|f: (Seq<usize>, Seq<usize>)| #[trigger] covers(before, f) implies covers(store@, f) by {
            let i = choose|i: int| 0 <= i < before.len() && #[trigger] before[i].0@ == f.0 && (before[i].1@ == f.1 || seq_lt(before[i].1@, f.1));
            if i < lo {
                assert(store@[i] == before[i]);
            } else {
                assert(store@[i + 1] == before[i]);
            }
        }
        assert forall|i: int, j: int| 0 <= i < j < store.len() implies seq_lt((#[trigger] store@[i]).0@, (#[trigger] store@[j]).0@) by {
            if j < lo {
            } else if j == lo {
            } else if i < lo {
                assert(store@[j] == before[j - 1]);
                lemma_seq_lt_transitive(store@[i].0@, form.0@, store@[j].0@);
            } else if i == lo {
                assert(store@[j] == before[j - 1]);
            } else {
                assert(store@[i] == before[i - 1]);
                assert(store@[j] == before[j - 1]);
            }
        }
        assert forall|i: int| 0 <= i < store.len() implies is_cycle_form(*g, bound as int, ((#[trigger] store@[i]).0@, store@[i].1@)) by {
            if i > lo {
                assert(store@[i] == before[i - 1]);
            }
        }
        assert forall|i: int| 0 <= i < store.len() implies form_in_range(*g, ((#[trigger] store@[i]).0@, store@[i].1@)) by {
            if i > lo {
                assert(store@[i] == before[i - 1]);
            }
        }
        assert forall|i: int| 0 <= i < store.len()
            implies holds_nodes(before, (#[trigger] store@[i]).0@) || store@[i].0@ == form.0@ by {
            if i < lo {
                assert(store@[i] == before[i]);
                assert(before[i].0@ == store@[i].0@);
            } else if i > lo {
                assert(store@[i] == before[i - 1]);
                assert(before[i - 1].0@ == store@[i].0@);
            }
        }
    }
}

/// A simple path from `start` to `current` within the graph, mirrored by
/// the membership flags.
pub open spec fn path_wf(g: Graph, start: int, current: int, in_path: Seq<bool>, path_nodes: Seq<usize>, path_edges: Seq<usize>) -> bool {
    &&& path_nodes.len() == path_edges.len() + 1
    &&& path_nodes[0] == start
    &&& path_nodes.last() == current
    &&& distinct(path_nodes)
    &&& distinct(path_edges)
    &&& in_path.len() == g.spec_nodes().len()
    &&& forall|i: int| 0 <= i < path_nodes.len() ==> #[trigger] path_nodes[i] < g.spec_nodes().len()
    &&& forall|i: int| 0 <= i < path_edges.len() ==> #[trigger] joins(g, path_nodes[i] as int, path_nodes[i + 1] as int, path_edges[i] as int)
    &&& forall|v: int| 0 <= v < in_path.len() ==> (#[trigger] in_path[v] <== path_nodes.contains(v as usize))
    &&& forall|v: int| 0 <= v < in_path.len() ==> (#[trigger] in_path[v] ==> path_nodes.contains(v as usize))
}

/// The cap on distinct cycles has been reached.
pub open spec fn limit_reached(options: CycleOptions, found: int) -> bool {
    options.max_cycles matches Some(k) && found >= k.spec_get()
}

/// An arc followed from `u` joins `u` to its neighbor.
proof fn lemma_arc_joins(g: Graph, u: int, direction: TraversalDirection, a: ArcRef)
    requires
        direction == (if g.spec_kind().directed() { TraversalDirection::Out } else { TraversalDirection::Both }),
        is_traversal_arc(g.spec_endpoints(), g.spec_kind(), u, direction, a),
        g.spec_endpoints().len() == g.spec_edges().len(),
    ensures
        joins(g, u, a.neighbor as int, a.edge as int),
{
}

/// Whether a position sequence holds a value.
fn holds(s: &Vec<usize>, x: usize) -> (b: bool)
    ensures
        b == s@.contains(x),
{
    let mut i: usize = 0;
    while i < s.len()
        invariant
            i <= s.len(),
            forall|j: int| 0 <= j < i ==> s@[j] != x,
        decreases s.len() - i,
    {
        if s[i] == x {
            return true;
        }
        i = i + 1;
    }
    false
}

/// The cycle `(nodes, edges)` continues the path: it begins with the path's
/// nodes and edges and keeps to the component.
pub open spec fn continues_path(
    g: Graph,
    bound: int,
    component: Seq<bool>,
    path_nodes: Seq<usize>,
    path_edges: Seq<usize>,
    nodes: Seq<usize>,
    edges: Seq<usize>,
) -> bool {
    &&& is_bounded_simple_cycle(g, nodes, edges, bound)
    &&& path_nodes.len() <= nodes.len()
    &&& nodes.take(path_nodes.len() as int) == path_nodes
    &&& edges.take(path_edges.len() as int) == path_edges
    &&& forall|i: int| 0 <= i < nodes.len() ==> #[trigger] component[nodes[i] as int]
}

/// The arc by which a cycle leaves the last node of a path of `p` nodes.
pub open spec fn next_arc(nodes: Seq<usize>, edges: Seq<usize>, p: int) -> ArcRef {
    ArcRef { neighbor: nodes[p % (nodes.len() as int)], edge: edges[p - 1] }
}

/// Arc `a` is among the first `k` arcs.
pub open spec fn arc_among(arcs: Seq<ArcRef>, k: int, a: ArcRef) -> bool {
    exists|j: int| 0 <= j < k && #[trigger] arcs[j] == a
}

/// Looking at one more arc adds exactly that arc.
proof fn lemma_arc_among_next(arcs: Seq<ArcRef>, k: int, a: ArcRef)
    requires
        0 <= k < arcs.len(),
    ensures
        arc_among(arcs, k + 1, a) <==> (arc_among(arcs, k, a) || arcs[k] == a),
{
    if arc_among(arcs, k + 1, a) && !arc_among(arcs, k, a) {
        let j = choose|j: int| 0 <= j < k + 1 && #[trigger] arcs[j] == a;
        assert(j == k);
    }
    if arc_among(arcs, k, a) {
        let j = choose|j: int| 0 <= j < k && #[trigger] arcs[j] == a;
        assert(arcs[j] == a);
    }
    if arcs[k] == a {
        assert(arcs[k] == a);
    }
}

/// A cycle that continues the path leaves its last node by an arc that is
/// followed from there, that stays in the component and off the path's
/// edges, and that closes the cycle exactly when it returns to the start.
proof fn lemma_next_arc_viable(
    g: Graph,
    bound: int,
    component: Seq<bool>,
    start: usize,
    current: usize,
    in_path: Seq<bool>,
    path_nodes: Seq<usize>,
    path_edges: Seq<usize>,
    nodes: Seq<usize>,
    edges: Seq<usize>,
    direction: TraversalDirection,
)
    requires
        continues_path(g, bound, component, path_nodes, path_edges, nodes, edges),
        path_wf(g, start as int, current as int, in_path, path_nodes, path_edges),
        direction == (if g.spec_kind().directed() { TraversalDirection::Out } else { TraversalDirection::Both }),
        g.spec_endpoints().len() == g.spec_edges().len(),
    ensures
        ({
            let a = next_arc(nodes, edges, path_nodes.len() as int);
            &&& is_traversal_arc(g.spec_endpoints(), g.spec_kind(), current as int, direction, a)
            &&& a.neighbor < component.len() ==> component[a.neighbor as int]
            &&& !path_edges.contains(a.edge)
            &&& (a.neighbor == start <==> path_nodes.len() == nodes.len())
            &&& a.neighbor != start ==> a.neighbor < in_path.len() && !in_path[a.neighbor as int] && path_edges.len() + 1 < bound
        }),
{
    let p = path_nodes.len() as int;
    let l = nodes.len() as int;
    let a = next_arc(nodes, edges, p);
    assert(nodes[p - 1] == path_nodes[p - 1]);
    assert(joins(g, nodes[p - 1] as int, nodes[(p - 1 + 1) % l] as int, edges[p - 1] as int));
    assert(component[nodes[p % l] as int]) by {
        vstd::arithmetic::div_mod::lemma_mod_bound(p, l);
    }
    assert(!path_edges.contains(a.edge)) by {
        if path_edges.contains(a.edge) {
            let q = choose|q: int| 0 <= q < path_edges.len() && path_edges[q] == a.edge;
            assert(edges.take(path_edges.len() as int)[q] == edges[q]);
        }
    }
    assert(nodes[0] == path_nodes[0]);
    assert((p - 1 + 1) % l == p % l);
    assert(joins(g, current as int, a.neighbor as int, a.edge as int));
    assert(is_traversal_arc(g.spec_endpoints(), g.spec_kind(), current as int, direction, a));
    if p == l {
        vstd::arithmetic::div_mod::lemma_mod_self_0(l);
        assert(a.neighbor == start);
    } else {
        vstd::arithmetic::div_mod::lemma_small_mod(p as nat, l as nat);
        assert(nodes[p] != nodes[0]);
        assert(a.neighbor < in_path.len());
        assert(path_edges.len() + 1 < bound);
        assert(!in_path[a.neighbor as int]) by {
            if in_path[a.neighbor as int] {
                assert(path_nodes.contains(a.neighbor));
                let q = choose|q: int| 0 <= q < path_nodes.len() && path_nodes[q] == a.neighbor;
                assert(nodes.take(p)[q] == nodes[q]);
            }
        }
    }
}

/// A cycle that continues the path and closes at the start is the path with
/// its closing edge.
proof fn lemma_closing_cycle(
    g: Graph,
    bound: int,
    component: Seq<bool>,
    path_nodes: Seq<usize>,
    path_edges: Seq<usize>,
    nodes: Seq<usize>,
    edges: Seq<usize>,
)
    requires
        continues_path(g, bound, component, path_nodes, path_edges, nodes, edges),
        path_nodes.len() == path_edges.len() + 1,
        path_nodes.len() == nodes.len(),
    ensures
        nodes == path_nodes,
        edges == path_edges.push(edges[path_edges.len() as int]),
{
    assert(nodes =~= nodes.take(nodes.len() as int));
    assert(edges =~= path_edges.push(edges[path_edges.len() as int])) by {
        assert forall|i: int| 0 <= i < path_edges.len() implies edges[i] == path_edges[i] by {
            assert(edges.take(path_edges.len() as int)[i] == edges[i]);
        }
    }
}

/// A cycle that continues the path and does not close yet continues the path
/// extended by its next arc.
proof fn lemma_extended_path(
    g: Graph,
    bound: int,
    component: Seq<bool>,
    path_nodes: Seq<usize>,
    path_edges: Seq<usize>,
    nodes: Seq<usize>,
    edges: Seq<usize>,
)
    requires
        continues_path(g, bound, component, path_nodes, path_edges, nodes, edges),
        path_nodes.len() == path_edges.len() + 1,
        path_nodes.len() < nodes.len(),
    ensures
        ({
            let a = next_arc(nodes, edges, path_nodes.len() as int);
            continues_path(g, bound, component, path_nodes.push(a.neighbor), path_edges.push(a.edge), nodes, edges)
        }),
{
    let p = path_nodes.len() as int;
    let a = next_arc(nodes, edges, p);
    vstd::arithmetic::div_mod::lemma_small_mod(p as nat, nodes.len() as nat);
    assert(nodes.take(p + 1) =~= path_nodes.push(a.neighbor)) by {
        assert forall|i: int| 0 <= i < p implies nodes[i] == path_nodes[i] by {
            assert(nodes.take(p)[i] == nodes[i]);
        }
    }
    assert(edges.take(p) =~= path_edges.push(a.edge)) by {
        assert forall|i: int| 0 <= i < p - 1 implies edges[i] == path_edges[i] by {
            assert(edges.take(p - 1)[i] == edges[i]);
        }
    }
}

/// A cycle has one least way to be written.
proof fn lemma_canonical_unique(directed: bool, nodes: Seq<usize>, edges: Seq<usize>, f1: (Seq<usize>, Seq<usize>), f2: (Seq<usize>, Seq<usize>))
    requires
        is_canonical_form(directed, nodes, edges, f1),
        is_canonical_form(directed, nodes, edges, f2),
    ensures
        f1 == f2,
{
    let (r1, o1) = choose|reversed: bool, offset: int|
        0 <= offset < nodes.len() && (!directed || !reversed) && #[trigger] cycle_form(nodes, edges, reversed, offset) == f1;
    let (r2, o2) = choose|reversed: bool, offset: int|
        0 <= offset < nodes.len() && (!directed || !reversed) && #[trigger] cycle_form(nodes, edges, reversed, offset) == f2;
    assert(!form_lt(cycle_form(nodes, edges, r1, o1), f2));
    assert(!form_lt(cycle_form(nodes, edges, r2, o2), f1));
    lemma_form_lt_facts(f1, f2, f1);
}

/// Every cycle that continues the path and leaves it by one of the first `k`
/// arcs has its canonical form covered by the store.
pub open spec fn scanned_covered(
    g: Graph,
    bound: int,
    component: Seq<bool>,
    path_nodes: Seq<usize>,
    path_edges: Seq<usize>,
    arcs: Seq<ArcRef>,
    k: int,
    store: Seq<(Vec<usize>, Vec<usize>)>,
) -> bool {
    forall|nodes: Seq<usize>, edges: Seq<usize>, f: (Seq<usize>, Seq<usize>)|
        #[trigger] continues_path(g, bound, component, path_nodes, path_edges, nodes, edges)
            && #[trigger] is_canonical_form(g.spec_kind().directed(), nodes, edges, f)
            && arc_among(arcs, k, next_arc(nodes, edges, path_nodes.len() as int)) ==> covers(store, f)
}

/// Every cycle that continues the path has its canonical form covered by the
/// store.
pub open spec fn continuations_covered(
    g: Graph,
    bound: int,
    component: Seq<bool>,
    path_nodes: Seq<usize>,
    path_edges: Seq<usize>,
    store: Seq<(Vec<usize>, Vec<usize>)>,
) -> bool {
    forall|nodes: Seq<usize>, edges: Seq<usize>, f: (Seq<usize>, Seq<usize>)|
        #[trigger] continues_path(g, bound, component, path_nodes, path_edges, nodes, edges)
            && #[trigger] is_canonical_form(g.spec_kind().directed(), nodes, edges, f) ==> covers(store, f)
}

/// Scanning one more arc: the earlier continuations stay covered, and those
/// that leave by the new arc are covered.
proof fn lemma_scan_step(
    g: Graph,
    bound: int,
    component: Seq<bool>,
    path_nodes: Seq<usize>,
    path_edges: Seq<usize>,
    arcs: Seq<ArcRef>,
    k: int,
    store_old: Seq<(Vec<usize>, Vec<usize>)>,
    store_new: Seq<(Vec<usize>, Vec<usize>)>,
)
    requires
        0 <= k < arcs.len(),
        scanned_covered(g, bound, component, path_nodes, path_edges, arcs, k, store_old),
        forall|f: (Seq<usize>, Seq<usize>)| #[trigger] covers(store_old, f) ==> covers(store_new, f),
        forall|nodes: Seq<usize>, edges: Seq<usize>, f: (Seq<usize>, Seq<usize>)|
            #[trigger] continues_path(g, bound, component, path_nodes, path_edges, nodes, edges)
                && #[trigger] is_canonical_form(g.spec_kind().directed(), nodes, edges, f)
                && next_arc(nodes, edges, path_nodes.len() as int) == arcs[k] ==> covers(store_new, f),
    ensures
        scanned_covered(g, bound, component, path_nodes, path_edges, arcs, k + 1, store_new),
{
    assert forall|nodes: Seq<usize>, edges: Seq<usize>, f: (Seq<usize>, Seq<usize>)|
        #[trigger] continues_path(g, bound, component, path_nodes, path_edges, nodes, edges)
            && #[trigger] is_canonical_form(g.spec_kind().directed(), nodes, edges, f)
            && arc_among(arcs, k + 1, next_arc(nodes, edges, path_nodes.len() as int)) implies covers(store_new, f) by {
        lemma_arc_among_next(arcs, k, next_arc(nodes, edges, path_nodes.len() as int));
        if arc_among(arcs, k, next_arc(nodes, edges, path_nodes.len() as int)) {
            assert(covers(store_old, f));
        }
    }
}

/// Whether `found` distinct cycles reach the cap; a cap is never zero.
fn cap_reached(options: CycleOptions, found: usize) -> (b: bool)
    ensures
        b == limit_reached(options, found as int),
        options.max_cycles matches Some(k) ==> k.spec_get() > 0,
{
    match options.max_cycles {
        Some(k) => found >= k.get(),
        None => false,
    }
}

/// Every node sequence held in `store` was held in `store0` or starts at a
/// node the mask marks.
pub open spec fn grown_within(store0: Seq<(Vec<usize>, Vec<usize>)>, store: Seq<(Vec<usize>, Vec<usize>)>, mask: Seq<bool>) -> bool {
    forall|i: int| 0 <= i < store.len()
        ==> holds_nodes(store0, (#[trigger] store[i]).0@) || mask[store[i].0@[0] as int]
}

/// Growing a store in two steps within one mask.
proof fn lemma_grown_within_trans(
    s0: Seq<(Vec<usize>, Vec<usize>)>,
    s1: Seq<(Vec<usize>, Vec<usize>)>,
    s2: Seq<(Vec<usize>, Vec<usize>)>,
    mask: Seq<bool>,
)
    requires
        grown_within(s0, s1, mask),
        grown_within(s1, s2, mask),
    ensures
        grown_within(s0, s2, mask),
{
    assert forall|i: int| 0 <= i < s2.len() implies holds_nodes(s0, (#[trigger] s2[i]).0@) || mask[s2[i].0@[0] as int] by {
        if holds_nodes(s1, s2[i].0@) {
            let j = choose|j: int| 0 <= j < s1.len() && #[trigger] s1[j].0@ == s2[i].0@;
            assert(holds_nodes(s0, s1[j].0@) || mask[s1[j].0@[0] as int]);
        }
    }
}

/// A store grows within any mask from itself.
proof fn lemma_grown_within_refl(s: Seq<(Vec<usize>, Vec<usize>)>, mask: Seq<bool>)
    ensures
        grown_within(s, s, mask),
{
    assert forall|i: int| 0 <= i < s.len() implies holds_nodes(s, (#[trigger] s[i]).0@) || mask[s[i].0@[0] as int] by {
        assert(s[i].0@ == s[i].0@);
    }
}

/// The first node of a written form is a node of the cycle.
proof fn lemma_form_first(nodes: Seq<usize>, edges: Seq<usize>, reversed: bool, offset: int)
    requires
        nodes.len() >= 1,
        0 <= offset < nodes.len(),
    ensures
        cycle_form(nodes, edges, reversed, offset).0.len() >= 1,
        nodes.contains(cycle_form(nodes, edges, reversed, offset).0[0]),
{
    let l = nodes.len() as int;
    vstd::arithmetic::div_mod::lemma_small_mod(offset as nat, l as nat);
    if reversed {
        assert(cycle_form(nodes, edges, reversed, offset).0[0] == nodes.reverse()[offset]);
        assert(nodes[l - 1 - offset] == nodes.reverse()[offset]);
    } else {
        assert(cycle_form(nodes, edges, reversed, offset).0[0] == nodes[offset]);
    }
}

/// Extend the current simple path in every way that stays inside the
/// component and within the length bound, recording every cycle that closes
/// back at `start`. Returns whether the cap on cycles was reached.
#[verifier::rlimit(30)]
fn enumerate_cycles_from(
    g: &Graph,
    start: usize,
    current: usize,
    component: &Vec<bool>,
    options: CycleOptions,
    in_path: &mut Vec<bool>,
    path_nodes: &mut Vec<usize>,
    path_edges: &mut Vec<usize>,
    canonical: &mut Vec<(Vec<usize>, Vec<usize>)>,
) -> (stop: bool)
    requires
        g.wf(),
        component.len() == g.spec_nodes().len(),
        current < g.spec_nodes().len(),
        path_wf(*g, start as int, current as int, old(in_path)@, old(path_nodes)@, old(path_edges)@),
        old(path_nodes)@.len() <= options.length_bound.spec_get(),
        store_wf(*g, options.length_bound.spec_get() as int, old(canonical)@),
        !limit_reached(options, old(canonical)@.len() as int),
        forall|t: int| 0 <= t < old(path_nodes)@.len() ==> component@[#[trigger] old(path_nodes)@[t] as int],
    ensures
        grown_within(old(canonical)@, final(canonical)@, component@),
        final(in_path)@ == old(in_path)@,
        final(path_nodes)@ == old(path_nodes)@,
        final(path_edges)@ == old(path_edges)@,
        store_wf(*g, options.length_bound.spec_get() as int, final(canonical)@),
        old(canonical)@.len() <= final(canonical)@.len(),
        stop == limit_reached(options, final(canonical)@.len() as int),
        options.max_cycles matches Some(k) ==> final(canonical)@.len() <= k.spec_get(),
        forall|f: (Seq<usize>, Seq<usize>)| #[trigger] covers(old(canonical)@, f) ==> covers(final(canonical)@, f),
        !stop ==> continuations_covered(*g, options.length_bound.spec_get() as int, component@, old(path_nodes)@, old(path_edges)@, final(canonical)@),
    decreases options.length_bound.spec_get() - old(path_edges)@.len(),
{
    let bound = options.length_bound.get();
    let direction = if g.is_directed() {
        TraversalDirection::Out
    } else {
        TraversalDirection::Both
    };
    let arcs = g.arcs(current, direction);
    let ghost in_path0 = in_path@;
    let ghost nodes0 = path_nodes@;
    let ghost edges0 = path_edges@;
    let ghost store0 = canonical@;
    assert(in_path0 == old(in_path)@);
    assert(nodes0 == old(path_nodes)@);
    assert(edges0 == old(path_edges)@);
    assert(store0 == old(canonical)@);
    proof {
        lemma_grown_within_refl(store0, component@);
    }
    let mut k: usize = 0;
    while k < arcs.len()
        invariant
            g.wf(),
            component.len() == g.spec_nodes().len(),
            current < g.spec_nodes().len(),
            bound == options.length_bound.spec_get(),
            direction == (if g.spec_kind().directed() { TraversalDirection::Out } else { TraversalDirection::Both }),
            forall|a: ArcRef| #[trigger] arcs@.contains(a) <==> is_traversal_arc(g.spec_endpoints(), g.spec_kind(), current as int, direction, a),
            k <= arcs.len(),
            in_path@ == in_path0,
            scanned_covered(*g, bound as int, component@, nodes0, edges0, arcs@, k as int, canonical@),
            forall|f: (Seq<usize>, Seq<usize>)| #[trigger] covers(store0, f) ==> covers(canonical@, f),
            path_nodes@ == nodes0,
            path_edges@ == edges0,
            in_path0 == old(in_path)@,
            nodes0 == old(path_nodes)@,
            edges0 == old(path_edges)@,
            store0 == old(canonical)@,
            nodes0.len() <= bound,
            path_wf(*g, start as int, current as int, in_path0, nodes0, edges0),
            store_wf(*g, bound as int, canonical@),
            store0.len() <= canonical@.len(),
            !limit_reached(options, canonical@.len() as int),
            forall|t: int| 0 <= t < nodes0.len() ==> component@[#[trigger] nodes0[t] as int],
            grown_within(store0, canonical@, component@),
        decreases arcs.len() - k,
    {
        let arc = arcs[k];
        let ghost k0 = k as int;
        let ghost store_k = canonical@;
        proof {
            assert(arcs@.contains(arc));
            lemma_arc_joins(*g, current as int, direction, arc);
        }
        k = k + 1;
        if !component[arc.neighbor] || holds(path_edges, arc.edge) {
            proof {
                assert forall|nodes: Seq<usize>, edges: Seq<usize>, f: (Seq<usize>, Seq<usize>)|
                    #[trigger] continues_path(*g, bound as int, component@, nodes0, edges0, nodes, edges)
                        && #[trigger] is_canonical_form(g.spec_kind().directed(), nodes, edges, f)
                        && next_arc(nodes, edges, nodes0.len() as int) == arcs@[k0] implies covers(canonical@, f) by {
                    lemma_next_arc_viable(*g, bound as int, component@, start, current, in_path0, nodes0, edges0, nodes, edges, direction);
                }
                lemma_scan_step(*g, bound as int, component@, nodes0, edges0, arcs@, k0, store_k, canonical@);
            }
            continue;
        }
        if arc.neighbor == start {
            let cycle_len = path_edges.len() + 1;
            if cycle_len <= bound {
                path_edges.push(arc.edge);
                let ghost cyc_edges = path_edges@;
                proof {
                    let l = nodes0.len() as int;
                    assert(cyc_edges.len() == l);
                    assert(distinct(cyc_edges)) by {
                        assert forall|i: int, j: int| 0 <= i < l && 0 <= j < l && i != j implies #[trigger] cyc_edges[i] != #[trigger] cyc_edges[j] by {
                            if i == l - 1 {
                                assert(edges0.contains(cyc_edges[j]) || j == l - 1);
                                if j < l - 1 {
                                    assert(cyc_edges[j] == edges0[j]);
                                }
                            } else if j == l - 1 {
                                assert(cyc_edges[i] == edges0[i]);
                                assert(edges0.contains(cyc_edges[i]));
                            } else {
                                assert(cyc_edges[i] == edges0[i]);
                                assert(cyc_edges[j] == edges0[j]);
                            }
                        }
                    }
                    assert forall|i: int| 0 <= i < l implies #[trigger] joins(*g, nodes0[i] as int, nodes0[(i + 1) % l] as int, cyc_edges[i] as int) by {
                        if i < l - 1 {
                            vstd::arithmetic::div_mod::lemma_small_mod((i + 1) as nat, l as nat);
                            assert((i + 1) % l == i + 1);
                            assert(cyc_edges[i] == edges0[i]);
                        } else {
                            vstd::arithmetic::div_mod::lemma_mod_self_0(l);
                            assert((i + 1) % l == 0);
                        }
                    }
                    assert(is_bounded_simple_cycle(*g, nodes0, cyc_edges, bound as int));
                }
                let form = canonical_cycle(g.is_directed(), path_nodes, path_edges);
                proof {
                    let f = (form.0@, form.1@);
                    assert(is_canonical_form(g.spec_kind().directed(), nodes0, cyc_edges, f));
                    assert(is_cycle_form(*g, bound as int, f));
                    let (rev, off) = choose|reversed: bool, offset: int|
                        0 <= offset < nodes0.len() && (!g.spec_kind().directed() || !reversed) && #[trigger] cycle_form(nodes0, cyc_edges, reversed, offset) == f;
                    assert forall|i: int| 0 <= i < cyc_edges.len() implies #[trigger] cyc_edges[i] < g.spec_edges().len() by {
                        assert(joins(*g, nodes0[i] as int, nodes0[(i + 1) % (nodes0.len() as int)] as int, cyc_edges[i] as int));
                    }
                    lemma_form_in_range(*g, nodes0, cyc_edges, rev, off);
                }
                let ghost before_record = canonical@;
                record_cycle(g, bound, canonical, form);
                proof {
                    let f = (form.0@, form.1@);
                    let (rev, off) = choose|reversed: bool, offset: int|
                        0 <= offset < nodes0.len() && (!g.spec_kind().directed() || !reversed) && #[trigger] cycle_form(nodes0, cyc_edges, reversed, offset) == f;
                    lemma_form_first(nodes0, cyc_edges, rev, off);
                    let t = choose|t: int| 0 <= t < nodes0.len() && nodes0[t] == f.0[0];
                    assert(component@[nodes0[t] as int]);
                    assert(grown_within(before_record, canonical@, component@)) by {
                        assert forall|i: int| 0 <= i < canonical@.len()
                            implies holds_nodes(before_record, (#[trigger] canonical@[i]).0@) || component@[canonical@[i].0@[0] as int] by {
                            if canonical@[i].0@ == form.0@ {
                                assert(canonical@[i].0@[0] == f.0[0]);
                            }
                        }
                    }
                    lemma_grown_within_trans(store0, before_record, canonical@, component@);
                }
                path_edges.pop();
                assert(path_edges@ =~= edges0);
                proof {
                    assert forall|nodes: Seq<usize>, edges: Seq<usize>, f: (Seq<usize>, Seq<usize>)|
                        #[trigger] continues_path(*g, bound as int, component@, nodes0, edges0, nodes, edges)
                            && #[trigger] is_canonical_form(g.spec_kind().directed(), nodes, edges, f)
                            && next_arc(nodes, edges, nodes0.len() as int) == arcs@[k0] implies covers(canonical@, f) by {
                        lemma_next_arc_viable(*g, bound as int, component@, start, current, in_path0, nodes0, edges0, nodes, edges, direction);
                        lemma_closing_cycle(*g, bound as int, component@, nodes0, edges0, nodes, edges);
                        assert(edges == cyc_edges);
                        lemma_canonical_unique(g.spec_kind().directed(), nodes, edges, f, (form.0@, form.1@));
                    }
                    lemma_scan_step(*g, bound as int, component@, nodes0, edges0, arcs@, k0, store_k, canonical@);
                }
                if cap_reached(options, canonical.len()) {
                    return true;
                }
            } else {
                proof {
                    assert forall|nodes: Seq<usize>, edges: Seq<usize>, f: (Seq<usize>, Seq<usize>)|
                        #[trigger] continues_path(*g, bound as int, component@, nodes0, edges0, nodes, edges)
                            && #[trigger] is_canonical_form(g.spec_kind().directed(), nodes, edges, f)
                            && next_arc(nodes, edges, nodes0.len() as int) == arcs@[k0] implies covers(canonical@, f) by {
                        lemma_next_arc_viable(*g, bound as int, component@, start, current, in_path0, nodes0, edges0, nodes, edges, direction);
                    }
                    lemma_scan_step(*g, bound as int, component@, nodes0, edges0, arcs@, k0, store_k, canonical@);
                }
            }
            continue;
        }
        if in_path[arc.neighbor] || path_edges.len() + 1 >= bound {
            proof {
                assert forall|nodes: Seq<usize>, edges: Seq<usize>, f: (Seq<usize>, Seq<usize>)|
                    #[trigger] continues_path(*g, bound as int, component@, nodes0, edges0, nodes, edges)
                        && #[trigger] is_canonical_form(g.spec_kind().directed(), nodes, edges, f)
                        && next_arc(nodes, edges, nodes0.len() as int) == arcs@[k0] implies covers(canonical@, f) by {
                    lemma_next_arc_viable(*g, bound as int, component@, start, current, in_path0, nodes0, edges0, nodes, edges, direction);
                }
                lemma_scan_step(*g, bound as int, component@, nodes0, edges0, arcs@, k0, store_k, canonical@);
            }
            continue;
        }
        let ghost next = arc.neighbor;
        in_path.set(arc.neighbor, true);
        path_nodes.push(arc.neighbor);
        path_edges.push(arc.edge);
        proof {
            let pn = path_nodes@;
            let pe = path_edges@;
            assert(!nodes0.contains(arc.neighbor));
            assert(!edges0.contains(arc.edge));
            assert(distinct(pn)) by {
                assert forall|i: int, j: int| 0 <= i < pn.len() && 0 <= j < pn.len() && i != j implies #[trigger] pn[i] != #[trigger] pn[j] by {
                    if i < nodes0.len() {
                        assert(pn[i] == nodes0[i]);
                    }
                    if j < nodes0.len() {
                        assert(pn[j] == nodes0[j]);
                    }
                    if i == nodes0.len() {
                        assert(nodes0.contains(pn[j]));
                    }
                    if j == nodes0.len() {
                        assert(nodes0.contains(pn[i]));
                    }
                }
            }
            assert(distinct(pe)) by {
                assert forall|i: int, j: int| 0 <= i < pe.len() && 0 <= j < pe.len() && i != j implies #[trigger] pe[i] != #[trigger] pe[j] by {
                    if i < edges0.len() {
                        assert(pe[i] == edges0[i]);
                    }
                    if j < edges0.len() {
                        assert(pe[j] == edges0[j]);
                    }
                    if i == edges0.len() {
                        assert(edges0.contains(pe[j]));
                    }
                    if j == edges0.len() {
                        assert(edges0.contains(pe[i]));
                    }
                }
            }
            assert forall|i: int| 0 <= i < pe.len() implies #[trigger] joins(*g, pn[i] as int, pn[i + 1] as int, pe[i] as int) by {
                if i < edges0.len() {
                    assert(pn[i] == nodes0[i]);
                    assert(pn[i + 1] == nodes0[i + 1]);
                    assert(pe[i] == edges0[i]);
                } else {
                    assert(pn[i] == nodes0.last());
                }
            }
            assert forall|v: int| 0 <= v < in_path@.len() implies (#[trigger] in_path@[v] <== pn.contains(v as usize)) by {
                if pn.contains(v as usize) {
                    let q = choose|q: int| 0 <= q < pn.len() && pn[q] == v as usize;
                    if q < nodes0.len() {
                        assert(pn[q] == nodes0[q]);
                        assert(nodes0.contains(v as usize));
                    }
                }
            }
            assert forall|v: int| 0 <= v < in_path@.len() implies (#[trigger] in_path@[v] ==> pn.contains(v as usize)) by {
                if in_path@[v] {
                    if v != arc.neighbor {
                        assert(in_path0[v]);
                        let q = choose|q: int| 0 <= q < nodes0.len() && nodes0[q] == v as usize;
                        assert(pn[q] == v as usize);
                    } else {
                        assert(pn[nodes0.len() as int] == v as usize);
                    }
                }
            }
            assert(path_wf(*g, start as int, arc.neighbor as int, in_path@, pn, pe));
            assert(pe.len() == edges0.len() + 1);
            assert(pe.len() < bound);
        }
        let ghost before_call = canonical@;
        proof {
            assert forall|t: int| 0 <= t < path_nodes@.len() implies component@[#[trigger] path_nodes@[t] as int] by {
                if t < nodes0.len() {
                    assert(path_nodes@[t] == nodes0[t]);
                }
            }
        }
        let stop = enumerate_cycles_from(
            g,
            start,
            arc.neighbor,
            component,
            options,
            in_path,
            path_nodes,
            path_edges,
            canonical,
        );
        path_edges.pop();
        path_nodes.pop();
        in_path.set(arc.neighbor, false);
        assert(path_edges@ =~= edges0);
        assert(path_nodes@ =~= nodes0);
        assert(in_path@ =~= in_path0);
        proof {
            lemma_grown_within_trans(store0, before_call, canonical@, component@);
        }
        if stop {
            return true;
        }
        proof {
            assert forall|nodes: Seq<usize>, edges: Seq<usize>, f: (Seq<usize>, Seq<usize>)|
                #[trigger] continues_path(*g, bound as int, component@, nodes0, edges0, nodes, edges)
                    && #[trigger] is_canonical_form(g.spec_kind().directed(), nodes, edges, f)
                    && next_arc(nodes, edges, nodes0.len() as int) == arcs@[k0] implies covers(canonical@, f) by {
                lemma_next_arc_viable(*g, bound as int, component@, start, current, in_path0, nodes0, edges0, nodes, edges, direction);
                lemma_extended_path(*g, bound as int, component@, nodes0, edges0, nodes, edges);
                assert(nodes0.push(arc.neighbor) == nodes0.push(next_arc(nodes, edges, nodes0.len() as int).neighbor));
                assert(continues_path(*g, bound as int, component@, nodes0.push(arc.neighbor), edges0.push(arc.edge), nodes, edges));
            }
            lemma_scan_step(*g, bound as int, component@, nodes0, edges0, arcs@, k0, store_k, canonical@);
        }
    }
    proof {
        assert forall|nodes: Seq<usize>, edges: Seq<usize>, f: (Seq<usize>, Seq<usize>)|
            #[trigger] continues_path(*g, bound as int, component@, nodes0, edges0, nodes, edges)
                && #[trigger] is_canonical_form(g.spec_kind().directed(), nodes, edges, f) implies covers(canonical@, f) by {
            lemma_next_arc_viable(*g, bound as int, component@, start, current, in_path0, nodes0, edges0, nodes, edges, direction);
            let a = next_arc(nodes, edges, nodes0.len() as int);
            assert(arcs@.contains(a));
            let j = choose|j: int| 0 <= j < arcs@.len() && arcs@[j] == a;
            assert(arc_among(arcs@, arcs@.len() as int, a));
        }
    }
    false
}


/// Every arc, followed either way, from a member of group `c` leads to a
/// member of `c`.
pub open spec fn group_closed(g: Graph, c: Seq<usize>) -> bool {
    forall|p: int, a: ArcRef|
        0 <= p < c.len() && #[trigger] is_traversal_arc(g.spec_endpoints(), g.spec_kind(), c[p] as int, TraversalDirection::Both, a)
            ==> c.contains(a.neighbor)
}

/// An arc followed either way can be followed back.
proof fn lemma_both_arc_symmetric(g: Graph, u: usize, a: ArcRef)
    requires
        is_traversal_arc(g.spec_endpoints(), g.spec_kind(), u as int, TraversalDirection::Both, a),
    ensures
        is_traversal_arc(g.spec_endpoints(), g.spec_kind(), a.neighbor as int, TraversalDirection::Both, ArcRef { neighbor: u, edge: a.edge }),
{
}

/// The groups split the nodes `0..n`: each group is non-empty and every node
/// lies in exactly one place of exactly one group.
pub open spec fn is_partition(c: Seq<Vec<usize>>, n: int) -> bool {
    &&& forall|i: int| 0 <= i < c.len() ==> (#[trigger] c[i])@.len() > 0
    &&& forall|i: int, p: int| 0 <= i < c.len() && 0 <= p < c[i]@.len() ==> #[trigger] c[i]@[p] < n
    &&& forall|v: int| 0 <= v < n ==> #[trigger] covered(c, v)
    &&& forall|i: int, p: int, j: int, q: int|
        0 <= i < c.len() && 0 <= p < c[i]@.len() && 0 <= j < c.len() && 0 <= q < c[j]@.len() && #[trigger] c[i]@[p] == #[trigger] c[j]@[q]
            ==> i == j && p == q
}

/// Distinct values below `n` number at most `n`.
pub(crate) proof fn lemma_distinct_len_bound(s: Seq<usize>, n: int)
    requires
        n >= 0,
        forall|p: int| 0 <= p < s.len() ==> #[trigger] s[p] < n,
        forall|p: int, q: int| 0 <= p < s.len() && 0 <= q < s.len() && #[trigger] s[p] == #[trigger] s[q] ==> p == q,
    ensures
        s.len() <= n,
{
    let t = s.map_values(|x: usize| x as int);
    assert(t.no_duplicates()) by {
        assert forall|q: int, r: int| 0 <= q < t.len() && 0 <= r < t.len() && q != r implies t[q] != t[r] by {
            assert(s[q] != s[r]);
        }
    }
    t.unique_seq_to_set();
    let range = vstd::set_lib::set_int_range(0, n);
    vstd::set_lib::lemma_int_range(0, n);
    assert(t.to_set().subset_of(range)) by {
        assert forall|x: int| t.to_set().contains(x) implies range.contains(x) by {
            let q = choose|q: int| 0 <= q < t.len() && t[q] == x;
            assert(s[q] < n);
        }
    }
    vstd::set_lib::lemma_len_subset(t.to_set(), range);
}

/// Node `v` appears in some group.
pub open spec fn covered(c: Seq<Vec<usize>>, v: int) -> bool {
    exists|i: int, p: int| 0 <= i < c.len() && 0 <= p < c[i]@.len() && #[trigger] c[i]@[p] == v
}

/// In an undirected graph an arc followed either way is a step both ways.
proof fn lemma_undirected_steps(g: Graph, u: usize, a: ArcRef)
    requires
        !g.spec_kind().directed(),
        is_traversal_arc(g.spec_endpoints(), g.spec_kind(), u as int, TraversalDirection::Both, a),
    ensures
        out_step(g, u, a.neighbor, a.edge),
        out_step(g, a.neighbor, u, a.edge),
{
    lemma_both_arc_symmetric(g, u, a);
    assert(ArcRef { neighbor: a.neighbor, edge: a.edge } == a);
}

/// In an undirected graph a walk that starts in a closed group stays in it.
proof fn lemma_group_walk(g: Graph, c: Seq<usize>, walk: Seq<usize>, k: int)
    requires
        !g.spec_kind().directed(),
        group_closed(g, c),
        is_out_walk(g, walk),
        c.contains(walk[0]),
        0 <= k < walk.len(),
    ensures
        c.contains(walk[k]),
    decreases k,
{
    if k > 0 {
        lemma_group_walk(g, c, walk, k - 1);
        assert(steps_to(g, walk[k - 1], walk[k]));
        let e = choose|e: usize| #[trigger] out_step(g, walk[k - 1], walk[k], e);
        let p = choose|p: int| 0 <= p < c.len() && c[p] == walk[k - 1];
        let a = ArcRef { neighbor: walk[k], edge: e };
        assert(is_traversal_arc(g.spec_endpoints(), g.spec_kind(), c[p] as int, TraversalDirection::Both, a));
    }
}

/// Closed groups whose members all reach and are reached from the group's
/// first member are exactly the classes of mutual reachability.
proof fn lemma_connected_groups(g: Graph, c: Seq<Vec<usize>>)
    requires
        !g.spec_kind().directed(),
        forall|i: int| 0 <= i < c.len() ==> group_closed(g, (#[trigger] c[i])@),
        members_unique(c),
        forall|i: int, p: int| 0 <= i < c.len() && 0 <= p < c[i]@.len()
            ==> reaches(g, c[i]@[0], #[trigger] c[i]@[p]) && reaches(g, c[i]@[p], c[i]@[0]),
    ensures
        strong_groups(g, c),
{
    assert forall|i: int, p: int, j: int, q: int|
        0 <= i < c.len() && 0 <= p < c[i]@.len() && 0 <= j < c.len() && 0 <= q < c[j]@.len()
            implies (i == j <==> (reaches(g, #[trigger] c[i]@[p], #[trigger] c[j]@[q]) && reaches(g, c[j]@[q], c[i]@[p]))) by {
        let u = c[i]@[p];
        let v = c[j]@[q];
        if i == j {
            lemma_reaches_trans(g, u, c[i]@[0], v);
            lemma_reaches_trans(g, v, c[i]@[0], u);
        }
        if reaches(g, u, v) {
            let walk = choose|walk: Seq<usize>| #[trigger] is_out_walk(g, walk) && walk[0] == u && walk.last() == v;
            assert(c[i]@.contains(u));
            assert(group_closed(g, c[i]@));
            lemma_group_walk(g, c[i]@, walk, walk.len() - 1);
            assert(c[j]@.contains(v));
            lemma_member_unique(c, v, i, j);
        }
    }
}

/// Connected components of an undirected traversal, in breadth-first order
/// from each unvisited node in turn: in an undirected graph two nodes share
/// a component exactly when they are connected.
fn connected_components(g: &Graph) -> (components: Vec<Vec<usize>>)
    requires
        g.wf(),
    ensures
        is_partition(components@, g.spec_nodes().len() as int),
        forall|i: int| 0 <= i < components.len() ==> group_closed(*g, (#[trigger] components@[i])@),
        !g.spec_kind().directed() ==> strong_groups(*g, components@),
        forall|i: int, j: int| 0 <= i < j < components.len() ==> (#[trigger] components@[i])@[0] < (#[trigger] components@[j])@[0],
        forall|i: int, p: int| 0 <= i < components.len() && 0 <= p < components@[i]@.len() ==> components@[i]@[0] <= #[trigger] components@[i]@[p],
{
    let n = g.node_count();
    let mut visited: Vec<bool> = Vec::new();
    let mut v: usize = 0;
    while v < n
        invariant
            v <= n,
            visited.len() == v,
            forall|w: int| 0 <= w < v ==> !(#[trigger] visited@[w]),
        decreases n - v,
    {
        visited.push(false);
        v = v + 1;
    }
    let mut components: Vec<Vec<usize>> = Vec::new();
    let ghost mut place: Seq<(int, int)> = Seq::new(n as nat, |w: int| (0int, 0int));
    let mut start: usize = 0;
    while start < n
        invariant
            g.wf(),
            n == g.spec_nodes().len(),
            start <= n,
            visited.len() == n,
            place.len() == n,
            forall|i: int| 0 <= i < components.len() ==> (#[trigger] components@[i])@.len() > 0,
            forall|i: int, p: int| 0 <= i < components.len() && 0 <= p < components@[i]@.len() ==>
                #[trigger] components@[i]@[p] < n && visited@[components@[i]@[p] as int],
            forall|w: int| 0 <= w < n && #[trigger] visited@[w] ==> {
                &&& 0 <= place[w].0 < components.len()
                &&& 0 <= place[w].1 < components@[place[w].0]@.len()
                &&& components@[place[w].0]@[place[w].1] == w
            },
            forall|i: int, p: int, j: int, q: int|
                0 <= i < components.len() && 0 <= p < components@[i]@.len() && 0 <= j < components.len() && 0 <= q < components@[j]@.len()
                    && #[trigger] components@[i]@[p] == #[trigger] components@[j]@[q] ==> i == j && p == q,
            forall|w: int| 0 <= w < start ==> #[trigger] visited@[w],
            forall|i: int| 0 <= i < components.len() ==> group_closed(*g, (#[trigger] components@[i])@),
            forall|i: int| 0 <= i < components.len() ==> (#[trigger] components@[i])@[0] < start,
            forall|i: int, j: int| 0 <= i < j < components.len() ==> (#[trigger] components@[i])@[0] < (#[trigger] components@[j])@[0],
            forall|i: int, p: int| 0 <= i < components.len() && 0 <= p < components@[i]@.len() ==> components@[i]@[0] <= #[trigger] components@[i]@[p],
            !g.spec_kind().directed() ==> forall|i: int, p: int| 0 <= i < components.len() && 0 <= p < components@[i]@.len()
                ==> reaches(*g, components@[i]@[0], #[trigger] components@[i]@[p]) && reaches(*g, components@[i]@[p], components@[i]@[0]),
        decreases n - start,
    {
        if visited[start] {
            start = start + 1;
            continue;
        }
        visited.set(start, true);
        let mut queue: Vec<usize> = Vec::new();
        queue.push(start);
        proof {
            lemma_reaches_refl(*g, start);
            place = place.update(start as int, (components.len() as int, 0int));
        }
        let mut head: usize = 0;
        while head < queue.len()
            invariant
                g.wf(),
                n == g.spec_nodes().len(),
                start < n,
                visited.len() == n,
                place.len() == n,
                head <= queue.len(),
                queue.len() >= 1,
                forall|i: int| 0 <= i < components.len() ==> (#[trigger] components@[i])@.len() > 0,
                forall|i: int, p: int| 0 <= i < components.len() && 0 <= p < components@[i]@.len() ==>
                    #[trigger] components@[i]@[p] < n && visited@[components@[i]@[p] as int],
                forall|p: int| 0 <= p < queue.len() ==> #[trigger] queue@[p] < n && visited@[queue@[p] as int],
                forall|w: int| 0 <= w < n && #[trigger] visited@[w] ==> {
                    ||| (0 <= place[w].0 < components.len() && 0 <= place[w].1 < components@[place[w].0]@.len()
                        && components@[place[w].0]@[place[w].1] == w)
                    ||| (place[w].0 == components.len() && 0 <= place[w].1 < queue.len() && queue@[place[w].1] == w)
                },
                forall|i: int, p: int, j: int, q: int|
                    0 <= i < components.len() && 0 <= p < components@[i]@.len() && 0 <= j < components.len() && 0 <= q < components@[j]@.len()
                        && #[trigger] components@[i]@[p] == #[trigger] components@[j]@[q] ==> i == j && p == q,
                forall|i: int, p: int, q: int|
                    0 <= i < components.len() && 0 <= p < components@[i]@.len() && 0 <= q < queue.len()
                        ==> #[trigger] components@[i]@[p] != #[trigger] queue@[q],
                forall|p: int, q: int| 0 <= p < queue.len() && 0 <= q < queue.len() && #[trigger] queue@[p] == #[trigger] queue@[q] ==> p == q,
                forall|w: int| 0 <= w < start ==> #[trigger] visited@[w],
                visited@[start as int],
                queue.len() <= n,
                forall|i: int| 0 <= i < components.len() ==> group_closed(*g, (#[trigger] components@[i])@),
                forall|q: int, a: ArcRef| 0 <= q < head && #[trigger] is_traversal_arc(g.spec_endpoints(), g.spec_kind(), queue@[q] as int, TraversalDirection::Both, a)
                    ==> queue@.contains(a.neighbor),
                !g.spec_kind().directed() ==> forall|i: int, p: int| 0 <= i < components.len() && 0 <= p < components@[i]@.len()
                    ==> reaches(*g, components@[i]@[0], #[trigger] components@[i]@[p]) && reaches(*g, components@[i]@[p], components@[i]@[0]),
                queue@[0] == start,
                forall|p: int| 0 <= p < queue.len() ==> start <= #[trigger] queue@[p],
                forall|i: int| 0 <= i < components.len() ==> (#[trigger] components@[i])@[0] < start,
                forall|i: int, j: int| 0 <= i < j < components.len() ==> (#[trigger] components@[i])@[0] < (#[trigger] components@[j])@[0],
                forall|i: int, p: int| 0 <= i < components.len() && 0 <= p < components@[i]@.len() ==> components@[i]@[0] <= #[trigger] components@[i]@[p],
                !g.spec_kind().directed() ==> forall|p: int| 0 <= p < queue.len() ==> reaches(*g, start, #[trigger] queue@[p]) && reaches(*g, queue@[p], start),
            decreases n - queue.len(), queue.len() - head,
        {
            let node = queue[head];
            head = head + 1;
            let arcs = g.arcs(node, TraversalDirection::Both);
            proof {
                assert forall|a: ArcRef| #[trigger] arcs@.contains(a) implies a.neighbor < n by {
                    assert(is_out_arc(g.spec_endpoints(), node as int, a) || is_in_arc(g.spec_endpoints(), node as int, a));
                }
            }
            let ghost qlen = queue.len();
            let mut k: usize = 0;
            while k < arcs.len()
                invariant
                    g.wf(),
                    n == g.spec_nodes().len(),
                    start < n,
                    queue.len() >= qlen,
                    head <= qlen,
                    visited.len() == n,
                    place.len() == n,
                    head <= queue.len(),
                    queue.len() >= 1,
                    k <= arcs.len(),
                    forall|a: ArcRef| #[trigger] arcs@.contains(a) ==> a.neighbor < n,
                    forall|i: int| 0 <= i < components.len() ==> (#[trigger] components@[i])@.len() > 0,
                    forall|i: int, p: int| 0 <= i < components.len() && 0 <= p < components@[i]@.len() ==>
                        #[trigger] components@[i]@[p] < n && visited@[components@[i]@[p] as int],
                    forall|p: int| 0 <= p < queue.len() ==> #[trigger] queue@[p] < n && visited@[queue@[p] as int],
                    forall|w: int| 0 <= w < n && #[trigger] visited@[w] ==> {
                        ||| (0 <= place[w].0 < components.len() && 0 <= place[w].1 < components@[place[w].0]@.len()
                            && components@[place[w].0]@[place[w].1] == w)
                        ||| (place[w].0 == components.len() && 0 <= place[w].1 < queue.len() && queue@[place[w].1] == w)
                    },
                    forall|i: int, p: int, j: int, q: int|
                        0 <= i < components.len() && 0 <= p < components@[i]@.len() && 0 <= j < components.len() && 0 <= q < components@[j]@.len()
                            && #[trigger] components@[i]@[p] == #[trigger] components@[j]@[q] ==> i == j && p == q,
                    forall|i: int, p: int, q: int|
                        0 <= i < components.len() && 0 <= p < components@[i]@.len() && 0 <= q < queue.len()
                            ==> #[trigger] components@[i]@[p] != #[trigger] queue@[q],
                    forall|p: int, q: int| 0 <= p < queue.len() && 0 <= q < queue.len() && #[trigger] queue@[p] == #[trigger] queue@[q] ==> p == q,
                    forall|w: int| 0 <= w < start ==> #[trigger] visited@[w],
                    visited@[start as int],
                    queue.len() <= n,
                    forall|i: int| 0 <= i < components.len() ==> group_closed(*g, (#[trigger] components@[i])@),
                    1 <= head,
                    node == queue@[head - 1],
                    forall|a: ArcRef| #[trigger] arcs@.contains(a) <==> is_traversal_arc(g.spec_endpoints(), g.spec_kind(), node as int, TraversalDirection::Both, a),
                    forall|q: int, a: ArcRef| 0 <= q < head - 1 && #[trigger] is_traversal_arc(g.spec_endpoints(), g.spec_kind(), queue@[q] as int, TraversalDirection::Both, a)
                        ==> queue@.contains(a.neighbor),
                    forall|j: int| 0 <= j < k ==> queue@.contains((#[trigger] arcs@[j]).neighbor),
                    !g.spec_kind().directed() ==> forall|i: int, p: int| 0 <= i < components.len() && 0 <= p < components@[i]@.len()
                        ==> reaches(*g, components@[i]@[0], #[trigger] components@[i]@[p]) && reaches(*g, components@[i]@[p], components@[i]@[0]),
                    queue@[0] == start,
                    forall|p: int| 0 <= p < queue.len() ==> start <= #[trigger] queue@[p],
                    forall|i: int| 0 <= i < components.len() ==> (#[trigger] components@[i])@[0] < start,
                    forall|i: int, j: int| 0 <= i < j < components.len() ==> (#[trigger] components@[i])@[0] < (#[trigger] components@[j])@[0],
                    forall|i: int, p: int| 0 <= i < components.len() && 0 <= p < components@[i]@.len() ==> components@[i]@[0] <= #[trigger] components@[i]@[p],
                    !g.spec_kind().directed() ==> forall|p: int| 0 <= p < queue.len() ==> reaches(*g, start, #[trigger] queue@[p]) && reaches(*g, queue@[p], start),
                decreases arcs.len() - k,
            {
                let arc = arcs[k];
                let ghost q_before = queue@;
                proof {
                    assert(arcs@.contains(arc));
                }
                if visited[arc.neighbor] {
                    proof {
                        let y = arc.neighbor;
                        let w = y as int;
                        if place[w].0 < components.len() {
                            let i = place[w].0;
                            let c = components@[i]@;
                            let back = ArcRef { neighbor: node, edge: arc.edge };
                            lemma_both_arc_symmetric(*g, node, arc);
                            assert(group_closed(*g, c));
                            assert(is_traversal_arc(g.spec_endpoints(), g.spec_kind(), c[place[w].1] as int, TraversalDirection::Both, back));
                            assert(c.contains(node));
                            let r = choose|r: int| 0 <= r < c.len() && c[r] == node;
                            assert(components@[i]@[r] == queue@[head - 1]);
                        } else {
                            assert(queue@[place[w].1] == y);
                        }
                    }
                }
                if !visited[arc.neighbor] {
                    let nb = arc.neighbor;
                    proof {
                        assert forall|i: int, p: int| 0 <= i < components.len() && 0 <= p < components@[i]@.len() implies
                            #[trigger] components@[i]@[p] != nb by {}
                        assert forall|p: int| 0 <= p < queue.len() implies #[trigger] queue@[p] != nb by {}
                    }
                    visited.set(nb, true);
                    proof {
                        place = place.update(nb as int, (components.len() as int, queue.len() as int));
                    }
                    queue.push(nb);
                    proof {
                        assert(start <= nb) by {
                            if nb < start {
                                assert(visited@[nb as int]);
                            }
                        }
                        assert forall|p: int| 0 <= p < queue.len() implies start <= #[trigger] queue@[p] by {
                            if p < queue.len() - 1 {
                                assert(queue@[p] == q_before[p]);
                            }
                        }
                        if !g.spec_kind().directed() {
                            lemma_undirected_steps(*g, node, arc);
                            lemma_reaches_step(*g, start, node, nb, arc.edge);
                            lemma_reaches_refl(*g, nb);
                            lemma_reaches_step(*g, nb, nb, node, arc.edge);
                            lemma_reaches_trans(*g, nb, node, start);
                            assert forall|p: int| 0 <= p < queue.len() implies reaches(*g, start, #[trigger] queue@[p]) && reaches(*g, queue@[p], start) by {
                                if p < queue.len() - 1 {
                                    assert(queue@[p] == q_before[p]);
                                }
                            }
                        }
                        lemma_distinct_len_bound(queue@, n as int);
                        assert(queue@[queue.len() - 1] == nb);
                    }
                }
                proof {
                    assert forall|x: usize| #[trigger] q_before.contains(x) implies queue@.contains(x) by {
                        let r = choose|r: int| 0 <= r < q_before.len() && q_before[r] == x;
                        assert(queue@[r] == x);
                    }
                    assert(queue@.contains(arc.neighbor));
                }
                k = k + 1;
            }
            proof {
                assert forall|a: ArcRef| #[trigger] is_traversal_arc(g.spec_endpoints(), g.spec_kind(), node as int, TraversalDirection::Both, a)
                    implies queue@.contains(a.neighbor) by {
                    assert(arcs@.contains(a));
                    let j = choose|j: int| 0 <= j < arcs@.len() && arcs@[j] == a;
                    assert(queue@.contains(arcs@[j].neighbor));
                }
            }
        }
        let ghost comps_before = components@;
        proof {
            assert forall|q: int, a: ArcRef| 0 <= q < queue@.len() && #[trigger] is_traversal_arc(g.spec_endpoints(), g.spec_kind(), queue@[q] as int, TraversalDirection::Both, a)
                implies queue@.contains(a.neighbor) by {}
        }
        components.push(queue);
        proof {
            assert forall|i: int, p: int| 0 <= i < components.len() && 0 <= p < components@[i]@.len()
                implies components@[i]@[0] <= #[trigger] components@[i]@[p] by {
                if i < comps_before.len() {
                    assert(components@[i] == comps_before[i]);
                }
            }
            assert forall|i: int, j: int| 0 <= i < j < components.len()
                implies (#[trigger] components@[i])@[0] < (#[trigger] components@[j])@[0] by {
                if j < comps_before.len() {
                    assert(components@[j] == comps_before[j]);
                }
                assert(components@[i] == comps_before[i]);
            }
            assert forall|i: int| 0 <= i < components.len() implies (#[trigger] components@[i])@[0] < start + 1 by {
                if i < comps_before.len() {
                    assert(components@[i] == comps_before[i]);
                }
            }
            if !g.spec_kind().directed() {
                assert forall|i: int, p: int| 0 <= i < components.len() && 0 <= p < components@[i]@.len()
                    implies reaches(*g, components@[i]@[0], #[trigger] components@[i]@[p]) && reaches(*g, components@[i]@[p], components@[i]@[0]) by {
                    if i < comps_before.len() {
                        assert(components@[i] == comps_before[i]);
                    }
                }
            }
            assert forall|i: int| 0 <= i < components.len() implies group_closed(*g, (#[trigger] components@[i])@) by {
                if i < comps_before.len() {
                    assert(components@[i] == comps_before[i]);
                }
            }
            assert forall|w: int| 0 <= w < n && #[trigger] visited@[w] implies {
                &&& 0 <= place[w].0 < components.len()
                &&& 0 <= place[w].1 < components@[place[w].0]@.len()
                &&& components@[place[w].0]@[place[w].1] == w
            } by {
                if place[w].0 < comps_before.len() {
                    assert(components@[place[w].0] == comps_before[place[w].0]);
                }
            }
            assert forall|i: int, p: int, j: int, q: int|
                0 <= i < components.len() && 0 <= p < components@[i]@.len() && 0 <= j < components.len() && 0 <= q < components@[j]@.len()
                    && #[trigger] components@[i]@[p] == #[trigger] components@[j]@[q] implies i == j && p == q by {
                if i < comps_before.len() {
                    assert(components@[i] == comps_before[i]);
                }
                if j < comps_before.len() {
                    assert(components@[j] == comps_before[j]);
                }
            }
        }
        start = start + 1;
    }
    proof {
        assert forall|w: int| 0 <= w < n implies #[trigger] covered(components@, w) by {
            assert(visited@[w]);
            let (i, p) = place[w];
            assert(components@[i]@[p] == w);
        }
        if !g.spec_kind().directed() {
            lemma_connected_groups(*g, components@);
        }
    }
    components
}


/// Arcs still to be examined by the depth-first frames, plus one per frame.
spec fn work_left(frames: Seq<(usize, usize)>, arcs: Seq<Vec<ArcRef>>) -> int
    decreases frames.len(),
{
    if frames.len() == 0 || arcs.len() == 0 {
        0
    } else {
        work_left(frames.drop_last(), arcs.drop_last()) + (arcs.last()@.len() - frames.last().1) + 1
    }
}

proof fn lemma_work_left_nonneg(frames: Seq<(usize, usize)>, arcs: Seq<Vec<ArcRef>>)
    requires
        frames.len() == arcs.len(),
        forall|f: int| 0 <= f < frames.len() ==> (#[trigger] frames[f]).1 <= arcs[f]@.len(),
    ensures
        work_left(frames, arcs) >= 0,
    decreases frames.len(),
{
    if frames.len() > 0 {
        lemma_work_left_nonneg(frames.drop_last(), arcs.drop_last());
    }
}

/// Strictly increasing positions.
pub open spec fn strictly_increasing(s: Seq<usize>) -> bool {
    forall|p: int, q: int| 0 <= p < q < s.len() ==> #[trigger] s[p] < #[trigger] s[q]
}

/// Sort a component's positions increasingly.
fn sort_positions(v: Vec<usize>) -> (r: Vec<usize>)
    requires
        forall|p: int, q: int| 0 <= p < v.len() && 0 <= q < v.len() && #[trigger] v@[p] == #[trigger] v@[q] ==> p == q,
    ensures
        strictly_increasing(r@),
        r.len() == v.len(),
        forall|x: usize| r@.contains(x) <==> v@.contains(x),
{
    let mut r: Vec<usize> = Vec::new();
    let mut k: usize = 0;
    while k < v.len()
        invariant
            k <= v.len(),
            r.len() == k,
            strictly_increasing(r@),
            forall|p: int, q: int| 0 <= p < v.len() && 0 <= q < v.len() && #[trigger] v@[p] == #[trigger] v@[q] ==> p == q,
            forall|x: usize| r@.contains(x) <==> v@.take(k as int).contains(x),
        decreases v.len() - k,
    {
        let x = v[k];
        let mut lo: usize = 0;
        while lo < r.len() && r[lo] < x
            invariant
                lo <= r.len(),
                forall|p: int| 0 <= p < lo ==> #[trigger] r@[p] < x,
            decreases r.len() - lo,
        {
            lo = lo + 1;
        }
        proof {
            assert(!r@.contains(x)) by {
                if r@.contains(x) {
                    assert(v@.take(k as int).contains(x));
                    let q = choose|q: int| 0 <= q < k && v@.take(k as int)[q] == x;
                    assert(v@[q] == v@[k as int]);
                }
            }
            assert forall|p: int| lo <= p < r.len() implies x < #[trigger] r@[p] by {
                assert(r@[lo as int] >= x);
                assert(r@[lo as int] != x) by {
                    assert(r@.contains(r@[lo as int]));
                }
                if p > lo {
                    assert(r@[lo as int] < r@[p]);
                }
            }
        }
        let ghost before = r@;
        r.insert(lo, x);
        proof {
            before.insert_ensures(lo as int, x);
            assert forall|p: int, q: int| 0 <= p < q < r.len() implies #[trigger] r@[p] < #[trigger] r@[q] by {
                if q < lo {
                } else if q == lo {
                } else if p < lo {
                    assert(r@[q] == before[q - 1]);
                } else if p == lo {
                    assert(r@[q] == before[q - 1]);
                } else {
                    assert(r@[p] == before[p - 1]);
                    assert(r@[q] == before[q - 1]);
                }
            }
            assert(v@.take(k + 1) =~= v@.take(k as int).push(x));
            lemma_push_contains(v@.take(k as int), x);
            assert forall|y: usize| r@.contains(y) <==> v@.take(k + 1).contains(y) by {
                if r@.contains(y) {
                    let q = choose|q: int| 0 <= q < r.len() && r@[q] == y;
                    if q < lo {
                        assert(before[q] == y);
                        assert(before.contains(y));
                    } else if q > lo {
                        assert(before[q - 1] == y);
                        assert(before.contains(y));
                    }
                }
                if v@.take(k + 1).contains(y) {
                    if y == x {
                        assert(r@[lo as int] == y);
                    } else {
                        assert(before.contains(y));
                        let q = choose|q: int| 0 <= q < before.len() && before[q] == y;
                        if q < lo {
                            assert(r@[q] == y);
                        } else {
                            assert(r@[q + 1] == y);
                        }
                    }
                }
            }
        }
        k = k + 1;
    }
    assert(v@.take(k as int) =~= v@);
    r
}


/// Bookkeeping of Tarjan's search that holds between steps.
spec fn tarjan_inv(
    n: int,
    root_idx: int,
    next_index: int,
    indexes: Seq<Option<usize>>,
    lowlinks: Seq<usize>,
    stack: Seq<usize>,
    on_stack: Seq<bool>,
    components: Seq<Vec<usize>>,
    opened: Seq<usize>,
) -> bool {
    &&& indexes.len() == n
    &&& lowlinks.len() == n
    &&& on_stack.len() == n
    &&& opened.len() == next_index
    &&& 0 <= root_idx <= next_index
    &&& forall|k: int| 0 <= k < opened.len() ==> #[trigger] opened[k] < n && indexes[opened[k] as int] == Some(k as usize)
    &&& forall|v: int| 0 <= v < n && (#[trigger] indexes[v]) is Some ==> indexes[v]->0 < next_index && opened[indexes[v]->0 as int] == v
    &&& forall|p: int| 0 <= p < stack.len() ==> {
        &&& #[trigger] stack[p] < n
        &&& indexes[stack[p] as int] is Some
        &&& on_stack[stack[p] as int]
        &&& indexes[stack[p] as int]->0 >= root_idx
    }
    &&& forall|p: int, q: int| 0 <= p < q < stack.len() ==> indexes[#[trigger] stack[p] as int]->0 < indexes[#[trigger] stack[q] as int]->0
    &&& forall|v: int| 0 <= v < n && #[trigger] on_stack[v] ==> stack.contains(v as usize)
    &&& forall|v: int| 0 <= v < n && #[trigger] indexes[v] is Some ==> lowlinks[v] <= indexes[v]->0
    &&& forall|v: int| 0 <= v < n && #[trigger] indexes[v] is Some && indexes[v]->0 >= root_idx ==> lowlinks[v] >= root_idx
    &&& forall|i: int| 0 <= i < components.len() ==> (#[trigger] components[i])@.len() > 0 && strictly_increasing(components[i]@)
    &&& forall|i: int, p: int| 0 <= i < components.len() && 0 <= p < components[i]@.len() ==> {
        &&& #[trigger] components[i]@[p] < n
        &&& indexes[components[i]@[p] as int] is Some
        &&& !on_stack[components[i]@[p] as int]
    }
    &&& forall|i: int, p: int, j: int, q: int|
        0 <= i < components.len() && 0 <= p < components[i]@.len() && 0 <= j < components.len() && 0 <= q < components[j]@.len()
            && #[trigger] components[i]@[p] == #[trigger] components[j]@[q] ==> i == j && p == q
    &&& forall|v: int| 0 <= v < n && #[trigger] indexes[v] is Some && !on_stack[v] ==> covered(components, v)
}

/// The open depth-first frames of the search from `root`.
spec fn frames_inv(
    n: int,
    root: int,
    root_idx: int,
    indexes: Seq<Option<usize>>,
    on_stack: Seq<bool>,
    stack: Seq<usize>,
    frames: Seq<(usize, usize)>,
    frame_arcs: Seq<Vec<ArcRef>>,
) -> bool {
    &&& frames.len() == frame_arcs.len()
    &&& 0 <= root < n
    &&& indexes[root] == Some(root_idx as usize)
    &&& frames.len() > 0 ==> frames[0].0 == root
    &&& frames.len() == 0 ==> stack.len() == 0
    &&& forall|f: int| 0 <= f < frames.len() ==> {
        &&& (#[trigger] frames[f]).0 < n
        &&& indexes[frames[f].0 as int] is Some
        &&& on_stack[frames[f].0 as int]
        &&& frames[f].1 <= frame_arcs[f]@.len()
    }
    &&& forall|f: int, a: ArcRef| 0 <= f < frames.len() && #[trigger] frame_arcs[f]@.contains(a) ==> a.neighbor < n
    &&& forall|f: int, h: int| 0 <= f < h < frames.len() ==> indexes[(#[trigger] frames[f]).0 as int]->0 < indexes[(#[trigger] frames[h]).0 as int]->0
}


/// Advancing the top frame leaves one arc less to examine.
proof fn lemma_work_left_advance(frames: Seq<(usize, usize)>, arcs: Seq<Vec<ArcRef>>, x: usize, p: usize)
    requires
        frames.len() == arcs.len(),
        frames.len() > 0,
        frames.last().1 == p,
        p < usize::MAX,
    ensures
        work_left(frames.update(frames.len() - 1, (x, (p + 1) as usize)), arcs) == work_left(frames, arcs) - 1,
{
    let f2 = frames.update(frames.len() - 1, (x, (p + 1) as usize));
    assert(f2.drop_last() =~= frames.drop_last());
    assert(f2.last() == (x, (p + 1) as usize));
    assert(work_left(f2, arcs) == work_left(f2.drop_last(), arcs.drop_last()) + (arcs.last()@.len() - f2.last().1) + 1);
    assert(work_left(frames, arcs) == work_left(frames.drop_last(), arcs.drop_last()) + (arcs.last()@.len() - frames.last().1) + 1);
}

/// Popping the top frame leaves less work.
proof fn lemma_work_left_pop(frames: Seq<(usize, usize)>, arcs: Seq<Vec<ArcRef>>)
    requires
        frames.len() == arcs.len(),
        frames.len() > 0,
        frames.last().1 <= arcs.last()@.len(),
    ensures
        work_left(frames.drop_last(), arcs.drop_last()) < work_left(frames, arcs),
{
}

/// Opening an unvisited node keeps the search bookkeeping.
proof fn lemma_tarjan_open(
    n: int,
    root_idx: int,
    next_index: int,
    indexes: Seq<Option<usize>>,
    lowlinks: Seq<usize>,
    stack: Seq<usize>,
    on_stack: Seq<bool>,
    components: Seq<Vec<usize>>,
    opened: Seq<usize>,
    v: int,
)
    requires
        tarjan_inv(n, root_idx, next_index, indexes, lowlinks, stack, on_stack, components, opened),
        0 <= v < n,
        indexes[v] is None,
        next_index < n,
        n <= usize::MAX,
    ensures
        tarjan_inv(
            n,
            root_idx,
            next_index + 1,
            indexes.update(v, Some(next_index as usize)),
            lowlinks.update(v, next_index as usize),
            stack.push(v as usize),
            on_stack.update(v, true),
            components,
            opened.push(v as usize),
        ),
{
    let indexes2 = indexes.update(v, Some(next_index as usize));
    let lowlinks2 = lowlinks.update(v, next_index as usize);
    let stack2 = stack.push(v as usize);
    let on_stack2 = on_stack.update(v, true);
    let opened2 = opened.push(v as usize);
    assert forall|k: int| 0 <= k < opened2.len() implies #[trigger] opened2[k] < n && indexes2[opened2[k] as int] == Some(k as usize) by {
        if k < opened.len() {
            assert(opened2[k] == opened[k]);
            assert(indexes[opened[k] as int] == Some(k as usize));
            assert(opened[k] != v);
            assert(indexes2[opened[k] as int] == indexes[opened[k] as int]);
        } else {
            assert(opened2[k] == v);
        }
    }
    assert forall|p: int| 0 <= p < stack.len() implies stack[p] != v by {
        assert(indexes[stack[p] as int] is Some);
    }
    assert forall|p: int| 0 <= p < stack2.len() implies {
        &&& #[trigger] stack2[p] < n
        &&& indexes2[stack2[p] as int] is Some
        &&& on_stack2[stack2[p] as int]
        &&& indexes2[stack2[p] as int]->0 >= root_idx
    } by {
        if p < stack.len() {
            assert(stack2[p] == stack[p]);
            assert(stack[p] != v);
            assert(indexes2[stack[p] as int] == indexes[stack[p] as int]);
            assert(on_stack2[stack[p] as int] == on_stack[stack[p] as int]);
        } else {
            assert(stack2[p] == v);
        }
    }
    assert forall|p: int, q: int| 0 <= p < q < stack2.len() implies indexes2[#[trigger] stack2[p] as int]->0 < indexes2[#[trigger] stack2[q] as int]->0 by {
        assert(stack2[p] == stack[p]);
        if q < stack.len() {
            assert(stack2[q] == stack[q]);
        }
    }
    assert forall|w: int| 0 <= w < n && #[trigger] on_stack2[w] implies stack2.contains(w as usize) by {
        if w == v {
            assert(stack2[stack.len() as int] == w as usize);
        } else {
            assert(stack.contains(w as usize));
            let q = choose|q: int| 0 <= q < stack.len() && stack[q] == w as usize;
            assert(stack2[q] == w as usize);
        }
    }
    assert forall|i: int, p: int| 0 <= i < components.len() && 0 <= p < components[i]@.len() implies components[i]@[p] != v by {
        assert(indexes[components[i]@[p] as int] is Some);
    }
    assert forall|w: int| 0 <= w < n && #[trigger] indexes2[w] is Some && !on_stack2[w] implies covered(components, w) by {
        assert(w != v);
    }
}

/// `v` is reached from `u` by a walk along outgoing arcs (in an undirected
/// graph, along edges either way).
pub open spec fn reaches(g: Graph, u: usize, v: usize) -> bool {
    exists|walk: Seq<usize>| #[trigger] is_out_walk(g, walk) && walk[0] == u && walk.last() == v
}

/// Every node reaches itself.
pub proof fn lemma_reaches_refl(g: Graph, u: usize)
    ensures
        reaches(g, u, u),
{
    let walk = seq![u];
    assert(is_out_walk(g, walk));
}

/// A reached node's arc extends the walk.
pub proof fn lemma_reaches_step(g: Graph, u: usize, v: usize, w: usize, e: usize)
    requires
        reaches(g, u, v),
        out_step(g, v, w, e),
    ensures
        reaches(g, u, w),
{
    let walk = choose|walk: Seq<usize>| #[trigger] is_out_walk(g, walk) && walk[0] == u && walk.last() == v;
    let w2 = walk.push(w);
    assert(steps_to(g, v, w));
    assert forall|i: int| #![trigger w2[i]] 0 <= i < w2.len() - 1 implies steps_to(g, w2[i], w2[i + 1]) by {
        if i < walk.len() - 1 {
            assert(w2[i] == walk[i] && w2[i + 1] == walk[i + 1]);
        } else {
            assert(w2[i] == v && w2[i + 1] == w);
        }
    }
    assert(is_out_walk(g, w2));
}

/// Reachability is transitive.
pub proof fn lemma_reaches_trans(g: Graph, u: usize, v: usize, w: usize)
    requires
        reaches(g, u, v),
        reaches(g, v, w),
    ensures
        reaches(g, u, w),
{
    let walk = choose|walk: Seq<usize>| #[trigger] is_out_walk(g, walk) && walk[0] == v && walk.last() == w;
    lemma_reaches_prefix(g, u, walk, walk.len() as int);
}

/// Walking on from a reached node along the first `k` nodes of a walk.
proof fn lemma_reaches_prefix(g: Graph, u: usize, walk: Seq<usize>, k: int)
    requires
        is_out_walk(g, walk),
        reaches(g, u, walk[0]),
        1 <= k <= walk.len(),
    ensures
        reaches(g, u, walk[k - 1]),
    decreases k,
{
    if k > 1 {
        lemma_reaches_prefix(g, u, walk, k - 1);
        assert(steps_to(g, walk[k - 2], walk[k - 1]));
        let e = choose|e: usize| #[trigger] out_step(g, walk[k - 2], walk[k - 1], e);
        lemma_reaches_step(g, u, walk[k - 2], walk[k - 1], e);
    }
}

/// Node `x` heads one of the active search frames.
pub open spec fn heads_frame(frames: Seq<(usize, usize)>, x: usize) -> bool {
    exists|f: int| 0 <= f < frames.len() && #[trigger] frames[f].0 == x
}

/// Arc target `y` has been visited and is either settled into a component or
/// sits on the stack at an index no smaller than `low`.
pub open spec fn respects_low(indexes: Seq<Option<usize>>, on_stack: Seq<bool>, y: usize, low: usize) -> bool {
    &&& indexes[y as int] is Some
    &&& (!on_stack[y as int] || indexes[y as int]->0 >= low)
}

/// Each active frame holds exactly the arcs out of its node.
#[verifier::opaque]
spec fn frame_arcs_exact(g: Graph, frames: Seq<(usize, usize)>, frame_arcs: Seq<Vec<ArcRef>>) -> bool {
    &&& frame_arcs.len() == frames.len()
    &&& forall|f: int, a: ArcRef| 0 <= f < frames.len() ==> (#[trigger] frame_arcs[f]@.contains(a)
        <==> is_traversal_arc(g.spec_endpoints(), g.spec_kind(), frames[f].0 as int, TraversalDirection::Out, a))
}

/// Every arc out of an emitted component leads into it or into one emitted
/// before it.
#[verifier::opaque]
spec fn emitted_closed(g: Graph, components: Seq<Vec<usize>>) -> bool {
    forall|i: int, p: int, a: ArcRef|
        0 <= i < components.len() && 0 <= p < components[i]@.len()
            && #[trigger] is_traversal_arc(g.spec_endpoints(), g.spec_kind(), components[i]@[p] as int, TraversalDirection::Out, a)
            ==> exists|j: int| 0 <= j <= i && #[trigger] components[j]@.contains(a.neighbor)
}

/// Every arc out of a stacked node whose frame is closed respects that
/// node's low link.
#[verifier::opaque]
spec fn finished_respect(
    g: Graph,
    indexes: Seq<Option<usize>>,
    lowlinks: Seq<usize>,
    stack: Seq<usize>,
    on_stack: Seq<bool>,
    frames: Seq<(usize, usize)>,
) -> bool {
    forall|q: int, a: ArcRef|
        0 <= q < stack.len() && !heads_frame(frames, stack[q])
            && #[trigger] is_traversal_arc(g.spec_endpoints(), g.spec_kind(), stack[q] as int, TraversalDirection::Out, a)
            ==> respects_low(indexes, on_stack, a.neighbor, lowlinks[stack[q] as int])
}

/// Every arc an active frame has examined respects the low link of its node.
#[verifier::opaque]
spec fn scanned_respect(
    indexes: Seq<Option<usize>>,
    lowlinks: Seq<usize>,
    on_stack: Seq<bool>,
    frames: Seq<(usize, usize)>,
    frame_arcs: Seq<Vec<ArcRef>>,
) -> bool {
    forall|f: int, j: int| 0 <= f < frames.len() && 0 <= j < frames[f].1
        ==> respects_low(indexes, on_stack, (#[trigger] frame_arcs[f]@[j]).neighbor, lowlinks[frames[f].0 as int])
}

/// A frame's low link is no larger than that of any closed node discovered
/// while the frame was on top.
#[verifier::opaque]
spec fn ranges_ordered(
    indexes: Seq<Option<usize>>,
    lowlinks: Seq<usize>,
    stack: Seq<usize>,
    frames: Seq<(usize, usize)>,
) -> bool {
    forall|f: int, q: int|
        0 <= f < frames.len() && 0 <= q < stack.len() && !heads_frame(frames, stack[q])
            && indexes[(#[trigger] frames[f]).0 as int]->0 < indexes[(#[trigger] stack[q]) as int]->0
            && (f == frames.len() - 1 || indexes[stack[q] as int]->0 < indexes[frames[f + 1].0 as int]->0)
            ==> lowlinks[frames[f].0 as int] <= lowlinks[stack[q] as int]
}

/// What the search knows about where arcs lead.
spec fn closure_inv(
    g: Graph,
    indexes: Seq<Option<usize>>,
    lowlinks: Seq<usize>,
    stack: Seq<usize>,
    on_stack: Seq<bool>,
    components: Seq<Vec<usize>>,
    frames: Seq<(usize, usize)>,
    frame_arcs: Seq<Vec<ArcRef>>,
) -> bool {
    &&& frame_arcs_exact(g, frames, frame_arcs)
    &&& emitted_closed(g, components)
    &&& finished_respect(g, indexes, lowlinks, stack, on_stack, frames)
    &&& scanned_respect(indexes, lowlinks, on_stack, frames, frame_arcs)
    &&& ranges_ordered(indexes, lowlinks, stack, frames)
}

/// Frame heads after the scan position of one frame moves.
proof fn lemma_heads_advance(frames: Seq<(usize, usize)>, f: int, p: usize)
    requires
        0 <= f < frames.len(),
    ensures
        forall|x: usize| #[trigger] heads_frame(frames.update(f, (frames[f].0, p)), x) == heads_frame(frames, x),
{
    let f2 = frames.update(f, (frames[f].0, p));
    assert forall|x: usize| #[trigger] heads_frame(f2, x) == heads_frame(frames, x) by {
        if heads_frame(f2, x) {
            let h = choose|h: int| 0 <= h < f2.len() && #[trigger] f2[h].0 == x;
            assert(frames[h].0 == x);
        }
        if heads_frame(frames, x) {
            let h = choose|h: int| 0 <= h < frames.len() && #[trigger] frames[h].0 == x;
            assert(f2[h].0 == x);
        }
    }
}

/// Frame heads after a frame is pushed.
proof fn lemma_heads_push(frames: Seq<(usize, usize)>, top: (usize, usize))
    ensures
        forall|x: usize| #[trigger] heads_frame(frames.push(top), x) == (heads_frame(frames, x) || x == top.0),
{
    let f2 = frames.push(top);
    assert forall|x: usize| #[trigger] heads_frame(f2, x) == (heads_frame(frames, x) || x == top.0) by {
        if heads_frame(f2, x) {
            let h = choose|h: int| 0 <= h < f2.len() && #[trigger] f2[h].0 == x;
            if h < frames.len() {
                assert(frames[h].0 == x);
            }
        }
        if heads_frame(frames, x) {
            let h = choose|h: int| 0 <= h < frames.len() && #[trigger] frames[h].0 == x;
            assert(f2[h].0 == x);
        }
        if x == top.0 {
            assert(f2[frames.len() as int].0 == x);
        }
    }
}

/// Frame heads after the top frame is popped, the heads being discovered in
/// increasing order.
proof fn lemma_heads_pop(frames: Seq<(usize, usize)>, indexes: Seq<Option<usize>>)
    requires
        frames.len() > 0,
        forall|f: int, h: int| 0 <= f < h < frames.len() ==> indexes[(#[trigger] frames[f]).0 as int]->0 < indexes[(#[trigger] frames[h]).0 as int]->0,
    ensures
        forall|x: usize| #[trigger] heads_frame(frames.drop_last(), x) == (heads_frame(frames, x) && x != frames.last().0),
{
    let f2 = frames.drop_last();
    let top = frames.len() - 1;
    assert forall|x: usize| #[trigger] heads_frame(f2, x) == (heads_frame(frames, x) && x != frames.last().0) by {
        if heads_frame(f2, x) {
            let h = choose|h: int| 0 <= h < f2.len() && #[trigger] f2[h].0 == x;
            assert(frames[h].0 == x);
            assert(indexes[frames[h].0 as int]->0 < indexes[frames[top].0 as int]->0);
        }
        if heads_frame(frames, x) && x != frames.last().0 {
            let h = choose|h: int| 0 <= h < frames.len() && #[trigger] frames[h].0 == x;
            assert(h != top);
            assert(f2[h].0 == x);
        }
    }
}

/// Nothing is known yet before the first search.
proof fn lemma_closure_start(g: Graph)
    ensures
        emitted_closed(g, Seq::empty()),
{
    reveal(emitted_closed);
}

/// Starting a search from a fresh root with an empty stack.
proof fn lemma_closure_root(
    g: Graph,
    indexes: Seq<Option<usize>>,
    lowlinks: Seq<usize>,
    on_stack: Seq<bool>,
    components: Seq<Vec<usize>>,
    root: usize,
    frames: Seq<(usize, usize)>,
    frame_arcs: Seq<Vec<ArcRef>>,
)
    requires
        emitted_closed(g, components),
        frames == seq![(root, 0usize)],
        frame_arcs.len() == 1,
        forall|a: ArcRef| #[trigger] frame_arcs[0]@.contains(a) <==> is_traversal_arc(g.spec_endpoints(), g.spec_kind(), root as int, TraversalDirection::Out, a),
    ensures
        closure_inv(g, indexes, lowlinks, seq![root], on_stack, components, frames, frame_arcs),
{
    reveal(frame_arcs_exact);
    reveal(finished_respect);
    reveal(scanned_respect);
    reveal(ranges_ordered);
    assert(heads_frame(frames, root)) by {
        assert(frames[0].0 == root);
    }
}

/// Lowering the low link of a frame's node keeps what is known.
proof fn lemma_closure_lower(
    g: Graph,
    indexes: Seq<Option<usize>>,
    lowlinks0: Seq<usize>,
    stack: Seq<usize>,
    on_stack: Seq<bool>,
    components: Seq<Vec<usize>>,
    frames: Seq<(usize, usize)>,
    frame_arcs: Seq<Vec<ArcRef>>,
    x: usize,
    low: usize,
)
    requires
        closure_inv(g, indexes, lowlinks0, stack, on_stack, components, frames, frame_arcs),
        heads_frame(frames, x),
        x < lowlinks0.len(),
        low <= lowlinks0[x as int],
        forall|q: int| 0 <= q < stack.len() ==> #[trigger] stack[q] < lowlinks0.len(),
        forall|f: int| 0 <= f < frames.len() ==> (#[trigger] frames[f]).0 < lowlinks0.len(),
    ensures
        closure_inv(g, indexes, lowlinks0.update(x as int, low), stack, on_stack, components, frames, frame_arcs),
{
    let lowlinks = lowlinks0.update(x as int, low);
    assert(finished_respect(g, indexes, lowlinks, stack, on_stack, frames)) by {
        reveal(finished_respect);
        assert forall|q: int, a: ArcRef|
            0 <= q < stack.len() && !heads_frame(frames, stack[q])
                && #[trigger] is_traversal_arc(g.spec_endpoints(), g.spec_kind(), stack[q] as int, TraversalDirection::Out, a)
                implies respects_low(indexes, on_stack, a.neighbor, lowlinks[stack[q] as int]) by {
            assert(stack[q] != x);
        }
    }
    assert(scanned_respect(indexes, lowlinks, on_stack, frames, frame_arcs)) by {
        reveal(scanned_respect);
        assert forall|f: int, j: int| 0 <= f < frames.len() && 0 <= j < frames[f].1
            implies respects_low(indexes, on_stack, (#[trigger] frame_arcs[f]@[j]).neighbor, lowlinks[frames[f].0 as int]) by {
            assert(respects_low(indexes, on_stack, frame_arcs[f]@[j].neighbor, lowlinks0[frames[f].0 as int]));
        }
    }
    assert(ranges_ordered(indexes, lowlinks, stack, frames)) by {
        reveal(ranges_ordered);
        assert forall|f: int, q: int|
            0 <= f < frames.len() && 0 <= q < stack.len() && !heads_frame(frames, stack[q])
                && indexes[(#[trigger] frames[f]).0 as int]->0 < indexes[(#[trigger] stack[q]) as int]->0
                && (f == frames.len() - 1 || indexes[stack[q] as int]->0 < indexes[frames[f + 1].0 as int]->0)
                implies lowlinks[frames[f].0 as int] <= lowlinks[stack[q] as int] by {
            assert(stack[q] != x);
        }
    }
}

/// Moving a frame past an arc that respects its low link keeps what is known.
proof fn lemma_closure_advance(
    g: Graph,
    indexes: Seq<Option<usize>>,
    lowlinks: Seq<usize>,
    stack: Seq<usize>,
    on_stack: Seq<bool>,
    components: Seq<Vec<usize>>,
    frames0: Seq<(usize, usize)>,
    frame_arcs: Seq<Vec<ArcRef>>,
    f: int,
)
    requires
        closure_inv(g, indexes, lowlinks, stack, on_stack, components, frames0, frame_arcs),
        0 <= f < frames0.len(),
        frames0[f].1 < frame_arcs[f]@.len(),
        respects_low(indexes, on_stack, frame_arcs[f]@[frames0[f].1 as int].neighbor, lowlinks[frames0[f].0 as int]),
    ensures
        closure_inv(g, indexes, lowlinks, stack, on_stack, components,
            frames0.update(f, (frames0[f].0, (frames0[f].1 + 1) as usize)), frame_arcs),
{
    let frames = frames0.update(f, (frames0[f].0, (frames0[f].1 + 1) as usize));
    lemma_heads_advance(frames0, f, (frames0[f].1 + 1) as usize);
    assert forall|h: int| 0 <= h < frames.len() implies #[trigger] frames[h].0 == frames0[h].0 by {}
    assert(frame_arcs_exact(g, frames, frame_arcs)) by {
        reveal(frame_arcs_exact);
        assert forall|h: int, a: ArcRef| 0 <= h < frames.len() implies (#[trigger] frame_arcs[h]@.contains(a)
            <==> is_traversal_arc(g.spec_endpoints(), g.spec_kind(), frames[h].0 as int, TraversalDirection::Out, a)) by {
            assert(frames[h].0 == frames0[h].0);
        }
    }
    assert(finished_respect(g, indexes, lowlinks, stack, on_stack, frames)) by {
        reveal(finished_respect);
    }
    assert(scanned_respect(indexes, lowlinks, on_stack, frames, frame_arcs)) by {
        reveal(scanned_respect);
        assert forall|h: int, j: int| 0 <= h < frames.len() && 0 <= j < frames[h].1
            implies respects_low(indexes, on_stack, (#[trigger] frame_arcs[h]@[j]).neighbor, lowlinks[frames[h].0 as int]) by {
            if h != f || j < frames0[f].1 {
                assert(respects_low(indexes, on_stack, frame_arcs[h]@[j].neighbor, lowlinks[frames0[h].0 as int]));
            }
        }
    }
    assert(ranges_ordered(indexes, lowlinks, stack, frames)) by {
        reveal(ranges_ordered);
        assert forall|h: int, q: int|
            0 <= h < frames.len() && 0 <= q < stack.len() && !heads_frame(frames, stack[q])
                && indexes[(#[trigger] frames[h]).0 as int]->0 < indexes[(#[trigger] stack[q]) as int]->0
                && (h == frames.len() - 1 || indexes[stack[q] as int]->0 < indexes[frames[h + 1].0 as int]->0)
                implies lowlinks[frames[h].0 as int] <= lowlinks[stack[q] as int] by {
            assert(frames[h].0 == frames0[h].0);
            if h < frames.len() - 1 {
                assert(frames[h + 1].0 == frames0[h + 1].0);
            }
        }
    }
}

/// Every arc out of a node leads to a node below `n`.
spec fn arcs_in_range(g: Graph, n: int) -> bool {
    forall|x: int, a: ArcRef| #[trigger] is_traversal_arc(g.spec_endpoints(), g.spec_kind(), x, TraversalDirection::Out, a) ==> a.neighbor < n
}

/// Opening an unvisited node pushes it on the stack with a frame of its own.
#[verifier::rlimit(30)]
proof fn lemma_closure_open(
    g: Graph,
    indexes0: Seq<Option<usize>>,
    lowlinks0: Seq<usize>,
    stack0: Seq<usize>,
    on_stack0: Seq<bool>,
    components: Seq<Vec<usize>>,
    frames0: Seq<(usize, usize)>,
    frame_arcs0: Seq<Vec<ArcRef>>,
    nb: usize,
    next: usize,
    nb_arcs: Vec<ArcRef>,
)
    requires
        closure_inv(g, indexes0, lowlinks0, stack0, on_stack0, components, frames0, frame_arcs0),
        nb < indexes0.len(),
        lowlinks0.len() == indexes0.len(),
        on_stack0.len() == indexes0.len(),
        indexes0[nb as int] is None,
        arcs_in_range(g, indexes0.len() as int),
        frame_arcs0.len() == frames0.len(),
        forall|q: int| 0 <= q < stack0.len() ==> #[trigger] stack0[q] < indexes0.len() && indexes0[stack0[q] as int] is Some
            && indexes0[stack0[q] as int]->0 < next,
        forall|f: int| 0 <= f < frames0.len() ==> (#[trigger] frames0[f]).0 < indexes0.len() && indexes0[frames0[f].0 as int] is Some
            && frames0[f].1 <= frame_arcs0[f]@.len(),
        forall|a: ArcRef| #[trigger] nb_arcs@.contains(a) <==> is_traversal_arc(g.spec_endpoints(), g.spec_kind(), nb as int, TraversalDirection::Out, a),
    ensures
        closure_inv(g, indexes0.update(nb as int, Some(next)), lowlinks0.update(nb as int, next), stack0.push(nb),
            on_stack0.update(nb as int, true), components, frames0.push((nb, 0usize)), frame_arcs0.push(nb_arcs)),
{
    let indexes = indexes0.update(nb as int, Some(next));
    let lowlinks = lowlinks0.update(nb as int, next);
    let stack = stack0.push(nb);
    let on_stack = on_stack0.update(nb as int, true);
    let frames = frames0.push((nb, 0usize));
    let frame_arcs = frame_arcs0.push(nb_arcs);
    lemma_heads_push(frames0, (nb, 0usize));
    assert(frame_arcs_exact(g, frames, frame_arcs)) by {
        reveal(frame_arcs_exact);
        assert forall|f: int, a: ArcRef| 0 <= f < frames.len() implies (#[trigger] frame_arcs[f]@.contains(a)
            <==> is_traversal_arc(g.spec_endpoints(), g.spec_kind(), frames[f].0 as int, TraversalDirection::Out, a)) by {
            if f < frames0.len() {
                assert(frame_arcs[f] == frame_arcs0[f]);
                assert(frames[f] == frames0[f]);
            }
        }
    }
    assert(finished_respect(g, indexes, lowlinks, stack, on_stack, frames)) by {
        reveal(finished_respect);
        assert forall|q: int, a: ArcRef|
            0 <= q < stack.len() && !heads_frame(frames, stack[q])
                && #[trigger] is_traversal_arc(g.spec_endpoints(), g.spec_kind(), stack[q] as int, TraversalDirection::Out, a)
                implies respects_low(indexes, on_stack, a.neighbor, lowlinks[stack[q] as int]) by {
            assert(q < stack0.len());
            assert(stack[q] == stack0[q]);
            assert(respects_low(indexes0, on_stack0, a.neighbor, lowlinks0[stack0[q] as int]));
        }
    }
    assert(scanned_respect(indexes, lowlinks, on_stack, frames, frame_arcs)) by {
        reveal(scanned_respect);
        assert forall|f: int, j: int| 0 <= f < frames.len() && 0 <= j < frames[f].1
            implies respects_low(indexes, on_stack, (#[trigger] frame_arcs[f]@[j]).neighbor, lowlinks[frames[f].0 as int]) by {
            assert(f < frames0.len());
            assert(frames[f] == frames0[f] && frame_arcs[f] == frame_arcs0[f]);
            assert(respects_low(indexes0, on_stack0, frame_arcs0[f]@[j].neighbor, lowlinks0[frames0[f].0 as int]));
            reveal(frame_arcs_exact);
            assert(frame_arcs0[f]@.contains(frame_arcs0[f]@[j]));
        }
    }
    assert(ranges_ordered(indexes, lowlinks, stack, frames)) by {
        reveal(ranges_ordered);
        assert forall|f: int, q: int|
            0 <= f < frames.len() && 0 <= q < stack.len() && !heads_frame(frames, stack[q])
                && indexes[(#[trigger] frames[f]).0 as int]->0 < indexes[(#[trigger] stack[q]) as int]->0
                && (f == frames.len() - 1 || indexes[stack[q] as int]->0 < indexes[frames[f + 1].0 as int]->0)
                implies lowlinks[frames[f].0 as int] <= lowlinks[stack[q] as int] by {
            assert(q < stack0.len());
            assert(stack[q] == stack0[q]);
            if f < frames0.len() {
                assert(frames[f] == frames0[f]);
                if f < frames0.len() - 1 {
                    assert(frames[f + 1] == frames0[f + 1]);
                }
            }
        }
    }
}

/// Closing the top frame: its node's arcs are all examined, and its low link
/// passes down to the frame below.
#[verifier::rlimit(40)]
proof fn lemma_closure_finish(
    g: Graph,
    indexes: Seq<Option<usize>>,
    lowlinks0: Seq<usize>,
    stack: Seq<usize>,
    on_stack: Seq<bool>,
    components: Seq<Vec<usize>>,
    frames0: Seq<(usize, usize)>,
    frame_arcs0: Seq<Vec<ArcRef>>,
    lowlinks: Seq<usize>,
)
    requires
        closure_inv(g, indexes, lowlinks0, stack, on_stack, components, frames0, frame_arcs0),
        frames0.len() > 0,
        frame_arcs0.len() == frames0.len(),
        frames0.last().1 == frame_arcs0.last()@.len(),
        frames0.last().0 < lowlinks0.len(),
        stack.contains(frames0.last().0),
        forall|q: int| 0 <= q < stack.len() ==> #[trigger] stack[q] < lowlinks0.len(),
        forall|f: int| 0 <= f < frames0.len() ==> (#[trigger] frames0[f]).0 < lowlinks0.len(),
        forall|q: int| 0 <= q < stack.len() ==> indexes[#[trigger] stack[q] as int] is Some,
        forall|p: int, q: int| 0 <= p < q < stack.len() ==> indexes[#[trigger] stack[p] as int]->0 < indexes[#[trigger] stack[q] as int]->0,
        forall|f: int, h: int| 0 <= f < h < frames0.len() ==> indexes[(#[trigger] frames0[f]).0 as int]->0 < indexes[(#[trigger] frames0[h]).0 as int]->0,
        frames0.len() > 1 ==> {
            let node = frames0.last().0;
            let parent = frames0[frames0.len() - 2].0;
            &&& parent < lowlinks0.len()
            &&& lowlinks == lowlinks0.update(parent as int,
                if lowlinks0[node as int] < lowlinks0[parent as int] { lowlinks0[node as int] } else { lowlinks0[parent as int] })
        },
        frames0.len() == 1 ==> lowlinks == lowlinks0,
    ensures
        closure_inv(g, indexes, lowlinks, stack, on_stack, components, frames0.drop_last(), frame_arcs0.drop_last()),
        lowlinks[frames0.last().0 as int] == lowlinks0[frames0.last().0 as int],
        forall|q: int| 0 <= q < stack.len() && indexes[frames0.last().0 as int]->0 < indexes[#[trigger] stack[q] as int]->0
            ==> lowlinks[frames0.last().0 as int] <= lowlinks[stack[q] as int],
{
    let top = frames0.len() - 1;
    let node = frames0[top].0;
    let frames = frames0.drop_last();
    let frame_arcs = frame_arcs0.drop_last();
    lemma_heads_pop(frames0, indexes);
    let r = choose|r: int| 0 <= r < stack.len() && stack[r] == node;
    // the other frame heads were discovered before `node`
    assert forall|f: int| 0 <= f < top implies indexes[(#[trigger] frames0[f]).0 as int]->0 < indexes[node as int]->0 by {}
    assert forall|x: usize| #[trigger] heads_frame(frames0, x) ==> x == node || indexes[x as int]->0 < indexes[node as int]->0 by {
        if heads_frame(frames0, x) {
            let h = choose|h: int| 0 <= h < frames0.len() && #[trigger] frames0[h].0 == x;
            if h < top {
                assert(indexes[frames0[h].0 as int]->0 < indexes[frames0[top].0 as int]->0);
            }
        }
    }
    // low links move only at the parent, itself a remaining head
    assert forall|y: usize| y < lowlinks0.len() && !heads_frame(frames, y) implies #[trigger] lowlinks[y as int] == lowlinks0[y as int] by {
        if frames0.len() > 1 {
            assert(frames[top - 1].0 == frames0[top - 1].0);
            assert(heads_frame(frames, frames0[top - 1].0));
        }
    }
    assert(lowlinks[node as int] == lowlinks0[node as int]) by {
        if frames0.len() > 1 {
            assert(indexes[frames0[top - 1].0 as int]->0 < indexes[frames0[top].0 as int]->0);
        }
    }
    assert forall|x: usize| x < lowlinks0.len() && #[trigger] heads_frame(frames, x) implies lowlinks[x as int] <= lowlinks0[x as int] by {}
    assert(frame_arcs_exact(g, frames, frame_arcs)) by {
        reveal(frame_arcs_exact);
        assert forall|f: int, a: ArcRef| 0 <= f < frames.len() implies (#[trigger] frame_arcs[f]@.contains(a)
            <==> is_traversal_arc(g.spec_endpoints(), g.spec_kind(), frames[f].0 as int, TraversalDirection::Out, a)) by {
            assert(frame_arcs[f] == frame_arcs0[f]);
            assert(frames[f] == frames0[f]);
        }
    }
    assert(finished_respect(g, indexes, lowlinks, stack, on_stack, frames)) by {
        reveal(finished_respect);
        reveal(frame_arcs_exact);
        reveal(scanned_respect);
        assert forall|q: int, a: ArcRef|
            0 <= q < stack.len() && !heads_frame(frames, stack[q])
                && #[trigger] is_traversal_arc(g.spec_endpoints(), g.spec_kind(), stack[q] as int, TraversalDirection::Out, a)
                implies respects_low(indexes, on_stack, a.neighbor, lowlinks[stack[q] as int]) by {
            assert(lowlinks[stack[q] as int] == lowlinks0[stack[q] as int]);
            if stack[q] == node {
                assert(frame_arcs0[top]@.contains(a));
                let j = choose|j: int| 0 <= j < frame_arcs0[top]@.len() && frame_arcs0[top]@[j] == a;
                assert(respects_low(indexes, on_stack, frame_arcs0[top]@[j].neighbor, lowlinks0[frames0[top].0 as int]));
            }
        }
    }
    assert(scanned_respect(indexes, lowlinks, on_stack, frames, frame_arcs)) by {
        reveal(scanned_respect);
        assert forall|f: int, j: int| 0 <= f < frames.len() && 0 <= j < frames[f].1
            implies respects_low(indexes, on_stack, (#[trigger] frame_arcs[f]@[j]).neighbor, lowlinks[frames[f].0 as int]) by {
            assert(frames[f] == frames0[f] && frame_arcs[f] == frame_arcs0[f]);
            assert(respects_low(indexes, on_stack, frame_arcs0[f]@[j].neighbor, lowlinks0[frames0[f].0 as int]));
            assert(heads_frame(frames, frames[f].0));
        }
    }
    assert(ranges_ordered(indexes, lowlinks, stack, frames)) by {
        reveal(ranges_ordered);
        assert forall|f: int, q: int|
            0 <= f < frames.len() && 0 <= q < stack.len() && !heads_frame(frames, stack[q])
                && indexes[(#[trigger] frames[f]).0 as int]->0 < indexes[(#[trigger] stack[q]) as int]->0
                && (f == frames.len() - 1 || indexes[stack[q] as int]->0 < indexes[frames[f + 1].0 as int]->0)
                implies lowlinks[frames[f].0 as int] <= lowlinks[stack[q] as int] by {
            let y = stack[q];
            assert(frames[f] == frames0[f]);
            assert(heads_frame(frames, frames[f].0));
            assert(lowlinks[y as int] == lowlinks0[y as int]);
            if f < frames.len() - 1 {
                assert(frames[f + 1] == frames0[f + 1]);
                assert(indexes[frames0[f + 1].0 as int]->0 < indexes[frames0[top].0 as int]->0);
                assert(y != node);
                assert(!heads_frame(frames0, y));
                assert(lowlinks0[frames0[f].0 as int] <= lowlinks0[y as int]);
            } else if y != node {
                assert(!heads_frame(frames0, y));
                if q < r {
                    assert(indexes[y as int]->0 < indexes[stack[r] as int]->0);
                    assert(lowlinks0[frames0[f].0 as int] <= lowlinks0[y as int]);
                } else {
                    assert(q != r);
                    assert(indexes[stack[r] as int]->0 < indexes[y as int]->0);
                    assert(lowlinks0[frames0[top].0 as int] <= lowlinks0[y as int]);
                }
            }
        }
    }
    assert forall|q: int| 0 <= q < stack.len() && indexes[node as int]->0 < indexes[#[trigger] stack[q] as int]->0
        implies lowlinks[node as int] <= lowlinks[stack[q] as int] by {
        reveal(ranges_ordered);
        let y = stack[q];
        assert(!heads_frame(frames0, y));
        assert(!heads_frame(frames, y));
        assert(lowlinks0[frames0[top].0 as int] <= lowlinks0[y as int]);
    }
}

/// Emitting the top of the stack down to `node` as a component: every arc
/// out of it leads into it or into a component emitted before.
#[verifier::rlimit(40)]
proof fn lemma_closure_emit(
    g: Graph,
    indexes: Seq<Option<usize>>,
    lowlinks: Seq<usize>,
    stack0: Seq<usize>,
    on_stack0: Seq<bool>,
    components0: Seq<Vec<usize>>,
    frames: Seq<(usize, usize)>,
    frame_arcs: Seq<Vec<ArcRef>>,
    pn: int,
    on_stack: Seq<bool>,
    comp: Seq<usize>,
    sorted: Vec<usize>,
)
    requires
        closure_inv(g, indexes, lowlinks, stack0, on_stack0, components0, frames, frame_arcs),
        arcs_in_range(g, on_stack0.len() as int),
        on_stack.len() == on_stack0.len(),
        0 <= pn < stack0.len(),
        indexes[stack0[pn] as int] is Some,
        lowlinks[stack0[pn] as int] == indexes[stack0[pn] as int]->0,
        forall|q: int| 0 <= q < stack0.len() ==> indexes[#[trigger] stack0[q] as int] is Some,
        forall|q: int| 0 <= q < stack0.len() && indexes[stack0[pn] as int]->0 < indexes[#[trigger] stack0[q] as int]->0
            ==> lowlinks[stack0[pn] as int] <= lowlinks[stack0[q] as int],
        forall|f: int| 0 <= f < frames.len() ==> indexes[(#[trigger] frames[f]).0 as int]->0 < indexes[stack0[pn] as int]->0,
        forall|f: int| 0 <= f < frames.len() ==> (#[trigger] frames[f]).1 <= frame_arcs[f]@.len(),
        forall|p: int, q: int| 0 <= p < q < stack0.len() ==> indexes[#[trigger] stack0[p] as int]->0 < indexes[#[trigger] stack0[q] as int]->0,
        forall|w: int| 0 <= w < on_stack0.len() && #[trigger] on_stack0[w] ==> stack0.contains(w as usize),
        forall|w: int| 0 <= w < on_stack0.len() && (#[trigger] indexes[w]) is Some && !on_stack0[w] ==> covered(components0, w),
        comp.len() == stack0.len() - pn,
        forall|i: int| 0 <= i < comp.len() ==> #[trigger] comp[i] == stack0[stack0.len() - 1 - i],
        forall|w: int| 0 <= w < on_stack.len() ==> #[trigger] on_stack[w] == (on_stack0[w] && !comp.contains(w as usize)),
        forall|x: usize| sorted@.contains(x) <==> comp.contains(x),
    ensures
        closure_inv(g, indexes, lowlinks, stack0.take(pn), on_stack, components0.push(sorted), frames, frame_arcs),
{
    let n = on_stack0.len() as int;
    let node = stack0[pn];
    let stack = stack0.take(pn);
    let components = components0.push(sorted);
    // members of the component are the stack from `pn` up, none of them a frame head
    assert forall|x: usize| #[trigger] comp.contains(x) ==> exists|q: int| pn <= q < stack0.len() && stack0[q] == x by {
        if comp.contains(x) {
            let i = choose|i: int| 0 <= i < comp.len() && comp[i] == x;
            assert(stack0[stack0.len() - 1 - i] == x);
        }
    }
    assert forall|q: int| pn <= q < stack0.len() implies comp.contains(#[trigger] stack0[q]) by {
        assert(comp[stack0.len() - 1 - q] == stack0[q]);
    }
    assert forall|q: int| pn <= q < stack0.len() implies !heads_frame(frames, #[trigger] stack0[q]) by {
        if heads_frame(frames, stack0[q]) {
            let f = choose|f: int| 0 <= f < frames.len() && #[trigger] frames[f].0 == stack0[q];
            if q > pn {
                assert(indexes[stack0[pn] as int]->0 < indexes[stack0[q] as int]->0);
            }
        }
    }
    assert forall|t: usize| t < n && on_stack[t as int] implies #[trigger] on_stack0[t as int] by {}
    assert(emitted_closed(g, components)) by {
        reveal(emitted_closed);
        reveal(finished_respect);
        assert forall|i: int, p: int, a: ArcRef|
            0 <= i < components.len() && 0 <= p < components[i]@.len()
                && #[trigger] is_traversal_arc(g.spec_endpoints(), g.spec_kind(), components[i]@[p] as int, TraversalDirection::Out, a)
                implies exists|j: int| 0 <= j <= i && #[trigger] components[j]@.contains(a.neighbor) by {
            let t = a.neighbor;
            if i < components0.len() {
                assert(components[i] == components0[i]);
                let j = choose|j: int| 0 <= j <= i && #[trigger] components0[j]@.contains(t);
                assert(components[j] == components0[j]);
            } else {
                let x = sorted@[p];
                assert(components[i] == sorted);
                assert(sorted@.contains(x));
                assert(comp.contains(x));
                let q = choose|q: int| pn <= q < stack0.len() && stack0[q] == x;
                assert(!heads_frame(frames, stack0[q]));
                assert(respects_low(indexes, on_stack0, t, lowlinks[stack0[q] as int]));
                assert(t < n);
                if on_stack0[t as int] {
                    assert(stack0.contains(t));
                    let r = choose|r: int| 0 <= r < stack0.len() && stack0[r] == t;
                    if q > pn {
                        assert(indexes[stack0[pn] as int]->0 < indexes[stack0[q] as int]->0);
                    }
                    assert(indexes[t as int]->0 >= indexes[node as int]->0);
                    if r < pn {
                        assert(indexes[stack0[r] as int]->0 < indexes[stack0[pn] as int]->0);
                    }
                    assert(comp.contains(stack0[r]));
                    assert(components[i]@.contains(t));
                } else {
                    assert(covered(components0, t as int));
                    let (j, s) = choose|j: int, s: int| 0 <= j < components0.len() && 0 <= s < components0[j]@.len() && #[trigger] components0[j]@[s] == t as int;
                    assert(components[j] == components0[j]);
                    assert(components[j]@[s] == t);
                    assert(components[j]@.contains(t));
                }
            }
        }
    }
    assert(finished_respect(g, indexes, lowlinks, stack, on_stack, frames)) by {
        reveal(finished_respect);
        assert forall|q: int, a: ArcRef|
            0 <= q < stack.len() && !heads_frame(frames, stack[q])
                && #[trigger] is_traversal_arc(g.spec_endpoints(), g.spec_kind(), stack[q] as int, TraversalDirection::Out, a)
                implies respects_low(indexes, on_stack, a.neighbor, lowlinks[stack[q] as int]) by {
            assert(stack[q] == stack0[q]);
            assert(respects_low(indexes, on_stack0, a.neighbor, lowlinks[stack0[q] as int]));
            assert(a.neighbor < n);
        }
    }
    assert(scanned_respect(indexes, lowlinks, on_stack, frames, frame_arcs)) by {
        reveal(scanned_respect);
        reveal(frame_arcs_exact);
        assert forall|f: int, j: int| 0 <= f < frames.len() && 0 <= j < frames[f].1
            implies respects_low(indexes, on_stack, (#[trigger] frame_arcs[f]@[j]).neighbor, lowlinks[frames[f].0 as int]) by {
            let a = frame_arcs[f]@[j];
            assert(frame_arcs[f]@.contains(a));
            assert(a.neighbor < n);
        }
    }
    assert(ranges_ordered(indexes, lowlinks, stack, frames)) by {
        reveal(ranges_ordered);
        assert forall|f: int, q: int|
            0 <= f < frames.len() && 0 <= q < stack.len() && !heads_frame(frames, stack[q])
                && indexes[(#[trigger] frames[f]).0 as int]->0 < indexes[(#[trigger] stack[q]) as int]->0
                && (f == frames.len() - 1 || indexes[stack[q] as int]->0 < indexes[frames[f + 1].0 as int]->0)
                implies lowlinks[frames[f].0 as int] <= lowlinks[stack[q] as int] by {
            assert(stack[q] == stack0[q]);
        }
    }
}

/// Each active frame's node reaches every stacked node discovered since the
/// frame opened.
#[verifier::opaque]
spec fn tree_reach(g: Graph, indexes: Seq<Option<usize>>, stack: Seq<usize>, frames: Seq<(usize, usize)>) -> bool {
    forall|f: int, q: int|
        0 <= f < frames.len() && 0 <= q < stack.len()
            && indexes[(#[trigger] frames[f]).0 as int]->0 <= indexes[(#[trigger] stack[q]) as int]->0
            ==> reaches(g, frames[f].0, stack[q])
}

/// The stacked node at position `q` reaches a stacked node whose index is
/// its low link.
spec fn low_witness_at(g: Graph, indexes: Seq<Option<usize>>, lowlinks: Seq<usize>, stack: Seq<usize>, q: int) -> bool {
    exists|r: int| 0 <= r < stack.len() && indexes[stack[r] as int]->0 == lowlinks[stack[q] as int] && #[trigger] reaches(g, stack[q], stack[r])
}

/// Every stacked node reaches a stacked node whose index is its low link.
#[verifier::opaque]
spec fn low_witnessed(g: Graph, indexes: Seq<Option<usize>>, lowlinks: Seq<usize>, stack: Seq<usize>) -> bool {
    forall|q: int| 0 <= q < stack.len() ==> #[trigger] low_witness_at(g, indexes, lowlinks, stack, q)
}

/// Every closed stacked node has a low link below its own index.
#[verifier::opaque]
spec fn finished_low(indexes: Seq<Option<usize>>, lowlinks: Seq<usize>, stack: Seq<usize>, frames: Seq<(usize, usize)>) -> bool {
    forall|q: int| 0 <= q < stack.len() && !heads_frame(frames, #[trigger] stack[q])
        ==> lowlinks[stack[q] as int] < indexes[stack[q] as int]->0
}

/// Every closed stacked node other than `x` has a low link below its own
/// index.
#[verifier::opaque]
spec fn finished_low_but(indexes: Seq<Option<usize>>, lowlinks: Seq<usize>, stack: Seq<usize>, frames: Seq<(usize, usize)>, x: usize) -> bool {
    forall|q: int| 0 <= q < stack.len() && !heads_frame(frames, #[trigger] stack[q]) && stack[q] != x
        ==> lowlinks[stack[q] as int] < indexes[stack[q] as int]->0
}

/// The members of each emitted component reach one another.
#[verifier::opaque]
spec fn emitted_strong(g: Graph, components: Seq<Vec<usize>>) -> bool {
    forall|i: int, p: int, q: int|
        0 <= i < components.len() && 0 <= p < components[i]@.len() && 0 <= q < components[i]@.len()
            ==> reaches(g, #[trigger] components[i]@[p], #[trigger] components[i]@[q])
}

/// What the search knows about which nodes reach which.
spec fn reach_inv(
    g: Graph,
    indexes: Seq<Option<usize>>,
    lowlinks: Seq<usize>,
    stack: Seq<usize>,
    frames: Seq<(usize, usize)>,
    components: Seq<Vec<usize>>,
) -> bool {
    &&& tree_reach(g, indexes, stack, frames)
    &&& low_witnessed(g, indexes, lowlinks, stack)
    &&& emitted_strong(g, components)
}

/// No component is emitted before the first search.
proof fn lemma_reach_start(g: Graph)
    ensures
        emitted_strong(g, Seq::empty()),
{
    reveal(emitted_strong);
}

/// Starting a search from a fresh root.
proof fn lemma_reach_root(
    g: Graph,
    indexes: Seq<Option<usize>>,
    lowlinks: Seq<usize>,
    components: Seq<Vec<usize>>,
    root: usize,
    frames: Seq<(usize, usize)>,
)
    requires
        emitted_strong(g, components),
        frames == seq![(root, 0usize)],
        lowlinks[root as int] == indexes[root as int]->0,
    ensures
        reach_inv(g, indexes, lowlinks, seq![root], frames, components),
        finished_low(indexes, lowlinks, seq![root], frames),
{
    let stack = seq![root];
    lemma_reaches_refl(g, root);
    assert(heads_frame(frames, root)) by {
        assert(frames[0].0 == root);
    }
    assert(tree_reach(g, indexes, stack, frames)) by {
        reveal(tree_reach);
    }
    assert(low_witnessed(g, indexes, lowlinks, stack)) by {
        reveal(low_witnessed);
        assert(low_witness_at(g, indexes, lowlinks, stack, 0)) by {
            assert(reaches(g, stack[0], stack[0]));
        }
    }
    assert(finished_low(indexes, lowlinks, stack, frames)) by {
        reveal(finished_low);
    }
}

/// Lowering the low link of a frame's node to the index of a stacked node it
/// reaches keeps what is known.
proof fn lemma_reach_lower(
    g: Graph,
    indexes: Seq<Option<usize>>,
    lowlinks0: Seq<usize>,
    stack: Seq<usize>,
    frames: Seq<(usize, usize)>,
    components: Seq<Vec<usize>>,
    x: usize,
    low: usize,
    r: int,
)
    requires
        reach_inv(g, indexes, lowlinks0, stack, frames, components),
        finished_low(indexes, lowlinks0, stack, frames),
        heads_frame(frames, x),
        x < lowlinks0.len(),
        forall|q: int| 0 <= q < stack.len() ==> #[trigger] stack[q] < lowlinks0.len(),
        low == lowlinks0[x as int] || (0 <= r < stack.len() && indexes[stack[r] as int]->0 == low && reaches(g, x, stack[r])),
    ensures
        reach_inv(g, indexes, lowlinks0.update(x as int, low), stack, frames, components),
        finished_low(indexes, lowlinks0.update(x as int, low), stack, frames),
{
    let lowlinks = lowlinks0.update(x as int, low);
    assert(low_witnessed(g, indexes, lowlinks, stack)) by {
        reveal(low_witnessed);
        assert forall|q: int| 0 <= q < stack.len() implies #[trigger] low_witness_at(g, indexes, lowlinks, stack, q) by {
            if stack[q] == x && low != lowlinks0[x as int] {
                assert(reaches(g, stack[q], stack[r]));
            } else {
                assert(low_witness_at(g, indexes, lowlinks0, stack, q));
                let w = choose|w: int| 0 <= w < stack.len() && indexes[stack[w] as int]->0 == lowlinks0[stack[q] as int] && #[trigger] reaches(g, stack[q], stack[w]);
                assert(reaches(g, stack[q], stack[w]));
            }
        }
    }
    assert(finished_low(indexes, lowlinks, stack, frames)) by {
        reveal(finished_low);
    }
}

/// Moving a frame's scan position keeps what is known.
proof fn lemma_reach_advance(
    g: Graph,
    indexes: Seq<Option<usize>>,
    lowlinks: Seq<usize>,
    stack: Seq<usize>,
    frames0: Seq<(usize, usize)>,
    components: Seq<Vec<usize>>,
    f: int,
)
    requires
        reach_inv(g, indexes, lowlinks, stack, frames0, components),
        finished_low(indexes, lowlinks, stack, frames0),
        0 <= f < frames0.len(),
    ensures
        reach_inv(g, indexes, lowlinks, stack, frames0.update(f, (frames0[f].0, (frames0[f].1 + 1) as usize)), components),
        finished_low(indexes, lowlinks, stack, frames0.update(f, (frames0[f].0, (frames0[f].1 + 1) as usize))),
{
    let frames = frames0.update(f, (frames0[f].0, (frames0[f].1 + 1) as usize));
    lemma_heads_advance(frames0, f, (frames0[f].1 + 1) as usize);
    assert(tree_reach(g, indexes, stack, frames)) by {
        reveal(tree_reach);
        assert forall|h: int, q: int|
            0 <= h < frames.len() && 0 <= q < stack.len()
                && indexes[(#[trigger] frames[h]).0 as int]->0 <= indexes[(#[trigger] stack[q]) as int]->0
                implies reaches(g, frames[h].0, stack[q]) by {
            assert(frames[h].0 == frames0[h].0);
        }
    }
    assert(finished_low(indexes, lowlinks, stack, frames)) by {
        reveal(finished_low);
    }
}

/// A frame's arc is an arc out of the frame's node.
proof fn lemma_frame_arc_step(g: Graph, frames: Seq<(usize, usize)>, frame_arcs: Seq<Vec<ArcRef>>, f: int, a: ArcRef)
    requires
        frame_arcs_exact(g, frames, frame_arcs),
        0 <= f < frames.len(),
        frame_arcs[f]@.contains(a),
    ensures
        out_step(g, frames[f].0, a.neighbor, a.edge),
{
    reveal(frame_arcs_exact);
    assert(ArcRef { neighbor: a.neighbor, edge: a.edge } == a);
}

/// Opening an unvisited node reached by an arc of the top frame.
#[verifier::rlimit(30)]
proof fn lemma_reach_open(
    g: Graph,
    indexes0: Seq<Option<usize>>,
    lowlinks0: Seq<usize>,
    stack0: Seq<usize>,
    frames0: Seq<(usize, usize)>,
    components: Seq<Vec<usize>>,
    nb: usize,
    next: usize,
    e: usize,
)
    requires
        reach_inv(g, indexes0, lowlinks0, stack0, frames0, components),
        finished_low(indexes0, lowlinks0, stack0, frames0),
        frames0.len() > 0,
        out_step(g, frames0.last().0, nb, e),
        stack0.contains(frames0.last().0),
        forall|f: int| 0 <= f < frames0.len() ==> indexes0[(#[trigger] frames0[f]).0 as int]->0 <= indexes0[frames0.last().0 as int]->0,
        nb < indexes0.len(),
        lowlinks0.len() == indexes0.len(),
        indexes0[nb as int] is None,
        forall|q: int| 0 <= q < stack0.len() ==> #[trigger] stack0[q] < indexes0.len() && indexes0[stack0[q] as int] is Some
            && indexes0[stack0[q] as int]->0 < next,
        forall|f: int| 0 <= f < frames0.len() ==> (#[trigger] frames0[f]).0 < indexes0.len() && indexes0[frames0[f].0 as int] is Some,
    ensures
        reach_inv(g, indexes0.update(nb as int, Some(next)), lowlinks0.update(nb as int, next), stack0.push(nb),
            frames0.push((nb, 0usize)), components),
        finished_low(indexes0.update(nb as int, Some(next)), lowlinks0.update(nb as int, next), stack0.push(nb), frames0.push((nb, 0usize))),
{
    let indexes = indexes0.update(nb as int, Some(next));
    let lowlinks = lowlinks0.update(nb as int, next);
    let stack = stack0.push(nb);
    let frames = frames0.push((nb, 0usize));
    let node = frames0.last().0;
    let top = frames0.len() - 1;
    let qn = choose|q: int| 0 <= q < stack0.len() && stack0[q] == node;
    lemma_heads_push(frames0, (nb, 0usize));
    lemma_reaches_refl(g, nb);
    assert(tree_reach(g, indexes, stack, frames)) by {
        reveal(tree_reach);
        assert forall|f: int, q: int|
            0 <= f < frames.len() && 0 <= q < stack.len()
                && indexes[(#[trigger] frames[f]).0 as int]->0 <= indexes[(#[trigger] stack[q]) as int]->0
                implies reaches(g, frames[f].0, stack[q]) by {
            if q == stack0.len() {
                if f < frames0.len() {
                    assert(frames[f] == frames0[f]);
                    assert(indexes0[frames0[f].0 as int]->0 <= indexes0[stack0[qn] as int]->0);
                    assert(reaches(g, frames0[f].0, stack0[qn]));
                    lemma_reaches_step(g, frames0[f].0, node, nb, e);
                }
            } else {
                assert(stack[q] == stack0[q]);
                if f < frames0.len() {
                    assert(frames[f] == frames0[f]);
                    assert(reaches(g, frames0[f].0, stack0[q]));
                }
            }
        }
    }
    assert(low_witnessed(g, indexes, lowlinks, stack)) by {
        reveal(low_witnessed);
        assert forall|q: int| 0 <= q < stack.len() implies #[trigger] low_witness_at(g, indexes, lowlinks, stack, q) by {
            if q == stack0.len() {
                assert(reaches(g, stack[q], stack[q]));
            } else {
                assert(stack[q] == stack0[q]);
                assert(low_witness_at(g, indexes0, lowlinks0, stack0, q));
                let w = choose|w: int| 0 <= w < stack0.len() && indexes0[stack0[w] as int]->0 == lowlinks0[stack0[q] as int] && #[trigger] reaches(g, stack0[q], stack0[w]);
                assert(stack[w] == stack0[w]);
                assert(reaches(g, stack[q], stack[w]));
            }
        }
    }
    assert(finished_low(indexes, lowlinks, stack, frames)) by {
        reveal(finished_low);
        assert forall|q: int| 0 <= q < stack.len() && !heads_frame(frames, #[trigger] stack[q])
            implies lowlinks[stack[q] as int] < indexes[stack[q] as int]->0 by {
            assert(q < stack0.len());
            assert(stack[q] == stack0[q]);
        }
    }
}

/// Closing the top frame: its node reaches everything stacked since, and the
/// frame below inherits its low link together with a witness.
#[verifier::rlimit(30)]
proof fn lemma_reach_finish(
    g: Graph,
    indexes: Seq<Option<usize>>,
    lowlinks0: Seq<usize>,
    stack: Seq<usize>,
    frames0: Seq<(usize, usize)>,
    components: Seq<Vec<usize>>,
    lowlinks: Seq<usize>,
)
    requires
        reach_inv(g, indexes, lowlinks0, stack, frames0, components),
        finished_low(indexes, lowlinks0, stack, frames0),
        frames0.len() > 0,
        stack.contains(frames0.last().0),
        frames0.last().0 < lowlinks0.len(),
        forall|q: int| 0 <= q < stack.len() ==> #[trigger] stack[q] < lowlinks0.len(),
        forall|f: int| 0 <= f < frames0.len() ==> (#[trigger] frames0[f]).0 < lowlinks0.len(),
        forall|f: int, h: int| 0 <= f < h < frames0.len() ==> indexes[(#[trigger] frames0[f]).0 as int]->0 < indexes[(#[trigger] frames0[h]).0 as int]->0,
        frames0.len() > 1 ==> {
            let node = frames0.last().0;
            let parent = frames0[frames0.len() - 2].0;
            &&& lowlinks == lowlinks0.update(parent as int,
                if lowlinks0[node as int] < lowlinks0[parent as int] { lowlinks0[node as int] } else { lowlinks0[parent as int] })
        },
        frames0.len() == 1 ==> lowlinks == lowlinks0,
    ensures
        reach_inv(g, indexes, lowlinks, stack, frames0.drop_last(), components),
        finished_low_but(indexes, lowlinks, stack, frames0.drop_last(), frames0.last().0),
        forall|q: int| 0 <= q < stack.len() && indexes[frames0.last().0 as int]->0 <= indexes[#[trigger] stack[q] as int]->0
            ==> reaches(g, frames0.last().0, stack[q]),
{
    let top = frames0.len() - 1;
    let node = frames0[top].0;
    let frames = frames0.drop_last();
    lemma_heads_pop(frames0, indexes);
    let qn = choose|q: int| 0 <= q < stack.len() && stack[q] == node;
    assert forall|q: int| 0 <= q < stack.len() && indexes[node as int]->0 <= indexes[#[trigger] stack[q] as int]->0
        implies reaches(g, node, stack[q]) by {
        reveal(tree_reach);
        assert(frames0[top].0 == node);
    }
    assert(tree_reach(g, indexes, stack, frames)) by {
        reveal(tree_reach);
        assert forall|f: int, q: int|
            0 <= f < frames.len() && 0 <= q < stack.len()
                && indexes[(#[trigger] frames[f]).0 as int]->0 <= indexes[(#[trigger] stack[q]) as int]->0
                implies reaches(g, frames[f].0, stack[q]) by {
            assert(frames[f] == frames0[f]);
        }
    }
    assert(low_witnessed(g, indexes, lowlinks, stack)) by {
        reveal(low_witnessed);
        assert forall|q: int| 0 <= q < stack.len() implies #[trigger] low_witness_at(g, indexes, lowlinks, stack, q) by {
            if frames0.len() > 1 && stack[q] == frames0[top - 1].0 && lowlinks0[node as int] < lowlinks0[frames0[top - 1].0 as int] {
                let parent = frames0[top - 1].0;
                assert(low_witness_at(g, indexes, lowlinks0, stack, qn));
                let w = choose|w: int| 0 <= w < stack.len() && indexes[stack[w] as int]->0 == lowlinks0[stack[qn] as int] && #[trigger] reaches(g, stack[qn], stack[w]);
                assert(indexes[frames0[top - 1].0 as int]->0 < indexes[frames0[top].0 as int]->0);
                assert(reaches(g, parent, node)) by {
                    reveal(tree_reach);
                    assert(reaches(g, frames0[top - 1].0, stack[qn]));
                }
                lemma_reaches_trans(g, parent, node, stack[w]);
                assert(reaches(g, stack[q], stack[w]));
            } else {
                assert(lowlinks[stack[q] as int] == lowlinks0[stack[q] as int]);
                assert(low_witness_at(g, indexes, lowlinks0, stack, q));
                let w = choose|w: int| 0 <= w < stack.len() && indexes[stack[w] as int]->0 == lowlinks0[stack[q] as int] && #[trigger] reaches(g, stack[q], stack[w]);
                assert(reaches(g, stack[q], stack[w]));
            }
        }
    }
    assert(finished_low_but(indexes, lowlinks, stack, frames, node)) by {
        reveal(finished_low);
        reveal(finished_low_but);
        assert forall|q: int| 0 <= q < stack.len() && !heads_frame(frames, #[trigger] stack[q]) && stack[q] != node
            implies lowlinks[stack[q] as int] < indexes[stack[q] as int]->0 by {
            if frames0.len() > 1 {
                assert(frames[top - 1].0 == frames0[top - 1].0);
                assert(heads_frame(frames, frames0[top - 1].0));
            }
            assert(lowlinks[stack[q] as int] == lowlinks0[stack[q] as int]);
        }
    }
}

/// A frame whose node keeps a low link below its index stays on the stack
/// as a closed node.
proof fn lemma_reach_keep(indexes: Seq<Option<usize>>, lowlinks: Seq<usize>, stack: Seq<usize>, frames: Seq<(usize, usize)>, x: usize)
    requires
        finished_low_but(indexes, lowlinks, stack, frames, x),
        lowlinks[x as int] < indexes[x as int]->0,
    ensures
        finished_low(indexes, lowlinks, stack, frames),
{
    reveal(finished_low);
    reveal(finished_low_but);
}

/// Every member of the stack from position `pn` up reaches the node at `pn`,
/// when that node's low link is its own index.
proof fn lemma_reach_down(
    g: Graph,
    indexes: Seq<Option<usize>>,
    lowlinks: Seq<usize>,
    stack0: Seq<usize>,
    frames: Seq<(usize, usize)>,
    pn: int,
    q: int,
)
    requires
        low_witnessed(g, indexes, lowlinks, stack0),
        finished_low_but(indexes, lowlinks, stack0, frames, stack0[pn]),
        0 <= pn <= q < stack0.len(),
        lowlinks[stack0[pn] as int] == indexes[stack0[pn] as int]->0,
        forall|p: int, s: int| 0 <= p < s < stack0.len() ==> indexes[#[trigger] stack0[p] as int]->0 < indexes[#[trigger] stack0[s] as int]->0,
        forall|s: int| 0 <= s < stack0.len() && indexes[stack0[pn] as int]->0 < indexes[#[trigger] stack0[s] as int]->0
            ==> lowlinks[stack0[pn] as int] <= lowlinks[stack0[s] as int],
        forall|f: int| 0 <= f < frames.len() ==> indexes[(#[trigger] frames[f]).0 as int]->0 < indexes[stack0[pn] as int]->0,
    ensures
        reaches(g, stack0[q], stack0[pn]),
    decreases q,
{
    if q == pn {
        lemma_reaches_refl(g, stack0[pn]);
    } else {
        let x = stack0[q];
        assert(indexes[stack0[pn] as int]->0 < indexes[stack0[q] as int]->0);
        assert(!heads_frame(frames, x)) by {
            if heads_frame(frames, x) {
                let f = choose|f: int| 0 <= f < frames.len() && #[trigger] frames[f].0 == x;
            }
        }
        assert(lowlinks[x as int] < indexes[x as int]->0) by {
            reveal(finished_low_but);
        }
        assert(low_witness_at(g, indexes, lowlinks, stack0, q)) by {
            reveal(low_witnessed);
        }
        let r = choose|r: int| 0 <= r < stack0.len() && indexes[stack0[r] as int]->0 == lowlinks[stack0[q] as int] && #[trigger] reaches(g, stack0[q], stack0[r]);
        if r < pn {
            assert(indexes[stack0[r] as int]->0 < indexes[stack0[pn] as int]->0);
        }
        if r >= q {
            if r > q {
                assert(indexes[stack0[q] as int]->0 < indexes[stack0[r] as int]->0);
            }
        }
        lemma_reach_down(g, indexes, lowlinks, stack0, frames, pn, r);
        lemma_reaches_trans(g, x, stack0[r], stack0[pn]);
    }
}

/// Emitting the top of the stack down to position `pn`: its members reach
/// one another.
#[verifier::rlimit(30)]
proof fn lemma_reach_emit(
    g: Graph,
    indexes: Seq<Option<usize>>,
    lowlinks: Seq<usize>,
    stack0: Seq<usize>,
    frames: Seq<(usize, usize)>,
    components0: Seq<Vec<usize>>,
    pn: int,
    comp: Seq<usize>,
    sorted: Vec<usize>,
)
    requires
        reach_inv(g, indexes, lowlinks, stack0, frames, components0),
        finished_low_but(indexes, lowlinks, stack0, frames, stack0[pn]),
        0 <= pn < stack0.len(),
        lowlinks[stack0[pn] as int] == indexes[stack0[pn] as int]->0,
        forall|q: int| 0 <= q < stack0.len() ==> lowlinks[#[trigger] stack0[q] as int] <= indexes[stack0[q] as int]->0,
        forall|p: int, s: int| 0 <= p < s < stack0.len() ==> indexes[#[trigger] stack0[p] as int]->0 < indexes[#[trigger] stack0[s] as int]->0,
        forall|s: int| 0 <= s < stack0.len() && indexes[stack0[pn] as int]->0 < indexes[#[trigger] stack0[s] as int]->0
            ==> lowlinks[stack0[pn] as int] <= lowlinks[stack0[s] as int],
        forall|s: int| 0 <= s < stack0.len() && indexes[stack0[pn] as int]->0 <= indexes[#[trigger] stack0[s] as int]->0
            ==> reaches(g, stack0[pn], stack0[s]),
        forall|f: int| 0 <= f < frames.len() ==> indexes[(#[trigger] frames[f]).0 as int]->0 < indexes[stack0[pn] as int]->0,
        comp.len() == stack0.len() - pn,
        forall|i: int| 0 <= i < comp.len() ==> #[trigger] comp[i] == stack0[stack0.len() - 1 - i],
        forall|x: usize| sorted@.contains(x) <==> comp.contains(x),
    ensures
        reach_inv(g, indexes, lowlinks, stack0.take(pn), frames, components0.push(sorted)),
        finished_low(indexes, lowlinks, stack0.take(pn), frames),
{
    let v = stack0[pn];
    let stack = stack0.take(pn);
    let components = components0.push(sorted);
    assert forall|x: usize| #[trigger] sorted@.contains(x) implies exists|q: int| pn <= q < stack0.len() && stack0[q] == x by {
        assert(comp.contains(x));
        let i = choose|i: int| 0 <= i < comp.len() && comp[i] == x;
        assert(stack0[stack0.len() - 1 - i] == x);
    }
    assert(tree_reach(g, indexes, stack, frames)) by {
        reveal(tree_reach);
        assert forall|f: int, q: int|
            0 <= f < frames.len() && 0 <= q < stack.len()
                && indexes[(#[trigger] frames[f]).0 as int]->0 <= indexes[(#[trigger] stack[q]) as int]->0
                implies reaches(g, frames[f].0, stack[q]) by {
            assert(stack[q] == stack0[q]);
        }
    }
    assert(low_witnessed(g, indexes, lowlinks, stack)) by {
        reveal(low_witnessed);
        assert forall|q: int| 0 <= q < stack.len() implies #[trigger] low_witness_at(g, indexes, lowlinks, stack, q) by {
            assert(stack[q] == stack0[q]);
            assert(low_witness_at(g, indexes, lowlinks, stack0, q));
            let w = choose|w: int| 0 <= w < stack0.len() && indexes[stack0[w] as int]->0 == lowlinks[stack0[q] as int] && #[trigger] reaches(g, stack0[q], stack0[w]);
            assert(indexes[stack0[q] as int]->0 < indexes[stack0[pn] as int]->0);
            if w >= pn {
                if w > pn {
                    assert(indexes[stack0[pn] as int]->0 < indexes[stack0[w] as int]->0);
                }
            }
            assert(stack[w] == stack0[w]);
            assert(reaches(g, stack[q], stack[w]));
        }
    }
    assert(finished_low(indexes, lowlinks, stack, frames)) by {
        reveal(finished_low);
        reveal(finished_low_but);
        assert forall|q: int| 0 <= q < stack.len() && !heads_frame(frames, #[trigger] stack[q])
            implies lowlinks[stack[q] as int] < indexes[stack[q] as int]->0 by {
            assert(stack[q] == stack0[q]);
            assert(indexes[stack0[q] as int]->0 < indexes[stack0[pn] as int]->0);
        }
    }
    assert(emitted_strong(g, components)) by {
        reveal(emitted_strong);
        assert forall|i: int, p: int, q: int|
            0 <= i < components.len() && 0 <= p < components[i]@.len() && 0 <= q < components[i]@.len()
                implies reaches(g, #[trigger] components[i]@[p], #[trigger] components[i]@[q]) by {
            if i < components0.len() {
                assert(components[i] == components0[i]);
            } else {
                assert(components[i] == sorted);
                assert(sorted@.contains(sorted@[p]));
                assert(sorted@.contains(sorted@[q]));
                let qx = choose|s: int| pn <= s < stack0.len() && stack0[s] == sorted@[p];
                let qy = choose|s: int| pn <= s < stack0.len() && stack0[s] == sorted@[q];
                reveal(low_witnessed);
                lemma_reach_down(g, indexes, lowlinks, stack0, frames, pn, qx);
                if qy > pn {
                    assert(indexes[stack0[pn] as int]->0 < indexes[stack0[qy] as int]->0);
                }
                assert(reaches(g, v, stack0[qy]));
                lemma_reaches_trans(g, stack0[qx], v, stack0[qy]);
            }
        }
    }
}

/// Node `v` lies in one of the first `i + 1` components.
spec fn in_component_upto(components: Seq<Vec<usize>>, v: usize, i: int) -> bool {
    exists|j: int| 0 <= j <= i && #[trigger] components[j]@.contains(v)
}

/// No node lies in two components.
spec fn members_unique(components: Seq<Vec<usize>>) -> bool {
    forall|i: int, p: int, j: int, q: int|
        0 <= i < components.len() && 0 <= p < components[i]@.len() && 0 <= j < components.len() && 0 <= q < components[j]@.len()
            && #[trigger] components[i]@[p] == #[trigger] components[j]@[q] ==> i == j && p == q
}

/// A node found in two components found them the same.
proof fn lemma_member_unique(components: Seq<Vec<usize>>, v: usize, a: int, b: int)
    requires
        members_unique(components),
        0 <= a < components.len(),
        0 <= b < components.len(),
        components[a]@.contains(v),
        components[b]@.contains(v),
    ensures
        a == b,
{
    let p = choose|p: int| 0 <= p < components[a]@.len() && components[a]@[p] == v;
    let q = choose|q: int| 0 <= q < components[b]@.len() && components[b]@[q] == v;
    assert(components[a]@[p] == components[b]@[q]);
}

/// The arc a simple cycle of a directed graph takes out of its `k`-th node.
proof fn lemma_cycle_arc(g: Graph, nodes: Seq<usize>, edges: Seq<usize>, bound: int, k: int)
    requires
        g.spec_kind().directed(),
        is_bounded_simple_cycle(g, nodes, edges, bound),
        g.spec_endpoints().len() == g.spec_edges().len(),
        0 <= k < nodes.len(),
    ensures
        is_traversal_arc(g.spec_endpoints(), g.spec_kind(), nodes[k] as int, TraversalDirection::Out,
            ArcRef { neighbor: nodes[(k + 1) % nodes.len() as int], edge: edges[k] }),
{
    assert(joins(g, nodes[k] as int, nodes[(k + 1) % nodes.len() as int] as int, edges[k] as int));
}

/// Along a cycle that starts in component `i`, every node lies in component
/// `i` or an earlier one.
proof fn lemma_cycle_descends(
    g: Graph,
    components: Seq<Vec<usize>>,
    nodes: Seq<usize>,
    edges: Seq<usize>,
    bound: int,
    i: int,
    k: int,
)
    requires
        emitted_closed(g, components),
        g.spec_kind().directed(),
        is_bounded_simple_cycle(g, nodes, edges, bound),
        g.spec_endpoints().len() == g.spec_edges().len(),
        0 <= i < components.len(),
        components[i]@.contains(nodes[0]),
        0 <= k < nodes.len(),
    ensures
        in_component_upto(components, nodes[k], i),
    decreases k,
{
    if k == 0 {
        assert(components[i]@.contains(nodes[0]));
    } else {
        lemma_cycle_descends(g, components, nodes, edges, bound, i, k - 1);
        let l = nodes.len() as int;
        lemma_cycle_arc(g, nodes, edges, bound, k - 1);
        vstd::arithmetic::div_mod::lemma_small_mod(k as nat, l as nat);
        let j = choose|j: int| 0 <= j <= i && #[trigger] components[j]@.contains(nodes[k - 1]);
        let p = choose|p: int| 0 <= p < components[j]@.len() && components[j]@[p] == nodes[k - 1];
        let a = ArcRef { neighbor: nodes[k], edge: edges[k - 1] };
        assert(is_traversal_arc(g.spec_endpoints(), g.spec_kind(), components[j]@[p] as int, TraversalDirection::Out, a));
        reveal(emitted_closed);
        let j2 = choose|j2: int| 0 <= j2 <= j && #[trigger] components[j2]@.contains(a.neighbor);
        assert(components[j2]@.contains(nodes[k]));
    }
}

/// Along a cycle that starts in component `i`, every node lies in component
/// `i` or a later one: the way back to the start never climbs.
proof fn lemma_cycle_ascends(
    g: Graph,
    components: Seq<Vec<usize>>,
    nodes: Seq<usize>,
    edges: Seq<usize>,
    bound: int,
    i: int,
    k: int,
)
    requires
        emitted_closed(g, components),
        members_unique(components),
        g.spec_kind().directed(),
        is_bounded_simple_cycle(g, nodes, edges, bound),
        g.spec_endpoints().len() == g.spec_edges().len(),
        0 <= i < components.len(),
        components[i]@.contains(nodes[0]),
        0 <= k < nodes.len(),
    ensures
        exists|j: int| i <= j < components.len() && #[trigger] components[j]@.contains(nodes[k]),
    decreases nodes.len() - k,
{
    let l = nodes.len() as int;
    lemma_cycle_descends(g, components, nodes, edges, bound, i, k);
    let jk = choose|j: int| 0 <= j <= i && #[trigger] components[j]@.contains(nodes[k]);
    let p = choose|p: int| 0 <= p < components[jk]@.len() && components[jk]@[p] == nodes[k];
    lemma_cycle_arc(g, nodes, edges, bound, k);
    let a = ArcRef { neighbor: nodes[(k + 1) % l], edge: edges[k] };
    assert(is_traversal_arc(g.spec_endpoints(), g.spec_kind(), components[jk]@[p] as int, TraversalDirection::Out, a));
    reveal(emitted_closed);
    let j2 = choose|j2: int| 0 <= j2 <= jk && #[trigger] components[j2]@.contains(a.neighbor);
    if k == l - 1 {
        vstd::arithmetic::div_mod::lemma_mod_self_0(l);
        assert(a.neighbor == nodes[0]);
        lemma_member_unique(components, nodes[0], i, j2);
    } else {
        vstd::arithmetic::div_mod::lemma_small_mod((k + 1) as nat, l as nat);
        assert(a.neighbor == nodes[k + 1]);
        lemma_cycle_ascends(g, components, nodes, edges, bound, i, k + 1);
        let j3 = choose|j: int| i <= j < components.len() && #[trigger] components[j]@.contains(nodes[k + 1]);
        lemma_member_unique(components, nodes[k + 1], j2, j3);
    }
    assert(components[jk]@.contains(nodes[k]));
}

/// Two nodes share a group exactly when each reaches the other.
pub open spec fn strong_groups(g: Graph, c: Seq<Vec<usize>>) -> bool {
    forall|i: int, p: int, j: int, q: int|
        0 <= i < c.len() && 0 <= p < c[i]@.len() && 0 <= j < c.len() && 0 <= q < c[j]@.len()
            ==> (i == j <==> (reaches(g, #[trigger] c[i]@[p], #[trigger] c[j]@[q]) && reaches(g, c[j]@[q], c[i]@[p])))
}

/// Along a walk that starts in component `i`, every node lies in component
/// `i` or an earlier one.
proof fn lemma_walk_descends(g: Graph, components: Seq<Vec<usize>>, walk: Seq<usize>, i: int, k: int)
    requires
        emitted_closed(g, components),
        is_out_walk(g, walk),
        0 <= i < components.len(),
        components[i]@.contains(walk[0]),
        0 <= k < walk.len(),
    ensures
        in_component_upto(components, walk[k], i),
    decreases k,
{
    if k == 0 {
        assert(components[i]@.contains(walk[0]));
    } else {
        lemma_walk_descends(g, components, walk, i, k - 1);
        assert(steps_to(g, walk[k - 1], walk[k]));
        let e = choose|e: usize| #[trigger] out_step(g, walk[k - 1], walk[k], e);
        let j = choose|j: int| 0 <= j <= i && #[trigger] components[j]@.contains(walk[k - 1]);
        let p = choose|p: int| 0 <= p < components[j]@.len() && components[j]@[p] == walk[k - 1];
        let a = ArcRef { neighbor: walk[k], edge: e };
        assert(is_traversal_arc(g.spec_endpoints(), g.spec_kind(), components[j]@[p] as int, TraversalDirection::Out, a));
        reveal(emitted_closed);
        let j2 = choose|j2: int| 0 <= j2 <= j && #[trigger] components[j2]@.contains(a.neighbor);
        assert(components[j2]@.contains(walk[k]));
    }
}

/// Emitted components are exactly the classes of mutual reachability.
proof fn lemma_emitted_strong_groups(g: Graph, components: Seq<Vec<usize>>)
    requires
        emitted_closed(g, components),
        emitted_strong(g, components),
        members_unique(components),
    ensures
        strong_groups(g, components),
{
    assert forall|i: int, p: int, j: int, q: int|
        0 <= i < components.len() && 0 <= p < components[i]@.len() && 0 <= j < components.len() && 0 <= q < components[j]@.len()
            implies (i == j <==> (reaches(g, #[trigger] components[i]@[p], #[trigger] components[j]@[q])
                && reaches(g, components[j]@[q], components[i]@[p]))) by {
        let u = components[i]@[p];
        let v = components[j]@[q];
        if i == j {
            reveal(emitted_strong);
            assert(reaches(g, components[i]@[p], components[i]@[q]));
            assert(reaches(g, components[i]@[q], components[i]@[p]));
        }
        if reaches(g, u, v) && reaches(g, v, u) {
            assert(components[i]@.contains(u));
            assert(components[j]@.contains(v));
            let w1 = choose|walk: Seq<usize>| #[trigger] is_out_walk(g, walk) && walk[0] == u && walk.last() == v;
            lemma_walk_descends(g, components, w1, i, w1.len() - 1);
            let j1 = choose|x: int| 0 <= x <= i && #[trigger] components[x]@.contains(v);
            lemma_member_unique(components, v, j1, j);
            let w2 = choose|walk: Seq<usize>| #[trigger] is_out_walk(g, walk) && walk[0] == v && walk.last() == u;
            lemma_walk_descends(g, components, w2, j, w2.len() - 1);
            let i1 = choose|x: int| 0 <= x <= j && #[trigger] components[x]@.contains(u);
            lemma_member_unique(components, u, i1, i);
        }
    }
}

/// In a directed graph, every simple cycle through an emitted component
/// stays in it.
proof fn lemma_emitted_cycles_stay(g: Graph, components: Seq<Vec<usize>>, i: int)
    requires
        emitted_closed(g, components),
        members_unique(components),
        g.spec_kind().directed(),
        g.spec_endpoints().len() == g.spec_edges().len(),
        0 <= i < components.len(),
    ensures
        cycles_stay(g, components[i]@),
{
    assert forall|nodes: Seq<usize>, edges: Seq<usize>, bound: int, k: int|
        #[trigger] is_bounded_simple_cycle(g, nodes, edges, bound) && components[i]@.contains(nodes[0]) && 0 <= k < nodes.len()
            implies components[i]@.contains(#[trigger] nodes[k]) by {
        lemma_cycle_descends(g, components, nodes, edges, bound, i, k);
        lemma_cycle_ascends(g, components, nodes, edges, bound, i, k);
        let j1 = choose|j: int| 0 <= j <= i && #[trigger] components[j]@.contains(nodes[k]);
        let j2 = choose|j: int| i <= j < components.len() && #[trigger] components[j]@.contains(nodes[k]);
        lemma_member_unique(components, nodes[k], j1, j2);
    }
}

/// Strongly connected components found by Tarjan's algorithm, each listed in
/// node order, the components ordered by their first node: two nodes share a
/// component exactly when each reaches the other along outgoing arcs.
#[verifier::rlimit(100)]
#[verifier::spinoff_prover]
fn strongly_connected_components(g: &Graph) -> (components: Vec<Vec<usize>>)
    requires
        g.wf(),
    ensures
        is_partition(components@, g.spec_nodes().len() as int),
        forall|i: int| 0 <= i < components.len() ==> strictly_increasing(#[trigger] components@[i]@),
        forall|i: int, j: int| 0 <= i < j < components.len() ==> (#[trigger] components@[i])@[0] < (#[trigger] components@[j])@[0],
        g.spec_kind().directed() ==> forall|i: int| 0 <= i < components.len() ==> cycles_stay(*g, (#[trigger] components@[i])@),
        strong_groups(*g, components@),
{
    let n = g.node_count();
    proof {
        assert forall|x: int, a: ArcRef| #[trigger] is_traversal_arc(g.spec_endpoints(), g.spec_kind(), x, TraversalDirection::Out, a)
            implies a.neighbor < n by {}
        lemma_closure_start(*g);
        lemma_reach_start(*g);
    }
    let mut next_index: usize = 0;
    let mut indexes: Vec<Option<usize>> = Vec::new();
    let mut lowlinks: Vec<usize> = Vec::new();
    let mut on_stack: Vec<bool> = Vec::new();
    let mut v: usize = 0;
    while v < n
        invariant
            v <= n,
            indexes.len() == v,
            lowlinks.len() == v,
            on_stack.len() == v,
            forall|w: int| 0 <= w < v ==> (#[trigger] indexes@[w]) is None,
            forall|w: int| 0 <= w < v ==> !(#[trigger] on_stack@[w]),
        decreases n - v,
    {
        indexes.push(None);
        lowlinks.push(0);
        on_stack.push(false);
        v = v + 1;
    }
    let mut stack: Vec<usize> = Vec::new();
    let mut components: Vec<Vec<usize>> = Vec::new();
    let ghost mut opened: Seq<usize> = Seq::empty();
    let mut root: usize = 0;
    while root < n
        invariant
            g.wf(),
            n == g.spec_nodes().len(),
            root <= n,
            next_index <= n,
            tarjan_inv(n as int, next_index as int, next_index as int, indexes@, lowlinks@, stack@, on_stack@, components@, opened),
            stack.len() == 0,
            forall|w: int| 0 <= w < n ==> !(#[trigger] on_stack@[w]),
            forall|w: int| 0 <= w < root ==> (#[trigger] indexes@[w]) is Some,
            arcs_in_range(*g, n as int),
            emitted_closed(*g, components@),
            emitted_strong(*g, components@),
        decreases n - root,
    {
        if indexes[root].is_some() {
            root = root + 1;
            continue;
        }
        let root_idx = next_index;
        proof {
            lemma_open_bound(n as int, next_index as int, indexes@, opened, root as int);
            lemma_tarjan_open(n as int, root_idx as int, next_index as int, indexes@, lowlinks@, stack@, on_stack@, components@, opened, root as int);
        }
        indexes.set(root, Some(next_index));
        lowlinks.set(root, next_index);
        stack.push(root);
        on_stack.set(root, true);
        proof {
            opened = opened.push(root);
        }
        next_index = next_index + 1;
        let mut frames: Vec<(usize, usize)> = Vec::new();
        let mut frame_arcs: Vec<Vec<ArcRef>> = Vec::new();
        frames.push((root, 0));
        let root_arcs = g.arcs(root, TraversalDirection::Out);
        proof {
            assert forall|a: ArcRef| #[trigger] root_arcs@.contains(a) implies a.neighbor < n by {
                assert(is_traversal_arc(g.spec_endpoints(), g.spec_kind(), root as int, TraversalDirection::Out, a));
            }
        }
        frame_arcs.push(root_arcs);
        proof {
            assert(frames@ =~= seq![(root, 0usize)]);
            assert(stack@ =~= seq![root]);
            lemma_closure_root(*g, indexes@, lowlinks@, on_stack@, components@, root, frames@, frame_arcs@);
            lemma_reach_root(*g, indexes@, lowlinks@, components@, root, frames@);
        }
        while frames.len() > 0
            invariant
                g.wf(),
                n == g.spec_nodes().len(),
                root < n,
                root_idx < next_index <= n,
                tarjan_inv(n as int, root_idx as int, next_index as int, indexes@, lowlinks@, stack@, on_stack@, components@, opened),
                frames_inv(n as int, root as int, root_idx as int, indexes@, on_stack@, stack@, frames@, frame_arcs@),
                forall|w: int| 0 <= w < root ==> (#[trigger] indexes@[w]) is Some,
                arcs_in_range(*g, n as int),
                closure_inv(*g, indexes@, lowlinks@, stack@, on_stack@, components@, frames@, frame_arcs@),
                reach_inv(*g, indexes@, lowlinks@, stack@, frames@, components@),
                finished_low(indexes@, lowlinks@, stack@, frames@),
            decreases n - next_index, work_left(frames@, frame_arcs@),
        {
            proof {
                lemma_work_left_nonneg(frames@, frame_arcs@);
            }
            let ghost indexes0 = indexes@;
            let ghost lowlinks0 = lowlinks@;
            let ghost stack00 = stack@;
            let ghost on_stack00 = on_stack@;
            let ghost frames0 = frames@;
            let ghost arcs0 = frame_arcs@;
            let ghost next0 = next_index;
            let top = frames.len() - 1;
            let (node, pos) = frames[top];
            if pos < frame_arcs[top].len() {
                let arc = frame_arcs[top][pos];
                let nb = arc.neighbor;
                proof {
                    assert(frame_arcs@[top as int]@.contains(arc));
                    lemma_work_left_advance(frames@, frame_arcs@, node, pos);
                }
                let ghost frames_before = frames@;
                frames.set(top, (node, pos + 1));
                match indexes[nb] {
                    None => {
                        proof {
                            lemma_open_bound(n as int, next_index as int, indexes@, opened, nb as int);
                            lemma_tarjan_open(n as int, root_idx as int, next_index as int, indexes@, lowlinks@, stack@, on_stack@, components@, opened, nb as int);
                        }
                        let ghost indexes_before = indexes@;
                        indexes.set(nb, Some(next_index));
                        lowlinks.set(nb, next_index);
                        stack.push(nb);
                        on_stack.set(nb, true);
                        proof {
                            opened = opened.push(nb);
                        }
                        next_index = next_index + 1;
                        frames.push((nb, 0));
                        let nb_arcs = g.arcs(nb, TraversalDirection::Out);
                        proof {
                            assert forall|a: ArcRef| #[trigger] nb_arcs@.contains(a) implies a.neighbor < n by {
                                assert(is_traversal_arc(g.spec_endpoints(), g.spec_kind(), nb as int, TraversalDirection::Out, a));
                            }
                        }
                        let ghost arcs_before = frame_arcs@;
                        frame_arcs.push(nb_arcs);
                        proof {
                            assert forall|f: int| 0 <= f < frames.len() implies {
                                &&& (#[trigger] frames@[f]).0 < n
                                &&& indexes@[frames@[f].0 as int] is Some
                                &&& on_stack@[frames@[f].0 as int]
                                &&& frames@[f].1 <= frame_arcs@[f]@.len()
                            } by {
                                if f < top as int {
                                    assert(frames@[f] == frames_before[f]);
                                }
                            }
                            assert forall|f: int, a: ArcRef| 0 <= f < frames.len() && #[trigger] frame_arcs@[f]@.contains(a) implies a.neighbor < n by {
                                if f < frames.len() - 1 {
                                    assert(frame_arcs@[f] == arcs_before[f]);
                                }
                            }
                            assert forall|f: int, h: int| 0 <= f < h < frames.len() implies indexes@[(#[trigger] frames@[f]).0 as int]->0 < indexes@[(#[trigger] frames@[h]).0 as int]->0 by {
                                if h == frames.len() - 1 {
                                    assert(indexes_before[frames@[f].0 as int] is Some);
                                } else {
                                    if f < top as int {
                                        assert(frames@[f] == frames_before[f]);
                                    }
                                    if h < top as int {
                                        assert(frames@[h] == frames_before[h]);
                                    }
                                }
                            }
                            assert(frames@[0].0 == root);
                            lemma_work_left_nonneg(frames@, frame_arcs@);
                            lemma_closure_open(*g, indexes0, lowlinks0, stack00, on_stack00, components@, frames0, arcs0, nb, next0, nb_arcs);
                            let mid = frames0.push((nb, 0usize));
                            assert(arcs0[top as int]@.contains(arc));
                            lemma_frame_arc_step(*g, frames0, arcs0, top as int, arc);
                            assert(stack00.contains(node));
                            assert forall|f: int| 0 <= f < frames0.len() implies indexes0[(#[trigger] frames0[f]).0 as int]->0 <= indexes0[frames0.last().0 as int]->0 by {
                                if f < top as int {
                                    assert(indexes0[frames0[f].0 as int]->0 < indexes0[frames0[top as int].0 as int]->0);
                                }
                            }
                            lemma_reach_open(*g, indexes0, lowlinks0, stack00, frames0, components@, nb, next0, arc.edge);
                            lemma_closure_advance(*g, indexes@, lowlinks@, stack@, on_stack@, components@, mid, frame_arcs@, top as int);
                            lemma_reach_advance(*g, indexes@, lowlinks@, stack@, mid, components@, top as int);
                            assert(mid.update(top as int, (node, (pos + 1) as usize)) =~= frames@);
                        }
                    },
                    Some(index) => {
                        proof {
                            lemma_work_left_nonneg(frames@, frame_arcs@);
                        }
                        if on_stack[nb] {
                            let low = if index < lowlinks[node] {
                                index
                            } else {
                                lowlinks[node]
                            };
                            proof {
                                assert(stack@.contains(nb));
                                assert(stack@.contains(node));
                            }
                            lowlinks.set(node, low);
                            proof {
                                assert(frames0[top as int].0 == node);
                                assert(heads_frame(frames0, node));
                                lemma_closure_lower(*g, indexes0, lowlinks0, stack00, on_stack00, components@, frames0, arcs0, node, low);
                                let r = choose|r: int| 0 <= r < stack00.len() && stack00[r] == nb;
                                lemma_frame_arc_step(*g, frames0, arcs0, top as int, arc);
                                lemma_reaches_refl(*g, node);
                                lemma_reaches_step(*g, node, node, nb, arc.edge);
                                lemma_reach_lower(*g, indexes0, lowlinks0, stack00, frames0, components@, node, low, r);
                            }
                        }
                        proof {
                            lemma_closure_advance(*g, indexes@, lowlinks@, stack@, on_stack@, components@, frames0, frame_arcs@, top as int);
                            lemma_reach_advance(*g, indexes@, lowlinks@, stack@, frames0, components@, top as int);
                            assert forall|f: int| 0 <= f < frames.len() implies {
                                &&& (#[trigger] frames@[f]).0 < n
                                &&& indexes@[frames@[f].0 as int] is Some
                                &&& on_stack@[frames@[f].0 as int]
                                &&& frames@[f].1 <= frame_arcs@[f]@.len()
                            } by {
                                if f < top as int {
                                    assert(frames@[f] == frames_before[f]);
                                }
                            }
                            assert forall|f: int, h: int| 0 <= f < h < frames.len() implies indexes@[(#[trigger] frames@[f]).0 as int]->0 < indexes@[(#[trigger] frames@[h]).0 as int]->0 by {
                                assert(frames@[f].0 == frames_before[f].0);
                                assert(frames@[h].0 == frames_before[h].0);
                            }
                        }
                    },
                }
                continue;
            }
            proof {
                lemma_work_left_pop(frames@, frame_arcs@);
                assert(stack@.contains(node));
            }
            let ghost frames_full = frames@;
            let ghost arcs_full = frame_arcs@;
            frames.pop();
            frame_arcs.pop();
            assert(frames@ == frames_full.drop_last());
            assert(frame_arcs@ == arcs_full.drop_last());
            if frames.len() > 0 {
                let parent = frames[frames.len() - 1].0;
                proof {
                    assert(frames_full[frames.len() - 1] == frames@[frames.len() - 1]);
                    assert(stack@.contains(parent));
                }
                let low = if lowlinks[node] < lowlinks[parent] {
                    lowlinks[node]
                } else {
                    lowlinks[parent]
                };
                lowlinks.set(parent, low);
            }
            let node_index = match indexes[node] {
                Some(i) => i,
                None => 0,
            };
            proof {
                assert(indexes@[node as int] == Some(node_index));
                if frames.len() == 0 {
                    assert(node == root);
                }
                // remaining frames sit below `node` in discovery order
                assert forall|f: int| 0 <= f < frames.len() implies indexes@[(#[trigger] frames@[f]).0 as int]->0 < node_index by {
                    assert(frames@[f] == frames_full[f]);
                    assert(frames_full[frames_full.len() - 1].0 == node);
                }
                lemma_closure_finish(*g, indexes@, lowlinks0, stack@, on_stack@, components@, frames0, arcs0, lowlinks@);
                lemma_reach_finish(*g, indexes@, lowlinks0, stack@, frames0, components@, lowlinks@);
                assert forall|f: int| 0 <= f < frames.len() implies (#[trigger] frames@[f]).1 <= frame_arcs@[f]@.len() by {
                    assert(frames@[f] == frames_full[f]);
                    assert(frame_arcs@[f] == arcs_full[f]);
                }
            }
            if lowlinks[node] == node_index {
                let ghost stack0 = stack@;
                let ghost on_stack0 = on_stack@;
                let ghost pn = choose|q: int| 0 <= q < stack0.len() && stack0[q] == node;
                assert(stack0[pn] == node);
                assert forall|q: int| 0 <= q < stack0.len() implies #[trigger] stack0[q] < n by {}
                let mut component: Vec<usize> = Vec::new();
                loop
                    invariant_except_break
                        stack@.len() > pn,
                    invariant
                        0 <= pn < stack0.len(),
                        stack0[pn] == node,
                        stack@ == stack0.take(stack@.len() as int),
                        stack@.len() + component@.len() == stack0.len(),
                        forall|i: int| 0 <= i < component@.len() ==> #[trigger] component@[i] == stack0[stack0.len() - 1 - i],
                        forall|i: int| 0 <= i < component@.len() ==> #[trigger] component@[i] != node || i == stack0.len() - 1 - pn,
                        on_stack@.len() == n,
                        forall|w: int| 0 <= w < n ==> #[trigger] on_stack@[w] == (on_stack0[w] && !component@.contains(w as usize)),
                        forall|q: int| 0 <= q < stack0.len() ==> #[trigger] stack0[q] < n,
                        forall|q: int, r: int| 0 <= q < r < stack0.len() ==> indexes@[#[trigger] stack0[q] as int]->0 < indexes@[#[trigger] stack0[r] as int]->0,
                    ensures
                        stack@.len() == pn,
                        component@.len() == stack0.len() - pn,
                    decreases stack@.len(),
                {
                    let ghost before = component@;
                    let member = match stack.pop() {
                        Some(m) => m,
                        None => {
                            break;
                        },
                    };
                    assert(member == stack0[stack0.len() - 1 - before.len()]);
                    on_stack.set(member, false);
                    component.push(member);
                    proof {
                        lemma_push_contains(before, member);
                    }
                    if member == node {
                        proof {
                            assert forall|q: int, r: int| 0 <= q < r < stack0.len() implies #[trigger] stack0[q] != #[trigger] stack0[r] by {
                                assert(indexes@[stack0[q] as int]->0 < indexes@[stack0[r] as int]->0);
                            }
                        }
                        break;
                    }
                }
                proof {
                    assert forall|q: int, r: int| 0 <= q < stack0.len() && 0 <= r < stack0.len() && q != r implies #[trigger] stack0[q] != #[trigger] stack0[r] by {
                        if q < r {
                            assert(indexes@[stack0[q] as int]->0 < indexes@[stack0[r] as int]->0);
                        } else {
                            assert(indexes@[stack0[r] as int]->0 < indexes@[stack0[q] as int]->0);
                        }
                    }
                    assert forall|p: int, q: int| 0 <= p < component.len() && 0 <= q < component.len() && #[trigger] component@[p] == #[trigger] component@[q] implies p == q by {
                        assert(component@[p] == stack0[stack0.len() - 1 - p]);
                        assert(component@[q] == stack0[stack0.len() - 1 - q]);
                    }
                }
                let ghost comp_view = component@;
                let sorted = sort_positions(component);
                let ghost comps_before = components@;
                components.push(sorted);
                proof {
                    lemma_tarjan_pop_component(
                        n as int, root_idx as int, next_index as int, indexes@, lowlinks@, stack0, on_stack0, on_stack@,
                        comps_before, opened, pn, comp_view, sorted,
                    );
                    assert(stack@ == stack0.take(pn));
                    assert(components@ == comps_before.push(sorted));
                    lemma_closure_emit(*g, indexes@, lowlinks@, stack0, on_stack0, comps_before, frames@, frame_arcs@, pn, on_stack@, comp_view, sorted);
                    assert forall|q: int| 0 <= q < stack0.len() implies lowlinks@[#[trigger] stack0[q] as int] <= indexes@[stack0[q] as int]->0 by {
                        assert(stack0[q] < n);
                        assert(indexes@[stack0[q] as int] is Some);
                    }
                    lemma_reach_emit(*g, indexes@, lowlinks@, stack0, frames@, comps_before, pn, comp_view, sorted);
                    assert forall|f: int| 0 <= f < frames.len() implies on_stack@[(#[trigger] frames@[f]).0 as int] by {
                        let x = frames@[f].0;
                        assert(frames@[f] == frames_full[f]);
                        assert(stack0.contains(x));
                        let q = choose|q: int| 0 <= q < stack0.len() && stack0[q] == x;
                        if q >= pn {
                            if q > pn {
                                assert(indexes@[stack0[pn] as int]->0 < indexes@[stack0[q] as int]->0);
                            }
                        }
                        assert(!comp_view.contains(x)) by {
                            if comp_view.contains(x) {
                                let i = choose|i: int| 0 <= i < comp_view.len() && comp_view[i] == x;
                                assert(comp_view[i] == stack0[stack0.len() - 1 - i]);
                            }
                        }
                    }
                    if frames.len() == 0 {
                        if pn > 0 {
                            assert(indexes@[stack0[0] as int]->0 < indexes@[stack0[pn] as int]->0);
                        }
                    }
                }
            } else {
                proof {
                    if frames.len() == 0 {
                        assert(lowlinks@[root as int] >= root_idx);
                    }
                    assert(lowlinks@[node as int] <= node_index);
                    lemma_reach_keep(indexes@, lowlinks@, stack@, frames@, node);
                }
            }
            proof {
                assert forall|f: int| 0 <= f < frames.len() implies {
                    &&& (#[trigger] frames@[f]).0 < n
                    &&& indexes@[frames@[f].0 as int] is Some
                    &&& on_stack@[frames@[f].0 as int]
                    &&& frames@[f].1 <= frame_arcs@[f]@.len()
                } by {
                    assert(frames@[f] == frames_full[f]);
                    assert(frame_arcs@[f] == arcs_full[f]);
                }
                assert forall|f: int, a: ArcRef| 0 <= f < frames.len() && #[trigger] frame_arcs@[f]@.contains(a) implies a.neighbor < n by {
                    assert(frame_arcs@[f] == arcs_full[f]);
                }
                assert forall|f: int, h: int| 0 <= f < h < frames.len() implies indexes@[(#[trigger] frames@[f]).0 as int]->0 < indexes@[(#[trigger] frames@[h]).0 as int]->0 by {
                    assert(frames@[f] == frames_full[f]);
                    assert(frames@[h] == frames_full[h]);
                }
                lemma_work_left_nonneg(frames@, frame_arcs@);
            }
        }
        root = root + 1;
    }
    proof {
        assert forall|w: int| 0 <= w < n implies #[trigger] covered(components@, w) by {
            assert(indexes@[w] is Some);
            assert(!on_stack@[w]);
        }
    }
    // order components by their first node
    let ghost orig = components@;
    proof {
        if g.spec_kind().directed() {
            assert forall|i: int| 0 <= i < orig.len() implies cycles_stay(*g, (#[trigger] orig[i])@) by {
                lemma_emitted_cycles_stay(*g, orig, i);
            }
        }
        lemma_emitted_strong_groups(*g, orig);
    }
    let mut ordered: Vec<Vec<usize>> = Vec::new();
    let ghost mut src: Seq<int> = Seq::empty();
    while components.len() > 0
        invariant
            components@ == orig.take(components.len() as int),
            components.len() <= orig.len(),
            forall|i: int| 0 <= i < orig.len() ==> (#[trigger] orig[i])@.len() > 0 && strictly_increasing(orig[i]@),
            forall|i: int, p: int, j: int, q: int|
                0 <= i < orig.len() && 0 <= p < orig[i]@.len() && 0 <= j < orig.len() && 0 <= q < orig[j]@.len()
                    && #[trigger] orig[i]@[p] == #[trigger] orig[j]@[q] ==> i == j && p == q,
            ordered.len() == src.len(),
            ordered.len() + components.len() == orig.len(),
            forall|i: int| 0 <= i < src.len() ==> components.len() <= #[trigger] src[i] < orig.len() && ordered@[i] == orig[src[i]],
            forall|i: int, j: int| 0 <= i < src.len() && 0 <= j < src.len() && i != j ==> #[trigger] src[i] != #[trigger] src[j],
            forall|i: int, j: int| 0 <= i < j < ordered.len() ==> (#[trigger] ordered@[i])@[0] < (#[trigger] ordered@[j])@[0],
            g.spec_kind().directed() ==> forall|i: int| 0 <= i < orig.len() ==> cycles_stay(*g, (#[trigger] orig[i])@),
            strong_groups(*g, orig),
        decreases components.len(),
    {
        let ghost k = components.len() - 1;
        let comp = components.pop().unwrap();
        assert(comp == orig[k]);
        assert forall|i: int| 0 <= i < src.len() implies (#[trigger] ordered@[i])@.len() > 0 by {
            assert(ordered@[i] == orig[src[i]]);
        }
        let mut lo: usize = 0;
        while lo < ordered.len() && ordered[lo][0] < comp[0]
            invariant
                lo <= ordered.len(),
                comp@.len() > 0,
                ordered.len() == src.len(),
                forall|i: int| 0 <= i < src.len() ==> (#[trigger] ordered@[i])@.len() > 0,
                forall|i: int| 0 <= i < lo ==> (#[trigger] ordered@[i])@[0] < comp@[0],
            decreases ordered.len() - lo,
        {
            lo = lo + 1;
        }
        proof {
            assert forall|i: int| lo <= i < ordered.len() implies comp@[0] < (#[trigger] ordered@[i])@[0] by {
                if i > lo {
                    assert(ordered@[lo as int]@[0] < ordered@[i]@[0]);
                }
                assert(src[lo as int] != k);
                assert(orig[src[lo as int]]@[0] != orig[k]@[0]);
            }
        }
        let ghost before = ordered@;
        ordered.insert(lo, comp);
        proof {
            before.insert_ensures(lo as int, comp);
            let src0 = src;
            src = src.insert(lo as int, k);
            src0.insert_ensures(lo as int, k);
            assert forall|i: int| 0 <= i < src.len() implies components.len() <= #[trigger] src[i] < orig.len() && ordered@[i] == orig[src[i]] by {
                if i < lo {
                } else if i > lo {
                    assert(src[i] == src0[i - 1]);
                    assert(ordered@[i] == before[i - 1]);
                }
            }
            assert forall|i: int, j: int| 0 <= i < src.len() && 0 <= j < src.len() && i != j implies #[trigger] src[i] != #[trigger] src[j] by {
                if i != lo && j != lo {
                    let i0 = if i < lo { i } else { i - 1 };
                    let j0 = if j < lo { j } else { j - 1 };
                    assert(src[i] == src0[i0]);
                    assert(src[j] == src0[j0]);
                } else if i == lo {
                    let j0 = if j < lo { j } else { j - 1 };
                    assert(src[j] == src0[j0]);
                } else {
                    let i0 = if i < lo { i } else { i - 1 };
                    assert(src[i] == src0[i0]);
                }
            }
            assert forall|i: int, j: int| 0 <= i < j < ordered.len() implies (#[trigger] ordered@[i])@[0] < (#[trigger] ordered@[j])@[0] by {
                if j < lo {
                } else if j == lo {
                } else if i < lo {
                    assert(ordered@[j] == before[j - 1]);
                } else if i == lo {
                    assert(ordered@[j] == before[j - 1]);
                } else {
                    assert(ordered@[i] == before[i - 1]);
                    assert(ordered@[j] == before[j - 1]);
                }
            }
        }
    }
    proof {
        let s = src.map_values(|x: int| x as usize);
        assert forall|p: int| 0 <= p < s.len() implies #[trigger] s[p] < orig.len() by {}
        assert forall|p: int, q: int| 0 <= p < orig.len() && 0 <= q < orig.len() && p != q implies #[trigger] s[p] != #[trigger] s[q] by {
            assert(src[p] != src[q]);
        }
        assert forall|w: int| 0 <= w < n implies #[trigger] covered(ordered@, w) by {
            assert(covered(orig, w));
            let (k, p) = choose|k: int, p: int| 0 <= k < orig.len() && 0 <= p < orig[k]@.len() && #[trigger] orig[k]@[p] == w;
            lemma_permutation_covers(s, orig.len() as int, k);
            let i = choose|i: int| 0 <= i < orig.len() && #[trigger] s[i] == k;
            assert(src[i] == k);
            assert(ordered@[i]@[p] == w);
        }
        assert forall|i: int, p: int, j: int, q: int|
            0 <= i < ordered.len() && 0 <= p < ordered@[i]@.len() && 0 <= j < ordered.len() && 0 <= q < ordered@[j]@.len()
                && #[trigger] ordered@[i]@[p] == #[trigger] ordered@[j]@[q] implies i == j && p == q by {
            assert(ordered@[i] == orig[src[i]]);
            assert(ordered@[j] == orig[src[j]]);
        }
        assert forall|i: int, p: int| 0 <= i < ordered.len() && 0 <= p < ordered@[i]@.len() implies #[trigger] ordered@[i]@[p] < n by {
            assert(ordered@[i] == orig[src[i]]);
        }
        assert forall|i: int| 0 <= i < ordered.len() implies (#[trigger] ordered@[i])@.len() > 0 by {
            assert(ordered@[i] == orig[src[i]]);
        }
        assert forall|i: int| 0 <= i < ordered.len() implies strictly_increasing(#[trigger] ordered@[i]@) by {
            assert(ordered@[i] == orig[src[i]]);
        }
        if g.spec_kind().directed() {
            assert forall|i: int| 0 <= i < ordered.len() implies cycles_stay(*g, (#[trigger] ordered@[i])@) by {
                assert(ordered@[i] == orig[src[i]]);
            }
        }
        assert forall|i: int, p: int, j: int, q: int|
            0 <= i < ordered.len() && 0 <= p < ordered@[i]@.len() && 0 <= j < ordered.len() && 0 <= q < ordered@[j]@.len()
                implies (i == j <==> (reaches(*g, #[trigger] ordered@[i]@[p], #[trigger] ordered@[j]@[q])
                    && reaches(*g, ordered@[j]@[q], ordered@[i]@[p]))) by {
            assert(ordered@[i] == orig[src[i]]);
            assert(ordered@[j] == orig[src[j]]);
            assert(orig[src[i]]@[p] == ordered@[i]@[p]);
            assert(orig[src[j]]@[q] == ordered@[j]@[q]);
        }
    }
    ordered
}

/// Moving the top of the search stack down to a finished root into a new
/// component keeps the search bookkeeping.
proof fn lemma_tarjan_pop_component(
    n: int,
    root_idx: int,
    next_index: int,
    indexes: Seq<Option<usize>>,
    lowlinks: Seq<usize>,
    stack0: Seq<usize>,
    on_stack0: Seq<bool>,
    on_stack1: Seq<bool>,
    components: Seq<Vec<usize>>,
    opened: Seq<usize>,
    pn: int,
    component: Seq<usize>,
    sorted: Vec<usize>,
)
    requires
        tarjan_inv(n, root_idx, next_index, indexes, lowlinks, stack0, on_stack0, components, opened),
        0 <= pn < stack0.len(),
        component.len() == stack0.len() - pn,
        forall|i: int| 0 <= i < component.len() ==> #[trigger] component[i] == stack0[stack0.len() - 1 - i],
        on_stack1.len() == n,
        forall|w: int| 0 <= w < n ==> #[trigger] on_stack1[w] == (on_stack0[w] && !component.contains(w as usize)),
        strictly_increasing(sorted@),
        sorted@.len() == component.len(),
        forall|x: usize| sorted@.contains(x) <==> component.contains(x),
    ensures
        tarjan_inv(n, root_idx, next_index, indexes, lowlinks, stack0.take(pn), on_stack1, components.push(sorted), opened),
{
    let stack1 = stack0.take(pn);
    let comps1 = components.push(sorted);
    assert forall|q: int, r: int| 0 <= q < stack0.len() && 0 <= r < stack0.len() && q != r implies #[trigger] stack0[q] != #[trigger] stack0[r] by {
        if q < r {
            assert(indexes[stack0[q] as int]->0 < indexes[stack0[r] as int]->0);
        } else {
            assert(indexes[stack0[r] as int]->0 < indexes[stack0[q] as int]->0);
        }
    }
    // membership in the component is membership in the popped part of the stack
    assert forall|q: int| 0 <= q < stack0.len() implies (component.contains(#[trigger] stack0[q]) <==> q >= pn) by {
        if q >= pn {
            assert(component[stack0.len() - 1 - q] == stack0[q]);
        }
        if component.contains(stack0[q]) {
            let i = choose|i: int| 0 <= i < component.len() && component[i] == stack0[q];
            assert(component[i] == stack0[stack0.len() - 1 - i]);
        }
    }
    assert forall|p: int| 0 <= p < stack1.len() implies {
        &&& #[trigger] stack1[p] < n
        &&& indexes[stack1[p] as int] is Some
        &&& on_stack1[stack1[p] as int]
        &&& indexes[stack1[p] as int]->0 >= root_idx
    } by {
        assert(stack1[p] == stack0[p]);
    }
    assert forall|p: int, q: int| 0 <= p < q < stack1.len() implies indexes[#[trigger] stack1[p] as int]->0 < indexes[#[trigger] stack1[q] as int]->0 by {
        assert(stack1[p] == stack0[p]);
        assert(stack1[q] == stack0[q]);
    }
    assert forall|w: int| 0 <= w < n && #[trigger] on_stack1[w] implies stack1.contains(w as usize) by {
        assert(stack0.contains(w as usize));
        let q = choose|q: int| 0 <= q < stack0.len() && stack0[q] == w as usize;
        assert(q < pn);
        assert(stack1[q] == w as usize);
    }
    assert forall|x: usize| #[trigger] sorted@.contains(x) implies x < n && indexes[x as int] is Some && on_stack0[x as int] && !on_stack1[x as int] by {
        assert(component.contains(x));
        let i = choose|i: int| 0 <= i < component.len() && component[i] == x;
        assert(component[i] == stack0[stack0.len() - 1 - i]);
        let q = stack0.len() - 1 - i;
        assert(stack0[q] < n);
        assert(on_stack1[x as int] == (on_stack0[x as int] && !component.contains(x)));
    }
    assert forall|i: int| 0 <= i < comps1.len() implies (#[trigger] comps1[i])@.len() > 0 && strictly_increasing(comps1[i]@) by {
        if i == components.len() {
            assert(component.contains(component[0]));
        }
    }
    assert forall|i: int, p: int| 0 <= i < comps1.len() && 0 <= p < comps1[i]@.len() implies {
        &&& #[trigger] comps1[i]@[p] < n
        &&& indexes[comps1[i]@[p] as int] is Some
        &&& !on_stack1[comps1[i]@[p] as int]
    } by {
        if i == components.len() {
            assert(sorted@.contains(sorted@[p]));
        } else {
            assert(comps1[i] == components[i]);
        }
    }
    assert forall|i: int, p: int, j: int, q: int|
        0 <= i < comps1.len() && 0 <= p < comps1[i]@.len() && 0 <= j < comps1.len() && 0 <= q < comps1[j]@.len()
            && #[trigger] comps1[i]@[p] == #[trigger] comps1[j]@[q] implies i == j && p == q by {
        if i == components.len() && j == components.len() {
            if p < q {
                assert(sorted@[p] < sorted@[q]);
            } else if q < p {
                assert(sorted@[q] < sorted@[p]);
            }
        } else if i == components.len() {
            assert(comps1[j] == components[j]);
            assert(sorted@.contains(sorted@[p]));
        } else if j == components.len() {
            assert(comps1[i] == components[i]);
            assert(sorted@.contains(sorted@[q]));
        } else {
            assert(comps1[i] == components[i]);
            assert(comps1[j] == components[j]);
        }
    }
    assert forall|w: int| 0 <= w < n && #[trigger] indexes[w] is Some && !on_stack1[w] implies covered(comps1, w) by {
        if !on_stack0[w] {
            assert(covered(components, w));
            let (i, p) = choose|i: int, p: int| 0 <= i < components.len() && 0 <= p < components[i]@.len() && #[trigger] components[i]@[p] == w;
            assert(comps1[i] == components[i]);
            assert(comps1[i]@[p] == w);
        } else {
            assert(component.contains(w as usize));
            assert(sorted@.contains(w as usize));
            let p = choose|p: int| 0 <= p < sorted@.len() && sorted@[p] == w as usize;
            assert(comps1[components.len() as int]@[p] == w);
        }
    }
}

/// Opening an unvisited node keeps the index count within the node count.
proof fn lemma_open_bound(n: int, next_index: int, indexes: Seq<Option<usize>>, opened: Seq<usize>, v: int)
    requires
        indexes.len() == n,
        opened.len() == next_index,
        0 <= v < n,
        next_index <= n,
        n <= usize::MAX,
        indexes[v] is None,
        forall|k: int| 0 <= k < opened.len() ==> #[trigger] opened[k] < n && indexes[opened[k] as int] == Some(k as usize),
    ensures
        next_index < n,
{
    let s = opened.push(v as usize);
    assert forall|p: int, q: int| 0 <= p < s.len() && 0 <= q < s.len() && #[trigger] s[p] == #[trigger] s[q] implies p == q by {
        if p < opened.len() {
            assert(s[p] == opened[p]);
        }
        if q < opened.len() {
            assert(s[q] == opened[q]);
        }
        if p < opened.len() && q < opened.len() {
            assert(indexes[opened[p] as int] == Some(p as usize));
            assert(indexes[opened[q] as int] == Some(q as usize));
        } else if p < opened.len() {
            assert(indexes[opened[p] as int] == Some(p as usize));
        } else if q < opened.len() {
            assert(indexes[opened[q] as int] == Some(q as usize));
        }
    }
    assert forall|p: int| 0 <= p < s.len() implies #[trigger] s[p] < n by {
        if p < opened.len() {
            assert(opened[p] < n);
        }
    }
    lemma_distinct_len_bound(s, n);
}


/// `n` cleared flags.
pub(crate) fn cleared_flags(n: usize) -> (flags: Vec<bool>)
    ensures
        flags.len() == n,
        forall|i: int| 0 <= i < n ==> !(#[trigger] flags@[i]),
{
    let mut flags: Vec<bool> = Vec::new();
    let mut i: usize = 0;
    while i < n
        invariant
            i <= n,
            flags.len() == i,
            forall|j: int| 0 <= j < i ==> !(#[trigger] flags@[j]),
        decreases n - i,
    {
        flags.push(false);
        i = i + 1;
    }
    flags
}

/// Node `u` has an edge leading back to itself.
pub open spec fn has_self_loop(g: Graph, u: int) -> bool {
    exists|e: int| #[trigger] joins(g, u, u, e)
}

/// Whether node `u` carries a self-loop.
fn self_loop_at(g: &Graph, u: usize) -> (b: bool)
    requires
        g.wf(),
        u < g.spec_nodes().len(),
    ensures
        b == has_self_loop(*g, u as int),
{
    let arcs = g.arcs(u, TraversalDirection::Out);
    let mut k: usize = 0;
    while k < arcs.len()
        invariant
            g.wf(),
            u < g.spec_nodes().len(),
            k <= arcs.len(),
            forall|a: ArcRef| #[trigger] arcs@.contains(a) <==> is_traversal_arc(g.spec_endpoints(), g.spec_kind(), u as int, TraversalDirection::Out, a),
            forall|j: int| 0 <= j < k ==> (#[trigger] arcs@[j]).neighbor != u,
        decreases arcs.len() - k,
    {
        if arcs[k].neighbor == u {
            proof {
                let a = arcs@[k as int];
                assert(arcs@.contains(a));
                assert(joins(*g, u as int, u as int, a.edge as int));
            }
            return true;
        }
        k = k + 1;
    }
    proof {
        if has_self_loop(*g, u as int) {
            let e = choose|e: int| #[trigger] joins(*g, u as int, u as int, e);
            let a = ArcRef { edge: e as usize, neighbor: u };
            assert(is_traversal_arc(g.spec_endpoints(), g.spec_kind(), u as int, TraversalDirection::Out, a));
            assert(arcs@.contains(a));
        }
    }
    false
}

/// The identities a cycle form names.
pub open spec fn form_names(g: Graph, form: (Seq<usize>, Seq<usize>)) -> (Seq<Seq<char>>, Seq<(Seq<char>, u64)>) {
    (
        form.0.map_values(|v: usize| g.spec_nodes()[v as int].id@),
        form.1.map_values(|e: usize| g.spec_edges()[e as int].id@),
    )
}

/// The identities a returned cycle carries.
pub open spec fn cycle_names(c: Cycle) -> (Seq<Seq<char>>, Seq<(Seq<char>, u64)>) {
    (c.node_ids@.map_values(|s: String| s@), c.edge_ids@.map_values(|e: EdgeId| e@))
}

/// `cycles` names the forms one by one, and the forms are canonical forms of
/// bounded simple cycles in strictly increasing node order.
pub open spec fn forms_describe(g: Graph, bound: int, forms: Seq<(Seq<usize>, Seq<usize>)>, cycles: Seq<Cycle>) -> bool {
    &&& forms.len() == cycles.len()
    &&& forall|i: int| 0 <= i < forms.len() ==> is_cycle_form(g, bound, #[trigger] forms[i])
    &&& forall|i: int| 0 <= i < forms.len() ==> form_in_range(g, #[trigger] forms[i])
    &&& forall|i: int| 0 <= i < forms.len() ==> cycle_names(#[trigger] cycles[i]) == form_names(g, forms[i])
    &&& forall|i: int, j: int| 0 <= i < j < forms.len() ==> seq_lt((#[trigger] forms[i]).0, (#[trigger] forms[j]).0)
}

/// The forms held in a store, as position sequences.
pub open spec fn store_forms(store: Seq<(Vec<usize>, Vec<usize>)>) -> Seq<(Seq<usize>, Seq<usize>)> {
    store.map_values(|f: (Vec<usize>, Vec<usize>)| (f.0@, f.1@))
}

/// Name the stored forms by node and edge identities.
fn name_cycles(g: &Graph, store: &Vec<(Vec<usize>, Vec<usize>)>) -> (cycles: Vec<Cycle>)
    requires
        forall|i: int| 0 <= i < store.len() ==> form_in_range(*g, ((#[trigger] store@[i]).0@, store@[i].1@)),
    ensures
        cycles.len() == store.len(),
        forall|i: int| 0 <= i < store.len() ==> cycle_names(#[trigger] cycles@[i]) == form_names(*g, (store@[i].0@, store@[i].1@)),
{
    let mut cycles: Vec<Cycle> = Vec::new();
    let mut i: usize = 0;
    while i < store.len()
        invariant
            i <= store.len(),
            cycles.len() == i,
            forall|j: int| 0 <= j < store.len() ==> form_in_range(*g, ((#[trigger] store@[j]).0@, store@[j].1@)),
            forall|j: int| 0 <= j < i ==> cycle_names(#[trigger] cycles@[j]) == form_names(*g, (store@[j].0@, store@[j].1@)),
        decreases store.len() - i,
    {
        let form = &store[i];
        assert(form_in_range(*g, (form.0@, form.1@)));
        let mut node_ids: Vec<NodeId> = Vec::new();
        let mut p: usize = 0;
        while p < form.0.len()
            invariant
                p <= form.0.len(),
                node_ids.len() == p,
                form_in_range(*g, (form.0@, form.1@)),
                forall|q: int| 0 <= q < p ==> (#[trigger] node_ids@[q])@ == g.spec_nodes()[form.0@[q] as int].id@,
            decreases form.0.len() - p,
        {
            node_ids.push(g.node_id(form.0[p]).clone());
            p = p + 1;
        }
        let mut edge_ids: Vec<EdgeId> = Vec::new();
        let mut p: usize = 0;
        while p < form.1.len()
            invariant
                p <= form.1.len(),
                edge_ids.len() == p,
                form_in_range(*g, (form.0@, form.1@)),
                forall|q: int| 0 <= q < p ==> (#[trigger] edge_ids@[q])@ == g.spec_edges()[form.1@[q] as int].id@,
            decreases form.1.len() - p,
        {
            edge_ids.push(g.edge_at(form.1[p]).id.copy());
            p = p + 1;
        }
        let cycle = Cycle { node_ids, edge_ids };
        assert(cycle_names(cycle).0 =~= form_names(*g, (form.0@, form.1@)).0);
        assert(cycle_names(cycle).1 =~= form_names(*g, (form.0@, form.1@)).1);
        cycles.push(cycle);
        i = i + 1;
    }
    cycles
}

/// Every bounded simple cycle that starts at `v` has its canonical form
/// covered by the store.
pub open spec fn cycles_from_covered(g: Graph, bound: int, store: Seq<(Vec<usize>, Vec<usize>)>, v: usize) -> bool {
    forall|nodes: Seq<usize>, edges: Seq<usize>, f: (Seq<usize>, Seq<usize>)|
        #[trigger] is_bounded_simple_cycle(g, nodes, edges, bound) && nodes[0] == v
            && #[trigger] is_canonical_form(g.spec_kind().directed(), nodes, edges, f) ==> covers(store, f)
}

/// The forms describe every bounded simple cycle: each cycle's canonical node
/// sequence is among them, with an edge sequence no greater than its own.
pub open spec fn forms_complete(g: Graph, bound: int, forms: Seq<(Seq<usize>, Seq<usize>)>) -> bool {
    forall|nodes: Seq<usize>, edges: Seq<usize>, f: (Seq<usize>, Seq<usize>)|
        #[trigger] is_bounded_simple_cycle(g, nodes, edges, bound) && #[trigger] is_canonical_form(g.spec_kind().directed(), nodes, edges, f)
            ==> exists|i: int| 0 <= i < forms.len() && (#[trigger] forms[i]).0 == f.0 && (forms[i].1 == f.1 || seq_lt(forms[i].1, f.1))
}

/// `u` and `v` reach each other.
pub open spec fn linked(g: Graph, u: usize, v: usize) -> bool {
    reaches(g, u, v) && reaches(g, v, u)
}

/// Some node linked with `x` is smaller than every node linked with `y`:
/// the search, which takes the classes of linked nodes in order of their
/// least node, meets the class of `x` before the class of `y`.
pub open spec fn class_before(g: Graph, x: usize, y: usize) -> bool {
    exists|u: usize| #[trigger] linked(g, u, x) && forall|w: usize| #[trigger] linked(g, w, y) ==> u < w
}

/// Every cycle the forms leave out lies in a class that the search meets no
/// earlier than the class of any kept form.
pub open spec fn forms_cut(g: Graph, bound: int, forms: Seq<(Seq<usize>, Seq<usize>)>) -> bool {
    forall|i: int, nodes: Seq<usize>, edges: Seq<usize>, f: (Seq<usize>, Seq<usize>)|
        0 <= i < forms.len() && #[trigger] is_bounded_simple_cycle(g, nodes, edges, bound)
            && #[trigger] is_canonical_form(g.spec_kind().directed(), nodes, edges, f)
            && !(exists|k: int| 0 <= k < forms.len() && #[trigger] forms[k].0 == f.0 && (forms[k].1 == f.1 || seq_lt(forms[k].1, f.1)))
            ==> !class_before(g, nodes[0], (#[trigger] forms[i]).0[0])
}

/// The components are the classes of linked nodes, each headed by its least
/// node, in increasing order of that node.
pub open spec fn search_classes(g: Graph, c: Seq<Vec<usize>>) -> bool {
    &&& strong_groups(g, c)
    &&& forall|i: int, j: int| 0 <= i < j < c.len() ==> (#[trigger] c[i])@[0] < (#[trigger] c[j])@[0]
    &&& forall|i: int, p: int| 0 <= i < c.len() && 0 <= p < c[i]@.len() ==> c[i]@[0] <= #[trigger] c[i]@[p]
}

/// Every stored node sequence starts in one of the first `ci` components.
spec fn store_placed(components: Seq<Vec<usize>>, ci: int, store: Seq<(Vec<usize>, Vec<usize>)>) -> bool {
    forall|k: int| 0 <= k < store.len() ==> exists|j: int, p: int|
        0 <= j < ci && 0 <= p < components[j]@.len() && #[trigger] components[j]@[p] == (#[trigger] store[k]).0@[0]
}

/// A node that reaches another node is a node of the graph.
proof fn lemma_reaching_node_in_range(g: Graph, u: usize, v: usize)
    requires
        g.wf(),
        reaches(g, u, v),
        u != v,
    ensures
        u < g.spec_nodes().len(),
{
    let walk = choose|walk: Seq<usize>| #[trigger] is_out_walk(g, walk) && walk[0] == u && walk.last() == v;
    assert(walk.len() >= 2);
    assert(steps_to(g, walk[0], walk[1]));
    let e = choose|e: usize| #[trigger] out_step(g, walk[0], walk[1], e);
    assert(is_traversal_arc(g.spec_endpoints(), g.spec_kind(), u as int, TraversalDirection::Out, ArcRef { neighbor: walk[1], edge: e }));
}

/// When the cap stops the search in component `c0`, the components before
/// it are fully covered and every kept form starts no later: so no cycle
/// left out lies in a class met before that of a kept form.
proof fn lemma_truncated_cut(
    g: Graph,
    bound: int,
    components: Seq<Vec<usize>>,
    store: Seq<(Vec<usize>, Vec<usize>)>,
    c0: int,
)
    requires
        g.wf(),
        is_partition(components, g.spec_nodes().len() as int),
        search_classes(g, components),
        0 <= c0 < components.len(),
        forall|i: int, q: int| 0 <= i < c0 && 0 <= q < components[i]@.len()
            ==> cycles_from_covered(g, bound, store, #[trigger] components[i]@[q]),
        store_placed(components, c0 + 1, store),
    ensures
        forms_cut(g, bound, store_forms(store)),
{
    let forms = store_forms(store);
    let n = g.spec_nodes().len();
    assert forall|i: int, nodes: Seq<usize>, edges: Seq<usize>, f: (Seq<usize>, Seq<usize>)|
        0 <= i < forms.len() && #[trigger] is_bounded_simple_cycle(g, nodes, edges, bound)
            && #[trigger] is_canonical_form(g.spec_kind().directed(), nodes, edges, f)
            && !(exists|k: int| 0 <= k < forms.len() && #[trigger] forms[k].0 == f.0 && (forms[k].1 == f.1 || seq_lt(forms[k].1, f.1)))
            implies !class_before(g, nodes[0], (#[trigger] forms[i]).0[0]) by {
        let x = nodes[0];
        let y = store[i].0@[0];
        assert(forms[i].0 == store[i].0@);
        if class_before(g, x, y) {
            let u = choose|u: usize| #[trigger] linked(g, u, x) && forall|w: usize| #[trigger] linked(g, w, y) ==> u < w;
            assert(x < n);
            assert(covered(components, x as int));
            let (i1, q1) = choose|i1: int, q1: int| 0 <= i1 < components.len() && 0 <= q1 < components[i1]@.len() && #[trigger] components[i1]@[q1] == x as int;
            if i1 < c0 {
                assert(cycles_from_covered(g, bound, store, components[i1]@[q1]));
                assert(covers(store, f));
                let k = choose|k: int| 0 <= k < store.len() && #[trigger] store[k].0@ == f.0 && (store[k].1@ == f.1 || seq_lt(store[k].1@, f.1));
                assert(forms[k].0 == f.0 && forms[k].1 == store[k].1@);
            }
            let (j, p) = choose|j: int, p: int| 0 <= j < c0 + 1 && 0 <= p < components[j]@.len() && #[trigger] components[j]@[p] == (#[trigger] store[i]).0@[0];
            // u lies in the class of x
            assert(components[i1]@.contains(u)) by {
                if u == x {
                    assert(components[i1]@[q1] == u);
                } else {
                    lemma_reaching_node_in_range(g, u, x);
                    assert(covered(components, u as int));
                    let (i2, q2) = choose|i2: int, q2: int| 0 <= i2 < components.len() && 0 <= q2 < components[i2]@.len() && #[trigger] components[i2]@[q2] == u as int;
                    assert(reaches(g, components[i2]@[q2], components[i1]@[q1]) && reaches(g, components[i1]@[q1], components[i2]@[q2]));
                    assert(i2 == i1);
                    assert(components[i1]@[q2] == u);
                }
            }
            let pu = choose|q: int| 0 <= q < components[i1]@.len() && components[i1]@[q] == u;
            assert(components[i1]@[pu] == u);
            assert(components[i1]@[0] <= components[i1]@[pu]);
            // the head of the class of y is linked with y
            let w = components[j]@[0];
            assert(0 <= 0int < components[j]@.len());
            assert(reaches(g, components[j]@[0], components[j]@[p]) && reaches(g, components[j]@[p], components[j]@[0]));
            assert(linked(g, w, y));
            assert(u < w);
            if j < i1 {
                assert(components[j]@[0] < components[i1]@[0]);
            }
        }
    }
}

/// Covering survives growing the store.
proof fn lemma_cycles_from_covered_grows(g: Graph, bound: int, s1: Seq<(Vec<usize>, Vec<usize>)>, s2: Seq<(Vec<usize>, Vec<usize>)>, v: usize)
    requires
        forall|f: (Seq<usize>, Seq<usize>)| #[trigger] covers(s1, f) ==> covers(s2, f),
        cycles_from_covered(g, bound, s1, v),
    ensures
        cycles_from_covered(g, bound, s2, v),
{
    assert forall|nodes: Seq<usize>, edges: Seq<usize>, f: (Seq<usize>, Seq<usize>)|
        #[trigger] is_bounded_simple_cycle(g, nodes, edges, bound) && nodes[0] == v
            && #[trigger] is_canonical_form(g.spec_kind().directed(), nodes, edges, f) implies covers(s2, f) by {
        assert(covers(s1, f));
    }
}

/// A cycle that starts in a closed group stays in it.
proof fn lemma_cycle_in_group(g: Graph, c: Seq<usize>, nodes: Seq<usize>, edges: Seq<usize>, bound: int, i: int)
    requires
        group_closed(g, c),
        is_bounded_simple_cycle(g, nodes, edges, bound),
        c.contains(nodes[0]),
        g.spec_endpoints().len() == g.spec_edges().len(),
        0 <= i < nodes.len(),
    ensures
        c.contains(nodes[i]),
    decreases i,
{
    if i > 0 {
        lemma_cycle_in_group(g, c, nodes, edges, bound, i - 1);
        let l = nodes.len() as int;
        vstd::arithmetic::div_mod::lemma_small_mod(i as nat, l as nat);
        assert(joins(g, nodes[i - 1] as int, nodes[(i - 1 + 1) % l] as int, edges[i - 1] as int));
        let a = ArcRef { neighbor: nodes[i], edge: edges[i - 1] };
        assert(is_traversal_arc(g.spec_endpoints(), g.spec_kind(), nodes[i - 1] as int, TraversalDirection::Both, a));
        let p = choose|p: int| 0 <= p < c.len() && c[p] == nodes[i - 1];
        assert(is_traversal_arc(g.spec_endpoints(), g.spec_kind(), c[p] as int, TraversalDirection::Both, a));
    }
}

/// Every simple cycle that starts in group `c` keeps to `c`.
pub open spec fn cycles_stay(g: Graph, c: Seq<usize>) -> bool {
    forall|nodes: Seq<usize>, edges: Seq<usize>, bound: int, i: int|
        #[trigger] is_bounded_simple_cycle(g, nodes, edges, bound) && c.contains(nodes[0]) && 0 <= i < nodes.len()
            ==> c.contains(#[trigger] nodes[i])
}

/// A group closed under arcs followed either way keeps every cycle that
/// starts in it.
proof fn lemma_closed_group_keeps_cycles(g: Graph, c: Seq<usize>)
    requires
        group_closed(g, c),
        g.spec_endpoints().len() == g.spec_edges().len(),
    ensures
        cycles_stay(g, c),
{
    assert forall|nodes: Seq<usize>, edges: Seq<usize>, bound: int, i: int|
        #[trigger] is_bounded_simple_cycle(g, nodes, edges, bound) && c.contains(nodes[0]) && 0 <= i < nodes.len()
            implies c.contains(#[trigger] nodes[i]) by {
        lemma_cycle_in_group(g, c, nodes, edges, bound, i);
    }
}

/// Search from `start` covers every cycle from `start` that stays in the
/// closed group whose members the mask marks.
proof fn lemma_start_covered(
    g: Graph,
    bound: int,
    c: Seq<usize>,
    mask: Seq<bool>,
    start: usize,
    store: Seq<(Vec<usize>, Vec<usize>)>,
)
    requires
        cycles_stay(g, c),
        c.contains(start),
        mask.len() == g.spec_nodes().len(),
        forall|v: int| 0 <= v < mask.len() ==> (#[trigger] mask[v] <==> c.contains(v as usize)),
        continuations_covered(g, bound, mask, seq![start], Seq::<usize>::empty(), store),
    ensures
        cycles_from_covered(g, bound, store, start),
{
    assert forall|nodes: Seq<usize>, edges: Seq<usize>, f: (Seq<usize>, Seq<usize>)|
        #[trigger] is_bounded_simple_cycle(g, nodes, edges, bound) && nodes[0] == start
            && #[trigger] is_canonical_form(g.spec_kind().directed(), nodes, edges, f) implies covers(store, f) by {
        assert forall|i: int| 0 <= i < nodes.len() implies #[trigger] mask[nodes[i] as int] by {
            assert(c.contains(nodes[i]));
        }
        assert(nodes.take(1) =~= seq![start]);
        assert(edges.take(0) =~= Seq::<usize>::empty());
        assert(continues_path(g, bound, mask, seq![start], Seq::<usize>::empty(), nodes, edges));
    }
}

/// A closed group of one node without a self-loop starts no cycle.
proof fn lemma_lone_node_acyclic(g: Graph, c: Seq<usize>, bound: int, store: Seq<(Vec<usize>, Vec<usize>)>)
    requires
        cycles_stay(g, c),
        c.len() == 1,
        !has_self_loop(g, c[0] as int),
    ensures
        cycles_from_covered(g, bound, store, c[0]),
{
    assert forall|nodes: Seq<usize>, edges: Seq<usize>, f: (Seq<usize>, Seq<usize>)|
        #[trigger] is_bounded_simple_cycle(g, nodes, edges, bound) && nodes[0] == c[0]
            && #[trigger] is_canonical_form(g.spec_kind().directed(), nodes, edges, f) implies covers(store, f) by {
        assert(c.contains(nodes[0]));
        if nodes.len() > 1 {
            assert(c.contains(nodes[1]));
            assert(nodes[1] == c[0]);
        } else {
            vstd::arithmetic::div_mod::lemma_mod_self_0(1int);
            assert(joins(g, nodes[0] as int, nodes[(0int + 1) % 1int] as int, edges[0] as int));
            assert(has_self_loop(g, c[0] as int));
        }
    }
}

impl Graph {
    /// Enumerate bounded simple cycles with in-search pruning.
    ///
    /// Each returned cycle is the least way (by node identities, then edge
    /// identities, over all rotations and, in an undirected graph, both
    /// directions) to write a simple cycle of at most `length_bound` edges;
    /// the cycles come in strictly increasing order of their node sequences.
    /// `truncated` is set exactly when the cap on cycles was reached. An
    /// untruncated result lists every such cycle, with the least edge
    /// sequence among the cycles through the same nodes. The search takes
    /// the classes of mutually reachable nodes in order of their least node,
    /// so a truncated result leaves out no cycle whose class comes before
    /// the class of a cycle it keeps.
    pub fn simple_cycles(&self, options: CycleOptions) -> (r: CycleResult)
        requires
            self.wf(),
        ensures
            exists|forms: Seq<(Seq<usize>, Seq<usize>)>| #[trigger] forms_describe(*self, options.length_bound.spec_get() as int, forms, r.cycles@)
                && (!r.truncated ==> forms_complete(*self, options.length_bound.spec_get() as int, forms))
                && (r.truncated ==> forms_cut(*self, options.length_bound.spec_get() as int, forms)),
            r.truncated ==> (options.max_cycles matches Some(k) && k.spec_get() == r.cycles.len()),
            !r.truncated ==> !limit_reached(options, r.cycles.len() as int),
    {
        let directed = self.is_directed();
        let components = if directed {
            strongly_connected_components(self)
        } else {
            connected_components(self)
        };
        let n = self.node_count();
        let bound = options.length_bound.get();
        proof {
            if !directed {
                assert forall|i: int| 0 <= i < components.len() implies cycles_stay(*self, (#[trigger] components@[i])@) by {
                    lemma_closed_group_keeps_cycles(*self, components@[i]@);
                }
            } else {
                assert forall|i: int, p: int| 0 <= i < components.len() && 0 <= p < components@[i]@.len()
                    implies components@[i]@[0] <= #[trigger] components@[i]@[p] by {
                    if p > 0 {
                        assert(strictly_increasing(components@[i]@));
                        assert(components@[i]@[0] < components@[i]@[p]);
                    }
                }
            }
            assert(search_classes(*self, components@));
        }
        let mut canonical: Vec<(Vec<usize>, Vec<usize>)> = Vec::new();
        let mut truncated = cap_reached(options, 0);
        assert(!truncated);
        let mut ci: usize = 0;
        while ci < components.len() && !truncated
            invariant
                self.wf(),
                n == self.spec_nodes().len(),
                bound == options.length_bound.spec_get(),
                bound >= 1,
                directed == self.spec_kind().directed(),
                is_partition(components@, n as int),
                forall|i: int| 0 <= i < components.len() ==> cycles_stay(*self, (#[trigger] components@[i])@),
                ci <= components.len(),
                store_wf(*self, bound as int, canonical@),
                truncated == limit_reached(options, canonical.len() as int),
                options.max_cycles matches Some(k) ==> canonical.len() <= k.spec_get(),
                !truncated ==> forall|i: int, q: int| 0 <= i < ci && 0 <= q < components@[i]@.len()
                    ==> cycles_from_covered(*self, bound as int, canonical@, #[trigger] components@[i]@[q]),
                truncated ==> ci >= 1 && forall|i: int, q: int| 0 <= i < ci - 1 && 0 <= q < components@[i]@.len()
                    ==> cycles_from_covered(*self, bound as int, canonical@, #[trigger] components@[i]@[q]),
                store_placed(components@, ci as int, canonical@),
                search_classes(*self, components@),
            decreases components.len() - ci,
        {
            let component = &components[ci];
            let ghost ci0 = ci as int;
            assert(component@.len() > 0);
            ci = ci + 1;
            if component.len() == 1 && !self_loop_at(self, component[0]) {
                proof {
                    assert forall|k: int| 0 <= k < canonical@.len() implies exists|j: int, p: int|
                        0 <= j < ci && 0 <= p < components@[j]@.len() && #[trigger] components@[j]@[p] == (#[trigger] canonical@[k]).0@[0] by {
                        let (j, p) = choose|j: int, p: int| 0 <= j < ci0 && 0 <= p < components@[j]@.len() && #[trigger] components@[j]@[p] == (#[trigger] canonical@[k]).0@[0];
                    }
                    {
                        lemma_lone_node_acyclic(*self, component@, bound as int, canonical@);
                        assert forall|i: int, q: int| 0 <= i < ci && 0 <= q < components@[i]@.len()
                            implies cycles_from_covered(*self, bound as int, canonical@, #[trigger] components@[i]@[q]) by {
                            if i == ci0 {
                                assert(q == 0);
                            }
                        }
                    }
                }
                continue;
            }
            let mut mask = cleared_flags(n);
            let mut p: usize = 0;
            while p < component.len()
                invariant
                    p <= component.len(),
                    mask.len() == n,
                    forall|q: int| 0 <= q < component@.len() ==> #[trigger] component@[q] < n,
                    forall|v: int| 0 <= v < n ==> (#[trigger] mask@[v] <==> component@.take(p as int).contains(v as usize)),
                decreases component.len() - p,
            {
                let ghost before = mask@;
                mask.set(component[p], true);
                proof {
                    let t = component@.take(p + 1);
                    assert forall|v: int| 0 <= v < n implies (#[trigger] mask@[v] <==> t.contains(v as usize)) by {
                        if t.contains(v as usize) {
                            let q = choose|q: int| 0 <= q < t.len() && t[q] == v as usize;
                            if q < p {
                                assert(component@.take(p as int)[q] == v as usize);
                            }
                        }
                        if component@.take(p as int).contains(v as usize) {
                            let q = choose|q: int| 0 <= q < p && component@.take(p as int)[q] == v as usize;
                            assert(t[q] == v as usize);
                        }
                        if v == component@[p as int] {
                            assert(t[p as int] == v as usize);
                        }
                    }
                }
                p = p + 1;
            }
            assert(component@.take(p as int) =~= component@);
            let mut p: usize = 0;
            while p < component.len() && !truncated
                invariant
                    self.wf(),
                    n == self.spec_nodes().len(),
                    bound == options.length_bound.spec_get(),
                    bound >= 1,
                    directed == self.spec_kind().directed(),
                        p <= component.len(),
                    mask.len() == n,
                    ci == ci0 + 1,
                    0 <= ci0 < components.len(),
                    component == components@[ci0],
                    forall|q: int| 0 <= q < component@.len() ==> #[trigger] component@[q] < n,
                    forall|v: int| 0 <= v < n ==> (#[trigger] mask@[v] <==> component@.contains(v as usize)),
                    forall|i: int| 0 <= i < components.len() ==> cycles_stay(*self, (#[trigger] components@[i])@),
                    store_wf(*self, bound as int, canonical@),
                    truncated == limit_reached(options, canonical.len() as int),
                    options.max_cycles matches Some(k) ==> canonical.len() <= k.spec_get(),
                    !truncated ==> forall|i: int, q: int| 0 <= i < ci0 && 0 <= q < components@[i]@.len()
                        ==> cycles_from_covered(*self, bound as int, canonical@, #[trigger] components@[i]@[q]),
                    !truncated ==> forall|q: int| 0 <= q < p
                        ==> cycles_from_covered(*self, bound as int, canonical@, #[trigger] component@[q]),
                    forall|i: int, q: int| 0 <= i < ci0 && 0 <= q < components@[i]@.len()
                        ==> cycles_from_covered(*self, bound as int, canonical@, #[trigger] components@[i]@[q]),
                    store_placed(components@, ci as int, canonical@),
                decreases component.len() - p,
            {
                let start = component[p];
                let ghost p0 = p as int;
                p = p + 1;
                let mut in_path = cleared_flags(n);
                in_path.set(start, true);
                let mut path_nodes: Vec<usize> = Vec::new();
                path_nodes.push(start);
                let mut path_edges: Vec<usize> = Vec::new();
                proof {
                    let pn = path_nodes@;
                    assert(pn.len() == 1 && pn[0] == start);
                    assert forall|v: int| 0 <= v < in_path@.len() implies (#[trigger] in_path@[v] <== pn.contains(v as usize)) by {
                        if pn.contains(v as usize) {
                            let q = choose|q: int| 0 <= q < pn.len() && pn[q] == v as usize;
                            assert(q == 0);
                        }
                    }
                    assert forall|v: int| 0 <= v < in_path@.len() implies (#[trigger] in_path@[v] ==> pn.contains(v as usize)) by {
                        if in_path@[v] {
                            assert(v == start);
                            assert(pn[0] == v as usize);
                        }
                    }
                    assert(distinct(pn));
                    assert(distinct(path_edges@));
                    assert(path_wf(*self, start as int, start as int, in_path@, pn, path_edges@));
                    assert(pn =~= seq![start]);
                    assert(path_edges@ =~= Seq::<usize>::empty());
                }
                let ghost store_before = canonical@;
                let stop = enumerate_cycles_from(
                    self,
                    start,
                    start,
                    &mask,
                    options,
                    &mut in_path,
                    &mut path_nodes,
                    &mut path_edges,
                    &mut canonical,
                );
                truncated = stop;
                proof {
                    assert forall|i: int, q: int| 0 <= i < ci0 && 0 <= q < components@[i]@.len()
                        implies cycles_from_covered(*self, bound as int, canonical@, #[trigger] components@[i]@[q]) by {
                        lemma_cycles_from_covered_grows(*self, bound as int, store_before, canonical@, components@[i]@[q]);
                    }
                    assert forall|k: int| 0 <= k < canonical@.len() implies exists|j: int, p: int|
                        0 <= j < ci && 0 <= p < components@[j]@.len() && #[trigger] components@[j]@[p] == (#[trigger] canonical@[k]).0@[0] by {
                        if holds_nodes(store_before, canonical@[k].0@) {
                            let m = choose|m: int| 0 <= m < store_before.len() && #[trigger] store_before[m].0@ == canonical@[k].0@;
                            let (j, p) = choose|j: int, p: int| 0 <= j < ci && 0 <= p < components@[j]@.len() && #[trigger] components@[j]@[p] == (#[trigger] store_before[m]).0@[0];
                        } else {
                            assert(mask@[canonical@[k].0@[0] as int]);
                            assert(component@.contains(canonical@[k].0@[0]));
                            let p = choose|p: int| 0 <= p < component@.len() && component@[p] == canonical@[k].0@[0];
                            assert(components@[ci0]@[p] == canonical@[k].0@[0]);
                        }
                    }
                    if !truncated {
                        assert(component@.contains(start)) by {
                            assert(component@[p0] == start);
                        }
                        lemma_start_covered(*self, bound as int, component@, mask@, start, canonical@);
                        assert forall|i: int, q: int| 0 <= i < ci0 && 0 <= q < components@[i]@.len()
                            implies cycles_from_covered(*self, bound as int, canonical@, #[trigger] components@[i]@[q]) by {
                            lemma_cycles_from_covered_grows(*self, bound as int, store_before, canonical@, components@[i]@[q]);
                        }
                        assert forall|q: int| 0 <= q < p implies cycles_from_covered(*self, bound as int, canonical@, #[trigger] component@[q]) by {
                            if q < p0 {
                                lemma_cycles_from_covered_grows(*self, bound as int, store_before, canonical@, component@[q]);
                            }
                        }
                    }
                }
            }
            proof {
                if !truncated {
                    assert forall|i: int, q: int| 0 <= i < ci && 0 <= q < components@[i]@.len()
                        implies cycles_from_covered(*self, bound as int, canonical@, #[trigger] components@[i]@[q]) by {
                        if i == ci0 {
                            assert(components@[i]@[q] == component@[q]);
                        }
                    }
                }
            }
        }
        let cycles = name_cycles(self, &canonical);
        let ghost forms = store_forms(canonical@);
        proof {
            if truncated {
                lemma_truncated_cut(*self, bound as int, components@, canonical@, ci - 1);
            }
            assert(forms_describe(*self, bound as int, forms, cycles@));
            if !truncated {
                assert forall|nodes: Seq<usize>, edges: Seq<usize>, f: (Seq<usize>, Seq<usize>)|
                    #[trigger] is_bounded_simple_cycle(*self, nodes, edges, bound as int) && #[trigger] is_canonical_form(self.spec_kind().directed(), nodes, edges, f)
                        implies exists|i: int| 0 <= i < forms.len() && (#[trigger] forms[i]).0 == f.0 && (forms[i].1 == f.1 || seq_lt(forms[i].1, f.1)) by {
                    assert(nodes[0] < n);
                    assert(covered(components@, nodes[0] as int));
                    let (i, q) = choose|i: int, q: int| 0 <= i < components@.len() && 0 <= q < components@[i]@.len() && #[trigger] components@[i]@[q] == nodes[0] as int;
                    assert(cycles_from_covered(*self, bound as int, canonical@, components@[i]@[q]));
                    assert(covers(canonical@, f));
                    let j = choose|j: int| 0 <= j < canonical@.len() && #[trigger] canonical@[j].0@ == f.0 && (canonical@[j].1@ == f.1 || seq_lt(canonical@[j].1@, f.1));
                    assert(forms[j].0 == canonical@[j].0@);
                }
                assert(forms_complete(*self, bound as int, forms));
            }
        }
        let r = CycleResult { cycles, truncated };
        assert(forms_describe(*self, options.length_bound.spec_get() as int, forms, r.cycles@)
            && (!r.truncated ==> forms_complete(*self, options.length_bound.spec_get() as int, forms))
            && (r.truncated ==> forms_cut(*self, options.length_bound.spec_get() as int, forms)));
        r
    }
}

} // verus!
