//! The discrete side of Louvain and Leiden community detection: options,
//! canonical labelling of partitions, lifting a partition of aggregated nodes
//! back to the original nodes, and the canonical community list.
use std::collections::BTreeMap;

use vstd::prelude::*;

use crate::count::PositiveCount;
use crate::graph::{Graph, lemma_sorted_ids_distinct};
use crate::order::{Comparison, compare_str, lemma_lex_lt_strict, lemma_str_lt_strict, lex_lt, str_lt};
use crate::model::{GraphError, NodeId};
use crate::weight::{NonNegativeFiniteF64, PositiveFiniteF64, is_non_negative_finite_bits, is_positive_finite_bits, ONE_BITS};

verus! {

broadcast use vstd::std_specs::btree::group_btree_axioms, vstd::laws_cmp::group_laws_cmp;

/// Bit pattern of the `f64` value 0.0001.
pub const TEN_THOUSANDTH_BITS: u64 = 0x3f1a_36e2_eb1c_432du64;

/// Bit pattern of the `f64` value 0.001.
pub const THOUSANDTH_BITS: u64 = 0x3f50_624d_d2f1_a9fcu64;

/// Proper weighted multi-level Louvain options.
#[derive(Debug, Clone, Copy, PartialEq, Eq, Structural)]
pub struct LouvainOptions {
    /// Positive finite modularity resolution.
    pub resolution: PositiveFiniteF64,
    /// Non-negative finite minimum modularity improvement.
    pub threshold: NonNegativeFiniteF64,
    /// Deterministic node-visit seed.
    pub seed: u64,
    /// Maximum aggregation levels.
    pub max_levels: PositiveCount,
}

impl Default for LouvainOptions {
    fn default() -> (r: Self)
        ensures
            r.resolution.spec_bits() == ONE_BITS,
            r.threshold.spec_bits() == TEN_THOUSANDTH_BITS,
            r.seed == 42,
            r.max_levels.spec_get() == 10,
    {
        assert(is_positive_finite_bits(ONE_BITS)) by (bit_vector);
        assert(is_non_negative_finite_bits(TEN_THOUSANDTH_BITS)) by (bit_vector);
        Self {
            resolution: PositiveFiniteF64::known(ONE_BITS),
            threshold: NonNegativeFiniteF64::known(TEN_THOUSANDTH_BITS),
            seed: 42,
            max_levels: PositiveCount::known(10),
        }
    }
}

/// Weighted Leiden options matching Graphify's graspologic defaults while
/// making convergence work explicitly bounded.
#[derive(Debug, Clone, Copy, PartialEq, Eq, Structural)]
pub struct LeidenOptions {
    /// Positive finite modularity resolution.
    pub resolution: PositiveFiniteF64,
    /// Positive finite stochastic refinement temperature.
    pub randomness: PositiveFiniteF64,
    /// Deterministic base seed.
    pub seed: u64,
    /// Independent starts; the highest-quality canonical partition wins.
    pub trials: PositiveCount,
    /// Maximum local-moving sweeps at each level.
    pub max_iterations: PositiveCount,
    /// Maximum refinement and aggregation levels.
    pub max_levels: PositiveCount,
}

impl Default for LeidenOptions {
    fn default() -> (r: Self)
        ensures
            r.resolution.spec_bits() == ONE_BITS,
            r.randomness.spec_bits() == THOUSANDTH_BITS,
            r.seed == 42,
            r.trials.spec_get() == 1,
            r.max_iterations.spec_get() == 100,
            r.max_levels.spec_get() == 10,
    {
        assert(is_positive_finite_bits(ONE_BITS)) by (bit_vector);
        assert(is_positive_finite_bits(THOUSANDTH_BITS)) by (bit_vector);
        Self {
            resolution: PositiveFiniteF64::known(ONE_BITS),
            randomness: PositiveFiniteF64::known(THOUSANDTH_BITS),
            seed: 42,
            trials: PositiveCount::known(1),
            max_iterations: PositiveCount::known(100),
            max_levels: PositiveCount::known(10),
        }
    }
}

/// One canonical community.
#[derive(Debug, Clone, PartialEq, Eq, PartialOrd, Ord)]
pub struct Community {
    /// Stable ID equal to the lexicographically smallest member.
    pub id: NodeId,
    /// Members in deterministic ID order.
    pub node_ids: Vec<NodeId>,
}

/// The message that rejects a directed graph for `algorithm`.
pub open spec fn undirected_message(algorithm: Seq<char>) -> Seq<char> {
    algorithm + " requires an explicit undirected graph view"@
}

/// Community detection needs an undirected graph.
pub fn validate_community_graph(graph: &Graph, algorithm: &str) -> (r: Result<(), GraphError>)
    ensures
        r is Ok <==> !graph.spec_kind().directed(),
        r matches Err(e) ==> (e matches GraphError::InvalidOption(m) && m@ == undirected_message(algorithm@)),
{
    if graph.is_directed() {
        let mut message = String::from_str(algorithm);
        message.append(" requires an explicit undirected graph view");
        proof {
            reveal_strlit(" requires an explicit undirected graph view");
        }
        return Err(GraphError::InvalidOption(message));
    }
    Ok(())
}

/// Seed of Leiden trial `trial`: the base seed plus the trial index times a
/// fixed odd constant, wrapping.
pub open spec fn trial_seed_spec(seed: u64, trial: u64) -> u64 {
    vstd::wrapping::u64_specs::wrapping_add(seed, vstd::wrapping::u64_specs::wrapping_mul(trial, 0x9e37_79b9_7f4a_7c15u64))
}

/// The seed of one Leiden trial.
pub fn trial_seed(seed: u64, trial: u64) -> (r: u64)
    ensures
        r == trial_seed_spec(seed, trial),
{
    seed.wrapping_add(trial.wrapping_mul(0x9e37_79b9_7f4a_7c15u64))
}

/// No earlier position holds the value at position `i`.
pub open spec fn first_occurrence(s: Seq<usize>, i: int) -> bool {
    forall|j: int| 0 <= j < i ==> s[j] != s[i]
}

/// The number of distinct values among the first `i` positions.
pub open spec fn fresh_count(s: Seq<usize>, i: int) -> nat
    decreases i,
{
    if i <= 0 {
        0
    } else {
        fresh_count(s, i - 1) + if first_occurrence(s, i - 1) { 1nat } else { 0nat }
    }
}

/// `r` relabels `s` by first occurrence: equal values share a label, and the
/// value first met `c`-th is labelled `c`.
pub open spec fn relabelled(s: Seq<usize>, r: Seq<usize>) -> bool {
    &&& r.len() == s.len()
    &&& forall|i: int| 0 <= i < s.len() ==> #[trigger] r[i] < fresh_count(s, s.len() as int)
    &&& forall|i: int, j: int| 0 <= i < s.len() && 0 <= j < s.len() ==> (#[trigger] r[i] == #[trigger] r[j] <==> s[i] == s[j])
    &&& forall|i: int| 0 <= i < s.len() && #[trigger] first_occurrence(s, i) ==> r[i] == fresh_count(s, i)
}

/// Counting distinct values never decreases along the sequence.
proof fn lemma_fresh_count_monotone(s: Seq<usize>, i: int, j: int)
    requires
        0 <= i <= j,
    ensures
        fresh_count(s, i) <= fresh_count(s, j),
    decreases j - i,
{
    if i < j {
        lemma_fresh_count_monotone(s, i, j - 1);
    }
}

/// Where a value first occurs.
proof fn lemma_first_position(s: Seq<usize>, i: int) -> (j: int)
    requires
        0 <= i < s.len(),
    ensures
        0 <= j <= i,
        s[j] == s[i],
        first_occurrence(s, j),
    decreases i,
{
    if first_occurrence(s, i) {
        i
    } else {
        let k = choose|k: int| 0 <= k < i && s[k] == s[i];
        lemma_first_position(s, k)
    }
}

/// Relabel communities by first occurrence: `0, 1, 2, …` in the order in
/// which distinct community values are first met.
pub fn compress_communities(communities: &[usize]) -> (r: Vec<usize>)
    ensures
        relabelled(communities@, r@),
{
    let ghost s = communities@;
    let ghost mut seen: Seq<usize> = Seq::empty();
    let mut remap: BTreeMap<usize, usize> = BTreeMap::new();
    let mut next: usize = 0;
    let mut r: Vec<usize> = Vec::new();
    let mut i: usize = 0;
    while i < communities.len()
        invariant
            s == communities@,
            i <= s.len(),
            r.len() == i,
            next == seen.len(),
            next <= i,
            seen.no_duplicates(),
            seen.len() == fresh_count(s, i as int),
            forall|x: usize| #[trigger] remap@.contains_key(x) <==> seen.contains(x),
            forall|p: int| 0 <= p < seen.len() ==> remap@[#[trigger] seen[p]] == p,
            forall|j: int| 0 <= j < i ==> #[trigger] r@[j] < seen.len() && seen[r@[j] as int] == s[j],
            forall|p: int| 0 <= p < seen.len() ==> exists|j: int| 0 <= j < i && s[j] == #[trigger] seen[p],
            forall|j: int| 0 <= j < i && #[trigger] first_occurrence(s, j) ==> r@[j] == fresh_count(s, j),
        decreases s.len() - i,
    {
        let x = communities[i];
        let found = match remap.get(&x) {
            Some(label) => Some(*label),
            None => None,
        };
        match found {
            None => {
                proof {
                    assert(!seen.contains(x));
                    assert(first_occurrence(s, i as int)) by {
                        assert forall|j: int| 0 <= j < i implies s[j] != s[i as int] by {
                            assert(seen[r@[j] as int] == s[j]);
                        }
                    }
                }
                let p = next;
                remap.insert(x, p);
                r.push(p);
                proof {
                    let seen0 = seen;
                    seen = seen.push(x);
                    assert(seen.no_duplicates()) by {
                        assert forall|a: int, b: int| 0 <= a < seen.len() && 0 <= b < seen.len() && a != b implies seen[a] != seen[b] by {
                            if a < p && b < p {
                                assert(seen[a] == seen0[a] && seen[b] == seen0[b]);
                            } else if a < p {
                                assert(seen[a] == seen0[a]);
                                assert(seen0.contains(seen0[a]));
                            } else {
                                assert(seen[b] == seen0[b]);
                                assert(seen0.contains(seen0[b]));
                            }
                        }
                    }
                    assert forall|y: usize| #[trigger] remap@.contains_key(y) <== seen.contains(y) by {
                        if seen.contains(y) {
                            let q = choose|q: int| 0 <= q < seen.len() && seen[q] == y;
                            if q < p {
                                assert(seen0[q] == y);
                                assert(seen0.contains(y));
                            }
                        }
                    }
                    assert forall|y: usize| #[trigger] remap@.contains_key(y) ==> seen.contains(y) by {
                        if remap@.contains_key(y) && y != x {
                            assert(seen0.contains(y));
                            let q = choose|q: int| 0 <= q < seen0.len() && seen0[q] == y;
                            assert(seen[q] == y);
                        }
                        if y == x {
                            assert(seen[p as int] == x);
                        }
                    }
                    assert forall|q: int| 0 <= q < seen.len() implies remap@[#[trigger] seen[q]] == q by {
                        if q < p {
                            assert(seen[q] == seen0[q]);
                            assert(seen0.contains(seen0[q]));
                            assert(seen0[q] != x);
                        }
                    }
                    assert forall|j: int| 0 <= j < i + 1 implies #[trigger] r@[j] < seen.len() && seen[r@[j] as int] == s[j] by {
                        if j < i {
                            assert(seen[r@[j] as int] == seen0[r@[j] as int]);
                        }
                    }
                    assert forall|q: int| 0 <= q < seen.len() implies exists|j: int| 0 <= j < i + 1 && s[j] == #[trigger] seen[q] by {
                        if q < p {
                            let j = choose|j: int| 0 <= j < i && s[j] == seen0[q];
                            assert(s[j] == seen[q]);
                        } else {
                            assert(s[i as int] == seen[q]);
                        }
                    }
                }
                next = next + 1;
            },
            Some(p) => {
                r.push(p);
                proof {
                    assert(remap@.contains_key(x));
                    assert(seen.contains(x));
                    let q = choose|q: int| 0 <= q < seen.len() && seen[q] == x;
                    assert(remap@[seen[q]] == q);
                    let j0 = choose|j: int| 0 <= j < i && s[j] == #[trigger] seen[p as int];
                    assert(!first_occurrence(s, i as int)) by {
                        assert(s[j0] == s[i as int]);
                    }
                    assert forall|q2: int| 0 <= q2 < seen.len() implies exists|j: int| 0 <= j < i + 1 && s[j] == #[trigger] seen[q2] by {
                        let j = choose|j: int| 0 <= j < i && s[j] == seen[q2];
                        assert(s[j] == seen[q2]);
                    }
                }
            },
        }
        i = i + 1;
    }
    proof {
        assert forall|a: int, b: int| 0 <= a < s.len() && 0 <= b < s.len() implies (#[trigger] r@[a] == #[trigger] r@[b] <==> s[a] == s[b]) by {
            if s[a] == s[b] && r@[a] != r@[b] {
                assert(seen[r@[a] as int] == seen[r@[b] as int]);
            }
        }
    }
    r
}

/// The value each original node holds after the members of the first `k`
/// aggregated nodes have been written: the community of the last aggregated
/// node that lists it, or 0.
pub open spec fn lifted(members: Seq<Vec<usize>>, communities: Seq<usize>, n: nat, k: int) -> Seq<usize>
    decreases k,
{
    if k <= 0 {
        Seq::new(n, |o: int| 0usize)
    } else {
        let before = lifted(members, communities, n, k - 1);
        Seq::new(n, |o: int| if members[k - 1]@.contains(o as usize) { communities[k - 1] } else { before[o] })
    }
}

/// Lift a partition of aggregated nodes to the original nodes: every original
/// member of aggregated node `v` takes the community of `v`.
pub fn assignment_for_original_nodes(original_node_count: usize, members: &[Vec<usize>], communities: &[usize]) -> (r: Vec<usize>)
    requires
        members.len() <= communities.len(),
        forall|v: int, p: int| 0 <= v < members.len() && 0 <= p < members@[v]@.len() ==> #[trigger] members@[v]@[p] < original_node_count,
    ensures
        r@ == lifted(members@, communities@, original_node_count as nat, members.len() as int),
{
    let n = original_node_count;
    let mut assignment: Vec<usize> = Vec::new();
    let mut o: usize = 0;
    while o < n
        invariant
            o <= n,
            assignment@ == Seq::new(o as nat, |x: int| 0usize),
        decreases n - o,
    {
        assignment.push(0);
        o = o + 1;
        assert(assignment@ =~= Seq::new(o as nat, |x: int| 0usize));
    }
    assert(assignment@ =~= lifted(members@, communities@, n as nat, 0));
    let mut node: usize = 0;
    while node < members.len()
        invariant
            node <= members.len(),
            members.len() <= communities.len(),
            forall|v: int, p: int| 0 <= v < members.len() && 0 <= p < members@[v]@.len() ==> #[trigger] members@[v]@[p] < n,
            assignment@ == lifted(members@, communities@, n as nat, node as int),
        decreases members.len() - node,
    {
        let originals = &members[node];
        let community = communities[node];
        let ghost before = assignment@;
        let mut p: usize = 0;
        while p < originals.len()
            invariant
                p <= originals.len(),
                originals@ == members@[node as int]@,
                forall|q: int| 0 <= q < originals@.len() ==> #[trigger] originals@[q] < n,
                assignment@ == Seq::new(n as nat, |x: int| if originals@.take(p as int).contains(x as usize) { community } else { before[x] }),
                before.len() == n,
            decreases originals.len() - p,
        {
            let original = originals[p];
            assignment.set(original, community);
            proof {
                let t1 = originals@.take(p + 1);
                assert forall|x: usize| #[trigger] t1.contains(x) <==> (originals@.take(p as int).contains(x) || x == original) by {
                    if t1.contains(x) {
                        let q = choose|q: int| 0 <= q < t1.len() && t1[q] == x;
                        if q < p {
                            assert(originals@.take(p as int)[q] == x);
                        }
                    }
                    if originals@.take(p as int).contains(x) {
                        let q = choose|q: int| 0 <= q < p && originals@.take(p as int)[q] == x;
                        assert(t1[q] == x);
                    }
                    if x == original {
                        assert(t1[p as int] == x);
                    }
                }
                assert(assignment@ =~= Seq::new(n as nat, |x: int| if t1.contains(x as usize) { community } else { before[x] }));
            }
            p = p + 1;
        }
        proof {
            assert(originals@.take(p as int) =~= originals@);
            assert(assignment@ =~= lifted(members@, communities@, n as nat, node + 1));
        }
        node = node + 1;
    }
    assignment
}


/// The largest value plus one; zero for an empty sequence.
pub open spec fn label_count(s: Seq<usize>) -> nat
    decreases s.len(),
{
    if s.len() == 0 {
        0
    } else {
        let rest = label_count(s.drop_last());
        if s.last() + 1 > rest {
            (s.last() + 1) as nat
        } else {
            rest
        }
    }
}

/// Every value lies below the label count.
proof fn lemma_label_count(s: Seq<usize>)
    ensures
        forall|i: int| 0 <= i < s.len() ==> #[trigger] s[i] < label_count(s),
    decreases s.len(),
{
    if s.len() > 0 {
        lemma_label_count(s.drop_last());
        assert forall|i: int| 0 <= i < s.len() implies #[trigger] s[i] < label_count(s) by {
            if i < s.len() - 1 {
                assert(s.drop_last()[i] == s[i]);
            }
        }
    }
}

/// The number of communities in a labelling: its largest label plus one.
fn count_labels(s: &[usize]) -> (count: usize)
    requires
        forall|i: int| 0 <= i < s@.len() ==> #[trigger] s@[i] < usize::MAX,
    ensures
        count == label_count(s@),
{
    let mut count: usize = 0;
    let mut i: usize = 0;
    while i < s.len()
        invariant
            i <= s.len(),
            forall|j: int| 0 <= j < s@.len() ==> #[trigger] s@[j] < usize::MAX,
            count == label_count(s@.take(i as int)),
        decreases s.len() - i,
    {
        assert(s@.take(i + 1).drop_last() =~= s@.take(i as int));
        if s[i] + 1 > count {
            count = s[i] + 1;
        }
        i = i + 1;
    }
    assert(s@.take(i as int) =~= s@);
    count
}

/// A refined community lies inside one parent: once a member with a known
/// parent has been met, every later member has that parent.
pub open spec fn refinement_within_parents(parent: Seq<usize>, refined: Seq<usize>) -> bool {
    forall|i: int, j: int|
        0 <= i < j < refined.len() && #[trigger] refined[i] == #[trigger] refined[j] && parent[i] != usize::MAX ==> parent[j] == parent[i]
}

/// Some member among the first `k` nodes of refined community `c` has a
/// known parent.
pub open spec fn has_known_parent(parent: Seq<usize>, refined: Seq<usize>, k: int, c: int) -> bool {
    exists|i: int| 0 <= i < k && refined[i] == c && #[trigger] parent[i] != usize::MAX
}

/// The parent of refined community `c`, as recorded after the first `k` nodes:
/// the parent of its first member with a known parent, or `usize::MAX`.
pub open spec fn parent_slot(parent: Seq<usize>, refined: Seq<usize>, k: int, c: int) -> usize {
    if has_known_parent(parent, refined, k, c) {
        parent[choose|i: int| 0 <= i < k && refined[i] == c && #[trigger] parent[i] != usize::MAX]
    } else {
        usize::MAX
    }
}

/// The parent recorded for each refined community.
pub open spec fn parents_of(parent: Seq<usize>, refined: Seq<usize>) -> Seq<usize> {
    Seq::new(label_count(refined), |c: int| parent_slot(parent, refined, refined.len() as int, c))
}

/// Recording one more node keeps each slot at the parent of the first member
/// with a known parent.
proof fn lemma_parent_slot_step(parent: Seq<usize>, refined: Seq<usize>, k: int, c: int)
    requires
        0 <= k < refined.len(),
        refined.len() <= parent.len(),
        refinement_within_parents(parent, refined),
    ensures
        parent_slot(parent, refined, k + 1, c) == if refined[k] == c && parent_slot(parent, refined, k, c) == usize::MAX {
            parent[k]
        } else {
            parent_slot(parent, refined, k, c)
        },
        has_known_parent(parent, refined, k, c) ==> parent_slot(parent, refined, k, c) != usize::MAX,
        has_known_parent(parent, refined, k, c) && refined[k] == c ==> parent[k] == parent_slot(parent, refined, k, c),
{
    if has_known_parent(parent, refined, k, c) {
        let i = choose|i: int| 0 <= i < k && refined[i] == c && #[trigger] parent[i] != usize::MAX;
        assert(has_known_parent(parent, refined, k + 1, c));
        let i1 = choose|i: int| 0 <= i < k + 1 && refined[i] == c && #[trigger] parent[i] != usize::MAX;
        if i1 < i {
            assert(refined[i1] == refined[i]);
        } else if i < i1 {
            assert(refined[i] == refined[i1]);
        }
    } else if refined[k] == c && parent[k] != usize::MAX {
        assert(has_known_parent(parent, refined, k + 1, c));
        let i1 = choose|i: int| 0 <= i < k + 1 && refined[i] == c && #[trigger] parent[i] != usize::MAX;
        assert(i1 == k);
    } else {
        if has_known_parent(parent, refined, k + 1, c) {
            let i1 = choose|i: int| 0 <= i < k + 1 && refined[i] == c && #[trigger] parent[i] != usize::MAX;
            assert(i1 == k);
        }
    }
}

/// Number the parents of the refined communities, to start the next level
/// from the partition the refinement came from.
pub fn aggregate_initial_partition(parent: &[usize], refined: &[usize]) -> (r: Vec<usize>)
    requires
        refined.len() <= parent.len(),
        forall|i: int| 0 <= i < refined@.len() ==> #[trigger] refined@[i] < usize::MAX,
        refinement_within_parents(parent@, refined@),
    ensures
        relabelled(parents_of(parent@, refined@), r@),
{
    let refined_count = count_labels(refined);
    let mut parents: Vec<usize> = Vec::new();
    let mut c: usize = 0;
    while c < refined_count
        invariant
            c <= refined_count,
            parents.len() == c,
            forall|d: int| 0 <= d < c ==> #[trigger] parents@[d] == usize::MAX,
        decreases refined_count - c,
    {
        parents.push(usize::MAX);
        c = c + 1;
    }
    proof {
        lemma_label_count(refined@);
        assert forall|d: int| 0 <= d < refined_count implies #[trigger] parents@[d] == parent_slot(parent@, refined@, 0, d) by {}
    }
    let mut node: usize = 0;
    while node < refined.len()
        invariant
            node <= refined.len(),
            refined.len() <= parent.len(),
            refinement_within_parents(parent@, refined@),
            refined_count == label_count(refined@),
            forall|i: int| 0 <= i < refined@.len() ==> #[trigger] refined@[i] < refined_count,
            parents.len() == refined_count,
            forall|d: int| 0 <= d < refined_count ==> #[trigger] parents@[d] == parent_slot(parent@, refined@, node as int, d),
        decreases refined.len() - node,
    {
        let community = refined[node];
        proof {
            lemma_parent_slot_step(parent@, refined@, node as int, community as int);
        }
        if parents[community] == usize::MAX {
            parents.set(community, parent[node]);
        }
        proof {
            assert forall|d: int| 0 <= d < refined_count implies #[trigger] parents@[d] == parent_slot(parent@, refined@, node + 1, d) by {
                lemma_parent_slot_step(parent@, refined@, node as int, d);
            }
        }
        node = node + 1;
    }
    proof {
        assert(parents@ =~= parents_of(parent@, refined@));
    }
    compress_communities(parents.as_slice())
}


/// Every count below the number of distinct values is the label of some
/// first occurrence.
proof fn lemma_fresh_attained(s: Seq<usize>, n: int, c: nat)
    requires
        0 <= n <= s.len(),
        c < fresh_count(s, n),
    ensures
        exists|p: int| 0 <= p < n && #[trigger] first_occurrence(s, p) && fresh_count(s, p) == c,
    decreases n,
{
    if c < fresh_count(s, n - 1) {
        lemma_fresh_attained(s, n - 1, c);
        let p = choose|p: int| 0 <= p < n - 1 && #[trigger] first_occurrence(s, p) && fresh_count(s, p) == c;
        assert(first_occurrence(s, p));
    } else {
        assert(first_occurrence(s, n - 1));
    }
}

/// Values all below a bound keep the label count within it.
proof fn lemma_label_count_bounded(s: Seq<usize>, bound: nat)
    requires
        forall|i: int| 0 <= i < s.len() ==> #[trigger] s[i] < bound,
    ensures
        label_count(s) <= bound,
    decreases s.len(),
{
    if s.len() > 0 {
        assert forall|i: int| 0 <= i < s.drop_last().len() implies #[trigger] s.drop_last()[i] < bound by {
            assert(s.drop_last()[i] == s[i]);
        }
        lemma_label_count_bounded(s.drop_last(), bound);
    }
}

/// A relabelling uses exactly the labels `0 .. fresh_count`.
proof fn lemma_relabelled_count(s: Seq<usize>, r: Seq<usize>)
    requires
        relabelled(s, r),
    ensures
        label_count(r) == fresh_count(s, s.len() as int),
{
    let f = fresh_count(s, s.len() as int);
    lemma_label_count_bounded(r, f);
    lemma_label_count(r);
    if f > 0 {
        lemma_fresh_attained(s, s.len() as int, (f - 1) as nat);
        let p = choose|p: int| 0 <= p < s.len() && #[trigger] first_occurrence(s, p) && fresh_count(s, p) == f - 1;
        assert(r[p] == f - 1);
    }
}

/// The positions holding value `x`, in increasing order.
pub open spec fn positions_of(s: Seq<usize>, x: usize) -> Seq<usize>
    decreases s.len(),
{
    if s.len() == 0 {
        seq![]
    } else {
        let before = positions_of(s.drop_last(), x);
        if s.last() == x {
            before.push((s.len() - 1) as usize)
        } else {
            before
        }
    }
}

/// Two sequences that agree on which positions belong to a class list the
/// same positions.
proof fn lemma_positions_agree(s: Seq<usize>, x: usize, t: Seq<usize>, y: usize)
    requires
        s.len() == t.len(),
        forall|i: int| 0 <= i < s.len() ==> (#[trigger] s[i] == x <==> t[i] == y),
    ensures
        positions_of(s, x) == positions_of(t, y),
    decreases s.len(),
{
    if s.len() > 0 {
        assert forall|i: int| 0 <= i < s.drop_last().len() implies (#[trigger] s.drop_last()[i] == x <==> t.drop_last()[i] == y) by {
            assert(s.drop_last()[i] == s[i]);
            assert(t.drop_last()[i] == t[i]);
        }
        lemma_positions_agree(s.drop_last(), x, t.drop_last(), y);
        assert(s.last() == s[s.len() - 1]);
    }
}

/// The positions of a class are increasing, lie below the length, and are
/// exactly the positions holding the value.
pub proof fn lemma_positions_of(s: Seq<usize>, x: usize)
    requires
        s.len() <= usize::MAX,
    ensures
        forall|i: int, j: int| 0 <= i < j < positions_of(s, x).len() ==> #[trigger] positions_of(s, x)[i] < #[trigger] positions_of(s, x)[j],
        forall|i: int| 0 <= i < positions_of(s, x).len() ==> #[trigger] positions_of(s, x)[i] < s.len() && s[positions_of(s, x)[i] as int] == x,
        forall|p: int| 0 <= p < s.len() && s[p] == x ==> #[trigger] positions_of(s, x).contains(p as usize),
    decreases s.len(),
{
    if s.len() > 0 {
        let t = s.drop_last();
        lemma_positions_of(t, x);
        let before = positions_of(t, x);
        assert forall|i: int| 0 <= i < positions_of(s, x).len() implies #[trigger] positions_of(s, x)[i] < s.len() && s[positions_of(s, x)[i] as int] == x by {
            if i < before.len() {
                assert(positions_of(s, x)[i] == before[i]);
                assert(t[before[i] as int] == s[before[i] as int]);
            }
        }
        assert forall|p: int| 0 <= p < s.len() && s[p] == x implies #[trigger] positions_of(s, x).contains(p as usize) by {
            if p < s.len() - 1 {
                assert(t[p] == s[p]);
                assert(before.contains(p as usize));
                let q = choose|q: int| 0 <= q < before.len() && before[q] == p as usize;
                assert(positions_of(s, x)[q] == p as usize);
            } else {
                assert(positions_of(s, x)[before.len() as int] == p as usize);
            }
        }
    }
}

/// The identities of the nodes at the given positions.
pub open spec fn names_at(g: Graph, positions: Seq<usize>) -> Seq<Seq<char>> {
    positions.map_values(|v: usize| g.spec_nodes()[v as int].id@)
}

/// The identities a community carries: its own and its members'.
pub open spec fn community_view(c: Community) -> (Seq<char>, Seq<Seq<char>>) {
    (c.id@, c.node_ids@.map_values(|x: NodeId| x@))
}

/// The community of the nodes that share the value at first occurrence `p`:
/// named by the node at `p`, listing the members in position order.
pub open spec fn class_community(g: Graph, s: Seq<usize>, p: int) -> (Seq<char>, Seq<Seq<char>>) {
    (g.spec_nodes()[p].id@, names_at(g, positions_of(s, s[p])))
}

/// `comm` is the `c`-th community of the partition `s`: the class of the
/// value that is `c`-th to occur.
pub open spec fn describes_class(g: Graph, s: Seq<usize>, c: int, comm: Community) -> bool {
    exists|p: int| 0 <= p < s.len() && #[trigger] first_occurrence(s, p) && fresh_count(s, p) == c
        && community_view(comm) == class_community(g, s, p)
}

/// Group nodes by community into canonical communities: communities in the
/// order their values first occur, each listing its members in node order and
/// named by its first member.
pub fn canonical_communities(graph: &Graph, assignment: &[usize]) -> (r: Vec<Community>)
    requires
        assignment.len() <= graph.spec_nodes().len(),
    ensures
        r.len() == fresh_count(assignment@, assignment@.len() as int),
        forall|c: int| 0 <= c < r.len() ==> describes_class(*graph, assignment@, c, #[trigger] r@[c]),
{
    let ghost s = assignment@;
    let labels = compress_communities(assignment);
    proof {
        lemma_relabelled_count(s, labels@);
        assert forall|i: int| 0 <= i < labels@.len() implies #[trigger] labels@[i] < usize::MAX by {
            assert(labels@[i] < fresh_count(s, s.len() as int));
            assert(fresh_count(s, s.len() as int) <= s.len()) by {
                lemma_fresh_count_bound(s, s.len() as int);
            }
        }
    }
    let count = count_labels(labels.as_slice());
    let mut members: Vec<Vec<NodeId>> = Vec::new();
    let mut c: usize = 0;
    while c < count
        invariant
            c <= count,
            members.len() == c,
            forall|d: int| 0 <= d < c ==> (#[trigger] members@[d])@.len() == 0,
        decreases count - c,
    {
        members.push(Vec::new());
        c = c + 1;
    }
    proof {
        lemma_label_count(labels@);
        assert forall|d: int| 0 <= d < count implies (#[trigger] members@[d])@.map_values(|x: NodeId| x@) == names_at(*graph, positions_of(labels@.take(0), d as usize)) by {
            assert((members@[d])@.map_values(|x: NodeId| x@) =~= seq![]);
        }
    }
    let mut node: usize = 0;
    while node < labels.len()
        invariant
            node <= labels.len(),
            labels.len() == s.len(),
            s.len() <= graph.spec_nodes().len(),
            count == label_count(labels@),
            forall|i: int| 0 <= i < labels@.len() ==> #[trigger] labels@[i] < count,
            members.len() == count,
            forall|d: int| 0 <= d < count ==> (#[trigger] members@[d])@.map_values(|x: NodeId| x@) == names_at(*graph, positions_of(labels@.take(node as int), d as usize)),
        decreases labels.len() - node,
    {
        let label = labels[node];
        let ghost before = members@;
        members[label].push(graph.node_id(node).clone());
        proof {
            let t = labels@.take(node + 1);
            assert(t.drop_last() =~= labels@.take(node as int));
            assert forall|d: int| 0 <= d < count implies (#[trigger] members@[d])@.map_values(|x: NodeId| x@) == names_at(*graph, positions_of(t, d as usize)) by {
                if d == label {
                    assert(members@[d]@ == before[d]@.push(members@[d]@.last()));
                    assert((members@[d])@.map_values(|x: NodeId| x@) =~= before[d]@.map_values(|x: NodeId| x@).push(graph.spec_nodes()[node as int].id@));
                    assert(names_at(*graph, positions_of(t, d as usize)) =~= names_at(*graph, positions_of(labels@.take(node as int), d as usize)).push(graph.spec_nodes()[node as int].id@));
                } else {
                    assert(members@[d] == before[d]);
                }
            }
        }
        node = node + 1;
    }
    assert(labels@.take(node as int) =~= labels@);
    let mut communities: Vec<Community> = Vec::new();
    let mut c: usize = 0;
    while c < count
        invariant
            c <= count,
            count == members.len(),
            count == fresh_count(s, s.len() as int),
            labels.len() == s.len(),
            s.len() <= graph.spec_nodes().len(),
            relabelled(s, labels@),
            communities.len() == c,
            forall|d: int| 0 <= d < count ==> (#[trigger] members@[d])@.map_values(|x: NodeId| x@) == names_at(*graph, positions_of(labels@, d as usize)),
            forall|d: int| 0 <= d < c ==> describes_class(*graph, s, d, #[trigger] communities@[d]),
        decreases count - c,
    {
        let ghost p = {
            lemma_fresh_attained(s, s.len() as int, c as nat);
            choose|p: int| 0 <= p < s.len() && #[trigger] first_occurrence(s, p) && fresh_count(s, p) == c
        };
        proof {
            assert(labels@[p] == c);
            assert forall|i: int| 0 <= i < s.len() implies (#[trigger] labels@[i] == c as usize <==> s[i] == s[p]) by {}
            lemma_positions_agree(labels@, c as usize, s, s[p]);
            lemma_positions_of(s, s[p]);
            assert(positions_of(s, s[p]).contains(p as usize));
            let pos = positions_of(s, s[p]);
            assert(pos[0] == p) by {
                if pos[0] != p {
                    let q = choose|q: int| 0 <= q < pos.len() && pos[q] == p as usize;
                    if q > 0 {
                        assert(pos[0] < pos[q]);
                        assert(s[pos[0] as int] == s[p]);
                    }
                }
            }
        }
        let node_ids = members[c].clone();
        proof {
            assert(node_ids@.map_values(|x: NodeId| x@) == members@[c as int]@.map_values(|x: NodeId| x@)) by {
                assert(node_ids@.map_values(|x: NodeId| x@) =~= members@[c as int]@.map_values(|x: NodeId| x@)) by {
                    assert forall|i: int| 0 <= i < node_ids@.len() implies node_ids@[i]@ == members@[c as int]@[i]@ by {
                        assert(vstd::pervasive::cloned(members@[c as int]@[i], node_ids@[i]));
                    }
                }
            }
            assert(node_ids@.len() > 0);
            assert(node_ids@.map_values(|x: NodeId| x@)[0] == node_ids@[0]@);
        }
        let id = node_ids[0].clone();
        let community = Community { id, node_ids };
        proof {
            assert(community_view(community) == class_community(*graph, s, p));
        }
        let ghost before = communities@;
        communities.push(community);
        proof {
            assert forall|d: int| 0 <= d < c + 1 implies describes_class(*graph, s, d, #[trigger] communities@[d]) by {
                if d < c {
                    assert(communities@[d] == before[d]);
                } else {
                    assert(first_occurrence(s, p));
                    assert(community_view(communities@[d]) == class_community(*graph, s, p));
                }
            }
        }
        c = c + 1;
    }
    communities
}

/// There are no more distinct values than positions.
proof fn lemma_fresh_count_bound(s: Seq<usize>, i: int)
    requires
        0 <= i,
    ensures
        fresh_count(s, i) <= i,
    decreases i,
{
    if i > 0 {
        lemma_fresh_count_bound(s, i - 1);
    }
}


/// Aggregated nodes with pairwise disjoint members: every original member of
/// aggregated node `v` is assigned the community of `v`.
pub proof fn lemma_lifted_member(members: Seq<Vec<usize>>, communities: Seq<usize>, n: nat, v: int, o: int)
    requires
        0 <= v < members.len(),
        0 <= o < n,
        members[v]@.contains(o as usize),
        forall|a: int, b: int, x: usize|
            0 <= a < b < members.len() && #[trigger] members[a]@.contains(x) ==> !#[trigger] members[b]@.contains(x),
    ensures
        lifted(members, communities, n, members.len() as int)[o] == communities[v],
{
    lemma_lifted_from(members, communities, n, v, o, members.len() as int);
}

/// Once aggregated node `v` has written original `o`, no later node rewrites it.
proof fn lemma_lifted_from(members: Seq<Vec<usize>>, communities: Seq<usize>, n: nat, v: int, o: int, k: int)
    requires
        0 <= v < k <= members.len(),
        0 <= o < n,
        members[v]@.contains(o as usize),
        forall|a: int, b: int, x: usize|
            0 <= a < b < members.len() && #[trigger] members[a]@.contains(x) ==> !#[trigger] members[b]@.contains(x),
    ensures
        lifted(members, communities, n, k)[o] == communities[v],
    decreases k,
{
    if k > v + 1 {
        lemma_lifted_from(members, communities, n, v, o, k - 1);
        assert(!members[k - 1]@.contains(o as usize));
    }
}

/// Some community lists the identity among its members.
pub open spec fn listed_in(r: Seq<Community>, id: Seq<char>) -> bool {
    exists|c: int| 0 <= c < r.len() && #[trigger] community_view(r[c]).1.contains(id)
}

/// At first occurrences the number of distinct values strictly increases.
proof fn lemma_first_occurrences_ordered(s: Seq<usize>, p: int, q: int)
    requires
        0 <= p < q <= s.len(),
        first_occurrence(s, p),
    ensures
        fresh_count(s, p) < fresh_count(s, q),
{
    lemma_fresh_count_monotone(s, p + 1, q);
}

/// Canonical communities come in increasing identity order, each lists its
/// members in increasing identity order, and every node of the assignment is
/// listed by the community of its value.
pub proof fn lemma_canonical_order(g: Graph, s: Seq<usize>, r: Seq<Community>)
    requires
        g.wf(),
        s.len() <= g.spec_nodes().len(),
        s.len() <= usize::MAX,
        r.len() == fresh_count(s, s.len() as int),
        forall|c: int| 0 <= c < r.len() ==> describes_class(g, s, c, #[trigger] r[c]),
    ensures
        forall|c: int, d: int| 0 <= c < d < r.len() ==> str_lt((#[trigger] r[c]).id@, (#[trigger] r[d]).id@),
        forall|c: int, i: int, j: int| 0 <= c < r.len() && 0 <= i < j < r[c].node_ids.len() ==>
            str_lt((#[trigger] r[c].node_ids@[i])@, (#[trigger] r[c].node_ids@[j])@),
        forall|p: int| 0 <= p < s.len() ==> #[trigger] listed_in(r, g.spec_nodes()[p].id@),
{
    let n = g.spec_nodes().len();
    assert forall|c: int, d: int| 0 <= c < d < r.len() implies str_lt((#[trigger] r[c]).id@, (#[trigger] r[d]).id@) by {
        let pc = choose|p: int| 0 <= p < s.len() && #[trigger] first_occurrence(s, p) && fresh_count(s, p) == c
            && community_view(r[c]) == class_community(g, s, p);
        let pd = choose|p: int| 0 <= p < s.len() && #[trigger] first_occurrence(s, p) && fresh_count(s, p) == d
            && community_view(r[d]) == class_community(g, s, p);
        if pd <= pc {
            if pd < pc {
                lemma_first_occurrences_ordered(s, pd, pc);
            }
        }
        assert(pc < pd);
        lemma_sorted_ids_distinct(g.spec_nodes(), pc, pd);
    }
    assert forall|c: int, i: int, j: int| 0 <= c < r.len() && 0 <= i < j < r[c].node_ids.len() implies
        str_lt((#[trigger] r[c].node_ids@[i])@, (#[trigger] r[c].node_ids@[j])@) by {
        let pc = choose|p: int| 0 <= p < s.len() && #[trigger] first_occurrence(s, p) && fresh_count(s, p) == c
            && community_view(r[c]) == class_community(g, s, p);
        let pos = positions_of(s, s[pc]);
        lemma_positions_of(s, s[pc]);
        assert(community_view(r[c]).1 == names_at(g, pos));
        assert(community_view(r[c]).1[i] == r[c].node_ids@[i]@);
        assert(community_view(r[c]).1[j] == r[c].node_ids@[j]@);
        assert(pos[i] < pos[j]);
        lemma_sorted_ids_distinct(g.spec_nodes(), pos[i] as int, pos[j] as int);
    }
    assert forall|p: int| 0 <= p < s.len() implies #[trigger] listed_in(r, g.spec_nodes()[p].id@) by {
        let q = lemma_first_position(s, p);
        let c = fresh_count(s, q) as int;
        lemma_first_occurrences_ordered(s, q, s.len() as int);
        let pc = choose|x: int| 0 <= x < s.len() && #[trigger] first_occurrence(s, x) && fresh_count(s, x) == c
            && community_view(r[c]) == class_community(g, s, x);
        if pc < q {
            lemma_first_occurrences_ordered(s, pc, q);
        } else if q < pc {
            lemma_first_occurrences_ordered(s, q, pc);
        }
        assert(pc == q);
        lemma_positions_of(s, s[q]);
        let pos = positions_of(s, s[q]);
        assert(pos.contains(p as usize));
        let k = choose|k: int| 0 <= k < pos.len() && pos[k] == p as usize;
        assert(names_at(g, pos)[k] == g.spec_nodes()[p].id@);
        assert(community_view(r[c]).1[k] == g.spec_nodes()[p].id@);
        assert(community_view(r[c]).1.contains(g.spec_nodes()[p].id@));
        assert(0 <= c < r.len());
    }
}


/// String order as a function value.
pub open spec fn str_order_fn() -> spec_fn(Seq<char>, Seq<char>) -> bool {
    |x: Seq<char>, y: Seq<char>| str_lt(x, y)
}

/// Community order as a function value.
pub open spec fn community_order_fn() -> spec_fn((Seq<char>, Seq<Seq<char>>), (Seq<char>, Seq<Seq<char>>)) -> bool {
    |x: (Seq<char>, Seq<Seq<char>>), y: (Seq<char>, Seq<Seq<char>>)| community_lt(x, y)
}

/// Rust's order on identity lists: lexicographic under string order.
pub open spec fn names_lt(a: Seq<Seq<char>>, b: Seq<Seq<char>>) -> bool {
    lex_lt(a, b, str_order_fn())
}

/// Rust's order on communities: by identity, then by member list.
pub open spec fn community_lt(a: (Seq<char>, Seq<Seq<char>>), b: (Seq<char>, Seq<Seq<char>>)) -> bool {
    str_lt(a.0, b.0) || (a.0 == b.0 && names_lt(a.1, b.1))
}

/// Rust's order on community lists: lexicographic under community order.
pub open spec fn partition_lt(a: Seq<(Seq<char>, Seq<Seq<char>>)>, b: Seq<(Seq<char>, Seq<Seq<char>>)>) -> bool {
    lex_lt(a, b, community_order_fn())
}

/// The identities a community list carries.
pub open spec fn partition_view(r: Seq<Community>) -> Seq<(Seq<char>, Seq<Seq<char>>)> {
    r.map_values(|c: Community| community_view(c))
}

/// The identities of a list of node identities.
pub open spec fn names_view(r: Seq<NodeId>) -> Seq<Seq<char>> {
    r.map_values(|x: NodeId| x@)
}

/// Community order is irreflexive and asymmetric.
proof fn lemma_community_lt_strict()
    ensures
        forall|x: (Seq<char>, Seq<Seq<char>>)| !#[trigger] community_lt(x, x),
        forall|x: (Seq<char>, Seq<Seq<char>>), y: (Seq<char>, Seq<Seq<char>>)| #[trigger] community_lt(x, y) ==> !community_lt(y, x),
{
    lemma_str_lt_strict();
    let slt = str_order_fn();
    assert forall|x: Seq<char>| !#[trigger] slt(x, x) by {}
    assert forall|x: Seq<char>, y: Seq<char>| #[trigger] slt(x, y) implies !slt(y, x) by {}
    assert forall|x: (Seq<char>, Seq<Seq<char>>)| !#[trigger] community_lt(x, x) by {
        lemma_lex_lt_strict(x.1, x.1, slt);
    }
    assert forall|x: (Seq<char>, Seq<Seq<char>>), y: (Seq<char>, Seq<Seq<char>>)| #[trigger] community_lt(x, y) implies !community_lt(y, x) by {
        lemma_lex_lt_strict(x.1, y.1, slt);
    }
}

/// The order on identity lists is irreflexive and asymmetric.
proof fn lemma_names_lt_strict(a: Seq<Seq<char>>, b: Seq<Seq<char>>)
    ensures
        !names_lt(a, a),
        names_lt(a, b) ==> !names_lt(b, a) && a != b,
{
    lemma_str_lt_strict();
    let slt = str_order_fn();
    assert forall|x: Seq<char>| !#[trigger] slt(x, x) by {}
    assert forall|x: Seq<char>, y: Seq<char>| #[trigger] slt(x, y) implies !slt(y, x) by {}
    lemma_lex_lt_strict(a, b, slt);
}

/// The order on community lists is irreflexive and asymmetric.
proof fn lemma_partition_lt_strict(a: Seq<(Seq<char>, Seq<Seq<char>>)>, b: Seq<(Seq<char>, Seq<Seq<char>>)>)
    ensures
        !partition_lt(a, a),
        partition_lt(a, b) ==> !partition_lt(b, a) && a != b,
{
    lemma_community_lt_strict();
    let clt = community_order_fn();
    assert forall|x: (Seq<char>, Seq<Seq<char>>)| !#[trigger] clt(x, x) by {}
    assert forall|x: (Seq<char>, Seq<Seq<char>>), y: (Seq<char>, Seq<Seq<char>>)| #[trigger] clt(x, y) implies !clt(y, x) by {}
    lemma_lex_lt_strict(a, b, clt);
}

/// Compare two identity lists as Rust orders them.
fn compare_names(a: &Vec<NodeId>, b: &Vec<NodeId>) -> (c: Comparison)
    ensures
        c is Less <==> names_lt(names_view(a@), names_view(b@)),
        c is Equal <==> names_view(a@) == names_view(b@),
        c is Greater <==> names_lt(names_view(b@), names_view(a@)),
{
    let ghost va = names_view(a@);
    let ghost vb = names_view(b@);
    proof {
        lemma_names_lt_strict(va, vb);
        lemma_names_lt_strict(vb, va);
    }
    let mut i: usize = 0;
    assert(va.take(0) =~= vb.take(0));
    while i < a.len() && i < b.len()
        invariant
            va == names_view(a@),
            vb == names_view(b@),
            i <= a@.len(),
            i <= b@.len(),
            va.take(i as int) == vb.take(i as int),
        decreases a@.len() - i,
    {
        match compare_str(a[i].as_str(), b[i].as_str()) {
            Comparison::Less => {
                assert(lex_lt(va, vb, str_order_fn())) by {
                    assert(va.take(i as int) == vb.take(i as int));
                }
                proof {
                    lemma_names_lt_strict(va, vb);
                }
                return Comparison::Less;
            },
            Comparison::Greater => {
                proof {
                    crate::order::lemma_str_total(a@[i as int]@, b@[i as int]@);
                }
                assert(lex_lt(vb, va, str_order_fn())) by {
                    assert(vb.take(i as int) == va.take(i as int));
                }
                proof {
                    lemma_names_lt_strict(vb, va);
                }
                return Comparison::Greater;
            },
            Comparison::Equal => {},
        }
        assert(va.take(i + 1) =~= vb.take(i + 1)) by {
            assert forall|j: int| 0 <= j < i + 1 implies va[j] == vb[j] by {
                if j < i {
                    assert(va.take(i as int)[j] == va[j]);
                    assert(vb.take(i as int)[j] == vb[j]);
                }
            }
        }
        i = i + 1;
    }
    if a.len() < b.len() {
        assert(lex_lt(va, vb, str_order_fn())) by {
            assert(va.take(i as int) == vb.take(i as int));
        }
        Comparison::Less
    } else if a.len() > b.len() {
        assert(lex_lt(vb, va, str_order_fn())) by {
            assert(vb.take(i as int) == va.take(i as int));
        }
        Comparison::Greater
    } else {
        assert(va =~= va.take(i as int));
        assert(vb =~= vb.take(i as int));
        Comparison::Equal
    }
}

/// Compare two communities as Rust orders them.
fn compare_community(a: &Community, b: &Community) -> (c: Comparison)
    ensures
        c is Less <==> community_lt(community_view(*a), community_view(*b)),
        c is Equal <==> community_view(*a) == community_view(*b),
        c is Greater <==> community_lt(community_view(*b), community_view(*a)),
{
    proof {
        lemma_community_lt_strict();
        crate::order::lemma_str_total(a.id@, b.id@);
    }
    match compare_str(a.id.as_str(), b.id.as_str()) {
        Comparison::Equal => {
            assert(names_view(a.node_ids@) == community_view(*a).1);
            assert(names_view(b.node_ids@) == community_view(*b).1);
            compare_names(&a.node_ids, &b.node_ids)
        },
        c => c,
    }
}

/// Whether the first community list precedes the second in Rust's order:
/// the tie-break between Leiden trials of equal quality.
pub fn partition_precedes(candidate: &Vec<Community>, current: &Vec<Community>) -> (b: bool)
    ensures
        b == partition_lt(partition_view(candidate@), partition_view(current@)),
{
    let ghost va = partition_view(candidate@);
    let ghost vb = partition_view(current@);
    proof {
        lemma_partition_lt_strict(va, vb);
        lemma_partition_lt_strict(vb, va);
    }
    let mut i: usize = 0;
    assert(va.take(0) =~= vb.take(0));
    while i < candidate.len() && i < current.len()
        invariant
            va == partition_view(candidate@),
            vb == partition_view(current@),
            i <= candidate@.len(),
            i <= current@.len(),
            va.take(i as int) == vb.take(i as int),
        decreases candidate@.len() - i,
    {
        match compare_community(&candidate[i], &current[i]) {
            Comparison::Less => {
                assert(lex_lt(va, vb, community_order_fn())) by {
                    assert(va.take(i as int) == vb.take(i as int));
                }
                return true;
            },
            Comparison::Greater => {
                assert(lex_lt(vb, va, community_order_fn())) by {
                    assert(vb.take(i as int) == va.take(i as int));
                }
                proof {
                    lemma_partition_lt_strict(vb, va);
                }
                return false;
            },
            Comparison::Equal => {},
        }
        assert(va.take(i + 1) =~= vb.take(i + 1)) by {
            assert forall|j: int| 0 <= j < i + 1 implies va[j] == vb[j] by {
                if j < i {
                    assert(va.take(i as int)[j] == va[j]);
                    assert(vb.take(i as int)[j] == vb[j]);
                }
            }
        }
        i = i + 1;
    }
    if candidate.len() < current.len() {
        assert(lex_lt(va, vb, community_order_fn())) by {
            assert(va.take(i as int) == vb.take(i as int));
        }
        true
    } else {
        if candidate.len() > current.len() {
            assert(lex_lt(vb, va, community_order_fn())) by {
                assert(vb.take(i as int) == va.take(i as int));
            }
        } else {
            assert(va =~= va.take(i as int));
            assert(vb =~= vb.take(i as int));
        }
        false
    }
}


/// The original members of each community after grouping the first `k`
/// aggregated nodes: each community lists the members of its nodes in node
/// order.
pub open spec fn grouped(members: Seq<Vec<usize>>, communities: Seq<usize>, count: nat, k: int) -> Seq<Seq<usize>>
    decreases k,
{
    if k <= 0 {
        Seq::new(count, |c: int| Seq::<usize>::empty())
    } else {
        let before = grouped(members, communities, count, k - 1);
        let c = communities[k - 1] as int;
        before.update(c, before[c] + members[k - 1]@)
    }
}

/// The original members held by a sequence of groups, with multiplicity.
pub open spec fn member_bag(groups: Seq<Seq<usize>>) -> vstd::multiset::Multiset<usize>
    decreases groups.len(),
{
    if groups.len() == 0 {
        vstd::multiset::Multiset::empty()
    } else {
        member_bag(groups.drop_last()).add(groups.last().to_multiset())
    }
}

/// Appending members to one group adds exactly those members to the bag.
proof fn lemma_bag_append(groups: Seq<Seq<usize>>, c: int, extra: Seq<usize>)
    requires
        0 <= c < groups.len(),
    ensures
        member_bag(groups.update(c, groups[c] + extra)) == member_bag(groups).add(extra.to_multiset()),
    decreases groups.len(),
{
    let u = groups.update(c, groups[c] + extra);
    vstd::seq_lib::lemma_multiset_commutative(groups[c], extra);
    if c == groups.len() - 1 {
        assert(u.drop_last() =~= groups.drop_last());
        assert(member_bag(u) =~= member_bag(groups).add(extra.to_multiset()));
    } else {
        lemma_bag_append(groups.drop_last(), c, extra);
        assert(u.drop_last() =~= groups.drop_last().update(c, groups[c] + extra));
        assert(member_bag(u) =~= member_bag(groups).add(extra.to_multiset()));
    }
}

/// Groups with no members hold an empty bag.
proof fn lemma_bag_of_empty_groups(count: nat)
    ensures
        member_bag(Seq::new(count, |c: int| Seq::<usize>::empty())) == vstd::multiset::Multiset::<usize>::empty(),
    decreases count,
{
    broadcast use vstd::multiset::group_multiset_axioms;

    if count > 0 {
        lemma_bag_of_empty_groups((count - 1) as nat);
        assert(Seq::new(count, |c: int| Seq::<usize>::empty()).drop_last() =~= Seq::new((count - 1) as nat, |c: int| Seq::<usize>::empty()));
        let e = Seq::<usize>::empty();
        vstd::seq_lib::lemma_multiset_commutative(e, e);
        assert(e + e =~= e);
        assert(e.to_multiset() =~= vstd::multiset::Multiset::<usize>::empty()) by {
            assert forall|x: usize| e.to_multiset().count(x) == 0 by {
                assert(e.to_multiset().count(x) == e.to_multiset().count(x) + e.to_multiset().count(x));
            }
        }
        assert(member_bag(Seq::new(count, |c: int| Seq::<usize>::empty())) =~= vstd::multiset::Multiset::<usize>::empty());
    }
}

/// Value `v` is a member of one of the first `k` nodes, a node assigned to
/// community `c`.
pub open spec fn from_assigned_node(members: Seq<Vec<usize>>, communities: Seq<usize>, k: int, v: usize, c: int) -> bool {
    exists|node: int, p: int| 0 <= node < k && communities[node] == c && 0 <= p < members[node]@.len()
        && #[trigger] members[node]@[p] == v
}

/// Aggregation loses and invents no member: the groups of the next level
/// together hold exactly the original members of the grouped nodes, with
/// multiplicity, and each member of group `c` is a member of a node
/// assigned to `c`.
pub proof fn lemma_aggregation_keeps_members(members: Seq<Vec<usize>>, communities: Seq<usize>, count: nat, k: int)
    requires
        0 <= k <= members.len(),
        k <= communities.len(),
        forall|i: int| 0 <= i < k ==> #[trigger] communities[i] < count,
    ensures
        grouped(members, communities, count, k).len() == count,
        member_bag(grouped(members, communities, count, k)) == member_bag(members.take(k).map_values(|v: Vec<usize>| v@)),
        forall|c: int, q: int| #![trigger grouped(members, communities, count, k)[c][q]]
            0 <= c < count && 0 <= q < grouped(members, communities, count, k)[c].len()
            ==> from_assigned_node(members, communities, k, grouped(members, communities, count, k)[c][q], c),
    decreases k,
{
    let views = members.take(k).map_values(|v: Vec<usize>| v@);
    if k == 0 {
        lemma_bag_of_empty_groups(count);
        assert(views =~= Seq::<Seq<usize>>::empty());
        assert forall|c: int, q: int| #![trigger grouped(members, communities, count, k)[c][q]]
            0 <= c < count && 0 <= q < grouped(members, communities, count, k)[c].len()
            implies from_assigned_node(members, communities, k, grouped(members, communities, count, k)[c][q], c) by {
            assert(grouped(members, communities, count, k)[c].len() == 0);
        }
        assert(grouped(members, communities, count, k).len() == count);
        assert(member_bag(grouped(members, communities, count, k)) == member_bag(members.take(k).map_values(|v: Vec<usize>| v@)));
    } else {
        lemma_aggregation_keeps_members(members, communities, count, k - 1);
        let before = grouped(members, communities, count, k - 1);
        let c = communities[k - 1] as int;
        let m = members[k - 1]@;
        lemma_bag_append(before, c, m);
        assert(views.drop_last() =~= members.take(k - 1).map_values(|v: Vec<usize>| v@));
        assert(views.last() == m);
        let now = grouped(members, communities, count, k);
        assert(now == before.update(c, before[c] + m));
        assert forall|d: int, q: int| #![trigger grouped(members, communities, count, k)[d][q]]
            0 <= d < count && 0 <= q < grouped(members, communities, count, k)[d].len()
            implies from_assigned_node(members, communities, k, grouped(members, communities, count, k)[d][q], d) by {
            assert(now[d][q] == grouped(members, communities, count, k)[d][q]);
            if d == c && q >= before[c].len() {
                let p = q - before[c].len();
                assert(members[k - 1]@[p] == now[d][q]);
                assert(communities[k - 1] == d);
            } else {
                assert(now[d][q] == before[d][q]);
                assert(from_assigned_node(members, communities, k - 1, before[d][q], d));
                let (node, p) = choose|node: int, p: int| 0 <= node < k - 1 && communities[node] == d && 0 <= p < members[node]@.len()
                    && #[trigger] members[node]@[p] == before[d][q];
                assert(members[node]@[p] == now[d][q]);
                assert(0 <= node < k);
            }
        }
        assert(grouped(members, communities, count, k).len() == count);
        assert(member_bag(grouped(members, communities, count, k)) == member_bag(members.take(k).map_values(|v: Vec<usize>| v@)));
    }
}

/// The members of the communities of the next level: community `c` gathers
/// the original members of every node assigned to `c`, in node order.
pub fn aggregate_members(node_members: &Vec<Vec<usize>>, communities: &[usize]) -> (r: Vec<Vec<usize>>)
    requires
        node_members.len() <= communities.len(),
        forall|i: int| 0 <= i < communities@.len() ==> #[trigger] communities@[i] < usize::MAX,
    ensures
        r@.map_values(|v: Vec<usize>| v@) == grouped(node_members@, communities@, label_count(communities@), node_members.len() as int),
        member_bag(r@.map_values(|v: Vec<usize>| v@)) == member_bag(node_members@.map_values(|v: Vec<usize>| v@)),
        forall|c: int, q: int| 0 <= c < r.len() && 0 <= q < r@[c]@.len()
            ==> from_assigned_node(node_members@, communities@, node_members.len() as int, #[trigger] r@[c]@[q], c),
{
    let count = count_labels(communities);
    proof {
        lemma_label_count(communities@);
    }
    let mut groups: Vec<Vec<usize>> = Vec::new();
    let mut c: usize = 0;
    while c < count
        invariant
            c <= count,
            groups.len() == c,
            forall|d: int| 0 <= d < c ==> (#[trigger] groups@[d])@.len() == 0,
        decreases count - c,
    {
        groups.push(Vec::new());
        c = c + 1;
    }
    assert(groups@.map_values(|v: Vec<usize>| v@) =~= grouped(node_members@, communities@, count as nat, 0)) by {
        assert forall|d: int| 0 <= d < count implies #[trigger] groups@[d]@ =~= Seq::<usize>::empty() by {
            assert(groups@[d]@.len() == 0);
        }
    }
    let mut node: usize = 0;
    while node < node_members.len()
        invariant
            node <= node_members.len(),
            node_members.len() <= communities.len(),
            count == label_count(communities@),
            forall|i: int| 0 <= i < communities@.len() ==> #[trigger] communities@[i] < count,
            groups.len() == count,
            groups@.map_values(|v: Vec<usize>| v@) == grouped(node_members@, communities@, count as nat, node as int),
        decreases node_members.len() - node,
    {
        let community = communities[node];
        let originals = &node_members[node];
        let ghost before = groups@;
        let mut p: usize = 0;
        while p < originals.len()
            invariant
                p <= originals.len(),
                community < count,
                groups.len() == count,
                forall|d: int| 0 <= d < count && d != community ==> #[trigger] groups@[d] == before[d],
                groups@[community as int]@ == before[community as int]@ + originals@.take(p as int),
            decreases originals.len() - p,
        {
            groups[community].push(originals[p]);
            assert(originals@.take(p + 1) =~= originals@.take(p as int).push(originals@[p as int]));
            assert(groups@[community as int]@ =~= before[community as int]@ + originals@.take(p + 1));
            p = p + 1;
        }
        proof {
            assert(originals@.take(p as int) =~= originals@);
            let g1 = grouped(node_members@, communities@, count as nat, node + 1);
            assert(groups@.map_values(|v: Vec<usize>| v@) =~= g1) by {
                assert forall|d: int| 0 <= d < count implies groups@.map_values(|v: Vec<usize>| v@)[d] == #[trigger] g1[d] by {
                    if d != community {
                        assert(groups@[d] == before[d]);
                        assert(before.map_values(|v: Vec<usize>| v@)[d] == before[d]@);
                    } else {
                        assert(before.map_values(|v: Vec<usize>| v@)[d] == before[d]@);
                    }
                }
            }
        }
        node = node + 1;
    }
    proof {
        let k = node_members.len() as int;
        lemma_aggregation_keeps_members(node_members@, communities@, label_count(communities@), k);
        assert(node_members@.take(k) =~= node_members@);
        let view = groups@.map_values(|v: Vec<usize>| v@);
        assert forall|c: int, q: int| 0 <= c < groups.len() && 0 <= q < groups@[c]@.len()
            implies from_assigned_node(node_members@, communities@, k, #[trigger] groups@[c]@[q], c) by {
            assert(view[c] == groups@[c]@);
            assert(view[c][q] == grouped(node_members@, communities@, label_count(communities@), k)[c][q]);
        }
    }
    groups
}

/// The pair of communities that an edge between nodes `s` and `t` joins,
/// smaller community first.
pub open spec fn community_pair(communities: Seq<usize>, s: usize, t: usize) -> (usize, usize) {
    let a = communities[s as int];
    let b = communities[t as int];
    if a <= b { (a, b) } else { (b, a) }
}

/// Order of community pairs: by first, then by second community.
pub open spec fn pair_lt(x: (usize, usize), y: (usize, usize)) -> bool {
    x.0 < y.0 || (x.0 == y.0 && x.1 < y.1)
}

/// Some edge joins the pair of communities `x`.
pub open spec fn pair_of_some_edge(communities: Seq<usize>, edges: Seq<(usize, usize)>, x: (usize, usize)) -> bool {
    exists|e: int| 0 <= e < edges.len() && x == #[trigger] community_pair(communities, edges[e].0, edges[e].1)
}

/// The distinct community pairs of the edges in increasing pair order, and
/// for each edge the position of its pair.
pub open spec fn pairs_indexed(
    communities: Seq<usize>,
    edges: Seq<(usize, usize)>,
    pairs: Seq<(usize, usize)>,
    index: Seq<usize>,
) -> bool {
    &&& forall|i: int, j: int| 0 <= i < j < pairs.len() ==> pair_lt(#[trigger] pairs[i], #[trigger] pairs[j])
    &&& forall|i: int| 0 <= i < pairs.len() ==> pair_of_some_edge(communities, edges, #[trigger] pairs[i])
    &&& index.len() == edges.len()
    &&& forall|e: int| 0 <= e < edges.len() ==> #[trigger] index[e] < pairs.len() && pairs[index[e] as int] == community_pair(communities, edges[e].0, edges[e].1)
}

/// Position of `x` among sorted pairs, or where it would be inserted.
fn locate_pair(pairs: &Vec<(usize, usize)>, x: (usize, usize)) -> (r: (bool, usize))
    requires
        forall|i: int, j: int| 0 <= i < j < pairs.len() ==> pair_lt(#[trigger] pairs@[i], #[trigger] pairs@[j]),
    ensures
        r.1 <= pairs.len(),
        r.0 ==> r.1 < pairs.len() && pairs@[r.1 as int] == x,
        !r.0 ==> forall|i: int| 0 <= i < r.1 ==> pair_lt(#[trigger] pairs@[i], x),
        !r.0 ==> forall|i: int| r.1 <= i < pairs.len() ==> pair_lt(x, #[trigger] pairs@[i]),
{
    let mut lo: usize = 0;
    let mut hi: usize = pairs.len();
    while lo < hi
        invariant
            lo <= hi <= pairs.len(),
            forall|i: int, j: int| 0 <= i < j < pairs.len() ==> pair_lt(#[trigger] pairs@[i], #[trigger] pairs@[j]),
            forall|i: int| 0 <= i < lo ==> pair_lt(#[trigger] pairs@[i], x),
            forall|i: int| hi <= i < pairs.len() ==> pair_lt(x, #[trigger] pairs@[i]),
        decreases hi - lo,
    {
        let mid = lo + (hi - lo) / 2;
        let y = pairs[mid];
        if y.0 < x.0 || (y.0 == x.0 && y.1 < x.1) {
            lo = mid + 1;
        } else if y.0 == x.0 && y.1 == x.1 {
            return (true, mid);
        } else {
            hi = mid;
        }
    }
    (false, lo)
}

/// The distinct community pairs joined by the edges, in increasing order, and
/// the position of each edge's pair: the edges of the next level.
pub fn aggregate_pairs(edges: &Vec<(usize, usize)>, communities: &[usize]) -> (r: (Vec<(usize, usize)>, Vec<usize>))
    requires
        forall|e: int| 0 <= e < edges.len() ==> (#[trigger] edges@[e]).0 < communities.len() && edges@[e].1 < communities.len(),
    ensures
        pairs_indexed(communities@, edges@, r.0@, r.1@),
{
    let mut pairs: Vec<(usize, usize)> = Vec::new();
    let mut e: usize = 0;
    while e < edges.len()
        invariant
            e <= edges.len(),
            forall|f: int| 0 <= f < edges.len() ==> (#[trigger] edges@[f]).0 < communities.len() && edges@[f].1 < communities.len(),
            forall|i: int, j: int| 0 <= i < j < pairs.len() ==> pair_lt(#[trigger] pairs@[i], #[trigger] pairs@[j]),
            forall|i: int| 0 <= i < pairs.len() ==> pair_of_some_edge(communities@, edges@, #[trigger] pairs@[i]),
            forall|f: int| 0 <= f < e ==> pairs@.contains(community_pair(communities@, (#[trigger] edges@[f]).0, edges@[f].1)),
        decreases edges.len() - e,
    {
        let (s, t) = edges[e];
        let a = communities[s];
        let b = communities[t];
        let x = if a <= b { (a, b) } else { (b, a) };
        assert(x == community_pair(communities@, edges@[e as int].0, edges@[e as int].1));
        let (found, at) = locate_pair(&pairs, x);
        if !found {
            let ghost before = pairs@;
            pairs.insert(at, x);
            proof {
                assert forall|i: int, j: int| 0 <= i < j < pairs.len() implies pair_lt(#[trigger] pairs@[i], #[trigger] pairs@[j]) by {
                    if j < at {
                        assert(pairs@[i] == before[i] && pairs@[j] == before[j]);
                    } else if j == at {
                        assert(pairs@[i] == before[i]);
                    } else if i < at {
                        assert(pairs@[i] == before[i] && pairs@[j] == before[j - 1]);
                    } else if i == at {
                        assert(pairs@[j] == before[j - 1]);
                    } else {
                        assert(pairs@[i] == before[i - 1] && pairs@[j] == before[j - 1]);
                    }
                }
                assert forall|i: int| 0 <= i < pairs.len() implies pair_of_some_edge(communities@, edges@, #[trigger] pairs@[i]) by {
                    if i < at {
                        assert(pairs@[i] == before[i]);
                    } else if i == at {
                        assert(pairs@[i] == community_pair(communities@, edges@[e as int].0, edges@[e as int].1));
                        assert(pair_of_some_edge(communities@, edges@, pairs@[i]));
                    } else {
                        assert(pairs@[i] == before[i - 1]);
                    }
                }
                assert forall|f: int| 0 <= f < e + 1 implies pairs@.contains(community_pair(communities@, (#[trigger] edges@[f]).0, edges@[f].1)) by {
                    let y = community_pair(communities@, edges@[f].0, edges@[f].1);
                    if f < e {
                        assert(before.contains(y));
                        let q = choose|q: int| 0 <= q < before.len() && before[q] == y;
                        if q < at {
                            assert(pairs@[q] == y);
                        } else {
                            assert(pairs@[q + 1] == y);
                        }
                    } else {
                        assert(pairs@[at as int] == y);
                    }
                }
            }
        } else {
            assert(pairs@.contains(x)) by {
                assert(pairs@[at as int] == x);
            }
        }
        e = e + 1;
    }
    let mut index: Vec<usize> = Vec::new();
    let mut e: usize = 0;
    while e < edges.len()
        invariant
            e <= edges.len(),
            forall|f: int| 0 <= f < edges.len() ==> (#[trigger] edges@[f]).0 < communities.len() && edges@[f].1 < communities.len(),
            forall|i: int, j: int| 0 <= i < j < pairs.len() ==> pair_lt(#[trigger] pairs@[i], #[trigger] pairs@[j]),
            forall|f: int| 0 <= f < edges.len() ==> pairs@.contains(community_pair(communities@, (#[trigger] edges@[f]).0, edges@[f].1)),
            forall|i: int| 0 <= i < pairs.len() ==> pair_of_some_edge(communities@, edges@, #[trigger] pairs@[i]),
            index.len() == e,
            forall|f: int| 0 <= f < e ==> #[trigger] index@[f] < pairs.len() && pairs@[index@[f] as int] == community_pair(communities@, edges@[f].0, edges@[f].1),
        decreases edges.len() - e,
    {
        let (s, t) = edges[e];
        let a = communities[s];
        let b = communities[t];
        let x = if a <= b { (a, b) } else { (b, a) };
        let ghost y = community_pair(communities@, edges@[e as int].0, edges@[e as int].1);
        assert(x == y);
        let (found, at) = locate_pair(&pairs, x);
        proof {
            assert(pairs@.contains(y));
            if !found {
                let q = choose|q: int| 0 <= q < pairs.len() && pairs@[q] == y;
                if q < at {
                    assert(pair_lt(pairs@[q], x));
                } else {
                    assert(pair_lt(x, pairs@[q]));
                }
            }
        }
        index.push(at);
        e = e + 1;
    }
    (pairs, index)
}

} // verus!
