//! Graph records: identities, kinds, nodes, edges and errors.
use std::collections::BTreeMap;

use vstd::prelude::*;

use crate::order::{bytes_lt, key, str_order, str_lt, Comparison};

verus! {

/// An opaque JSON value carried as a selected property.
#[verifier::external_type_specification]
#[verifier::external_body]
pub struct ExJsonValue(serde_json::Value);

/// Opaque external node identifier.
pub type NodeId = String;

/// Selected immutable properties attached to a node, edge, or graph.
pub type Attributes = BTreeMap<String, serde_json::Value>;

/// Direction in which arcs of a directed graph are followed.
#[derive(Debug, Clone, Copy, PartialEq, Eq, Structural)]
pub enum TraversalDirection {
    /// Follow stored edges from source to target.
    Out,
    /// Follow stored edges from target to source.
    In,
    /// Follow stored edges either way.
    Both,
}

/// Collision-free identity for a stored edge or a synthesized reversal.
///
/// Generation zero is the original stored edge. Positive generations identify
/// synthesized reversals without modifying or reserving user-controlled IDs.
#[derive(Debug, Clone, PartialEq, Eq, PartialOrd, Ord, Hash)]
pub struct EdgeId {
    stored_id: String,
    reverse_generation: u64,
}

impl View for EdgeId {
    /// The stored identity's characters and the reverse generation.
    type V = (Seq<char>, u64);

    closed spec fn view(&self) -> (Seq<char>, u64) {
        (self.stored_id@, self.reverse_generation)
    }
}

/// Strict order of edge identities: by stored identity, then by generation.
pub open spec fn edge_id_lt(a: (Seq<char>, u64), b: (Seq<char>, u64)) -> bool {
    str_lt(a.0, b.0) || (a.0 == b.0 && a.1 < b.1)
}

/// Three-way comparison of edge identities.
pub open spec fn edge_id_order(a: (Seq<char>, u64), b: (Seq<char>, u64)) -> Comparison {
    if edge_id_lt(a, b) {
        Comparison::Less
    } else if a == b {
        Comparison::Equal
    } else {
        Comparison::Greater
    }
}

/// The characters of the decimal representation of `n`.
pub open spec fn decimal_chars(n: nat) -> Seq<char>
    decreases n,
{
    if n < 10 {
        seq![digit_char(n)]
    } else {
        decimal_chars(n / 10).push(digit_char(n % 10))
    }
}

pub open spec fn digit_char(d: nat) -> char {
    if d == 0 {
        '0'
    } else if d == 1 {
        '1'
    } else if d == 2 {
        '2'
    } else if d == 3 {
        '3'
    } else if d == 4 {
        '4'
    } else if d == 5 {
        '5'
    } else if d == 6 {
        '6'
    } else if d == 7 {
        '7'
    } else if d == 8 {
        '8'
    } else {
        '9'
    }
}

/// How an edge identity is displayed.
pub open spec fn edge_id_display(id: (Seq<char>, u64)) -> Seq<char> {
    if id.1 == 0 {
        id.0
    } else {
        seq!['r', 'e', 'v', 'e', 'r', 's', 'e', '#'] + decimal_chars(id.1 as nat) + seq!['(']
            + id.0 + seq![')']
    }
}

fn digit_str(d: u64) -> (s: &'static str)
    requires
        d < 10,
    ensures
        s@ == seq![digit_char(d as nat)],
{
    proof {
        reveal_strlit("0");
        reveal_strlit("1");
        reveal_strlit("2");
        reveal_strlit("3");
        reveal_strlit("4");
        reveal_strlit("5");
        reveal_strlit("6");
        reveal_strlit("7");
        reveal_strlit("8");
        reveal_strlit("9");
    }
    if d == 0 {
        "0"
    } else if d == 1 {
        "1"
    } else if d == 2 {
        "2"
    } else if d == 3 {
        "3"
    } else if d == 4 {
        "4"
    } else if d == 5 {
        "5"
    } else if d == 6 {
        "6"
    } else if d == 7 {
        "7"
    } else if d == 8 {
        "8"
    } else {
        "9"
    }
}

/// Append the decimal representation of `n` to `out`.
fn push_decimal(out: &mut String, n: u64)
    ensures
        final(out)@ == old(out)@ + decimal_chars(n as nat),
    decreases n,
{
    if n >= 10 {
        push_decimal(out, n / 10);
        out.append(digit_str(n % 10));
        assert(decimal_chars(n as nat) == decimal_chars((n / 10) as nat).push(
            digit_char((n % 10) as nat),
        ));
    } else {
        out.append(digit_str(n));
    }
}

impl EdgeId {
    /// Construct an original stored-edge identity.
    pub fn original(id: &str) -> (r: Self)
        ensures
            r@ == (id@, 0u64),
    {
        Self { stored_id: id.to_owned(), reverse_generation: 0 }
    }

    /// Construct a synthesized-reverse identity at a non-zero generation.
    pub fn synthesized_reverse(id: &str, generation: u64) -> (r: Option<Self>)
        ensures
            r is Some <==> generation > 0,
            r matches Some(e) ==> e@ == (id@, generation),
    {
        if generation > 0 {
            Some(Self { stored_id: id.to_owned(), reverse_generation: generation })
        } else {
            None
        }
    }

    /// Derive the next structural reversal when its generation is representable.
    pub fn reversed(&self) -> (r: Option<Self>)
        ensures
            r is Some <==> self@.1 < u64::MAX,
            r matches Some(e) ==> e@ == (self@.0, (self@.1 + 1) as u64),
    {
        match self.reverse_generation.checked_add(1) {
            Some(generation) => Self::synthesized_reverse(self.stored_id.as_str(), generation),
            None => None,
        }
    }

    /// Return the underlying stored edge identity.
    pub fn stored_id(&self) -> (s: &str)
        ensures
            s@ == self@.0,
    {
        self.stored_id.as_str()
    }

    /// Zero for stored edges; positive for synthesized reversals.
    pub fn reverse_generation(&self) -> (g: u64)
        ensures
            g == self@.1,
    {
        self.reverse_generation
    }

    /// An identity is valid when its stored part is non-empty.
    pub fn is_valid(&self) -> (b: bool)
        ensures
            b == (self@.0.len() > 0),
    {
        !self.stored_id.as_str().is_empty()
    }

    /// Copy this identity.
    pub fn copy(&self) -> (r: Self)
        ensures
            r@ == self@,
    {
        Self { stored_id: self.stored_id.clone(), reverse_generation: self.reverse_generation }
    }

    /// Compare two identities in the order that sorts graph edges.
    pub fn compare(&self, other: &Self) -> (c: Comparison)
        ensures
            c == edge_id_order(self@, other@),
    {
        match crate::order::compare_str(self.stored_id.as_str(), other.stored_id.as_str()) {
            Comparison::Less => Comparison::Less,
            Comparison::Greater => {
                proof {
                    crate::order::lemma_str_total(self@.0, other@.0);
                    crate::order::lemma_str_lt_asymmetric(other@.0, self@.0);
                }
                Comparison::Greater
            },
            Comparison::Equal => {
                if self.reverse_generation < other.reverse_generation {
                    Comparison::Less
                } else if self.reverse_generation == other.reverse_generation {
                    Comparison::Equal
                } else {
                    Comparison::Greater
                }
            },
        }
    }

    /// The display form: the stored identity for generation zero, and
    /// `reverse#<generation>(<stored identity>)` otherwise.
    pub fn to_string(&self) -> (s: String)
        ensures
            s@ == edge_id_display(self@),
    {
        if self.reverse_generation == 0 {
            self.stored_id.clone()
        } else {
            let mut out = String::from_str("reverse#");
            proof {
                reveal_strlit("reverse#");
                reveal_strlit("(");
                reveal_strlit(")");
            }
            push_decimal(&mut out, self.reverse_generation);
            out.append("(");
            out.append(self.stored_id.as_str());
            out.append(")");
            out
        }
    }
}

/// A structural reversal never collides with a stored edge identity: the
/// reversal of any identity carries a positive generation, while every stored
/// identity carries generation zero, whatever its characters.
pub proof fn lemma_reversal_never_stored(id: (Seq<char>, u64), stored: Seq<char>)
    requires
        id.1 < u64::MAX,
    ensures
        (id.0, (id.1 + 1) as u64) != (stored, 0u64),
        edge_id_lt(id, (id.0, (id.1 + 1) as u64)),
{
}

/// Declared graph topology contract.
#[derive(Debug, Clone, Copy, PartialEq, Eq, Structural)]
pub enum GraphKind {
    /// Undirected simple graph.
    Graph,
    /// Directed simple graph.
    DiGraph,
    /// Undirected graph permitting parallel endpoint pairs.
    MultiGraph,
    /// Directed graph permitting parallel endpoint pairs.
    MultiDiGraph,
}

impl GraphKind {
    pub open spec fn directed(self) -> bool {
        self is DiGraph || self is MultiDiGraph
    }

    pub open spec fn multigraph(self) -> bool {
        self is MultiGraph || self is MultiDiGraph
    }

    /// Whether algorithms observe stored edge direction.
    pub fn is_directed(self) -> (b: bool)
        ensures
            b == self.directed(),
    {
        match self {
            GraphKind::DiGraph | GraphKind::MultiDiGraph => true,
            _ => false,
        }
    }

    /// Whether parallel endpoint pairs are permitted.
    pub fn is_multigraph(self) -> (b: bool)
        ensures
            b == self.multigraph(),
    {
        match self {
            GraphKind::MultiGraph | GraphKind::MultiDiGraph => true,
            _ => false,
        }
    }
}

/// Immutable node input and public node record.
#[derive(Debug, Clone, PartialEq)]
pub struct Node {
    /// Opaque external identity.
    pub id: NodeId,
    /// Optional node label.
    pub label: Option<String>,
    /// Selected immutable properties.
    pub attributes: Attributes,
}

impl Node {
    /// Construct a node with no label or selected properties.
    pub fn new(id: &str) -> (n: Self)
        ensures
            n.id@ == id@,
            n.label is None,
            n.attributes@ == Map::<String, serde_json::Value>::empty(),
    {
        Self { id: id.to_owned(), label: None, attributes: BTreeMap::new() }
    }

    /// Attach a label.
    pub fn with_label(self, label: &str) -> (n: Self)
        ensures
            n.id == self.id,
            n.label matches Some(l) && l@ == label@,
            n.attributes == self.attributes,
    {
        Self { label: Some(label.to_owned()), ..self }
    }

    /// Attach selected properties.
    pub fn with_attributes(self, attributes: Attributes) -> (n: Self)
        ensures
            n.id == self.id,
            n.label == self.label,
            n.attributes == attributes,
    {
        Self { attributes, ..self }
    }
}

/// Immutable edge input and public edge record.
#[derive(Debug, Clone, PartialEq)]
pub struct Edge {
    /// Stable unique edge identity.
    pub id: EdgeId,
    /// Optional multigraph key.
    pub graphify_key: Option<String>,
    /// Stored source node external ID.
    pub source: NodeId,
    /// Stored target node external ID.
    pub target: NodeId,
    /// Optional edge label.
    pub label: Option<String>,
    /// Optional weight, as the bit pattern of a finite non-negative `f64`.
    pub weight: Option<u64>,
    /// Selected immutable properties.
    pub attributes: Attributes,
}

impl Edge {
    /// Construct an unweighted edge without a label or selected properties.
    pub fn new(id: &str, source: &str, target: &str) -> (e: Self)
        ensures
            e.id@ == (id@, 0u64),
            e.graphify_key is None,
            e.source@ == source@,
            e.target@ == target@,
            e.label is None,
            e.weight is None,
            e.attributes@ == Map::<String, serde_json::Value>::empty(),
    {
        Self {
            id: EdgeId::original(id),
            graphify_key: None,
            source: source.to_owned(),
            target: target.to_owned(),
            label: None,
            weight: None,
            attributes: BTreeMap::new(),
        }
    }

    /// Attach a multigraph key.
    pub fn with_graphify_key(self, graphify_key: &str) -> (e: Self)
        ensures
            e == (Edge { graphify_key: e.graphify_key, ..self }),
            e.graphify_key matches Some(k) && k@ == graphify_key@,
    {
        Self { graphify_key: Some(graphify_key.to_owned()), ..self }
    }

    /// Attach a label.
    pub fn with_label(self, label: &str) -> (e: Self)
        ensures
            e == (Edge { label: e.label, ..self }),
            e.label matches Some(l) && l@ == label@,
    {
        Self { label: Some(label.to_owned()), ..self }
    }

    /// Attach an algorithm weight, given as the bit pattern of an `f64`.
    pub fn with_weight(self, weight: u64) -> (e: Self)
        ensures
            e == (Edge { weight: Some(weight), ..self }),
    {
        Self { weight: Some(weight), ..self }
    }

    /// Attach selected properties.
    pub fn with_attributes(self, attributes: Attributes) -> (e: Self)
        ensures
            e == (Edge { attributes, ..self }),
    {
        Self { attributes, ..self }
    }
}

/// Graph construction or lookup failure.
#[derive(Debug, Clone, PartialEq)]
pub enum GraphError {
    /// An edge identifier is empty.
    EmptyEdgeId,
    /// The input contains the same node identity more than once.
    DuplicateNode(NodeId),
    /// The input contains the same edge identity more than once.
    DuplicateEdge(EdgeId),
    /// An edge endpoint is absent from the selected node set.
    MissingEndpoint {
        /// Edge containing the invalid endpoint.
        edge_id: EdgeId,
        /// `source` or `target`.
        endpoint: &'static str,
        /// Missing node identity.
        node_id: NodeId,
    },
    /// The graph contains an invalid weight (given by its bit pattern).
    InvalidWeight {
        /// Edge containing the invalid weight.
        edge_id: EdgeId,
        /// Rejected weight.
        weight: u64,
    },
    /// An external identity is malformed or exceeds its resource bounds.
    InvalidExternalId(String),
    /// A requested node does not exist.
    UnknownNode(NodeId),
    /// A requested edge does not exist.
    UnknownEdge(EdgeId),
    /// A relabel operation would merge distinct nodes.
    RelabelCollision {
        /// Colliding output identity.
        target: NodeId,
        /// First source identity.
        first: NodeId,
        /// Second source identity.
        second: NodeId,
    },
    /// A simple graph contains parallel endpoint pairs.
    ParallelEdge {
        /// Declared simple graph kind.
        kind: GraphKind,
        /// Canonical pair source.
        pair_source: NodeId,
        /// Canonical pair target.
        pair_target: NodeId,
    },
    /// Compose requires exactly equal graph kinds.
    KindMismatch,
    /// Two graphs disagree about one stable edge identity.
    ConflictingEdge {
        /// Conflicting stable edge identity.
        edge_id: EdgeId,
    },
    /// No further structural reverse generation can be represented.
    EdgeIdentityExhausted {
        /// Underlying stored edge identity.
        stored_id: String,
    },
    /// An algorithm option violates its typed runtime contract.
    InvalidOption(String),
}

/// One adjacency entry: the node at the other end and the edge's index.
#[derive(Debug, Clone, Copy, PartialEq, Eq, Structural)]
pub struct ArcRef {
    pub neighbor: usize,
    pub edge: usize,
}

} // verus!
