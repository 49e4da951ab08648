//! The dependency graph over recorded history.
//!
//! The graph is a derived, rebuildable view. Two properties matter more than
//! the algorithm:
//!
//! * An edge carries the evidence that produced it, and that evidence decides
//!   whether the edge is `Known` (entailed by recorded durable identity) or
//!   `Advisory` (a correlation). An advisory edge is never a fact and never
//!   widens a rollback closure.
//! * "No edge" and "could not tell" are different answers. Where the inputs for
//!   an edge are missing or unusable, the graph records
//!   [`IncompleteEvidence`] instead of leaving a silent gap.

use vstd::prelude::*;
use vstd::string::*;

use crate::cycles;
use crate::model::{OperationKind, OperationRecord};
use crate::order;
use crate::order::{ascending, deduplicated, sorted, strictly_ascending, views, Alike, Ranked, Total};
use crate::outside;
use crate::table::Duplicate;
use crate::text;
use crate::text::{decimal, decimal_int};

verus! {

/// How many shared paths an effect-overlap edge records before truncating its
/// support list.
pub const EFFECT_SUPPORT_LIMIT: usize = 16;

// ---------------------------------------------------------------------------
// Nodes
// ---------------------------------------------------------------------------

/// A node names an existing durable record.
#[derive(Clone, Debug, PartialEq, Eq, PartialOrd, Ord)]
pub enum NodeId {
    Operation { id: i64 },
    State { id: String },
    Boundary { id: String },
}

/// A node with its texts as sequences.
pub enum NodeKey {
    Operation { id: i64 },
    State { id: Seq<char> },
    Boundary { id: Seq<char> },
}

impl View for NodeId {
    type V = NodeKey;

    open spec fn view(&self) -> NodeKey {
        match self {
            NodeId::Operation { id } => NodeKey::Operation { id: *id },
            NodeId::State { id } => NodeKey::State { id: id@ },
            NodeId::Boundary { id } => NodeKey::Boundary { id: id@ },
        }
    }
}

impl NodeKey {
    pub open spec fn as_text(self) -> Seq<char> {
        match self {
            NodeKey::Operation { id } => "OPERATION:"@ + decimal_int(id as int),
            NodeKey::State { id } => "STATE:"@ + id,
            NodeKey::Boundary { id } => "BOUNDARY:"@ + id,
        }
    }
}

impl NodeId {
    pub fn operation(id: i64) -> (r: Self)
        ensures
            r@ == (NodeKey::Operation { id }),
    {
        NodeId::Operation { id }
    }

    /// Canonical, stable text form.
    pub fn as_text(&self) -> (r: String)
        ensures
            r@ == self@.as_text(),
    {
        match self {
            NodeId::Operation { id } => {
                let mut out = text::copy("OPERATION:");
                out.append(text::decimal_i64(*id).as_str());
                out
            },
            NodeId::State { id } => {
                let mut out = text::copy("STATE:");
                out.append(id);
                out
            },
            NodeId::Boundary { id } => {
                let mut out = text::copy("BOUNDARY:");
                out.append(id);
                out
            },
        }
    }
}

/// The text form of a node names it.
pub proof fn node_text_names(a: NodeKey, b: NodeKey)
    requires
        a.as_text() == b.as_text(),
    ensures
        a == b,
{
    reveal_strlit("OPERATION:");
    reveal_strlit("STATE:");
    reveal_strlit("BOUNDARY:");
    let x = a.as_text();
    let y = b.as_text();
    assert("OPERATION:"@[0] == 'O' && "STATE:"@[0] == 'S' && "BOUNDARY:"@[0] == 'B');
    match a {
        NodeKey::Operation { id } => {
            assert(x[0] == 'O');
            assert(x.skip(10) =~= decimal_int(id as int));
        },
        NodeKey::State { id } => {
            assert(x[0] == 'S');
            assert(x.skip(6) =~= id);
        },
        NodeKey::Boundary { id } => {
            assert(x[0] == 'B');
            assert(x.skip(9) =~= id);
        },
    }
    match b {
        NodeKey::Operation { id } => {
            assert(y[0] == 'O');
            assert(y.skip(10) =~= decimal_int(id as int));
            text::decimal_int_injective(a->Operation_id as int, id as int);
        },
        NodeKey::State { id } => {
            assert(y[0] == 'S');
            assert(y.skip(6) =~= id);
        },
        NodeKey::Boundary { id } => {
            assert(y[0] == 'B');
            assert(y.skip(9) =~= id);
        },
    }
}

impl Duplicate for NodeId {
    fn duplicate(&self) -> (r: Self)
        ensures
            r == *self,
    {
        match self {
            NodeId::Operation { id } => NodeId::Operation { id: *id },
            NodeId::State { id } => NodeId::State { id: id.clone() },
            NodeId::Boundary { id } => NodeId::Boundary { id: id.clone() },
        }
    }
}

impl Alike for NodeId {
    fn alike(&self, other: &Self) -> (r: bool) {
        match (self, other) {
            (NodeId::Operation { id: a }, NodeId::Operation { id: b }) => *a == *b,
            (NodeId::State { id: a }, NodeId::State { id: b }) => text::same(a, b),
            (NodeId::Boundary { id: a }, NodeId::Boundary { id: b }) => text::same(a, b),
            _ => false,
        }
    }
}

/// Operations sort before states, states before boundaries; within a kind, by
/// id.
impl Ranked for NodeId {
    open spec fn before(a: NodeKey, b: NodeKey) -> bool {
        match (a, b) {
            (NodeKey::Operation { id: x }, NodeKey::Operation { id: y }) => x < y,
            (NodeKey::Operation { .. }, _) => true,
            (NodeKey::State { .. }, NodeKey::Operation { .. }) => false,
            (NodeKey::State { id: x }, NodeKey::State { id: y }) => text::before(x, y),
            (NodeKey::State { .. }, NodeKey::Boundary { .. }) => true,
            (NodeKey::Boundary { id: x }, NodeKey::Boundary { id: y }) => text::before(x, y),
            (NodeKey::Boundary { .. }, _) => false,
        }
    }

    fn is_before(&self, other: &Self) -> (r: bool) {
        match (self, other) {
            (NodeId::Operation { id: x }, NodeId::Operation { id: y }) => *x < *y,
            (NodeId::Operation { .. }, _) => true,
            (NodeId::State { .. }, NodeId::Operation { .. }) => false,
            (NodeId::State { id: x }, NodeId::State { id: y }) => x.is_before(y),
            (NodeId::State { .. }, NodeId::Boundary { .. }) => true,
            (NodeId::Boundary { id: x }, NodeId::Boundary { id: y }) => x.is_before(y),
            (NodeId::Boundary { .. }, _) => false,
        }
    }

    proof fn irreflexive(a: NodeKey) {
        match a {
            NodeKey::Operation { .. } => {},
            NodeKey::State { id } => text::before_irreflexive(id),
            NodeKey::Boundary { id } => text::before_irreflexive(id),
        }
    }

    proof fn transitive(a: NodeKey, b: NodeKey, c: NodeKey) {
        match (a, b, c) {
            (NodeKey::State { id: x }, NodeKey::State { id: y }, NodeKey::State { id: z }) => {
                text::before_transitive(x, y, z)
            },
            (NodeKey::Boundary { id: x }, NodeKey::Boundary { id: y }, NodeKey::Boundary { id: z }) => {
                text::before_transitive(x, y, z)
            },
            _ => {},
        }
    }

    proof fn negatively_transitive(a: NodeKey, b: NodeKey, c: NodeKey) {
        match (a, b, c) {
            (NodeKey::State { id: x }, NodeKey::State { id: y }, NodeKey::State { id: z }) => {
                String::negatively_transitive(x, y, z)
            },
            (NodeKey::Boundary { id: x }, NodeKey::Boundary { id: y }, NodeKey::Boundary { id: z }) => {
                String::negatively_transitive(x, y, z)
            },
            _ => {},
        }
    }
}

impl Total for NodeId {
    proof fn separates(a: NodeKey, b: NodeKey) {
        match (a, b) {
            (NodeKey::State { id: x }, NodeKey::State { id: y }) => text::before_separates(x, y),
            (NodeKey::Boundary { id: x }, NodeKey::Boundary { id: y }) => {
                text::before_separates(x, y)
            },
            _ => {},
        }
    }
}

// ---------------------------------------------------------------------------
// Edges
// ---------------------------------------------------------------------------

/// What an edge rests on.
#[derive(Clone, Copy, Debug, PartialEq, Eq, PartialOrd, Ord, Structural)]
pub enum EvidenceKind {
    /// `to` began from the state `from` produced. Entailed by recorded
    /// identity.
    StateLineage,
    /// `from` and `to` changed at least one common path. A correlation, never
    /// causality.
    EffectOverlap,
    /// `from` immediately precedes `to` in operation order.
    TemporalOrdering,
}

#[derive(Clone, Copy, Debug, PartialEq, Eq, PartialOrd, Ord, Structural)]
pub enum EdgeConfidence {
    /// Entailed by recorded durable identity.
    Known,
    /// A heuristic correlation. Reported, never acted on.
    Advisory,
}

impl EvidenceKind {
    pub open spec fn text(self) -> Seq<char> {
        match self {
            EvidenceKind::StateLineage => "STATE_LINEAGE"@,
            EvidenceKind::EffectOverlap => "EFFECT_OVERLAP"@,
            EvidenceKind::TemporalOrdering => "TEMPORAL_ORDERING"@,
        }
    }

    pub open spec fn rank(self) -> int {
        match self {
            EvidenceKind::StateLineage => 0,
            EvidenceKind::EffectOverlap => 1,
            EvidenceKind::TemporalOrdering => 2,
        }
    }

    pub open spec fn strength(self) -> EdgeConfidence {
        if self == EvidenceKind::StateLineage {
            EdgeConfidence::Known
        } else {
            EdgeConfidence::Advisory
        }
    }

    pub fn as_str(self) -> (r: &'static str)
        ensures
            r@ == self.text(),
    {
        match self {
            EvidenceKind::StateLineage => "STATE_LINEAGE",
            EvidenceKind::EffectOverlap => "EFFECT_OVERLAP",
            EvidenceKind::TemporalOrdering => "TEMPORAL_ORDERING",
        }
    }

    /// The confidence an edge of this kind carries. Only lineage is entailed by
    /// durable identity; the other two are heuristics.
    pub fn confidence(self) -> (r: EdgeConfidence)
        ensures
            r == self.strength(),
    {
        match self {
            EvidenceKind::StateLineage => EdgeConfidence::Known,
            EvidenceKind::EffectOverlap => EdgeConfidence::Advisory,
            EvidenceKind::TemporalOrdering => EdgeConfidence::Advisory,
        }
    }

    fn position(self) -> (r: u8)
        ensures
            r == self.rank(),
    {
        match self {
            EvidenceKind::StateLineage => 0,
            EvidenceKind::EffectOverlap => 1,
            EvidenceKind::TemporalOrdering => 2,
        }
    }
}

impl EdgeConfidence {
    pub open spec fn rank(self) -> int {
        match self {
            EdgeConfidence::Known => 0,
            EdgeConfidence::Advisory => 1,
        }
    }
}

/// Rank used by callers that order evidence by strength. `Known` sorts first.
pub fn confidence_rank(confidence: EdgeConfidence) -> (r: usize)
    ensures
        r == confidence.rank(),
{
    match confidence {
        EdgeConfidence::Known => 0,
        EdgeConfidence::Advisory => 1,
    }
}

#[derive(Clone, Debug, PartialEq, Eq)]
pub struct DependencyEdge {
    pub from: NodeId,
    pub to: NodeId,
    pub evidence: EvidenceKind,
    pub confidence: EdgeConfidence,
    /// The durable values that justify the edge: the shared state id, or the
    /// shared paths. Empty only for a temporal edge, which rests on order.
    pub support: Vec<String>,
}

/// An edge with its texts as sequences.
pub struct Link {
    pub from: NodeKey,
    pub to: NodeKey,
    pub evidence: EvidenceKind,
    pub confidence: EdgeConfidence,
    pub support: Seq<Seq<char>>,
}

impl View for DependencyEdge {
    type V = Link;

    open spec fn view(&self) -> Link {
        Link {
            from: self.from@,
            to: self.to@,
            evidence: self.evidence,
            confidence: self.confidence,
            support: views(self.support@),
        }
    }
}

/// The edge between two operations that the evidence of its kind gives.
pub open spec fn link(from: i64, to: i64, evidence: EvidenceKind, support: Seq<Seq<char>>) -> Link {
    Link {
        from: NodeKey::Operation { id: from },
        to: NodeKey::Operation { id: to },
        evidence,
        confidence: evidence.strength(),
        support,
    }
}

impl DependencyEdge {
    pub fn state_lineage(from: i64, to: i64, state_id: &str) -> (r: Self)
        ensures
            r@ == link(from, to, EvidenceKind::StateLineage, seq!["state:"@ + state_id@]),
    {
        let mut support: Vec<String> = Vec::new();
        let mut entry = text::copy("state:");
        entry.append(state_id);
        support.push(entry);
        assert(views(support@) =~= seq!["state:"@ + state_id@]);
        DependencyEdge {
            from: NodeId::operation(from),
            to: NodeId::operation(to),
            evidence: EvidenceKind::StateLineage,
            confidence: EvidenceKind::StateLineage.confidence(),
            support,
        }
    }

    pub fn effect_overlap(from: i64, to: i64, shared_paths: Vec<String>) -> (r: Self)
        ensures
            r@ == link(from, to, EvidenceKind::EffectOverlap, views(shared_paths@)),
    {
        DependencyEdge {
            from: NodeId::operation(from),
            to: NodeId::operation(to),
            evidence: EvidenceKind::EffectOverlap,
            confidence: EvidenceKind::EffectOverlap.confidence(),
            support: shared_paths,
        }
    }

    pub fn temporal(from: i64, to: i64) -> (r: Self)
        ensures
            r@ == link(from, to, EvidenceKind::TemporalOrdering, Seq::empty()),
    {
        let r = DependencyEdge {
            from: NodeId::operation(from),
            to: NodeId::operation(to),
            evidence: EvidenceKind::TemporalOrdering,
            confidence: EvidenceKind::TemporalOrdering.confidence(),
            support: Vec::new(),
        };
        assert(r@.support =~= Seq::empty());
        r
    }
}

pub fn same_texts(a: &Vec<String>, b: &Vec<String>) -> (r: bool)
    ensures
        r == (views(a@) == views(b@)),
{
    if a.len() != b.len() {
        assert(views(a@).len() != views(b@).len());
        return false;
    }
    let mut i: usize = 0;
    while i < a.len()
        invariant
            i <= a@.len() == b@.len(),
            forall|k: int| 0 <= k < i ==> (#[trigger] a@[k])@ == b@[k]@,
        decreases a@.len() - i,
    {
        if !text::same(&a[i], &b[i]) {
            assert(views(a@)[i as int] != views(b@)[i as int]);
            return false;
        }
        i = i + 1;
    }
    assert(views(a@) =~= views(b@));
    true
}

pub fn copy_texts(a: &Vec<String>) -> (r: Vec<String>)
    ensures
        views(r@) == views(a@),
{
    let mut out: Vec<String> = Vec::new();
    let mut i: usize = 0;
    while i < a.len()
        invariant
            i <= a@.len(),
            views(out@) == views(a@).take(i as int),
        decreases a@.len() - i,
    {
        let ghost start = out@;
        out.push(a[i].clone());
        assert(views(out@) =~= views(start).push(a@[i as int]@));
        assert(views(a@).take(i + 1) =~= views(a@).take(i as int).push(a@[i as int]@));
        i = i + 1;
    }
    assert(views(a@).take(a@.len() as int) =~= views(a@));
    out
}

impl Alike for DependencyEdge {
    fn alike(&self, other: &Self) -> (r: bool) {
        self.from.alike(&other.from) && self.to.alike(&other.to) && self.evidence == other.evidence
            && self.confidence == other.confidence && same_texts(&self.support, &other.support)
    }
}

impl Duplicate for DependencyEdge {
    fn duplicate(&self) -> (r: Self) {
        DependencyEdge {
            from: self.from.duplicate(),
            to: self.to.duplicate(),
            evidence: self.evidence,
            confidence: self.confidence,
            support: copy_texts(&self.support),
        }
    }
}

/// Edges sort by where they come from, then where they lead, then by evidence
/// and confidence. The support takes no part.
impl Ranked for DependencyEdge {
    open spec fn before(a: Link, b: Link) -> bool {
        if a.from != b.from {
            NodeId::before(a.from, b.from)
        } else if a.to != b.to {
            NodeId::before(a.to, b.to)
        } else if a.evidence != b.evidence {
            a.evidence.rank() < b.evidence.rank()
        } else {
            a.confidence.rank() < b.confidence.rank()
        }
    }

    fn is_before(&self, other: &Self) -> (r: bool) {
        if !self.from.alike(&other.from) {
            self.from.is_before(&other.from)
        } else if !self.to.alike(&other.to) {
            self.to.is_before(&other.to)
        } else if self.evidence != other.evidence {
            self.evidence.position() < other.evidence.position()
        } else {
            confidence_rank(self.confidence) < confidence_rank(other.confidence)
        }
    }

    proof fn irreflexive(a: Link) {
    }

    proof fn transitive(a: Link, b: Link, c: Link) {
        if a.from != b.from && b.from != c.from {
            NodeId::transitive(a.from, b.from, c.from);
            NodeId::irreflexive(c.from);
        } else if a.from == b.from && b.from == c.from && a.to != b.to && b.to != c.to {
            NodeId::transitive(a.to, b.to, c.to);
            NodeId::irreflexive(c.to);
        }
        if a.from == c.from && a.from != b.from {
            NodeId::transitive(a.from, b.from, c.from);
            NodeId::irreflexive(a.from);
        }
        if a.to == c.to && a.to != b.to && a.from == b.from && b.from == c.from {
            NodeId::transitive(a.to, b.to, c.to);
            NodeId::irreflexive(a.to);
        }
    }

    proof fn negatively_transitive(a: Link, b: Link, c: Link) {
        // Where two nodes differ, one of them comes first.
        if a.from != b.from && !NodeId::before(b.from, a.from) {
            NodeId::separates(a.from, b.from);
        }
        if b.from != c.from && !NodeId::before(c.from, b.from) {
            NodeId::separates(b.from, c.from);
        }
        if a.to != b.to && !NodeId::before(b.to, a.to) && a.from == b.from {
            NodeId::separates(a.to, b.to);
        }
        if b.to != c.to && !NodeId::before(c.to, b.to) && b.from == c.from {
            NodeId::separates(b.to, c.to);
        }
        if DependencyEdge::before(a, c) {
            if a.from != c.from {
                if a.from == b.from {
                    NodeId::transitive(c.from, b.from, c.from);
                    NodeId::irreflexive(c.from);
                } else if b.from == c.from {
                    NodeId::transitive(c.from, a.from, c.from);
                    NodeId::irreflexive(c.from);
                } else {
                    NodeId::transitive(c.from, b.from, a.from);
                    NodeId::transitive(c.from, a.from, c.from);
                    NodeId::irreflexive(c.from);
                }
            } else if a.from != b.from {
                NodeId::transitive(a.from, b.from, a.from);
                NodeId::irreflexive(a.from);
            } else if a.to != c.to {
                if a.to == b.to {
                    NodeId::transitive(c.to, b.to, c.to);
                    NodeId::irreflexive(c.to);
                } else if b.to == c.to {
                    NodeId::transitive(c.to, a.to, c.to);
                    NodeId::irreflexive(c.to);
                } else {
                    NodeId::transitive(c.to, b.to, a.to);
                    NodeId::transitive(c.to, a.to, c.to);
                    NodeId::irreflexive(c.to);
                }
            } else if a.to != b.to {
                NodeId::transitive(a.to, b.to, a.to);
                NodeId::irreflexive(a.to);
            }
        }
    }
}

/// Evidence that could not be evaluated. Recorded so that a caller can never
/// mistake "could not tell" for "no dependency".
#[derive(Clone, Debug, PartialEq, Eq, PartialOrd, Ord)]
pub struct IncompleteEvidence {
    pub operation_id: i64,
    pub evidence: EvidenceKind,
    pub detail: String,
}

/// Incomplete evidence with its text as a sequence.
pub struct Gap {
    pub operation_id: i64,
    pub evidence: EvidenceKind,
    pub detail: Seq<char>,
}

impl View for IncompleteEvidence {
    type V = Gap;

    open spec fn view(&self) -> Gap {
        Gap { operation_id: self.operation_id, evidence: self.evidence, detail: self.detail@ }
    }
}

impl Duplicate for IncompleteEvidence {
    fn duplicate(&self) -> (r: Self) {
        IncompleteEvidence {
            operation_id: self.operation_id,
            evidence: self.evidence,
            detail: self.detail.clone(),
        }
    }
}

impl Ranked for IncompleteEvidence {
    open spec fn before(a: Gap, b: Gap) -> bool {
        if a.operation_id != b.operation_id {
            a.operation_id < b.operation_id
        } else if a.evidence != b.evidence {
            a.evidence.rank() < b.evidence.rank()
        } else {
            text::before(a.detail, b.detail)
        }
    }

    fn is_before(&self, other: &Self) -> (r: bool) {
        if self.operation_id != other.operation_id {
            self.operation_id < other.operation_id
        } else if self.evidence != other.evidence {
            self.evidence.position() < other.evidence.position()
        } else {
            self.detail.is_before(&other.detail)
        }
    }

    proof fn irreflexive(a: Gap) {
        text::before_irreflexive(a.detail);
    }

    proof fn transitive(a: Gap, b: Gap, c: Gap) {
        if a.operation_id == b.operation_id && b.operation_id == c.operation_id && a.evidence
            == b.evidence && b.evidence == c.evidence {
            text::before_transitive(a.detail, b.detail, c.detail);
        }
    }

    proof fn negatively_transitive(a: Gap, b: Gap, c: Gap) {
        if a.operation_id == b.operation_id && b.operation_id == c.operation_id && a.evidence
            == b.evidence && b.evidence == c.evidence {
            String::negatively_transitive(a.detail, b.detail, c.detail);
        }
    }
}

impl Total for IncompleteEvidence {
    proof fn separates(a: Gap, b: Gap) {
        if a.operation_id == b.operation_id && a.evidence == b.evidence {
            text::before_separates(a.detail, b.detail);
        }
    }
}

// ---------------------------------------------------------------------------
// The graph
// ---------------------------------------------------------------------------

#[derive(Debug, PartialEq, Eq)]
pub struct DependencyGraph {
    pub workspace_id: String,
    pub nodes: Vec<NodeId>,
    pub edges: Vec<DependencyEdge>,
    pub incomplete: Vec<IncompleteEvidence>,
    /// Cycles found in the graph. Populated only when `finished` is true.
    pub cycles: Vec<Vec<NodeId>>,
    /// False when the graph has not yet been normalised.
    pub finished: bool,
}

/// Whether some edge leads from `a` to `b`.
pub open spec fn joins(links: Seq<Link>, a: NodeKey, b: NodeKey) -> bool {
    exists|k: int| 0 <= k < links.len() && (#[trigger] links[k]).from == a && links[k].to == b
}

/// Whether a node is an endpoint of some edge.
pub open spec fn touches(links: Seq<Link>, n: NodeKey) -> bool {
    exists|k: int| 0 <= k < links.len() && ((#[trigger] links[k]).from == n || links[k].to == n)
}

/// The successors of each node, by position in `nodes`.
pub open spec fn index_graph(nodes: Seq<NodeKey>, links: Seq<Link>) -> Seq<Seq<int>> {
    Seq::new(
        nodes.len(),
        |i: int| order::chosen(nodes.len(), |j: int| joins(links, nodes[i], nodes[j])),
    )
}

/// The cycles of a numbered graph in ascending order.
pub open spec fn cycle_order(adj: Seq<Seq<int>>) -> Seq<Seq<int>> {
    choose|list: Seq<Seq<int>>|
        strictly_ascending::<cycles::NodeList>(list) && forall|c: Seq<int>|
            #[trigger] list.contains(c) == cycles::cycles_of(adj).contains(c)
}

pub open spec fn named(list: Seq<Seq<int>>, nodes: Seq<NodeKey>) -> Seq<Seq<NodeKey>> {
    list.map_values(|c: Seq<int>| c.map_values(|i: int| nodes[i]))
}

pub open spec fn listed(cycles: Seq<Vec<NodeId>>) -> Seq<Seq<NodeKey>> {
    cycles.map_values(|c: Vec<NodeId>| views(c@))
}

/// The nodes of `c` follow one another along edges and the last leads back to
/// the first; no node occurs twice.
pub open spec fn is_cycle(links: Seq<Link>, c: Seq<NodeKey>) -> bool {
    &&& c.len() > 0
    &&& c.no_duplicates()
    &&& forall|i: int| 0 <= i < c.len() - 1 ==> joins(links, #[trigger] c[i], c[i + 1])
    &&& joins(links, c.last(), c[0])
}

impl DependencyGraph {
    pub open spec fn links(self) -> Seq<Link> {
        views(self.edges@)
    }

    /// What normalising makes of a graph: nodes and incomplete evidence sorted
    /// without repetition, edges sorted with adjacent repetitions removed, and
    /// the cycles of the result.
    pub open spec fn normalised_from(self, start: DependencyGraph) -> bool {
        &&& self.workspace_id == start.workspace_id
        &&& self.finished
        &&& strictly_ascending::<NodeId>(views(self.nodes@))
        &&& forall|n: NodeKey| #[trigger]
            views(self.nodes@).contains(n) == (views(start.nodes@).contains(n) || touches(
                start.links(),
                n,
            ))
        &&& self.links() == deduplicated(views(sorted(start.edges@)))
        &&& strictly_ascending::<IncompleteEvidence>(views(self.incomplete@))
        &&& forall|g: Gap| #[trigger]
            views(self.incomplete@).contains(g) == views(start.incomplete@).contains(g)
        &&& listed(self.cycles@) == named(
            cycle_order(index_graph(views(self.nodes@), self.links())),
            views(self.nodes@),
        )
    }
}

proof fn view_contains<T: View>(s: Seq<T>, i: int)
    requires
        0 <= i < s.len(),
    ensures
        views(s)[i] == s[i]@,
        views(s).contains(s[i]@),
{
    assert(views(s)[i] == s[i]@);
}

fn node_set(nodes: &Vec<NodeId>, edges: &Vec<DependencyEdge>) -> (r: Vec<NodeId>)
    ensures
        strictly_ascending::<NodeId>(views(r@)),
        forall|n: NodeKey| #[trigger]
            views(r@).contains(n) == (views(nodes@).contains(n) || touches(views(edges@), n)),
{
    let mut set: Vec<NodeId> = Vec::new();
    let mut i: usize = 0;
    assert(views(edges@).take(0) =~= Seq::empty());
    while i < edges.len()
        invariant
            i <= edges@.len(),
            strictly_ascending::<NodeId>(views(set@)),
            forall|n: NodeKey| #[trigger]
                views(set@).contains(n) == touches(views(edges@).take(i as int), n),
        decreases edges@.len() - i,
    {
        let ghost before = set@;
        order::insert(&mut set, edges[i].from.duplicate());
        order::insert(&mut set, edges[i].to.duplicate());
        proof {
            let all = views(edges@);
            let now = all.take(i + 1);
            let then_ = all.take(i as int);
            assert forall|n: NodeKey| #[trigger] views(set@).contains(n) == touches(now, n) by {
                if touches(then_, n) {
                    let k = choose|k: int| 0 <= k < then_.len() && ((#[trigger] then_[k]).from == n || then_[k].to == n);
                    assert(now[k] == then_[k]);
                }
                assert(now[i as int] == edges@[i as int]@);
                if touches(now, n) {
                    let k = choose|k: int| 0 <= k < now.len() && ((#[trigger] now[k]).from == n || now[k].to == n);
                    if k < i {
                        assert(then_[k] == now[k]);
                        assert(touches(then_, n));
                    }
                }
                assert(views(before).contains(n) == touches(then_, n));
            }
        }
        i = i + 1;
    }
    assert(views(edges@).take(i as int) =~= views(edges@));
    let mut j: usize = 0;
    while j < nodes.len()
        invariant
            j <= nodes@.len(),
            strictly_ascending::<NodeId>(views(set@)),
            forall|n: NodeKey| #[trigger]
                views(set@).contains(n) == (views(nodes@).take(j as int).contains(n) || touches(
                    views(edges@),
                    n,
                )),
        decreases nodes@.len() - j,
    {
        let ghost before = set@;
        order::insert(&mut set, nodes[j].duplicate());
        proof {
            let all = views(nodes@);
            assert(all.take(j + 1) =~= all.take(j as int).push(nodes@[j as int]@));
            assert forall|n: NodeKey| #[trigger] views(set@).contains(n) == (all.take(j + 1).contains(n)
                || touches(views(edges@), n)) by {
                let a = all.take(j as int);
                let b = all.take(j + 1);
                if a.contains(n) {
                    let k = choose|k: int| 0 <= k < a.len() && a[k] == n;
                    assert(b[k] == n);
                }
                assert(b[j as int] == nodes@[j as int]@);
                if b.contains(n) {
                    let k = choose|k: int| 0 <= k < b.len() && b[k] == n;
                    if k < j {
                        assert(a[k] == n);
                    }
                }
                assert(views(before).contains(n) == (a.contains(n) || touches(views(edges@), n)));
            }
        }
        j = j + 1;
    }
    assert(views(nodes@).take(j as int) =~= views(nodes@));
    set
}

fn gap_set(gaps: &Vec<IncompleteEvidence>) -> (r: Vec<IncompleteEvidence>)
    ensures
        strictly_ascending::<IncompleteEvidence>(views(r@)),
        forall|g: Gap| #[trigger] views(r@).contains(g) == views(gaps@).contains(g),
{
    let mut set: Vec<IncompleteEvidence> = Vec::new();
    let mut j: usize = 0;
    while j < gaps.len()
        invariant
            j <= gaps@.len(),
            strictly_ascending::<IncompleteEvidence>(views(set@)),
            forall|g: Gap| #[trigger]
                views(set@).contains(g) == views(gaps@).take(j as int).contains(g),
        decreases gaps@.len() - j,
    {
        let ghost before = set@;
        order::insert(&mut set, gaps[j].duplicate());
        proof {
            let all = views(gaps@);
            let a = all.take(j as int);
            let b = all.take(j + 1);
            assert forall|g: Gap| #[trigger] views(set@).contains(g) == b.contains(g) by {
                if a.contains(g) {
                    let k = choose|k: int| 0 <= k < a.len() && a[k] == g;
                    assert(b[k] == g);
                }
                assert(b[j as int] == gaps@[j as int]@);
                if b.contains(g) {
                    let k = choose|k: int| 0 <= k < b.len() && b[k] == g;
                    if k < j {
                        assert(a[k] == g);
                    }
                }
                assert(views(before).contains(g) == a.contains(g));
            }
        }
        j = j + 1;
    }
    assert(views(gaps@).take(j as int) =~= views(gaps@));
    set
}

/// The successors of each node, by position in the node list.
fn adjacency(nodes: &Vec<NodeId>, edges: &Vec<DependencyEdge>) -> (r: Vec<Vec<usize>>)
    requires
        strictly_ascending::<NodeId>(views(nodes@)),
        forall|n: NodeKey| touches(views(edges@), n) ==> #[trigger] views(nodes@).contains(n),
    ensures
        cycles::graph(r@) == index_graph(views(nodes@), views(edges@)),
{
    let mut adj: Vec<Vec<usize>> = Vec::new();
    while adj.len() < nodes.len()
        invariant
            adj@.len() <= nodes@.len(),
            forall|i: int| 0 <= i < adj@.len() ==> (#[trigger] adj@[i])@.len() == 0,
        decreases nodes@.len() - adj@.len(),
    {
        adj.push(Vec::new());
    }
    let ghost keys = views(nodes@);
    let ghost all = views(edges@);
    proof {
        assert forall|i: int, j: usize| 0 <= i < adj@.len() && 0 <= j < keys.len() implies (#[trigger] views(adj@[i]@).contains(j))
            == joins(all.take(0), keys[i], keys[j as int]) by {
            assert(views(adj@[i]@).len() == 0);
        }
    }
    let mut e: usize = 0;
    while e < edges.len()
        invariant
            e <= edges@.len(),
            keys == views(nodes@),
            all == views(edges@),
            strictly_ascending::<NodeId>(keys),
            forall|n: NodeKey| touches(all, n) ==> #[trigger] keys.contains(n),
            adj@.len() == nodes@.len(),
            forall|i: int| 0 <= i < adj@.len() ==> strictly_ascending::<usize>(views((#[trigger] adj@[i])@)),
            forall|i: int, k: int| 0 <= i < adj@.len() && 0 <= k < adj@[i]@.len() ==> #[trigger] adj@[i]@[k] < nodes@.len(),
            forall|i: int, j: usize| 0 <= i < adj@.len() && 0 <= j < keys.len() ==> (#[trigger] views(adj@[i]@).contains(j))
                == joins(all.take(e as int), keys[i], keys[j as int]),
        decreases edges@.len() - e,
    {
        assert(all[e as int] == edges@[e as int]@);
        assert(touches(all, edges@[e as int]@.from));
        assert(touches(all, edges@[e as int]@.to));
        let from = order::find(nodes, &edges[e].from);
        let to = order::find(nodes, &edges[e].to);
        match (from, to) {
            (Some(a), Some(b)) => {
                let ghost start = adj@;
                let mut row: Vec<usize> = Vec::new();
                std::mem::swap(&mut row, &mut adj[a]);
                let ghost old_row = row@;
                order::insert(&mut row, b);
                let ghost new_row = row@;
                adj.set(a, row);
                proof {
                    assert(adj@.len() == start.len());
                    assert(forall|i: int| 0 <= i < adj@.len() && i != a ==> adj@[i] == start[i]);
                    assert forall|i: int, k: int| 0 <= i < adj@.len() && 0 <= k < adj@[i]@.len() implies #[trigger] adj@[i]@[k] < nodes@.len() by {
                        if i == a {
                            let x = new_row[k];
                            view_contains(new_row, k);
                            assert(views(new_row).contains(x));
                            if x != b {
                                assert(views(old_row).contains(x));
                                let q = choose|q: int| 0 <= q < views(old_row).len() && views(old_row)[q] == x;
                                assert(old_row[q] == x);
                                assert(start[i]@[q] == x);
                            }
                        } else {
                            assert(start[i]@[k] < nodes@.len());
                        }
                    }
                    let now = all.take(e + 1);
                    let then_ = all.take(e as int);
                    assert forall|i: int, j: usize| 0 <= i < adj@.len() && 0 <= j < keys.len() implies (#[trigger] views(adj@[i]@).contains(j))
                        == joins(now, keys[i], keys[j as int]) by {
                        assert(views(start[i]@).contains(j) == joins(then_, keys[i], keys[j as int]));
                        joins_grow(all, e as int, keys[i], keys[j as int]);
                        assert(keys[a as int] == all[e as int].from);
                        assert(keys[b as int] == all[e as int].to);
                        if i == a {
                            assert(views(new_row).contains(j) == (j == b || views(old_row).contains(j)));
                            if keys[j as int] == all[e as int].to {
                                distinct_keys(keys, j as int, b as int);
                            }
                        } else if keys[i] == all[e as int].from {
                            distinct_keys(keys, i, a as int);
                        }
                    }
                }
            },
            _ => {
                assert(false);
            },
        }
        e = e + 1;
    }
    proof {
        assert(all.take(e as int) =~= all);
        let g = cycles::graph(adj@);
        let h = index_graph(keys, all);
        assert(g.len() == h.len());
        assert forall|i: int| 0 <= i < g.len() implies g[i] == h[i] by {
            let keep = |j: int| joins(all, keys[i], keys[j]);
            order::chosen_are(keys.len(), keep);
            let row = adj@[i]@;
            assert(g[i] == cycles::numbers(row));
            assert(h[i] == order::chosen(keys.len(), keep));
            assert(order::ascending_numbers(g[i])) by {
                assert(strictly_ascending::<usize>(views(row)));
                assert forall|p: int, q: int| 0 <= p < q < g[i].len() implies #[trigger] g[i][p] < #[trigger] g[i][q] by {
                    assert(views(row)[p] < views(row)[q]);
                }
            }
            assert forall|x: int| g[i].contains(x) == h[i].contains(x) by {
                if g[i].contains(x) {
                    let k = choose|k: int| 0 <= k < g[i].len() && g[i][k] == x;
                    assert(adj@[i]@[k] == x);
                    view_contains(row, k);
                    assert(views(adj@[i]@).contains(x as usize));
                }
                if h[i].contains(x) {
                    assert(0 <= x < keys.len() && keep(x));
                    assert(views(adj@[i]@).contains(x as usize));
                    let k = choose|k: int| 0 <= k < views(row).len() && views(row)[k] == x as usize;
                    assert(g[i][k] == x);
                }
            }
            order::numbers_unique(g[i], h[i]);
        }
        assert(g =~= h);
    }
    adj
}

proof fn joins_grow(all: Seq<Link>, e: int, a: NodeKey, b: NodeKey)
    requires
        0 <= e < all.len(),
    ensures
        joins(all.take(e + 1), a, b) == (joins(all.take(e), a, b) || (all[e].from == a && all[e].to
            == b)),
{
    let now = all.take(e + 1);
    let then_ = all.take(e);
    if joins(then_, a, b) {
        let k = choose|k: int| 0 <= k < then_.len() && (#[trigger] then_[k]).from == a && then_[k].to == b;
        assert(now[k] == then_[k]);
    }
    assert(now[e] == all[e]);
    if joins(now, a, b) {
        let k = choose|k: int| 0 <= k < now.len() && (#[trigger] now[k]).from == a && now[k].to == b;
        if k < e {
            assert(then_[k] == now[k]);
        }
    }
}

proof fn distinct_keys(keys: Seq<NodeKey>, i: int, j: int)
    requires
        strictly_ascending::<NodeId>(keys),
        0 <= i < keys.len(),
        0 <= j < keys.len(),
        keys[i] == keys[j],
    ensures
        i == j,
{
    NodeId::irreflexive(keys[i]);
    if i < j {
        assert(NodeId::before(keys[i], keys[j]));
    } else if j < i {
        assert(NodeId::before(keys[j], keys[i]));
    }
}

proof fn index_graph_valid(nodes: Seq<NodeKey>, links: Seq<Link>)
    ensures
        cycles::valid_graph(index_graph(nodes, links)),
{
    let adj = index_graph(nodes, links);
    assert forall|i: int, k: int| 0 <= i < adj.len() && 0 <= k < adj[i].len() implies 0 <= #[trigger] adj[i][k] < adj.len() by {
        let keep = |j: int| joins(links, nodes[i], nodes[j]);
        order::chosen_are(nodes.len(), keep);
        assert(order::chosen(nodes.len(), keep).contains(adj[i][k]));
    }
}

/// The cycles of a normalised node and edge list.
fn named_cycles(nodes: &Vec<NodeId>, edges: &Vec<DependencyEdge>) -> (r: Vec<Vec<NodeId>>)
    requires
        strictly_ascending::<NodeId>(views(nodes@)),
        forall|n: NodeKey| touches(views(edges@), n) ==> #[trigger] views(nodes@).contains(n),
    ensures
        listed(r@) == named(
            cycle_order(index_graph(views(nodes@), views(edges@))),
            views(nodes@),
        ),
{
    let adj = adjacency(nodes, edges);
    let ghost g = index_graph(views(nodes@), views(edges@));
    proof {
        index_graph_valid(views(nodes@), views(edges@));
    }
    let found = cycles::detect(&adj);
    let ghost list = views(found@);
    proof {
        let other = cycle_order(g);
        assert(strictly_ascending::<cycles::NodeList>(list) && forall|c: Seq<int>|
            #[trigger] list.contains(c) == cycles::cycles_of(g).contains(c));
        assert forall|c: Seq<int>| list.contains(c) == other.contains(c) by {}
        order::ascending_unique::<cycles::NodeList>(list, other);
    }
    let ghost keys = views(nodes@);
    let mut out: Vec<Vec<NodeId>> = Vec::new();
    let mut i: usize = 0;
    while i < found.len()
        invariant
            i <= found@.len(),
            list == views(found@),
            list == cycle_order(g),
            cycles::valid_graph(g),
            g.len() == nodes@.len(),
            keys == views(nodes@),
            forall|c: Seq<int>| list.contains(c) == cycles::cycles_of(g).contains(c),
            listed(out@) == named(list, keys).take(i as int),
        decreases found@.len() - i,
    {
        proof {
            view_contains(found@, i as int);
            cycles::reported_is_cycle(g, list[i as int]);
            cycle_in_range(g, list[i as int]);
        }
        let mut row: Vec<NodeId> = Vec::new();
        let mut j: usize = 0;
        while j < found[i].nodes.len()
            invariant
                i < found@.len(),
                j <= found@[i as int].nodes@.len(),
                list == views(found@),
                keys == views(nodes@),
                list[i as int] == found@[i as int]@,
                forall|k: int| 0 <= k < list[i as int].len() ==> 0 <= #[trigger] list[i as int][k] < nodes@.len(),
                views(row@) == named(list, keys)[i as int].take(j as int),
            decreases found@[i as int].nodes@.len() - j,
        {
            let ghost start = row@;
            assert(list[i as int][j as int] == found@[i as int].nodes@[j as int]);
            let at = found[i].nodes[j];
            row.push(nodes[at].duplicate());
            proof {
                let full = named(list, keys)[i as int];
                assert(full[j as int] == keys[at as int]);
                assert(keys[at as int] == nodes@[at as int]@);
                assert(views(row@) =~= views(start).push(keys[at as int]));
                assert(full.take(j + 1) =~= full.take(j as int).push(full[j as int]));
            }
            j = j + 1;
        }
        let ghost start = out@;
        assert(views(row@) =~= named(list, keys)[i as int]);
        out.push(row);
        assert(listed(out@) =~= listed(start).push(named(list, keys)[i as int]));
        assert(named(list, keys).take(i + 1) =~= named(list, keys).take(i as int).push(
            named(list, keys)[i as int],
        ));
        i = i + 1;
    }
    assert(named(list, keys).take(i as int) =~= named(list, keys));
    out
}

proof fn cycle_in_range(adj: Seq<Seq<int>>, c: Seq<int>)
    requires
        cycles::valid_graph(adj),
        cycles::is_cycle(adj, c),
    ensures
        forall|k: int| 0 <= k < c.len() ==> 0 <= #[trigger] c[k] < adj.len(),
{
    assert forall|k: int| 0 <= k < c.len() implies 0 <= #[trigger] c[k] < adj.len() by {
        if k < c.len() - 1 {
            assert(cycles::edge(adj, c[k], c[k + 1]));
        } else {
            assert(cycles::edge(adj, c.last(), c[0]));
        }
    }
}

proof fn touches_sorted(edges: Seq<DependencyEdge>, n: NodeKey)
    ensures
        touches(deduplicated(views(sorted(edges))), n) == touches(views(edges), n),
{
    let a = views(edges);
    let m = views(sorted(edges));
    let b = deduplicated(m);
    order::sorted_keeps(edges);
    order::deduplicated_keeps(m);
    if touches(a, n) {
        let k = choose|k: int| 0 <= k < a.len() && ((#[trigger] a[k]).from == n || a[k].to == n);
        assert(a[k] == edges[k]@);
        assert(edges.contains(edges[k]));
        assert(sorted(edges).contains(edges[k]));
        let j = choose|j: int| 0 <= j < sorted(edges).len() && sorted(edges)[j] == edges[k];
        view_contains(sorted(edges), j);
        assert(b.contains(a[k]));
        let i = choose|i: int| 0 <= i < b.len() && b[i] == a[k];
        assert(b[i].from == n || b[i].to == n);
    }
    if touches(b, n) {
        let i = choose|i: int| 0 <= i < b.len() && ((#[trigger] b[i]).from == n || b[i].to == n);
        assert(b.contains(b[i]));
        assert(m.contains(b[i]));
        let j = choose|j: int| 0 <= j < m.len() && m[j] == b[i];
        assert(sorted(edges).contains(sorted(edges)[j]));
        assert(edges.contains(sorted(edges)[j]));
        let k = choose|k: int| 0 <= k < edges.len() && edges[k] == sorted(edges)[j];
        assert(a[k] == b[i]);
    }
}

impl DependencyGraph {
    /// Sorts everything deterministically and detects cycles.
    pub fn normalise(&mut self)
        ensures
            final(self).normalised_from(*old(self)),
    {
        let nodes = node_set(&self.nodes, &self.edges);
        let mut edges: Vec<DependencyEdge> = Vec::new();
        std::mem::swap(&mut edges, &mut self.edges);
        let ghost start = edges@;
        let edges = order::sort(edges);
        let edges = order::deduplicate(edges);
        let incomplete = gap_set(&self.incomplete);
        proof {
            assert forall|n: NodeKey| touches(views(edges@), n) implies #[trigger] views(nodes@).contains(
                n,
            ) by {
                touches_sorted(start, n);
            }
        }
        let cycles = named_cycles(&nodes, &edges);
        self.nodes = nodes;
        self.edges = edges;
        self.incomplete = incomplete;
        self.cycles = cycles;
        self.finished = true;
    }

    /// Constructs a normalised graph directly from edges.
    pub fn from_edges(workspace_id: &str, edges: Vec<DependencyEdge>) -> (r: Self)
        ensures
            exists|start: DependencyGraph|
                start.workspace_id@ == workspace_id@ && start.nodes@.len() == 0 && start.edges@
                    == edges@ && start.incomplete@.len() == 0 && #[trigger] r.normalised_from(start),
            r.workspace_id@ == workspace_id@,
            r.finished,
    {
        let mut graph = DependencyGraph {
            workspace_id: text::copy(workspace_id),
            nodes: Vec::new(),
            edges,
            incomplete: Vec::new(),
            cycles: Vec::new(),
            finished: false,
        };
        let ghost start = graph;
        graph.normalise();
        assert(graph.normalised_from(start));
        graph
    }

    /// The positions of the edges incident to `node`, in order.
    pub open spec fn incident_positions(self, node: NodeKey) -> Seq<int> {
        order::chosen(
            self.edges@.len(),
            |k: int| self.edges@[k]@.from == node || self.edges@[k]@.to == node,
        )
    }

    /// Every edge incident to `node`, in deterministic order.
    pub fn incident(&self, node: &NodeId) -> (r: Vec<&DependencyEdge>)
        ensures
            r@.len() == self.incident_positions(node@).len(),
            forall|i: int| 0 <= i < r@.len() ==> *(#[trigger] r@[i]) == self.edges@[self.incident_positions(node@)[i]],
    {
        let mut out: Vec<&DependencyEdge> = Vec::new();
        let ghost keep = |k: int| self.edges@[k]@.from == node@ || self.edges@[k]@.to == node@;
        let mut i: usize = 0;
        proof {
            reveal(Seq::filter);
            assert(Seq::new(0, |j: int| j) =~= Seq::<int>::empty());
        }
        while i < self.edges.len()
            invariant
                i <= self.edges@.len(),
                keep == (|k: int| self.edges@[k]@.from == node@ || self.edges@[k]@.to == node@),
                out@.len() == order::chosen(i as nat, keep).len(),
                forall|x: int| 0 <= x < out@.len() ==> *(#[trigger] out@[x]) == self.edges@[order::chosen(i as nat, keep)[x]],
            decreases self.edges@.len() - i,
        {
            let here = self.edges[i].from.alike(node) || self.edges[i].to.alike(node);
            proof {
                reveal(Seq::filter);
                let all = Seq::new((i + 1) as nat, |j: int| j);
                assert(all.drop_last() =~= Seq::new(i as nat, |j: int| j));
                assert(all.last() == i);
                assert(keep(i as int) == here);
            }
            if here {
                out.push(&self.edges[i]);
            }
            i = i + 1;
        }
        out
    }

    pub fn is_finished(&self) -> (r: bool)
        ensures
            r == self.finished,
    {
        self.finished
    }
}

// ---------------------------------------------------------------------------
// Reachability
// ---------------------------------------------------------------------------

/// Whether an edge that may be followed leads from `a` to `b`.
pub open spec fn leads(links: Seq<Link>, known_only: bool, a: NodeKey, b: NodeKey) -> bool {
    exists|k: int|
        0 <= k < links.len() && (#[trigger] links[k]).from == a && links[k].to == b && (known_only
            ==> links[k].confidence == EdgeConfidence::Known)
}

pub open spec fn is_route(links: Seq<Link>, known_only: bool, p: Seq<NodeKey>) -> bool {
    &&& p.len() > 0
    &&& forall|i: int| 0 <= i < p.len() - 1 ==> leads(links, known_only, #[trigger] p[i], p[i + 1])
}

/// Whether `b` can be reached from `a`; a node reaches itself.
pub open spec fn reaches(links: Seq<Link>, known_only: bool, a: NodeKey, b: NodeKey) -> bool {
    exists|p: Seq<NodeKey>|
        #[trigger] is_route(links, known_only, p) && p[0] == a && p.last() == b
}

/// Known edges alone reach no further than all edges do.
pub proof fn known_reach_is_reach(links: Seq<Link>, a: NodeKey, b: NodeKey)
    requires
        reaches(links, true, a, b),
    ensures
        reaches(links, false, a, b),
{
    let p = choose|p: Seq<NodeKey>|
        #[trigger] is_route(links, true, p) && p[0] == a && p.last() == b;
    assert forall|i: int| 0 <= i < p.len() - 1 implies leads(links, false, #[trigger] p[i], p[i + 1]) by {
        assert(leads(links, true, p[i], p[i + 1]));
    }
    assert(is_route(links, false, p));
}

/// An advisory edge makes nothing reachable over known edges: without it the
/// same nodes are reached.
pub proof fn advisory_edges_never_reach(links: Seq<Link>, k: int, a: NodeKey, b: NodeKey)
    requires
        0 <= k < links.len(),
        links[k].confidence == EdgeConfidence::Advisory,
    ensures
        reaches(links, true, a, b) == reaches(links.remove(k), true, a, b),
{
    let fewer = links.remove(k);
    assert forall|x: NodeKey, y: NodeKey| leads(links, true, x, y) == leads(fewer, true, x, y) by {
        if leads(links, true, x, y) {
            let j = choose|j: int|
                0 <= j < links.len() && (#[trigger] links[j]).from == x && links[j].to == y && links[j].confidence
                    == EdgeConfidence::Known;
            assert(fewer[if j < k { j } else { j - 1 }] == links[j]);
        }
        if leads(fewer, true, x, y) {
            let j = choose|j: int|
                0 <= j < fewer.len() && (#[trigger] fewer[j]).from == x && fewer[j].to == y && fewer[j].confidence
                    == EdgeConfidence::Known;
            assert(links[if j < k { j } else { j + 1 }] == fewer[j]);
        }
    }
    if reaches(links, true, a, b) {
        let p = choose|p: Seq<NodeKey>|
            #[trigger] is_route(links, true, p) && p[0] == a && p.last() == b;
        assert forall|i: int| 0 <= i < p.len() - 1 implies leads(fewer, true, #[trigger] p[i], p[i + 1]) by {
            assert(leads(links, true, p[i], p[i + 1]));
        }
        assert(is_route(fewer, true, p));
    }
    if reaches(fewer, true, a, b) {
        let p = choose|p: Seq<NodeKey>|
            #[trigger] is_route(fewer, true, p) && p[0] == a && p.last() == b;
        assert forall|i: int| 0 <= i < p.len() - 1 implies leads(links, true, #[trigger] p[i], p[i + 1]) by {
            assert(leads(fewer, true, p[i], p[i + 1]));
        }
        assert(is_route(links, true, p));
    }
}

/// What a set that is closed under the edges does not hold cannot be reached
/// from inside it.
proof fn closed_excludes(links: Seq<Link>, known_only: bool, inside: Seq<NodeKey>, a: NodeKey, p: Seq<NodeKey>, i: int)
    requires
        inside.contains(a),
        forall|x: NodeKey, y: NodeKey|
            inside.contains(x) && #[trigger] leads(links, known_only, x, y) ==> inside.contains(y),
        is_route(links, known_only, p),
        p[0] == a,
        0 <= i < p.len(),
    ensures
        inside.contains(p[i]),
    decreases i,
{
    if i > 0 {
        closed_excludes(links, known_only, inside, a, p, i - 1);
        assert(leads(links, known_only, p[i - 1], p[i]));
    }
}

proof fn route_extends(links: Seq<Link>, known_only: bool, a: NodeKey, x: NodeKey, y: NodeKey)
    requires
        reaches(links, known_only, a, x),
        leads(links, known_only, x, y),
    ensures
        reaches(links, known_only, a, y),
{
    let p = choose|p: Seq<NodeKey>|
        #[trigger] is_route(links, known_only, p) && p[0] == a && p.last() == x;
    let q = p.push(y);
    assert forall|i: int| 0 <= i < q.len() - 1 implies leads(links, known_only, #[trigger] q[i], q[i + 1]) by {
        if i < p.len() - 1 {
            assert(leads(links, known_only, p[i], p[i + 1]));
        }
    }
    assert(is_route(links, known_only, q));
}

/// At most every edge's target and one node more are different nodes among
/// those.
proof fn seen_bound(links: Seq<Link>, a: NodeKey, seen: Seq<NodeKey>)
    requires
        strictly_ascending::<NodeId>(seen),
        forall|i: int|
            0 <= i < seen.len() ==> #[trigger] seen[i] == a || exists|k: int|
                0 <= k < links.len() && (#[trigger] links[k]).to == seen[i],
    ensures
        seen.len() <= links.len() + 1,
{
    let targets = links.map_values(|l: Link| l.to);
    assert(seen.no_duplicates()) by {
        assert forall|i: int, j: int| 0 <= i < seen.len() && 0 <= j < seen.len() && i != j implies seen[i] != seen[j] by {
            if seen[i] == seen[j] {
                distinct_keys(seen, i, j);
            }
        }
    }
    seen.unique_seq_to_set();
    targets.lemma_cardinality_of_set();
    let bound = targets.to_set().insert(a);
    assert(targets.to_set().finite());
    assert(seen.to_set().subset_of(bound)) by {
        assert forall|x: NodeKey| seen.to_set().contains(x) implies bound.contains(x) by {
            let i = choose|i: int| 0 <= i < seen.len() && seen[i] == x;
            if x != a {
                let k = choose|k: int| 0 <= k < links.len() && (#[trigger] links[k]).to == x;
                assert(targets[k] == x);
                assert(targets.contains(x));
            }
        }
    }
    vstd::set_lib::lemma_len_subset(seen.to_set(), bound);
}

impl DependencyGraph {
    /// Reachable using known (identity-entailed) edges only. This is the
    /// relation the rollback closure is computed from; an advisory edge can
    /// never make an operation reachable here.
    pub fn reaches_known(&self, from: &NodeId, to: &NodeId) -> (r: bool)
        ensures
            r == reaches(self.links(), true, from@, to@),
    {
        self.reaches_with(from, to, true)
    }

    /// Reachable using edges of any confidence. Used to describe context, never
    /// to decide a plan.
    pub fn reaches_any(&self, from: &NodeId, to: &NodeId) -> (r: bool)
        ensures
            r == reaches(self.links(), false, from@, to@),
    {
        self.reaches_with(from, to, false)
    }

    /// `known_only` selects whether advisory edges are left out.
    #[verifier::rlimit(30)]
    fn reaches_with(&self, from: &NodeId, to: &NodeId, known_only: bool) -> (r: bool)
        ensures
            r == reaches(self.links(), known_only, from@, to@),
    {
        let ghost links = self.links();
        let mut stack: Vec<NodeId> = Vec::new();
        stack.push(from.duplicate());
        let mut seen: Vec<NodeId> = Vec::new();
        proof {
            assert(views(stack@) =~= seq![from@]);
            assert(views(stack@)[0] == from@);
            let p = seq![from@];
            assert(is_route(links, known_only, p));
            assert(reaches(links, known_only, from@, from@));
            seen_bound(links, from@, views(seen@));
        }
        while stack.len() > 0
            invariant
                links == self.links(),
                links.len() == self.edges@.len(),
                strictly_ascending::<NodeId>(views(seen@)),
                forall|x: NodeKey| #[trigger] views(stack@).contains(x) ==> reaches(links, known_only, from@, x),
                !views(seen@).contains(to@),
                views(seen@).contains(from@) || views(stack@).contains(from@),
                forall|x: NodeKey, y: NodeKey|
                    views(seen@).contains(x) && #[trigger] leads(links, known_only, x, y) ==> views(
                        seen@,
                    ).contains(y) || views(stack@).contains(y),
                forall|x: NodeKey| #[trigger] views(stack@).contains(x) ==> x == from@ || exists|k: int|
                    0 <= k < links.len() && (#[trigger] links[k]).to == x,
                forall|x: NodeKey| #[trigger] views(seen@).contains(x) ==> x == from@ || exists|k: int|
                    0 <= k < links.len() && (#[trigger] links[k]).to == x,
                seen@.len() <= links.len() + 1,
            decreases links.len() + 1 - seen@.len(), stack@.len(),
        {
            let ghost old_stack = stack@;
            let ghost old_seen = seen@;
            match stack.pop() {
                Some(node) => {
                    assert(old_stack =~= stack@.push(node));
                    proof {
                        order::push_contains(stack@, node);
                        assert(views(old_stack).contains(node@));
                        assert forall|x: NodeKey| #[trigger] views(stack@).contains(x) implies views(old_stack).contains(x) by {
                            assert(views(stack@.push(node)).contains(x));
                        }
                    }
                    if node.alike(to) {
                        return true;
                    }
                    let added = order::insert(&mut seen, node.duplicate());
                    proof {
                        assert forall|i: int| 0 <= i < views(seen@).len() implies #[trigger] views(seen@)[i] == from@ || exists|k: int|
                            0 <= k < links.len() && (#[trigger] links[k]).to == views(seen@)[i] by {
                            assert(views(seen@).contains(views(seen@)[i]));
                            assert(views(old_seen).contains(views(seen@)[i]) || views(seen@)[i] == node@);
                        }
                        seen_bound(links, from@, views(seen@));
                    }
                    if added {
                        proof {
                            ascending_grows(old_seen, seen@, node@);
                        }
                        let ghost rest = stack@;
                        let mut e: usize = 0;
                        while e < self.edges.len()
                            invariant
                                e <= self.edges@.len(),
                                links == self.links(),
                                links.len() == self.edges@.len(),
                                forall|x: NodeKey| #[trigger] views(stack@).contains(x) ==> reaches(links, known_only, from@, x),
                                reaches(links, known_only, from@, node@),
                                forall|x: NodeKey| #[trigger] views(rest).contains(x) ==> views(stack@).contains(x),
                                forall|k: int| 0 <= k < e && (#[trigger] links[k]).from == node@ && (known_only ==> links[k].confidence == EdgeConfidence::Known)
                                    ==> views(stack@).contains(links[k].to),
                                forall|x: NodeKey| #[trigger] views(stack@).contains(x) ==> x == from@ || exists|k: int|
                                    0 <= k < links.len() && (#[trigger] links[k]).to == x,
                            decreases self.edges@.len() - e,
                        {
                            assert(links[e as int] == self.edges@[e as int]@);
                            let open = !known_only || self.edges[e].confidence == EdgeConfidence::Known;
                            if open && self.edges[e].from.alike(&node) {
                                let ghost start = stack@;
                                let target = self.edges[e].to.duplicate();
                                proof {
                                    order::push_contains(start, target);
                                    assert(leads(links, known_only, node@, target@));
                                    route_extends(links, known_only, from@, node@, target@);
                                }
                                stack.push(target);
                            }
                            e = e + 1;
                        }
                        proof {
                            assert forall|x: NodeKey, y: NodeKey|
                                views(seen@).contains(x) && #[trigger] leads(links, known_only, x, y) implies views(
                                seen@,
                            ).contains(y) || views(stack@).contains(y) by {
                                if x == node@ {
                                    let k = choose|k: int|
                                        0 <= k < links.len() && (#[trigger] links[k]).from == x && links[k].to == y && (known_only
                                            ==> links[k].confidence == EdgeConfidence::Known);
                                    assert(views(stack@).contains(links[k].to));
                                } else {
                                    assert(views(old_seen).contains(x));
                                    assert(views(old_seen).contains(y) || views(old_stack).contains(y));
                                    if views(old_stack).contains(y) && y != node@ {
                                        assert(views(rest).contains(y));
                                    }
                                }
                            }
                        }
                    } else {
                        proof {
                            assert(seen@ == old_seen);
                            assert forall|x: NodeKey, y: NodeKey|
                                views(seen@).contains(x) && #[trigger] leads(links, known_only, x, y) implies views(
                                seen@,
                            ).contains(y) || views(stack@).contains(y) by {
                                assert(views(old_seen).contains(y) || views(old_stack).contains(y));
                            }
                        }
                    }
                },
                None => {},
            }
        }
        proof {
            assert(views(stack@) =~= Seq::empty());
            if reaches(links, known_only, from@, to@) {
                let p = choose|p: Seq<NodeKey>|
                    #[trigger] is_route(links, known_only, p) && p[0] == from@ && p.last() == to@;
                closed_excludes(links, known_only, views(seen@), from@, p, p.len() - 1);
            }
        }
        false
    }
}

/// A set that took in a new element is longer by one.
proof fn ascending_grows(before: Seq<NodeId>, after: Seq<NodeId>, x: NodeKey)
    requires
        strictly_ascending::<NodeId>(views(before)),
        strictly_ascending::<NodeId>(views(after)),
        !views(before).contains(x),
        forall|v: NodeKey| views(after).contains(v) == (v == x || views(before).contains(v)),
    ensures
        after.len() == before.len() + 1,
{
    let a = views(before);
    let b = views(after);
    assert(a.no_duplicates()) by {
        assert forall|i: int, j: int| 0 <= i < a.len() && 0 <= j < a.len() && i != j implies a[i] != a[j] by {
            if a[i] == a[j] {
                distinct_keys(a, i, j);
            }
        }
    }
    assert(b.no_duplicates()) by {
        assert forall|i: int, j: int| 0 <= i < b.len() && 0 <= j < b.len() && i != j implies b[i] != b[j] by {
            if b[i] == b[j] {
                distinct_keys(b, i, j);
            }
        }
    }
    a.unique_seq_to_set();
    b.unique_seq_to_set();
    assert(b.to_set() =~= a.to_set().insert(x)) by {
        assert forall|v: NodeKey| b.to_set().contains(v) == a.to_set().insert(x).contains(v) by {
            assert(b.contains(v) == (v == x || a.contains(v)));
        }
    }
}

// ---------------------------------------------------------------------------
// Building the graph from history
// ---------------------------------------------------------------------------

/// What the graph is built from: the recorded operations, the states that the
/// catalog holds and the recorded command boundaries.
#[derive(Debug)]
pub struct History {
    pub workspace_id: u128,
    pub operations: Vec<OperationRecord>,
    pub known_states: Vec<String>,
    pub boundaries: Vec<String>,
}

pub open spec fn distinct_ids(ops: Seq<OperationRecord>) -> bool {
    forall|i: int, j: int|
        0 <= i < j < ops.len() ==> (#[trigger] ops[i]).id != (#[trigger] ops[j]).id
}

impl History {
    /// Operation ids are unique.
    pub open spec fn valid(self) -> bool {
        distinct_ids(self.operations@)
    }

    /// The operations by time of record, then id.
    pub open spec fn ordered(self) -> Seq<OperationRecord> {
        sorted(self.operations@)
    }

    pub open spec fn knows(self, state: Seq<char>) -> bool {
        views(self.known_states@).contains(state)
    }
}

pub open spec fn expects_state_spec(kind: OperationKind) -> bool {
    kind == OperationKind::Strong || kind == OperationKind::PassiveObservation || kind
        == OperationKind::Restore || kind == OperationKind::Reconciliation
}

pub fn expects_state(kind: &OperationKind) -> (r: bool)
    ensures
        r == expects_state_spec(*kind),
{
    match kind {
        OperationKind::Strong => true,
        OperationKind::PassiveObservation => true,
        OperationKind::Restore => true,
        OperationKind::Reconciliation => true,
        _ => false,
    }
}

/// A boundary or a failed capture records no effects by construction, so its
/// empty effect list is missing evidence rather than evidence of absence.
pub open spec fn effects_available(op: OperationRecord) -> bool {
    op.kind != OperationKind::BoundaryOnly && op.kind != OperationKind::CaptureFailed
        && op.effects@.len() > 0
}

pub fn effect_evidence_available(operation: &OperationRecord) -> (r: bool)
    ensures
        r == effects_available(*operation),
{
    match operation.kind {
        OperationKind::BoundaryOnly => false,
        OperationKind::CaptureFailed => false,
        _ => operation.effects.len() > 0,
    }
}

/// `later` began from the state that `earlier` produced.
pub open spec fn hands_over(earlier: OperationRecord, later: OperationRecord) -> bool {
    text::optional(earlier.post_state_id) is Some && text::optional(earlier.post_state_id)
        == text::optional(later.pre_state_id)
}

pub open spec fn lineage_link(a: OperationRecord, b: OperationRecord) -> Link {
    link(
        a.id,
        b.id,
        EvidenceKind::StateLineage,
        seq!["state:"@ + text::optional(a.post_state_id)->0],
    )
}

pub open spec fn is_lineage(ops: Seq<OperationRecord>, e: Link) -> bool {
    exists|i: int, j: int|
        0 <= i < ops.len() && 0 <= j < ops.len() && i != j && hands_over(
            #[trigger] ops[i],
            #[trigger] ops[j],
        ) && e == lineage_link(ops[i], ops[j])
}

pub open spec fn touches_path(op: OperationRecord, path: Seq<char>) -> bool {
    exists|k: int| 0 <= k < op.effects@.len() && (#[trigger] op.effects@[k]).path@ == path
}

/// `list` holds the paths that both operations changed, each once, in order.
pub open spec fn shared(list: Seq<Seq<char>>, a: OperationRecord, b: OperationRecord) -> bool {
    &&& strictly_ascending::<String>(list)
    &&& forall|p: Seq<char>| #[trigger]
        list.contains(p) == (touches_path(a, p) && touches_path(b, p))
}

/// The paths an overlap edge names: all of them, or the first few and how many
/// more there are.
pub open spec fn overlap_support(list: Seq<Seq<char>>) -> Seq<Seq<char>> {
    if list.len() <= EFFECT_SUPPORT_LIMIT {
        list
    } else {
        list.take(EFFECT_SUPPORT_LIMIT as int).push(
            "... ("@ + decimal((list.len() - EFFECT_SUPPORT_LIMIT) as nat) + " more)"@,
        )
    }
}

pub open spec fn is_overlap_of(a: OperationRecord, b: OperationRecord, e: Link) -> bool {
    exists|list: Seq<Seq<char>>| #[trigger]
        shared(list, a, b) && list.len() > 0 && e == link(
            a.id,
            b.id,
            EvidenceKind::EffectOverlap,
            overlap_support(list),
        )
}

pub open spec fn is_overlap(ops: Seq<OperationRecord>, e: Link) -> bool {
    exists|i: int, j: int|
        0 <= i < j < ops.len() && effects_available(ops[i]) && effects_available(ops[j])
            && #[trigger] is_overlap_of(ops[i], ops[j], e)
}

/// The edge from the `i`-th operation to the next one.
pub open spec fn succession(ops: Seq<OperationRecord>, i: int) -> Link {
    link(ops[i].id, ops[i + 1].id, EvidenceKind::TemporalOrdering, Seq::empty())
}

pub open spec fn is_temporal(ops: Seq<OperationRecord>, e: Link) -> bool {
    exists|i: int|
        0 <= i < ops.len() - 1 && !hands_over(ops[i], ops[i + 1]) && e == #[trigger] succession(ops, i)
}

pub open spec fn missing_state_detail() -> Seq<char> {
    "a captured operation is missing a pre- or post-state, so its place in the chain cannot be established"@
}

pub open spec fn dangling_detail(state: Seq<char>) -> Seq<char> {
    "referenced state "@ + state + " is not present in the catalog"@
}

pub open spec fn no_effects_detail(kind: OperationKind) -> Seq<char> {
    "operation kind "@ + kind.text()
        + " records no effects, so an empty effect list does not mean it changed nothing"@
}

pub open spec fn references(op: OperationRecord, state: Seq<char>) -> bool {
    text::optional(op.pre_state_id) == Some(state) || text::optional(op.post_state_id) == Some(state)
}

/// What could not be evaluated of one operation.
pub open spec fn is_gap_of(h: History, op: OperationRecord, g: Gap) -> bool {
    &&& g.operation_id == op.id
    &&& {
        ||| expects_state_spec(op.kind) && (op.pre_state_id is None || op.post_state_id is None)
            && g.evidence == EvidenceKind::StateLineage && g.detail == missing_state_detail()
        ||| g.evidence == EvidenceKind::StateLineage && exists|s: Seq<char>| #[trigger]
            references(op, s) && !h.knows(s) && g.detail == dangling_detail(s)
        ||| !effects_available(op) && g.evidence == EvidenceKind::EffectOverlap && g.detail
            == no_effects_detail(op.kind)
    }
}

pub open spec fn is_gap(h: History, ops: Seq<OperationRecord>, g: Gap) -> bool {
    exists|i: int| 0 <= i < ops.len() && #[trigger] is_gap_of(h, ops[i], g)
}

pub open spec fn is_node(h: History, ops: Seq<OperationRecord>, n: NodeKey) -> bool {
    match n {
        NodeKey::Operation { id } => exists|i: int| 0 <= i < ops.len() && (#[trigger] ops[i]).id == id,
        NodeKey::State { id } => exists|i: int| 0 <= i < ops.len() && references(#[trigger] ops[i], id),
        NodeKey::Boundary { id } => views(h.boundaries@).contains(id),
    }
}

fn append_all(out: &mut Vec<DependencyEdge>, more: Vec<DependencyEdge>)
    ensures
        final(out)@ == old(out)@ + more@,
{
    let mut more = more;
    let ghost start = out@;
    let ghost add_on = more@;
    out.append(&mut more);
    assert(out@ =~= start + add_on);
}

fn lineage_edges(ops: &Vec<OperationRecord>) -> (r: Vec<DependencyEdge>)
    requires
        distinct_ids(ops@),
    ensures
        forall|e: Link| #[trigger] views(r@).contains(e) == is_lineage(ops@, e),
{
    let mut out: Vec<DependencyEdge> = Vec::new();
    let mut i: usize = 0;
    while i < ops.len()
        invariant
            i <= ops@.len(),
            forall|e: Link| #[trigger] views(out@).contains(e) ==> is_lineage(ops@, e),
            forall|a: int, b: int|
                0 <= a < i && 0 <= b < ops@.len() && a != b && hands_over(#[trigger] ops@[a], #[trigger] ops@[b])
                    ==> views(out@).contains(lineage_link(ops@[a], ops@[b])),
        decreases ops@.len() - i,
    {
        let mut j: usize = 0;
        while j < ops.len()
            invariant
                i < ops@.len(),
                j <= ops@.len(),
                forall|e: Link| #[trigger] views(out@).contains(e) ==> is_lineage(ops@, e),
                forall|a: int, b: int|
                    (0 <= a < i && 0 <= b < ops@.len() || a == i && 0 <= b < j) && a != b && hands_over(
                        #[trigger] ops@[a],
                        #[trigger] ops@[b],
                    ) ==> views(out@).contains(lineage_link(ops@[a], ops@[b])),
            decreases ops@.len() - j,
        {
            if i != j {
                match (&ops[i].post_state_id, &ops[j].pre_state_id) {
                    (Some(produced), Some(consumed)) => {
                        if text::same(produced, consumed) {
                            let edge = DependencyEdge::state_lineage(ops[i].id, ops[j].id, produced);
                            proof {
                                order::push_contains(out@, edge);
                                assert(edge@.support =~= lineage_link(ops@[i as int], ops@[j as int]).support);
                                assert(edge@ == lineage_link(ops@[i as int], ops@[j as int]));
                                assert(hands_over(ops@[i as int], ops@[j as int]));
                            }
                            out.push(edge);
                        }
                    },
                    _ => {},
                }
            }
            j = j + 1;
        }
        i = i + 1;
    }
    proof {
        assert forall|e: Link| is_lineage(ops@, e) implies #[trigger] views(out@).contains(e) by {
            let (a, b) = choose|a: int, b: int|
                0 <= a < ops@.len() && 0 <= b < ops@.len() && a != b && hands_over(
                    #[trigger] ops@[a],
                    #[trigger] ops@[b],
                ) && e == lineage_link(ops@[a], ops@[b]);
            assert(views(out@).contains(lineage_link(ops@[a], ops@[b])));
        }
    }
    out
}

/// The paths an operation changed, each once, in order.
fn path_set(op: &OperationRecord) -> (r: Vec<String>)
    ensures
        strictly_ascending::<String>(views(r@)),
        forall|p: Seq<char>| #[trigger] views(r@).contains(p) == touches_path(*op, p),
{
    let mut set: Vec<String> = Vec::new();
    let mut i: usize = 0;
    while i < op.effects.len()
        invariant
            i <= op.effects@.len(),
            strictly_ascending::<String>(views(set@)),
            forall|p: Seq<char>| #[trigger]
                views(set@).contains(p) == exists|k: int|
                    0 <= k < i && (#[trigger] op.effects@[k]).path@ == p,
        decreases op.effects@.len() - i,
    {
        let ghost before = set@;
        order::insert(&mut set, op.effects[i].path.clone());
        proof {
            assert forall|p: Seq<char>| #[trigger]
                views(set@).contains(p) == exists|k: int|
                    0 <= k < i + 1 && (#[trigger] op.effects@[k]).path@ == p by {
                assert(views(before).contains(p) == exists|k: int|
                    0 <= k < i && (#[trigger] op.effects@[k]).path@ == p);
                if views(before).contains(p) {
                    let k = choose|k: int| 0 <= k < i && (#[trigger] op.effects@[k]).path@ == p;
                    assert(op.effects@[k].path@ == p);
                }
                assert(op.effects@[i as int].path@ == op.effects@[i as int].path@);
            }
        }
        i = i + 1;
    }
    set
}

fn shared_paths(a: &Vec<String>, b: &Vec<String>) -> (r: Vec<String>)
    requires
        strictly_ascending::<String>(views(a@)),
        strictly_ascending::<String>(views(b@)),
    ensures
        strictly_ascending::<String>(views(r@)),
        forall|p: Seq<char>| #[trigger]
            views(r@).contains(p) == (views(a@).contains(p) && views(b@).contains(p)),
{
    let mut out: Vec<String> = Vec::new();
    let mut i: usize = 0;
    while i < a.len()
        invariant
            i <= a@.len(),
            strictly_ascending::<String>(views(a@)),
            strictly_ascending::<String>(views(b@)),
            strictly_ascending::<String>(views(out@)),
            forall|p: Seq<char>| #[trigger]
                views(out@).contains(p) == (views(a@).take(i as int).contains(p) && views(
                    b@,
                ).contains(p)),
        decreases a@.len() - i,
    {
        let ghost start = out@;
        let ghost va = views(a@);
        let here = order::holds(b, &a[i]);
        proof {
            assert(va[i as int] == a@[i as int]@);
            assert(va.take(i + 1) =~= va.take(i as int).push(va[i as int]));
        }
        if here {
            let copy = a[i].clone();
            proof {
                order::push_contains(start, copy);
                let next = views(start).push(copy@);
                assert forall|x: int, y: int| 0 <= x < y < next.len() implies String::before(
                    #[trigger] next[x],
                    #[trigger] next[y],
                ) by {
                    if y == start.len() {
                        assert(views(start).contains(views(start)[x]));
                        let prefix = va.take(i as int);
                        assert(prefix.contains(views(start)[x]));
                        let k = choose|k: int| 0 <= k < prefix.len() && prefix[k] == views(start)[x];
                        assert(String::before(va[k], va[i as int]));
                    }
                }
            }
            out.push(copy);
        }
        proof {
            let prefix = va.take(i as int);
            let longer = va.take(i + 1);
            assert forall|p: Seq<char>| #[trigger] views(out@).contains(p) == (longer.contains(p)
                && views(b@).contains(p)) by {
                if prefix.contains(p) {
                    let k = choose|k: int| 0 <= k < prefix.len() && prefix[k] == p;
                    assert(longer[k] == p);
                }
                assert(longer[i as int] == va[i as int]);
                if longer.contains(p) {
                    let k = choose|k: int| 0 <= k < longer.len() && longer[k] == p;
                    if k < i {
                        assert(prefix[k] == p);
                    }
                }
                assert(views(start).contains(p) == (prefix.contains(p) && views(b@).contains(p)));
            }
        }
        i = i + 1;
    }
    assert(views(a@).take(i as int) =~= views(a@));
    out
}

fn truncate_support(paths: Vec<String>) -> (r: Vec<String>)
    ensures
        views(r@) == overlap_support(views(paths@)),
{
    if paths.len() <= EFFECT_SUPPORT_LIMIT {
        return paths;
    }
    let ghost whole = views(paths@);
    let mut paths = paths;
    let remaining: usize = paths.len() - EFFECT_SUPPORT_LIMIT;
    paths.truncate(EFFECT_SUPPORT_LIMIT);
    assert(views(paths@) =~= whole.take(EFFECT_SUPPORT_LIMIT as int));
    let mut note = text::copy("... (");
    note.append(text::decimal_usize(remaining).as_str());
    note.append(" more)");
    let ghost start = paths@;
    paths.push(note);
    assert(views(paths@) =~= views(start).push(note@));
    paths
}

fn overlap_edges(ops: &Vec<OperationRecord>) -> (r: Vec<DependencyEdge>)
    ensures
        forall|e: Link| #[trigger] views(r@).contains(e) == is_overlap(ops@, e),
{
    let mut sets: Vec<Vec<String>> = Vec::new();
    let mut n: usize = 0;
    while n < ops.len()
        invariant
            n <= ops@.len(),
            sets@.len() == n,
            forall|k: int| 0 <= k < n ==> strictly_ascending::<String>(views((#[trigger] sets@[k])@)),
            forall|k: int, p: Seq<char>|
                0 <= k < n ==> (#[trigger] views(sets@[k]@).contains(p)) == touches_path(ops@[k], p),
        decreases ops@.len() - n,
    {
        sets.push(path_set(&ops[n]));
        n = n + 1;
    }
    let mut out: Vec<DependencyEdge> = Vec::new();
    let mut i: usize = 0;
    while i < ops.len()
        invariant
            i <= ops@.len(),
            sets@.len() == ops@.len(),
            forall|k: int| 0 <= k < ops@.len() ==> strictly_ascending::<String>(views((#[trigger] sets@[k])@)),
            forall|k: int, p: Seq<char>|
                0 <= k < ops@.len() ==> (#[trigger] views(sets@[k]@).contains(p)) == touches_path(ops@[k], p),
            forall|e: Link| #[trigger] views(out@).contains(e) ==> is_overlap(ops@, e),
            forall|a: int, b: int, e: Link|
                0 <= a < i && a < b < ops@.len() && effects_available(ops@[a]) && effects_available(ops@[b])
                    && #[trigger] is_overlap_of(ops@[a], ops@[b], e) ==> views(out@).contains(e),
        decreases ops@.len() - i,
    {
        let mut j: usize = i + 1;
        while j < ops.len()
            invariant
                i < ops@.len(),
                i < j <= ops@.len(),
                sets@.len() == ops@.len(),
                forall|k: int| 0 <= k < ops@.len() ==> strictly_ascending::<String>(views((#[trigger] sets@[k])@)),
                forall|k: int, p: Seq<char>|
                    0 <= k < ops@.len() ==> (#[trigger] views(sets@[k]@).contains(p)) == touches_path(ops@[k], p),
                forall|e: Link| #[trigger] views(out@).contains(e) ==> is_overlap(ops@, e),
                forall|a: int, b: int, e: Link|
                    (0 <= a < i && a < b < ops@.len() || a == i && i < b < j) && effects_available(ops@[a])
                        && effects_available(ops@[b]) && #[trigger] is_overlap_of(ops@[a], ops@[b], e)
                        ==> views(out@).contains(e),
            decreases ops@.len() - j,
        {
            let ghost start = out@;
            if effect_evidence_available(&ops[i]) && effect_evidence_available(&ops[j]) {
                let common = shared_paths(&sets[i], &sets[j]);
                let ghost list = views(common@);
                proof {
                    assert forall|p: Seq<char>| #[trigger] list.contains(p) == (touches_path(ops@[i as int], p) && touches_path(ops@[j as int], p)) by {
                        assert(views(sets@[i as int]@).contains(p) == touches_path(ops@[i as int], p));
                        assert(views(sets@[j as int]@).contains(p) == touches_path(ops@[j as int], p));
                    }
                    assert(shared(list, ops@[i as int], ops@[j as int]));
                }
                if common.len() > 0 {
                    let edge = DependencyEdge::effect_overlap(
                        ops[i].id,
                        ops[j].id,
                        truncate_support(common),
                    );
                    proof {
                        order::push_contains(start, edge);
                        assert(is_overlap_of(ops@[i as int], ops@[j as int], edge@));
                    }
                    out.push(edge);
                }
                proof {
                    assert forall|e: Link| #[trigger] is_overlap_of(ops@[i as int], ops@[j as int], e) implies views(out@).contains(e) by {
                        let other = choose|other: Seq<Seq<char>>| #[trigger]
                            shared(other, ops@[i as int], ops@[j as int]) && other.len() > 0 && e == link(
                                ops@[i as int].id,
                                ops@[j as int].id,
                                EvidenceKind::EffectOverlap,
                                overlap_support(other),
                            );
                        assert forall|p: Seq<char>| list.contains(p) == other.contains(p) by {}
                        order::ascending_unique::<String>(list, other);
                    }
                }
            }
            j = j + 1;
        }
        i = i + 1;
    }
    out
}

fn temporal_edges(ops: &Vec<OperationRecord>) -> (r: Vec<DependencyEdge>)
    ensures
        forall|e: Link| #[trigger] views(r@).contains(e) == is_temporal(ops@, e),
{
    let mut out: Vec<DependencyEdge> = Vec::new();
    let mut i: usize = 1;
    while i < ops.len()
        invariant
            1 <= i,
            forall|e: Link| #[trigger] views(out@).contains(e) ==> is_temporal(ops@, e),
            forall|a: int|
                0 <= a < i - 1 && a < ops@.len() - 1 && !hands_over(ops@[a], ops@[a + 1]) ==> views(
                    out@,
                ).contains(#[trigger] succession(ops@, a)),
        decreases ops@.len() - i,
    {
        let linked = match (&ops[i - 1].post_state_id, &ops[i].pre_state_id) {
            (Some(produced), Some(consumed)) => text::same(produced, consumed),
            _ => false,
        };
        assert(linked == hands_over(ops@[i - 1], ops@[i as int]));
        if !linked {
            let edge = DependencyEdge::temporal(ops[i - 1].id, ops[i].id);
            proof {
                order::push_contains(out@, edge);
                assert(edge@ == succession(ops@, i - 1));
                assert(is_temporal(ops@, edge@));
            }
            out.push(edge);
        }
        i = i + 1;
    }
    proof {
        assert forall|e: Link| is_temporal(ops@, e) implies #[trigger] views(out@).contains(e) by {
            let a = choose|a: int|
                0 <= a < ops@.len() - 1 && !hands_over(ops@[a], ops@[a + 1]) && e == #[trigger] succession(
                    ops@,
                    a,
                );
            assert(views(out@).contains(succession(ops@, a)));
        }
    }
    out
}

fn push_gap(out: &mut Vec<IncompleteEvidence>, operation_id: i64, evidence: EvidenceKind, detail: String)
    ensures
        forall|g: Gap| #[trigger]
            views(final(out)@).contains(g) == (views(old(out)@).contains(g) || g == (Gap {
                operation_id,
                evidence,
                detail: detail@,
            })),
{
    let gap = IncompleteEvidence { operation_id, evidence, detail };
    proof {
        order::push_contains(out@, gap);
    }
    out.push(gap);
}

fn dangling_text(state: &str) -> (r: String)
    ensures
        r@ == dangling_detail(state@),
{
    let mut out = text::copy("referenced state ");
    out.append(state);
    out.append(" is not present in the catalog");
    out
}

/// What could not be evaluated of the operations.
fn gaps(h: &History, known: &Vec<String>, ops: &Vec<OperationRecord>) -> (r: Vec<IncompleteEvidence>)
    requires
        strictly_ascending::<String>(views(known@)),
        forall|s: Seq<char>| #[trigger] views(known@).contains(s) == h.knows(s),
    ensures
        forall|g: Gap| #[trigger] views(r@).contains(g) == is_gap(*h, ops@, g),
{
    let mut out: Vec<IncompleteEvidence> = Vec::new();
    let mut i: usize = 0;
    while i < ops.len()
        invariant
            i <= ops@.len(),
            strictly_ascending::<String>(views(known@)),
            forall|s: Seq<char>| #[trigger] views(known@).contains(s) == h.knows(s),
            forall|g: Gap| #[trigger]
                views(out@).contains(g) == exists|k: int| 0 <= k < i && #[trigger] is_gap_of(*h, ops@[k], g),
        decreases ops@.len() - i,
    {
        let ghost start = out@;
        let op = &ops[i];
        if expects_state(&op.kind) && (op.pre_state_id.is_none() || op.post_state_id.is_none()) {
            push_gap(&mut out, op.id, EvidenceKind::StateLineage, text::copy("a captured operation is missing a pre- or post-state, so its place in the chain cannot be established"));
        }
        if let Some(state) = &op.post_state_id {
            if !order::holds(known, state) {
                push_gap(&mut out, op.id, EvidenceKind::StateLineage, dangling_text(state));
            }
        }
        if let Some(state) = &op.pre_state_id {
            if !order::holds(known, state) {
                push_gap(&mut out, op.id, EvidenceKind::StateLineage, dangling_text(state));
            }
        }
        if !effect_evidence_available(op) {
            let mut detail = text::copy("operation kind ");
            detail.append(op.kind.as_str());
            detail.append(" records no effects, so an empty effect list does not mean it changed nothing");
            push_gap(&mut out, op.id, EvidenceKind::EffectOverlap, detail);
        }
        proof {
            let o = ops@[i as int];
            assert forall|g: Gap| #[trigger] views(out@).contains(g) == (views(start).contains(g)
                || is_gap_of(*h, o, g)) by {
                if is_gap_of(*h, o, g) && g.evidence == EvidenceKind::StateLineage && g.detail != missing_state_detail() {
                    let s = choose|s: Seq<char>| #[trigger] references(o, s) && !h.knows(s) && g.detail == dangling_detail(s);
                    assert(views(known@).contains(s) == h.knows(s));
                }
                if o.post_state_id is Some {
                    let s = o.post_state_id->0@;
                    assert(references(o, s));
                    assert(views(known@).contains(s) == h.knows(s));
                }
                if o.pre_state_id is Some {
                    let s = o.pre_state_id->0@;
                    assert(references(o, s));
                    assert(views(known@).contains(s) == h.knows(s));
                }
            }
            assert forall|g: Gap| #[trigger]
                views(out@).contains(g) == exists|k: int| 0 <= k < i + 1 && #[trigger] is_gap_of(*h, ops@[k], g) by {
                assert(views(start).contains(g) == exists|k: int| 0 <= k < i && #[trigger] is_gap_of(*h, ops@[k], g));
                if views(start).contains(g) {
                    let k = choose|k: int| 0 <= k < i && #[trigger] is_gap_of(*h, ops@[k], g);
                    assert(is_gap_of(*h, ops@[k], g));
                }
                if exists|k: int| 0 <= k < i + 1 && #[trigger] is_gap_of(*h, ops@[k], g) {
                    let k = choose|k: int| 0 <= k < i + 1 && #[trigger] is_gap_of(*h, ops@[k], g);
                    if k < i {
                        assert(is_gap_of(*h, ops@[k], g));
                    }
                }
            }
        }
        i = i + 1;
    }
    out
}

/// Whether the recorded history gives an edge.
pub open spec fn is_edge(ops: Seq<OperationRecord>, e: Link) -> bool {
    is_lineage(ops, e) || is_overlap(ops, e) || is_temporal(ops, e)
}

pub proof fn same_id(ops: Seq<OperationRecord>, i: int, j: int)
    requires
        distinct_ids(ops),
        0 <= i < ops.len(),
        0 <= j < ops.len(),
        ops[i].id == ops[j].id,
    ensures
        i == j,
{
    if i < j {
        assert(ops[i].id != ops[j].id);
    } else if j < i {
        assert(ops[j].id != ops[i].id);
    }
}

/// An edge is determined by its ends and its evidence.
proof fn edges_determined(ops: Seq<OperationRecord>, x: Link, y: Link)
    requires
        distinct_ids(ops),
        is_edge(ops, x),
        is_edge(ops, y),
        !DependencyEdge::before(x, y),
        !DependencyEdge::before(y, x),
    ensures
        x == y,
{
    if x.from != y.from {
        NodeId::separates(x.from, y.from);
    }
    if x.to != y.to {
        NodeId::separates(x.to, y.to);
    }
    assert(x.evidence == y.evidence);
    assert(x.confidence == y.confidence);
    if x.evidence == EvidenceKind::StateLineage {
        assert(is_lineage(ops, x) && is_lineage(ops, y));
        let (a, b) = choose|a: int, b: int|
            0 <= a < ops.len() && 0 <= b < ops.len() && a != b && hands_over(#[trigger] ops[a], #[trigger] ops[b])
                && x == lineage_link(ops[a], ops[b]);
        let (c, d) = choose|c: int, d: int|
            0 <= c < ops.len() && 0 <= d < ops.len() && c != d && hands_over(#[trigger] ops[c], #[trigger] ops[d])
                && y == lineage_link(ops[c], ops[d]);
        same_id(ops, a, c);
        same_id(ops, b, d);
    } else if x.evidence == EvidenceKind::EffectOverlap {
        assert(is_overlap(ops, x) && is_overlap(ops, y));
        let (a, b) = choose|a: int, b: int|
            0 <= a < b < ops.len() && effects_available(ops[a]) && effects_available(ops[b])
                && #[trigger] is_overlap_of(ops[a], ops[b], x);
        let (c, d) = choose|c: int, d: int|
            0 <= c < d < ops.len() && effects_available(ops[c]) && effects_available(ops[d])
                && #[trigger] is_overlap_of(ops[c], ops[d], y);
        same_id(ops, a, c);
        same_id(ops, b, d);
        let l = choose|l: Seq<Seq<char>>| #[trigger]
            shared(l, ops[a], ops[b]) && l.len() > 0 && x == link(
                ops[a].id,
                ops[b].id,
                EvidenceKind::EffectOverlap,
                overlap_support(l),
            );
        let m = choose|m: Seq<Seq<char>>| #[trigger]
            shared(m, ops[a], ops[b]) && m.len() > 0 && y == link(
                ops[a].id,
                ops[b].id,
                EvidenceKind::EffectOverlap,
                overlap_support(m),
            );
        assert forall|p: Seq<char>| l.contains(p) == m.contains(p) by {}
        order::ascending_unique::<String>(l, m);
    }
}

pub proof fn sorted_distinct(ops: Seq<OperationRecord>)
    requires
        distinct_ids(ops),
    ensures
        distinct_ids(sorted(ops)),
    decreases ops.len(),
{
    if ops.len() > 0 {
        let head = ops.drop_last();
        let x = ops.last();
        assert(distinct_ids(head)) by {
            assert forall|i: int, j: int| 0 <= i < j < head.len() implies (#[trigger] head[i]).id != (#[trigger] head[j]).id by {
                assert(head[i] == ops[i] && head[j] == ops[j]);
            }
        }
        sorted_distinct(head);
        order::sorted_keeps(head);
        order::place_in_range(sorted(head), x);
        let s = sorted(head);
        let p = order::place(s, x);
        let r = s.insert(p, x);
        assert forall|i: int| 0 <= i < s.len() implies (#[trigger] s[i]).id != x.id by {
            assert(s.contains(s[i]));
            assert(head.contains(s[i]));
            let k = choose|k: int| 0 <= k < head.len() && head[k] == s[i];
            assert(ops[k].id != ops[ops.len() - 1].id);
        }
        assert forall|i: int, j: int| 0 <= i < j < r.len() implies (#[trigger] r[i]).id != (#[trigger] r[j]).id by {
            if i == p {
                assert(r[j] == s[j - 1]);
            } else if j == p {
                assert(r[i] == s[i]);
            } else {
                let a = if i < p { i } else { i - 1 };
                let b = if j < p { j } else { j - 1 };
                assert(r[i] == s[a] && r[j] == s[b]);
            }
        }
    }
}

pub proof fn concat_contains<T: View>(a: Seq<T>, b: Seq<T>)
    ensures
        forall|v: T::V| #[trigger] views(a + b).contains(v) == (views(a).contains(v) || views(b).contains(v)),
{
    let x = views(a);
    let y = views(b);
    let z = views(a + b);
    assert(z =~= x + y);
    assert forall|v: T::V| #[trigger] z.contains(v) == (x.contains(v) || y.contains(v)) by {
        if x.contains(v) {
            let i = choose|i: int| 0 <= i < x.len() && x[i] == v;
            assert(z[i] == v);
        }
        if y.contains(v) {
            let i = choose|i: int| 0 <= i < y.len() && y[i] == v;
            assert(z[x.len() + i] == v);
        }
        if z.contains(v) {
            let i = choose|i: int| 0 <= i < z.len() && z[i] == v;
            if i < x.len() {
                assert(x[i] == v);
            } else {
                assert(y[i - x.len()] == v);
            }
        }
    }
}

/// Edges that history gives, once each whatever their order, are put in the
/// one order there is.
proof fn normal_edges(ops: Seq<OperationRecord>, edges: Seq<DependencyEdge>)
    requires
        distinct_ids(ops),
        forall|e: Link| #[trigger] views(edges).contains(e) == is_edge(ops, e),
    ensures
        strictly_ascending::<DependencyEdge>(deduplicated(views(sorted(edges)))),
        forall|e: Link| #[trigger] deduplicated(views(sorted(edges))).contains(e) == is_edge(ops, e),
{
    let s = sorted(edges);
    order::sorted_ascends(edges);
    order::sorted_keeps(edges);
    order::deduplicated_keeps(views(s));
    assert forall|e: Link| #[trigger] views(s).contains(e) == views(edges).contains(e) by {
        if views(s).contains(e) {
            let i = choose|i: int| 0 <= i < views(s).len() && views(s)[i] == e;
            assert(s.contains(s[i]));
            assert(edges.contains(s[i]));
            let k = choose|k: int| 0 <= k < edges.len() && edges[k] == s[i];
            view_contains(edges, k);
        }
        if views(edges).contains(e) {
            let i = choose|i: int| 0 <= i < views(edges).len() && views(edges)[i] == e;
            assert(edges.contains(edges[i]));
            assert(s.contains(edges[i]));
            let k = choose|k: int| 0 <= k < s.len() && s[k] == edges[i];
            view_contains(s, k);
        }
    }
    assert forall|i: int, j: int|
        0 <= i < s.len() && 0 <= j < s.len() && !DependencyEdge::before((#[trigger] s[i])@, (#[trigger] s[j])@)
            && !DependencyEdge::before(s[j]@, s[i]@) implies s[i]@ == s[j]@ by {
        view_contains(s, i);
        view_contains(s, j);
        edges_determined(ops, s[i]@, s[j]@);
    }
    order::deduplicated_ascends(s);
    assert forall|e: Link| #[trigger] deduplicated(views(s)).contains(e) == is_edge(ops, e) by {
        assert(deduplicated(views(s)).contains(e) == views(s).contains(e));
        assert(views(s).contains(e) == views(edges).contains(e));
    }
}

pub(crate) fn text_set(texts: &Vec<String>) -> (r: Vec<String>)
    ensures
        strictly_ascending::<String>(views(r@)),
        forall|s: Seq<char>| #[trigger] views(r@).contains(s) == views(texts@).contains(s),
{
    let mut set: Vec<String> = Vec::new();
    let mut j: usize = 0;
    while j < texts.len()
        invariant
            j <= texts@.len(),
            strictly_ascending::<String>(views(set@)),
            forall|s: Seq<char>| #[trigger]
                views(set@).contains(s) == views(texts@).take(j as int).contains(s),
        decreases texts@.len() - j,
    {
        let ghost before = set@;
        order::insert(&mut set, texts[j].clone());
        proof {
            let all = views(texts@);
            let a = all.take(j as int);
            let b = all.take(j + 1);
            assert forall|g: Seq<char>| #[trigger] views(set@).contains(g) == b.contains(g) by {
                if a.contains(g) {
                    let k = choose|k: int| 0 <= k < a.len() && a[k] == g;
                    assert(b[k] == g);
                }
                assert(b[j as int] == texts@[j as int]@);
                if b.contains(g) {
                    let k = choose|k: int| 0 <= k < b.len() && b[k] == g;
                    if k < j {
                        assert(a[k] == g);
                    }
                }
                assert(views(before).contains(g) == a.contains(g));
            }
        }
        j = j + 1;
    }
    assert(views(texts@).take(j as int) =~= views(texts@));
    set
}

fn push_node(out: &mut Vec<NodeId>, n: NodeId)
    ensures
        forall|k: NodeKey| #[trigger]
            views(final(out)@).contains(k) == (views(old(out)@).contains(k) || k == n@),
{
    proof {
        order::push_contains(out@, n);
    }
    out.push(n);
}

/// The nodes of the history, in no particular order.
fn history_nodes(h: &History, ops: &Vec<OperationRecord>) -> (r: Vec<NodeId>)
    ensures
        forall|n: NodeKey| #[trigger] views(r@).contains(n) == is_node(*h, ops@, n),
{
    let mut out: Vec<NodeId> = Vec::new();
    let mut i: usize = 0;
    while i < ops.len()
        invariant
            i <= ops@.len(),
            forall|n: NodeKey| #[trigger]
                views(out@).contains(n) == match n {
                    NodeKey::Operation { id } => exists|k: int|
                        0 <= k < i && (#[trigger] ops@[k]).id == id,
                    NodeKey::State { id } => exists|k: int|
                        0 <= k < i && references(#[trigger] ops@[k], id),
                    NodeKey::Boundary { id } => false,
                },
        decreases ops@.len() - i,
    {
        let ghost start = out@;
        push_node(&mut out, NodeId::operation(ops[i].id));
        if let Some(state) = &ops[i].pre_state_id {
            push_node(&mut out, NodeId::State { id: state.clone() });
        }
        if let Some(state) = &ops[i].post_state_id {
            push_node(&mut out, NodeId::State { id: state.clone() });
        }
        proof {
            let o = ops@[i as int];
            assert forall|n: NodeKey| #[trigger]
                views(out@).contains(n) == match n {
                    NodeKey::Operation { id } => exists|k: int|
                        0 <= k < i + 1 && (#[trigger] ops@[k]).id == id,
                    NodeKey::State { id } => exists|k: int|
                        0 <= k < i + 1 && references(#[trigger] ops@[k], id),
                    NodeKey::Boundary { id } => false,
                } by {
                let was = views(start).contains(n);
                match n {
                    NodeKey::Operation { id } => {
                        assert(views(out@).contains(n) == (was || id == o.id));
                        if was {
                            let k = choose|k: int| 0 <= k < i && (#[trigger] ops@[k]).id == id;
                            assert(ops@[k].id == id);
                        }
                        assert(ops@[i as int].id == o.id);
                        if exists|k: int| 0 <= k < i + 1 && (#[trigger] ops@[k]).id == id {
                            let k = choose|k: int| 0 <= k < i + 1 && (#[trigger] ops@[k]).id == id;
                            if k < i {
                                assert(ops@[k].id == id);
                            }
                        }
                    },
                    NodeKey::State { id } => {
                        assert(views(out@).contains(n) == (was || references(o, id)));
                        if was {
                            let k = choose|k: int| 0 <= k < i && references(#[trigger] ops@[k], id);
                            assert(references(ops@[k], id));
                        }
                        if exists|k: int| 0 <= k < i + 1 && references(#[trigger] ops@[k], id) {
                            let k = choose|k: int| 0 <= k < i + 1 && references(#[trigger] ops@[k], id);
                            if k < i {
                                assert(references(ops@[k], id));
                            }
                        }
                    },
                    NodeKey::Boundary { id } => {},
                }
            }
        }
        i = i + 1;
    }
    let mut j: usize = 0;
    while j < h.boundaries.len()
        invariant
            j <= h.boundaries@.len(),
            forall|n: NodeKey| #[trigger]
                views(out@).contains(n) == match n {
                    NodeKey::Boundary { id } => views(h.boundaries@).take(j as int).contains(id),
                    _ => is_node(*h, ops@, n),
                },
        decreases h.boundaries@.len() - j,
    {
        let ghost start = out@;
        push_node(&mut out, NodeId::Boundary { id: h.boundaries[j].clone() });
        proof {
            let all = views(h.boundaries@);
            let a = all.take(j as int);
            let b = all.take(j + 1);
            assert forall|n: NodeKey| #[trigger]
                views(out@).contains(n) == match n {
                    NodeKey::Boundary { id } => b.contains(id),
                    _ => is_node(*h, ops@, n),
                } by {
                assert(views(start).contains(n) == match n {
                    NodeKey::Boundary { id } => a.contains(id),
                    _ => is_node(*h, ops@, n),
                });
                if let NodeKey::Boundary { id } = n {
                    if a.contains(id) {
                        let k = choose|k: int| 0 <= k < a.len() && a[k] == id;
                        assert(b[k] == id);
                    }
                    assert(b[j as int] == h.boundaries@[j as int]@);
                    if b.contains(id) {
                        let k = choose|k: int| 0 <= k < b.len() && b[k] == id;
                        if k < j {
                            assert(a[k] == id);
                        }
                    }
                }
            }
        }
        j = j + 1;
    }
    assert(views(h.boundaries@).take(j as int) =~= views(h.boundaries@));
    out
}

proof fn ends_are_nodes(h: History, ops: Seq<OperationRecord>, links: Seq<Link>, n: NodeKey)
    requires
        forall|e: Link| #[trigger] links.contains(e) ==> is_edge(ops, e),
        touches(links, n),
    ensures
        is_node(h, ops, n),
{
    let k = choose|k: int| 0 <= k < links.len() && ((#[trigger] links[k]).from == n || links[k].to == n);
    let e = links[k];
    assert(links.contains(e));
    if is_lineage(ops, e) {
        let (a, b) = choose|a: int, b: int|
            0 <= a < ops.len() && 0 <= b < ops.len() && a != b && hands_over(#[trigger] ops[a], #[trigger] ops[b])
                && e == lineage_link(ops[a], ops[b]);
        assert(ops[a].id == ops[a].id && ops[b].id == ops[b].id);
    } else if is_overlap(ops, e) {
        let (a, b) = choose|a: int, b: int|
            0 <= a < b < ops.len() && effects_available(ops[a]) && effects_available(ops[b])
                && #[trigger] is_overlap_of(ops[a], ops[b], e);
        assert(ops[a].id == ops[a].id && ops[b].id == ops[b].id);
    } else {
        let a = choose|a: int|
            0 <= a < ops.len() - 1 && !hands_over(ops[a], ops[a + 1]) && e == #[trigger] succession(ops, a);
        assert(ops[a].id == ops[a].id && ops[a + 1].id == ops[a + 1].id);
    }
}

impl DependencyGraph {
    /// What a graph built from history holds.
    pub open spec fn built_from(self, h: History) -> bool {
        let ops = h.ordered();
        &&& self.workspace_id@ == outside::uuid_text(h.workspace_id)
        &&& self.finished
        &&& strictly_ascending::<NodeId>(views(self.nodes@))
        &&& forall|n: NodeKey| #[trigger] views(self.nodes@).contains(n) == is_node(h, ops, n)
        &&& strictly_ascending::<DependencyEdge>(self.links())
        &&& forall|e: Link| #[trigger] self.links().contains(e) == is_edge(ops, e)
        &&& strictly_ascending::<IncompleteEvidence>(views(self.incomplete@))
        &&& forall|g: Gap| #[trigger] views(self.incomplete@).contains(g) == is_gap(h, ops, g)
        &&& listed(self.cycles@) == named(
            cycle_order(index_graph(views(self.nodes@), self.links())),
            views(self.nodes@),
        )
    }

    /// Builds the graph from the workspace's own history.
    pub fn build(history: History) -> (r: Self)
        requires
            history.valid(),
        ensures
            r.built_from(history),
    {
        let History { workspace_id, operations, known_states, boundaries } = history;
        let ops = order::sort(operations);
        Self::build_sorted(workspace_id, &ops, known_states, boundaries, Ghost(history))
    }

    pub(crate) fn build_sorted(
        workspace_id: u128,
        ops: &Vec<OperationRecord>,
        known_states: Vec<String>,
        boundaries: Vec<String>,
        Ghost(history): Ghost<History>,
    ) -> (r: Self)
        requires
            history.valid(),
            ops@ == history.ordered(),
            history.workspace_id == workspace_id,
            history.known_states == known_states,
            history.boundaries == boundaries,
        ensures
            r.built_from(history),
    {
        proof {
            sorted_distinct(history.operations@);
        }
        let known = text_set(&known_states);
        let held = History { workspace_id, operations: Vec::new(), known_states, boundaries };
        let nodes = history_nodes(&held, ops);
        let incomplete = gaps(&held, &known, ops);
        let mut edges = lineage_edges(ops);
        let overlaps = overlap_edges(ops);
        let temporal = temporal_edges(ops);
        let ghost l = edges@;
        append_all(&mut edges, overlaps);
        append_all(&mut edges, temporal);
        proof {
            concat_contains(l, overlaps@);
            concat_contains(l + overlaps@, temporal@);
            assert forall|e: Link| #[trigger] views(edges@).contains(e) == is_edge(ops@, e) by {
                assert(views(edges@).contains(e) == (views(l + overlaps@).contains(e) || views(temporal@).contains(e)));
                assert(views(l + overlaps@).contains(e) == (views(l).contains(e) || views(overlaps@).contains(e)));
            }
            normal_edges(ops@, edges@);
        }
        let mut graph = DependencyGraph {
            workspace_id: outside::identifier(workspace_id),
            nodes,
            edges,
            incomplete,
            cycles: Vec::new(),
            finished: false,
        };
        let ghost start = graph;
        graph.normalise();
        proof {
            assert forall|n: NodeKey| #[trigger] views(graph.nodes@).contains(n) == is_node(history, ops@, n) by {
                assert(is_node(held, ops@, n) == is_node(history, ops@, n));
                assert(views(start.nodes@).contains(n) == is_node(held, ops@, n));
                if touches(start.links(), n) {
                    ends_are_nodes(history, ops@, start.links(), n);
                }
            }
            assert forall|g: Gap| #[trigger] views(graph.incomplete@).contains(g) == is_gap(history, ops@, g) by {
                assert(views(start.incomplete@).contains(g) == is_gap(held, ops@, g));
                assert forall|i: int| 0 <= i < ops@.len() implies #[trigger] is_gap_of(held, ops@[i], g) == is_gap_of(history, ops@[i], g) by {
                    assert(forall|s: Seq<char>| held.knows(s) == history.knows(s));
                }
                if is_gap(held, ops@, g) {
                    let i = choose|i: int| 0 <= i < ops@.len() && #[trigger] is_gap_of(held, ops@[i], g);
                    assert(is_gap_of(history, ops@[i], g));
                }
                if is_gap(history, ops@, g) {
                    let i = choose|i: int| 0 <= i < ops@.len() && #[trigger] is_gap_of(history, ops@[i], g);
                    assert(is_gap_of(held, ops@[i], g));
                }
            }
        }
        graph
    }
}

// ---------------------------------------------------------------------------
// Laws
// ---------------------------------------------------------------------------

proof fn index_edges(nodes: Seq<NodeKey>, links: Seq<Link>, i: int, j: int)
    requires
        0 <= i < nodes.len(),
    ensures
        cycles::edge(index_graph(nodes, links), i, j) == (0 <= j < nodes.len() && joins(
            links,
            nodes[i],
            nodes[j],
        )),
{
    let keep = |j: int| joins(links, nodes[i], nodes[j]);
    order::chosen_are(nodes.len(), keep);
    assert(index_graph(nodes, links)[i] == order::chosen(nodes.len(), keep));
}

/// The cycles listed for a graph are cycles of it.
pub proof fn listed_cycles_are_cycles(graph: DependencyGraph, start: DependencyGraph, c: Seq<NodeKey>)
    requires
        graph.normalised_from(start),
        listed(graph.cycles@).contains(c),
    ensures
        is_cycle(graph.links(), c),
{
    let nodes = views(graph.nodes@);
    let links = graph.links();
    let adj = index_graph(nodes, links);
    index_graph_valid(nodes, links);
    let list = cycle_order(adj);
    cycle_order_exists(adj);
    let k = choose|k: int| 0 <= k < listed(graph.cycles@).len() && listed(graph.cycles@)[k] == c;
    let ix = list[k];
    assert(list.contains(ix));
    cycles::reported_is_cycle(adj, ix);
    cycle_in_range(adj, ix);
    assert(c == ix.map_values(|i: int| nodes[i]));
    assert forall|i: int, j: int| 0 <= i < c.len() && 0 <= j < c.len() && i != j implies c[i] != c[j] by {
        if c[i] == c[j] {
            distinct_keys(nodes, ix[i], ix[j]);
        }
    }
    assert forall|i: int| 0 <= i < c.len() - 1 implies joins(links, #[trigger] c[i], c[i + 1]) by {
        assert(cycles::edge(adj, ix[i], ix[i + 1]));
        index_edges(nodes, links, ix[i], ix[i + 1]);
    }
    index_edges(nodes, links, ix.last(), ix[0]);
}

/// The ascending list of the cycles of a graph exists.
proof fn cycle_order_exists(adj: Seq<Seq<int>>)
    requires
        cycles::valid_graph(adj),
    ensures
        strictly_ascending::<cycles::NodeList>(cycle_order(adj)),
        forall|c: Seq<int>| #[trigger]
            cycle_order(adj).contains(c) == cycles::cycles_of(adj).contains(c),
{
    cycles::cycles_finite(adj);
    let list = listing(cycles::cycles_of(adj));
    listing_lists(cycles::cycles_of(adj));
    assert(strictly_ascending::<cycles::NodeList>(list) && forall|c: Seq<int>|
        #[trigger] list.contains(c) == cycles::cycles_of(adj).contains(c));
}

/// The elements of a finite set of node lists in ascending order.
spec fn listing(s: Set<Seq<int>>) -> Seq<Seq<int>>
    decreases s.len(),
    when s.finite()
{
    if s.len() == 0 {
        Seq::empty()
    } else {
        let x = s.choose();
        let rest = listing(s.remove(x));
        rest.insert(place_list(rest, x), x)
    }
}

spec fn place_list(s: Seq<Seq<int>>, x: Seq<int>) -> int
    decreases s.len(),
{
    if s.len() == 0 {
        0
    } else if cycles::list_before(x, s.last()) {
        place_list(s.drop_last(), x)
    } else {
        s.len() as int
    }
}

proof fn place_list_in_range(s: Seq<Seq<int>>, x: Seq<int>)
    ensures
        0 <= place_list(s, x) <= s.len(),
        forall|i: int| place_list(s, x) <= i < s.len() ==> cycles::list_before(x, #[trigger] s[i]),
        place_list(s, x) > 0 ==> !cycles::list_before(x, s[place_list(s, x) - 1]),
    decreases s.len(),
{
    if s.len() > 0 && cycles::list_before(x, s.last()) {
        let head = s.drop_last();
        place_list_in_range(head, x);
        assert forall|i: int| place_list(s, x) <= i < s.len() implies cycles::list_before(x, #[trigger] s[i]) by {
            if i < s.len() - 1 {
                assert(head[i] == s[i]);
            }
        }
    }
}

proof fn listing_lists(s: Set<Seq<int>>)
    requires
        s.finite(),
    ensures
        strictly_ascending::<cycles::NodeList>(listing(s)),
        forall|c: Seq<int>| #[trigger] listing(s).contains(c) == s.contains(c),
    decreases s.len(),
{
    if s.len() == 0 {
        assert(s =~= Set::empty());
    } else {
        let x = s.choose();
        assert(s.contains(x));
        let rest = listing(s.remove(x));
        listing_lists(s.remove(x));
        place_list_in_range(rest, x);
        let p = place_list(rest, x);
        let r = rest.insert(p, x);
        assert(!rest.contains(x));
        assert forall|i: int, j: int| 0 <= i < j < r.len() implies cycles::NodeList::before(#[trigger] r[i], #[trigger] r[j]) by {
            if i == p {
                assert(r[j] == rest[j - 1]);
            } else if j == p {
                assert(r[i] == rest[i]);
                assert(rest.contains(rest[p - 1]));
                if !cycles::list_before(rest[p - 1], x) {
                    cycles::NodeList::separates(rest[p - 1], x);
                }
                if i < p - 1 {
                    assert(cycles::NodeList::before(rest[i], rest[p - 1]));
                    cycles::NodeList::transitive(rest[i], rest[p - 1], x);
                }
            } else {
                let a = if i < p { i } else { i - 1 };
                let b = if j < p { j } else { j - 1 };
                assert(r[i] == rest[a] && r[j] == rest[b]);
            }
        }
        assert forall|c: Seq<int>| #[trigger] r.contains(c) == s.contains(c) by {
            if r.contains(c) {
                let i = choose|i: int| 0 <= i < r.len() && r[i] == c;
                if i != p {
                    let a = if i < p { i } else { i - 1 };
                    assert(rest[a] == c);
                    assert(rest.contains(c));
                }
            }
            if s.contains(c) {
                if c == x {
                    assert(r[p] == x);
                } else {
                    assert(rest.contains(c));
                    let a = choose|a: int| 0 <= a < rest.len() && rest[a] == c;
                    assert(r[if a < p { a } else { a + 1 }] == c);
                }
            }
        }
    }
}

/// A graph that has a cycle has a cycle listed: an empty list means that there
/// is none.
pub proof fn cycles_are_listed(graph: DependencyGraph, start: DependencyGraph, c: Seq<NodeKey>)
    requires
        graph.normalised_from(start),
        is_cycle(graph.links(), c),
    ensures
        graph.cycles@.len() > 0,
{
    let nodes = views(graph.nodes@);
    let links = graph.links();
    let adj = index_graph(nodes, links);
    index_graph_valid(nodes, links);
    assert forall|i: int| 0 <= i < c.len() implies nodes.contains(#[trigger] c[i]) by {
        if i < c.len() - 1 {
            assert(joins(links, c[i], c[i + 1]));
        } else {
            assert(joins(links, c.last(), c[0]));
        }
        assert(touches(links, c[i]));
        touches_sorted(start.edges@, c[i]);
    }
    let ix = c.map_values(|n: NodeKey| nodes.index_of(n));
    assert forall|i: int| 0 <= i < c.len() implies 0 <= #[trigger] ix[i] < nodes.len() && nodes[ix[i]] == c[i] by {
        assert(nodes.contains(c[i]));
    }
    assert forall|i: int, j: int| 0 <= i < ix.len() && 0 <= j < ix.len() && i != j implies ix[i] != ix[j] by {
        assert(c[i] != c[j]);
    }
    assert forall|i: int| 0 <= i < ix.len() - 1 implies cycles::edge(adj, #[trigger] ix[i], ix[i + 1]) by {
        assert(joins(links, c[i], c[i + 1]));
        index_edges(nodes, links, ix[i], ix[i + 1]);
    }
    index_edges(nodes, links, ix.last(), ix[0]);
    assert(cycles::is_cycle(adj, ix));
    cycles::cycle_is_reported(adj, ix);
    cycle_order_exists(adj);
    let r = choose|r: Seq<int>| cycles::cycles_of(adj).contains(r);
    assert(cycle_order(adj).contains(r));
    assert(listed(graph.cycles@).len() == cycle_order(adj).len());
}

/// Normalising is deterministic: two graphs made of the same edges and nodes in
/// whatever order, edges with the same ends and evidence being the same, come
/// out the same.
pub proof fn normalising_ignores_order(
    a: DependencyGraph,
    a0: DependencyGraph,
    b: DependencyGraph,
    b0: DependencyGraph,
)
    requires
        a.normalised_from(a0),
        b.normalised_from(b0),
        forall|n: NodeKey| views(a0.nodes@).contains(n) == views(b0.nodes@).contains(n),
        forall|e: Link| a0.links().contains(e) == b0.links().contains(e),
        forall|g: Gap| views(a0.incomplete@).contains(g) == views(b0.incomplete@).contains(g),
        forall|x: Link, y: Link|
            a0.links().contains(x) && a0.links().contains(y) && !#[trigger] DependencyEdge::before(x, y)
                && !DependencyEdge::before(y, x) ==> x == y,
    ensures
        views(a.nodes@) == views(b.nodes@),
        a.links() == b.links(),
        views(a.incomplete@) == views(b.incomplete@),
        listed(a.cycles@) == listed(b.cycles@),
{
    links_as_set(a0.edges@);
    links_as_set(b0.edges@);
    assert forall|x: Link, y: Link|
        b0.links().contains(x) && b0.links().contains(y) && !#[trigger] DependencyEdge::before(x, y)
            && !DependencyEdge::before(y, x) implies x == y by {
        assert(a0.links().contains(x) && a0.links().contains(y));
    }
    links_ascend(a0.edges@);
    links_ascend(b0.edges@);
    assert forall|e: Link| a.links().contains(e) == b.links().contains(e) by {
        assert(a.links().contains(e) == a0.links().contains(e));
        assert(b.links().contains(e) == b0.links().contains(e));
    }
    order::ascending_unique::<DependencyEdge>(a.links(), b.links());
    assert forall|n: NodeKey| views(a.nodes@).contains(n) == views(b.nodes@).contains(n) by {
        touches_sorted(a0.edges@, n);
        touches_sorted(b0.edges@, n);
    }
    order::ascending_unique::<NodeId>(views(a.nodes@), views(b.nodes@));
    order::ascending_unique::<IncompleteEvidence>(views(a.incomplete@), views(b.incomplete@));
}

proof fn links_as_set(edges: Seq<DependencyEdge>)
    ensures
        forall|e: Link| #[trigger] deduplicated(views(sorted(edges))).contains(e) == views(edges).contains(e),
{
    let s = sorted(edges);
    order::sorted_keeps(edges);
    order::deduplicated_keeps(views(s));
    assert forall|e: Link| #[trigger] deduplicated(views(s)).contains(e) == views(edges).contains(e) by {
        assert(deduplicated(views(s)).contains(e) == views(s).contains(e));
        if views(s).contains(e) {
            let i = choose|i: int| 0 <= i < views(s).len() && views(s)[i] == e;
            assert(s.contains(s[i]));
            assert(edges.contains(s[i]));
            let k = choose|k: int| 0 <= k < edges.len() && edges[k] == s[i];
            view_contains(edges, k);
        }
        if views(edges).contains(e) {
            let i = choose|i: int| 0 <= i < views(edges).len() && views(edges)[i] == e;
            assert(edges.contains(edges[i]));
            assert(s.contains(edges[i]));
            let k = choose|k: int| 0 <= k < s.len() && s[k] == edges[i];
            view_contains(s, k);
        }
    }
}

proof fn links_ascend(edges: Seq<DependencyEdge>)
    requires
        forall|x: Link, y: Link|
            views(edges).contains(x) && views(edges).contains(y) && !#[trigger] DependencyEdge::before(x, y)
                && !DependencyEdge::before(y, x) ==> x == y,
    ensures
        strictly_ascending::<DependencyEdge>(deduplicated(views(sorted(edges)))),
{
    let s = sorted(edges);
    order::sorted_ascends(edges);
    order::sorted_keeps(edges);
    assert forall|i: int, j: int|
        0 <= i < s.len() && 0 <= j < s.len() && !DependencyEdge::before((#[trigger] s[i])@, (#[trigger] s[j])@)
            && !DependencyEdge::before(s[j]@, s[i]@) implies s[i]@ == s[j]@ by {
        assert(s.contains(s[i]) && s.contains(s[j]));
        assert(edges.contains(s[i]) && edges.contains(s[j]));
        let k = choose|k: int| 0 <= k < edges.len() && edges[k] == s[i];
        let l = choose|l: int| 0 <= l < edges.len() && edges[l] == s[j];
        view_contains(edges, k);
        view_contains(edges, l);
    }
    order::deduplicated_ascends(s);
}

/// The order in which operations are handed over does not matter: they are put
/// in the one order of their records.
pub proof fn history_order_is_one(a: Seq<OperationRecord>, b: Seq<OperationRecord>)
    requires
        distinct_ids(a),
        distinct_ids(b),
        forall|op: OperationRecord| a.contains(op) == b.contains(op),
    ensures
        sorted(a) == sorted(b),
{
    sorted_distinct(a);
    sorted_distinct(b);
    order::sorted_ascends(a);
    order::sorted_ascends(b);
    order::sorted_keeps(a);
    order::sorted_keeps(b);
    let x = sorted(a);
    let y = sorted(b);
    assert(views(x) =~= x);
    assert(views(y) =~= y);
    strict_history(x);
    strict_history(y);
    assert forall|op: OperationRecord| x.contains(op) == y.contains(op) by {
        assert(x.contains(op) == a.contains(op));
        assert(y.contains(op) == b.contains(op));
    }
    order::ascending_unique::<OperationRecord>(x, y);
}

proof fn strict_history(x: Seq<OperationRecord>)
    requires
        distinct_ids(x),
        ascending(x),
    ensures
        strictly_ascending::<OperationRecord>(x),
{
    assert forall|i: int, j: int| 0 <= i < j < x.len() implies OperationRecord::before(#[trigger] x[i], #[trigger] x[j]) by {
        assert(x[i].id != x[j].id);
        assert(!OperationRecord::before(x[j]@, x[i]@));
    }
}

/// Only lineage is a fact: every edge between operations that is `Known` rests
/// on a state that one left and the other began from.
pub proof fn known_edges_are_lineage(graph: DependencyGraph, h: History, e: Link)
    requires
        graph.built_from(h),
        graph.links().contains(e),
        e.confidence == EdgeConfidence::Known,
    ensures
        is_lineage(h.ordered(), e),
{
    let ops = h.ordered();
    assert(is_edge(ops, e));
    if is_overlap(ops, e) {
        let (a, b) = choose|a: int, b: int|
            0 <= a < b < ops.len() && effects_available(ops[a]) && effects_available(ops[b])
                && #[trigger] is_overlap_of(ops[a], ops[b], e);
        assert(e.evidence == EvidenceKind::EffectOverlap);
    } else if is_temporal(ops, e) {
        assert(e.evidence == EvidenceKind::TemporalOrdering);
    }
}

/// "No edge" and "could not tell" are different answers: an operation whose
/// states or effects cannot be evaluated has a record that says so.
pub proof fn no_silent_gap(graph: DependencyGraph, h: History, i: int, state: Seq<char>)
    requires
        graph.built_from(h),
        0 <= i < h.ordered().len(),
    ensures
        ({
            let op = h.ordered()[i];
            let told = views(graph.incomplete@);
            &&& expects_state_spec(op.kind) && (op.pre_state_id is None || op.post_state_id is None) ==> told.contains(
                Gap { operation_id: op.id, evidence: EvidenceKind::StateLineage, detail: missing_state_detail() },
            )
            &&& references(op, state) && !h.knows(state) ==> told.contains(
                Gap { operation_id: op.id, evidence: EvidenceKind::StateLineage, detail: dangling_detail(state) },
            )
            &&& !effects_available(op) ==> told.contains(
                Gap { operation_id: op.id, evidence: EvidenceKind::EffectOverlap, detail: no_effects_detail(op.kind) },
            )
        }),
{
    let ops = h.ordered();
    let op = ops[i];
    let missing = Gap {
        operation_id: op.id,
        evidence: EvidenceKind::StateLineage,
        detail: missing_state_detail(),
    };
    let dangling = Gap {
        operation_id: op.id,
        evidence: EvidenceKind::StateLineage,
        detail: dangling_detail(state),
    };
    let bare = Gap {
        operation_id: op.id,
        evidence: EvidenceKind::EffectOverlap,
        detail: no_effects_detail(op.kind),
    };
    if expects_state_spec(op.kind) && (op.pre_state_id is None || op.post_state_id is None) {
        assert(is_gap_of(h, ops[i], missing));
        assert(is_gap(h, ops, missing));
    }
    if references(op, state) && !h.knows(state) {
        assert(is_gap_of(h, ops[i], dangling));
        assert(is_gap(h, ops, dangling));
    }
    if !effects_available(op) {
        assert(is_gap_of(h, ops[i], bare));
        assert(is_gap(h, ops, bare));
    }
}

// ---------------------------------------------------------------------------
// What the calls promise
// ---------------------------------------------------------------------------

/// Whether one operation was recorded before another: by time, and by id where
/// that is the same.
pub open spec fn recorded_before(a: OperationRecord, b: OperationRecord) -> bool {
    a.created_at < b.created_at || (a.created_at == b.created_at && a.id < b.id)
}

/// Whether a graph has an edge of a kind from one operation to another, as sure
/// as edges of the kind are.
pub open spec fn linked(graph: DependencyGraph, n: int, a: OperationRecord, b: OperationRecord, kind: EvidenceKind) -> bool {
    &&& 0 <= n < graph.edges@.len()
    &&& graph.edges@[n].from@ == NodeKey::Operation { id: a.id }
    &&& graph.edges@[n].to@ == NodeKey::Operation { id: b.id }
    &&& graph.edges@[n].evidence == kind
    &&& graph.edges@[n].confidence == if kind == EvidenceKind::StateLineage {
        EdgeConfidence::Known
    } else {
        EdgeConfidence::Advisory
    }
}

/// Where an operation stands in the order of the records.
pub proof fn position(ops: Seq<OperationRecord>, i: int) -> (p: int)
    requires
        0 <= i < ops.len(),
    ensures
        0 <= p < sorted(ops).len(),
        sorted(ops)[p] == ops[i],
{
    order::sorted_keeps(ops);
    assert(ops.contains(ops[i]));
    assert(sorted(ops).contains(ops[i]));
    choose|p: int| 0 <= p < sorted(ops).len() && sorted(ops)[p] == ops[i]
}

/// Which operation stands at a place in the order of the records.
pub proof fn origin(ops: Seq<OperationRecord>, p: int) -> (i: int)
    requires
        0 <= p < sorted(ops).len(),
    ensures
        0 <= i < ops.len(),
        sorted(ops)[p] == ops[i],
{
    order::sorted_keeps(ops);
    assert(sorted(ops).contains(sorted(ops)[p]));
    assert(ops.contains(sorted(ops)[p]));
    choose|i: int| 0 <= i < ops.len() && sorted(ops)[p] == ops[i]
}

/// Of two places in that order, the one further on is that of the operation that
/// was recorded later.
pub proof fn placed_as_recorded(ops: Seq<OperationRecord>, p: int, q: int)
    requires
        distinct_ids(ops),
        0 <= p < sorted(ops).len(),
        0 <= q < sorted(ops).len(),
    ensures
        recorded_before(sorted(ops)[p], sorted(ops)[q]) == (p < q),
{
    let s = sorted(ops);
    order::sorted_ascends(ops);
    sorted_distinct(ops);
    strict_history(s);
    if p < q {
        assert(OperationRecord::before(s[p], s[q]));
    } else if q < p {
        assert(OperationRecord::before(s[q], s[p]));
    }
}

/// The paths that two operations changed can be listed.
proof fn shared_exists(a: OperationRecord, b: OperationRecord) -> (list: Seq<Seq<char>>)
    ensures
        shared(list, a, b),
{
    let keep = |e: crate::model::Effect| touches_path(b, e.path@);
    let f = |e: crate::model::Effect| e.path;
    let some = order::kept(a.effects@, keep, f);
    order::kept_are(a.effects@, keep, f);
    let s = sorted(some);
    order::sorted_ascends(some);
    order::sorted_keeps(some);
    assert forall|i: int, j: int|
        0 <= i < s.len() && 0 <= j < s.len() && !String::before((#[trigger] s[i])@, (#[trigger] s[j])@)
            && !String::before(s[j]@, s[i]@) implies s[i]@ == s[j]@ by {
        if s[i]@ != s[j]@ {
            String::separates(s[i]@, s[j]@);
        }
    }
    order::deduplicated_ascends(s);
    order::deduplicated_keeps(views(s));
    let list = deduplicated(views(s));
    assert forall|p: Seq<char>| #[trigger] list.contains(p) == (touches_path(a, p) && touches_path(b, p)) by {
        if list.contains(p) {
            assert(views(s).contains(p));
            let i = choose|i: int| 0 <= i < views(s).len() && views(s)[i] == p;
            assert(s.contains(s[i]));
            assert(some.contains(s[i]));
            let k = choose|k: int| 0 <= k < a.effects@.len() && keep(#[trigger] a.effects@[k]) && s[i] == f(a.effects@[k]);
            assert(a.effects@[k].path@ == p);
        }
        if touches_path(a, p) && touches_path(b, p) {
            let k = choose|k: int| 0 <= k < a.effects@.len() && (#[trigger] a.effects@[k]).path@ == p;
            assert(keep(a.effects@[k]));
            assert(some.contains(f(a.effects@[k])));
            assert(s.contains(a.effects@[k].path));
            let i = choose|i: int| 0 <= i < s.len() && s[i] == a.effects@[k].path;
            assert(views(s)[i] == p);
            assert(views(s).contains(p));
        }
    }
    list
}

/// Two operations that changed one path are linked from the earlier to the
/// later, by whatever effects they changed it. The edge names the path, unless
/// it names as many others as an edge names.
pub proof fn operations_on_one_path_are_linked(
    history: History,
    graph: DependencyGraph,
    i: int,
    j: int,
    k: int,
    m: int,
)
    requires
        history.valid(),
        call_ensures(DependencyGraph::build, (history,), graph),
        0 <= i < history.operations@.len(),
        0 <= j < history.operations@.len(),
        recorded_before(history.operations@[i], history.operations@[j]),
        !(history.operations@[i].kind is BoundaryOnly || history.operations@[i].kind is CaptureFailed),
        !(history.operations@[j].kind is BoundaryOnly || history.operations@[j].kind is CaptureFailed),
        0 <= k < history.operations@[i].effects@.len(),
        0 <= m < history.operations@[j].effects@.len(),
        history.operations@[i].effects@[k].path@ == history.operations@[j].effects@[m].path@,
    ensures
        exists|n: int| #[trigger]
            linked(graph, n, history.operations@[i], history.operations@[j], EvidenceKind::EffectOverlap) && {
                let support = graph.edges@[n].support@;
                ||| support.len() > EFFECT_SUPPORT_LIMIT
                ||| exists|t: int|
                    0 <= t < support.len() && (#[trigger] support[t])@ == history.operations@[i].effects@[k].path@
            },
{
    let ops = history.operations@;
    let s = sorted(ops);
    let a = ops[i];
    let b = ops[j];
    let path = a.effects@[k].path@;
    let p = position(ops, i);
    let q = position(ops, j);
    placed_as_recorded(ops, p, q);
    let list = shared_exists(a, b);
    assert(touches_path(a, path) && touches_path(b, path));
    assert(list.contains(path));
    let e = link(a.id, b.id, EvidenceKind::EffectOverlap, overlap_support(list));
    assert(is_overlap_of(s[p], s[q], e));
    assert(is_overlap(s, e));
    assert(is_edge(s, e));
    assert(graph.links().contains(e));
    let n = choose|n: int| 0 <= n < graph.links().len() && graph.links()[n] == e;
    let edge = graph.edges@[n];
    assert(edge@ == e);
    assert(linked(graph, n, a, b, EvidenceKind::EffectOverlap));
    assert(views(edge.support@).len() == edge.support@.len());
    if list.len() <= EFFECT_SUPPORT_LIMIT {
        let t = choose|t: int| 0 <= t < list.len() && list[t] == path;
        assert(views(edge.support@)[t] == path);
        assert(edge.support@[t]@ == path);
    }
}

/// An operation that began from the state that another left is linked to it for
/// certain, and the edge names the state.
pub proof fn states_handed_over_are_linked(history: History, graph: DependencyGraph, i: int, j: int)
    requires
        history.valid(),
        call_ensures(DependencyGraph::build, (history,), graph),
        0 <= i < history.operations@.len(),
        0 <= j < history.operations@.len(),
        i != j,
        history.operations@[i].post_state_id is Some,
        history.operations@[j].pre_state_id is Some,
        history.operations@[i].post_state_id->0@ == history.operations@[j].pre_state_id->0@,
    ensures
        exists|n: int| #[trigger]
            linked(graph, n, history.operations@[i], history.operations@[j], EvidenceKind::StateLineage) && {
                let support = graph.edges@[n].support@;
                support.len() == 1 && support[0]@ == "state:"@ + history.operations@[i].post_state_id->0@
            },
{
    let ops = history.operations@;
    let s = sorted(ops);
    let a = ops[i];
    let b = ops[j];
    let p = position(ops, i);
    let q = position(ops, j);
    if p == q {
        same_id(ops, i, j);
    }
    let e = lineage_link(a, b);
    assert(hands_over(s[p], s[q]));
    assert(is_lineage(s, e));
    assert(is_edge(s, e));
    assert(graph.links().contains(e));
    let n = choose|n: int| 0 <= n < graph.links().len() && graph.links()[n] == e;
    let edge = graph.edges@[n];
    assert(edge@ == e);
    assert(views(edge.support@).len() == edge.support@.len());
    assert(views(edge.support@)[0] == edge.support@[0]@);
    assert(linked(graph, n, a, b, EvidenceKind::StateLineage));
}

/// Two operations of which one directly follows the other are linked by their
/// order, unless a state links them already.
pub proof fn neighbours_are_linked(history: History, graph: DependencyGraph, i: int, j: int)
    requires
        history.valid(),
        call_ensures(DependencyGraph::build, (history,), graph),
        0 <= i < history.operations@.len(),
        0 <= j < history.operations@.len(),
        recorded_before(history.operations@[i], history.operations@[j]),
        forall|k: int|
            0 <= k < history.operations@.len() ==> !(recorded_before(
                history.operations@[i],
                #[trigger] history.operations@[k],
            ) && recorded_before(history.operations@[k], history.operations@[j])),
        !(history.operations@[i].post_state_id is Some && history.operations@[j].pre_state_id is Some
            && history.operations@[i].post_state_id->0@ == history.operations@[j].pre_state_id->0@),
    ensures
        exists|n: int| #[trigger]
            linked(graph, n, history.operations@[i], history.operations@[j], EvidenceKind::TemporalOrdering)
                && graph.edges@[n].support@.len() == 0,
{
    let ops = history.operations@;
    let s = sorted(ops);
    let a = ops[i];
    let b = ops[j];
    let p = position(ops, i);
    let q = position(ops, j);
    placed_as_recorded(ops, p, q);
    if p + 1 < q {
        let k = origin(ops, p + 1);
        placed_as_recorded(ops, p, p + 1);
        placed_as_recorded(ops, p + 1, q);
        assert(recorded_before(a, ops[k]) && recorded_before(ops[k], b));
    }
    let e = succession(s, p);
    assert(!hands_over(s[p], s[p + 1]));
    assert(is_temporal(s, e));
    assert(is_edge(s, e));
    assert(graph.links().contains(e));
    let n = choose|n: int| 0 <= n < graph.links().len() && graph.links()[n] == e;
    let edge = graph.edges@[n];
    assert(edge@ == e);
    assert(views(edge.support@).len() == edge.support@.len());
    assert(linked(graph, n, a, b, EvidenceKind::TemporalOrdering));
}

/// Every edge of a graph stands on what it says: a state that one operation left
/// and another began from, a path that both changed and the order of their
/// records, or that order alone, of two operations with none between them and
/// with no state handed over.
pub proof fn every_edge_has_its_evidence(history: History, graph: DependencyGraph, n: int)
    requires
        history.valid(),
        call_ensures(DependencyGraph::build, (history,), graph),
        0 <= n < graph.edges@.len(),
    ensures
        exists|i: int, j: int|
            0 <= i < history.operations@.len() && 0 <= j < history.operations@.len() && i != j && {
                let a = #[trigger] history.operations@[i];
                let b = #[trigger] history.operations@[j];
                let kind = graph.edges@[n].evidence;
                let handed = a.post_state_id is Some && b.pre_state_id is Some && a.post_state_id->0@
                    == b.pre_state_id->0@;
                &&& linked(graph, n, a, b, kind)
                &&& kind == EvidenceKind::StateLineage ==> handed
                &&& kind == EvidenceKind::EffectOverlap ==> recorded_before(a, b) && a.kind != OperationKind::BoundaryOnly
                    && a.kind != OperationKind::CaptureFailed && b.kind != OperationKind::BoundaryOnly && b.kind
                    != OperationKind::CaptureFailed && exists|k: int, m: int|
                    0 <= k < a.effects@.len() && 0 <= m < b.effects@.len() && (#[trigger] a.effects@[k]).path@ == (
                    #[trigger] b.effects@[m]).path@
                &&& kind == EvidenceKind::TemporalOrdering ==> recorded_before(a, b) && !handed && forall|k: int|
                    0 <= k < history.operations@.len() ==> !(recorded_before(a, #[trigger] history.operations@[k])
                        && recorded_before(history.operations@[k], b))
            },
{
    let ops = history.operations@;
    let s = sorted(ops);
    sorted_distinct(ops);
    let e = graph.edges@[n]@;
    assert(graph.links()[n] == e);
    assert(graph.links().contains(e));
    assert(is_edge(s, e));
    if is_lineage(s, e) {
        let (p, q) = choose|p: int, q: int|
            0 <= p < s.len() && 0 <= q < s.len() && p != q && hands_over(#[trigger] s[p], #[trigger] s[q]) && e
                == lineage_link(s[p], s[q]);
        let i = origin(ops, p);
        let j = origin(ops, q);
        if i == j {
            same_id(s, p, q);
        }
        assert(linked(graph, n, ops[i], ops[j], EvidenceKind::StateLineage));
    } else if is_overlap(s, e) {
        let (p, q) = choose|p: int, q: int|
            0 <= p < q < s.len() && effects_available(s[p]) && effects_available(s[q]) && #[trigger] is_overlap_of(
                s[p],
                s[q],
                e,
            );
        let i = origin(ops, p);
        let j = origin(ops, q);
        if i == j {
            same_id(s, p, q);
        }
        placed_as_recorded(ops, p, q);
        let list = choose|list: Seq<Seq<char>>| #[trigger]
            shared(list, s[p], s[q]) && list.len() > 0 && e == link(
                s[p].id,
                s[q].id,
                EvidenceKind::EffectOverlap,
                overlap_support(list),
            );
        assert(list.contains(list[0]));
        let k = choose|k: int| 0 <= k < s[p].effects@.len() && (#[trigger] s[p].effects@[k]).path@ == list[0];
        let m = choose|m: int| 0 <= m < s[q].effects@.len() && (#[trigger] s[q].effects@[m]).path@ == list[0];
        assert(ops[i].effects@[k].path@ == ops[j].effects@[m].path@);
        assert(linked(graph, n, ops[i], ops[j], EvidenceKind::EffectOverlap));
    } else {
        let p = choose|p: int|
            0 <= p < s.len() - 1 && !hands_over(s[p], s[p + 1]) && e == #[trigger] succession(s, p);
        let i = origin(ops, p);
        let j = origin(ops, p + 1);
        if i == j {
            same_id(s, p, p + 1);
        }
        placed_as_recorded(ops, p, p + 1);
        assert forall|k: int| 0 <= k < ops.len() implies !(recorded_before(ops[i], #[trigger] ops[k])
            && recorded_before(ops[k], ops[j])) by {
            let r = position(ops, k);
            placed_as_recorded(ops, p, r);
            placed_as_recorded(ops, r, p + 1);
        }
        assert(linked(graph, n, ops[i], ops[j], EvidenceKind::TemporalOrdering));
    }
}

/// A graph has a node for each operation, for each state that one began from or
/// left, and for each boundary, and no other.
pub proof fn nodes_are_what_was_recorded(history: History, graph: DependencyGraph, node: NodeKey)
    requires
        history.valid(),
        call_ensures(DependencyGraph::build, (history,), graph),
    ensures
        (exists|n: int| 0 <= n < graph.nodes@.len() && (#[trigger] graph.nodes@[n])@ == node) == match node {
            NodeKey::Operation { id } => exists|i: int|
                0 <= i < history.operations@.len() && (#[trigger] history.operations@[i]).id == id,
            NodeKey::State { id } => exists|i: int|
                0 <= i < history.operations@.len() && {
                    let op = #[trigger] history.operations@[i];
                    (op.pre_state_id is Some && op.pre_state_id->0@ == id) || (op.post_state_id is Some
                        && op.post_state_id->0@ == id)
                },
            NodeKey::Boundary { id } => exists|i: int|
                0 <= i < history.boundaries@.len() && (#[trigger] history.boundaries@[i])@ == id,
        },
{
    let ops = history.operations@;
    let s = sorted(ops);
    let nodes = views(graph.nodes@);
    assert(nodes.contains(node) == is_node(history, s, node));
    if nodes.contains(node) {
        let n = choose|n: int| 0 <= n < nodes.len() && nodes[n] == node;
        assert(graph.nodes@[n]@ == node);
    }
    if exists|n: int| 0 <= n < graph.nodes@.len() && (#[trigger] graph.nodes@[n])@ == node {
        let n = choose|n: int| 0 <= n < graph.nodes@.len() && (#[trigger] graph.nodes@[n])@ == node;
        assert(nodes[n] == node);
    }
    match node {
        NodeKey::Operation { id } => {
            if is_node(history, s, node) {
                let p = choose|p: int| 0 <= p < s.len() && (#[trigger] s[p]).id == id;
                let i = origin(ops, p);
                assert(ops[i].id == id);
            }
            if exists|i: int| 0 <= i < ops.len() && (#[trigger] ops[i]).id == id {
                let i = choose|i: int| 0 <= i < ops.len() && (#[trigger] ops[i]).id == id;
                let p = position(ops, i);
                assert(s[p].id == id);
            }
        },
        NodeKey::State { id } => {
            if is_node(history, s, node) {
                let p = choose|p: int| 0 <= p < s.len() && references(#[trigger] s[p], id);
                let i = origin(ops, p);
                assert(references(ops[i], id));
            }
            if exists|i: int| 0 <= i < ops.len() && references(#[trigger] ops[i], id) {
                let i = choose|i: int| 0 <= i < ops.len() && references(#[trigger] ops[i], id);
                let p = position(ops, i);
                assert(references(s[p], id));
            }
            assert(forall|i: int|
                0 <= i < ops.len() ==> (references(#[trigger] ops[i], id) == ((ops[i].pre_state_id is Some
                    && ops[i].pre_state_id->0@ == id) || (ops[i].post_state_id is Some && ops[i].post_state_id->0@
                    == id))));
        },
        NodeKey::Boundary { id } => {
            let marks = views(history.boundaries@);
            if marks.contains(id) {
                let i = choose|i: int| 0 <= i < marks.len() && marks[i] == id;
                assert(history.boundaries@[i]@ == id);
            }
            if exists|i: int| 0 <= i < history.boundaries@.len() && (#[trigger] history.boundaries@[i])@ == id {
                let i = choose|i: int| 0 <= i < history.boundaries@.len() && (#[trigger] history.boundaries@[i])@ == id;
                assert(marks[i] == id);
            }
        },
    }
}

/// Whether an operation leaves something open: which states it lies between, or
/// what it changed.
pub open spec fn leaves_open(history: History, op: OperationRecord, kind: EvidenceKind) -> bool {
    match kind {
        EvidenceKind::StateLineage => {
            ||| (op.kind is Strong || op.kind is PassiveObservation || op.kind is Restore || op.kind is Reconciliation)
                && (op.pre_state_id is None || op.post_state_id is None)
            ||| op.pre_state_id is Some && !(exists|k: int|
                0 <= k < history.known_states@.len() && (#[trigger] history.known_states@[k])@ == op.pre_state_id->0@)
            ||| op.post_state_id is Some && !(exists|k: int|
                0 <= k < history.known_states@.len() && (#[trigger] history.known_states@[k])@ == op.post_state_id->0@)
        },
        EvidenceKind::EffectOverlap => op.kind is BoundaryOnly || op.kind is CaptureFailed || op.effects@.len() == 0,
        EvidenceKind::TemporalOrdering => false,
    }
}

/// A state is known where the catalog lists it.
pub proof fn known_as_listed(history: History, state: Seq<char>)
    ensures
        history.knows(state) == exists|k: int|
            0 <= k < history.known_states@.len() && (#[trigger] history.known_states@[k])@ == state,
{
    let list = views(history.known_states@);
    if list.contains(state) {
        let k = choose|k: int| 0 <= k < list.len() && list[k] == state;
        assert(history.known_states@[k]@ == state);
    }
    if exists|k: int| 0 <= k < history.known_states@.len() && (#[trigger] history.known_states@[k])@ == state {
        let k = choose|k: int| 0 <= k < history.known_states@.len() && (#[trigger] history.known_states@[k])@ == state;
        assert(list[k] == state);
    }
}

/// What a graph cannot tell of an operation is said, and nothing else is: a
/// state that is missing or not in the catalog, and effects that were not
/// recorded.
pub proof fn what_is_open_is_said(history: History, graph: DependencyGraph, i: int, kind: EvidenceKind)
    requires
        history.valid(),
        call_ensures(DependencyGraph::build, (history,), graph),
        0 <= i < history.operations@.len(),
    ensures
        leaves_open(history, history.operations@[i], kind) == exists|g: int|
            0 <= g < graph.incomplete@.len() && (#[trigger] graph.incomplete@[g]).operation_id
                == history.operations@[i].id && graph.incomplete@[g].evidence == kind,
{
    open_as_built(history, graph, i, kind);
}

/// What a graph says it cannot tell of an operation is what that leaves open.
pub proof fn open_as_built(history: History, graph: DependencyGraph, i: int, kind: EvidenceKind)
    requires
        history.valid(),
        graph.built_from(history),
        0 <= i < history.operations@.len(),
    ensures
        leaves_open(history, history.operations@[i], kind) == exists|g: int|
            0 <= g < graph.incomplete@.len() && (#[trigger] graph.incomplete@[g]).operation_id
                == history.operations@[i].id && graph.incomplete@[g].evidence == kind,
{
    let ops = history.operations@;
    let s = sorted(ops);
    let op = ops[i];
    let told = views(graph.incomplete@);
    let p = position(ops, i);
    sorted_distinct(ops);
    if op.pre_state_id is Some {
        known_as_listed(history, op.pre_state_id->0@);
        no_silent_gap(graph, history, p, op.pre_state_id->0@);
    }
    if op.post_state_id is Some {
        known_as_listed(history, op.post_state_id->0@);
        no_silent_gap(graph, history, p, op.post_state_id->0@);
    }
    no_silent_gap(graph, history, p, Seq::empty());
    if leaves_open(history, op, kind) {
        let gap = if kind == EvidenceKind::EffectOverlap {
            Gap { operation_id: op.id, evidence: kind, detail: no_effects_detail(op.kind) }
        } else if expects_state_spec(op.kind) && (op.pre_state_id is None || op.post_state_id is None) {
            Gap { operation_id: op.id, evidence: kind, detail: missing_state_detail() }
        } else if op.pre_state_id is Some && !history.knows(op.pre_state_id->0@) {
            Gap { operation_id: op.id, evidence: kind, detail: dangling_detail(op.pre_state_id->0@) }
        } else {
            Gap { operation_id: op.id, evidence: kind, detail: dangling_detail(op.post_state_id->0@) }
        };
        assert(told.contains(gap));
        let g = choose|g: int| 0 <= g < told.len() && told[g] == gap;
        assert(graph.incomplete@[g]@ == gap);
        assert(graph.incomplete@[g].operation_id == op.id);
    }
    if exists|g: int|
        0 <= g < graph.incomplete@.len() && (#[trigger] graph.incomplete@[g]).operation_id == op.id
            && graph.incomplete@[g].evidence == kind {
        let g = choose|g: int|
            0 <= g < graph.incomplete@.len() && (#[trigger] graph.incomplete@[g]).operation_id == op.id
                && graph.incomplete@[g].evidence == kind;
        let gap = graph.incomplete@[g]@;
        assert(told[g] == gap);
        assert(told.contains(gap));
        assert(is_gap(history, s, gap));
        let q = choose|q: int| 0 <= q < s.len() && #[trigger] is_gap_of(history, s[q], gap);
        same_id(s, p, q);
        assert(is_gap_of(history, op, gap));
        if kind == EvidenceKind::StateLineage && !(expects_state_spec(op.kind) && (op.pre_state_id is None
            || op.post_state_id is None)) {
            let state = choose|state: Seq<char>| #[trigger]
                references(op, state) && !history.knows(state) && gap.detail == dangling_detail(state);
            assert(references(op, state));
        }
    }
}

/// What can be reached over facts is reached step by step: a node reaches
/// itself, an edge that is a fact leads on to whatever its end reaches, and
/// where no such edge leaves a node, it reaches nothing else.
pub proof fn facts_lead_on(
    graph: DependencyGraph,
    a: NodeId,
    b: NodeId,
    c: NodeId,
    k: int,
    from_b: bool,
    from_a: bool,
    itself: bool,
)
    requires
        call_ensures(DependencyGraph::reaches_known, (&graph, &b, &c), from_b),
        call_ensures(DependencyGraph::reaches_known, (&graph, &a, &c), from_a),
        call_ensures(DependencyGraph::reaches_known, (&graph, &a, &a), itself),
    ensures
        itself,
        from_b && 0 <= k < graph.edges@.len() && graph.edges@[k].from@ == a@ && graph.edges@[k].to@ == b@
            && graph.edges@[k].confidence == EdgeConfidence::Known ==> from_a,
        from_a && a@ != c@ ==> exists|n: int|
            0 <= n < graph.edges@.len() && (#[trigger] graph.edges@[n]).from@ == a@ && graph.edges@[n].confidence
                == EdgeConfidence::Known,
{
    let links = graph.links();
    assert(is_route(links, true, seq![a@]));
    assert(seq![a@][0] == a@ && seq![a@].last() == a@);
    if from_b && 0 <= k < graph.edges@.len() && graph.edges@[k].from@ == a@ && graph.edges@[k].to@ == b@
        && graph.edges@[k].confidence == EdgeConfidence::Known {
        let p = choose|p: Seq<NodeKey>| #[trigger] is_route(links, true, p) && p[0] == b@ && p.last() == c@;
        let q = seq![a@] + p;
        assert(links[k] == graph.edges@[k]@);
        assert(leads(links, true, a@, b@));
        assert forall|i: int| 0 <= i < q.len() - 1 implies leads(links, true, #[trigger] q[i], q[i + 1]) by {
            if i > 0 {
                assert(q[i] == p[i - 1] && q[i + 1] == p[i]);
                assert(leads(links, true, p[i - 1], p[i - 1 + 1]));
            } else {
                assert(q[1] == p[0]);
            }
        }
        assert(is_route(links, true, q));
        assert(q.last() == p.last());
    }
    if from_a && a@ != c@ {
        let p = choose|p: Seq<NodeKey>| #[trigger] is_route(links, true, p) && p[0] == a@ && p.last() == c@;
        assert(p.len() > 1);
        assert(leads(links, true, p[0], p[1]));
        let n = choose|n: int|
            0 <= n < links.len() && (#[trigger] links[n]).from == p[0] && links[n].to == p[1] && links[n].confidence
                == EdgeConfidence::Known;
        assert(graph.edges@[n]@ == links[n]);
    }
}

/// The edges that touch a node are all found, and no others.
pub proof fn edges_of_a_node_are_found(graph: DependencyGraph, node: NodeId, r: Vec<&DependencyEdge>, k: int, n: int)
    requires
        call_ensures(DependencyGraph::incident, (&graph, &node), r),
    ensures
        0 <= k < graph.edges@.len() && (graph.edges@[k].from@ == node@ || graph.edges@[k].to@ == node@) ==> exists|m: int|
            0 <= m < r@.len() && *(#[trigger] r@[m]) == graph.edges@[k],
        0 <= n < r@.len() ==> (r@[n].from@ == node@ || r@[n].to@ == node@) && graph.edges@.contains(*r@[n]),
{
    let keep = |k: int| graph.edges@[k]@.from == node@ || graph.edges@[k]@.to == node@;
    order::chosen_are(graph.edges@.len(), keep);
    let places = graph.incident_positions(node@);
    assert(places == order::chosen(graph.edges@.len(), keep));
    if 0 <= k < graph.edges@.len() && (graph.edges@[k].from@ == node@ || graph.edges@[k].to@ == node@) {
        assert(keep(k));
        assert(places.contains(k));
        let m = choose|m: int| 0 <= m < places.len() && places[m] == k;
        assert(*r@[m] == graph.edges@[places[m]]);
    }
    if 0 <= n < r@.len() {
        assert(places.contains(places[n]));
        assert(*r@[n] == graph.edges@[places[n]]);
        assert(keep(places[n]));
    }
}

}
