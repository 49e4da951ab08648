//! Safety-first rollback planning.
//!
//! Rolling several operations back is not "run undo for each selected
//! operation". The planner validates the targets, computes the required
//! closure, refuses when the closure cannot be satisfied deterministically, and
//! only then allows the plan to reach the mutation engine. Planning itself
//! reads what it is given and changes nothing.

use vstd::prelude::*;
use vstd::string::*;

use crate::db;
use crate::db::{can_redo, can_undo, UnknownIntervalRow};
use crate::depgraph::{
    copy_texts, listed, references, same_texts, DependencyEdge, DependencyGraph, EdgeConfidence,
    EvidenceKind, Gap, History, IncompleteEvidence, Link, NodeId, NodeKey,
};
use crate::error::{Fault, Result, RewindError};
use crate::model::{Effect, OperationRecord, OperationStatus, Reversibility, WorkspaceCondition};
use crate::order;
use crate::order::{deduplicated, sorted, strictly_ascending, views, Alike, Ranked, Total};
use crate::outside;
use crate::table::Duplicate;
use crate::text;
use crate::text::{debug_text, decimal_int, Rank};

verus! {

/// How many advisory edges a plan carries as context.
pub const ADVISORY_CONTEXT_LIMIT: usize = 64;

/// How many conflicts or block reasons a plan records before it stops
/// collecting (the decision is already refusal at that point).
pub const FINDING_LIMIT: usize = 256;

// ---------------------------------------------------------------------------
// Targets
// ---------------------------------------------------------------------------

#[derive(Clone, Copy, Debug, PartialEq, Eq, PartialOrd, Ord, Structural)]
pub enum TargetDirection {
    Undo,
    Redo,
}

impl TargetDirection {
    pub open spec fn text(self) -> Seq<char> {
        match self {
            TargetDirection::Undo => "UNDO"@,
            TargetDirection::Redo => "REDO"@,
        }
    }

    pub open spec fn debug(self) -> Seq<char> {
        match self {
            TargetDirection::Undo => "Undo"@,
            TargetDirection::Redo => "Redo"@,
        }
    }

    pub fn as_str(self) -> (r: &'static str)
        ensures
            r@ == self.text(),
    {
        match self {
            TargetDirection::Undo => "UNDO",
            TargetDirection::Redo => "REDO",
        }
    }

    fn debug_name(self) -> (r: &'static str)
        ensures
            r@ == self.debug(),
    {
        match self {
            TargetDirection::Undo => "Undo",
            TargetDirection::Redo => "Redo",
        }
    }
}

#[derive(Clone, Copy, Debug, PartialEq, Eq, PartialOrd, Ord, Structural)]
pub struct RollbackTarget {
    pub operation_id: i64,
    pub direction: TargetDirection,
}

impl View for RollbackTarget {
    type V = RollbackTarget;

    open spec fn view(&self) -> RollbackTarget {
        *self
    }
}

impl RollbackTarget {
    pub fn undo(operation_id: i64) -> (r: Self)
        ensures
            r == (RollbackTarget { operation_id, direction: TargetDirection::Undo }),
    {
        RollbackTarget { operation_id, direction: TargetDirection::Undo }
    }

    pub fn redo(operation_id: i64) -> (r: Self)
        ensures
            r == (RollbackTarget { operation_id, direction: TargetDirection::Redo }),
    {
        RollbackTarget { operation_id, direction: TargetDirection::Redo }
    }
}

/// Undo targets come first; within a direction, by operation.
impl Ranked for RollbackTarget {
    open spec fn before(a: RollbackTarget, b: RollbackTarget) -> bool {
        if a.direction != b.direction {
            a.direction == TargetDirection::Undo
        } else {
            a.operation_id < b.operation_id
        }
    }

    fn is_before(&self, other: &Self) -> (r: bool) {
        if self.direction != other.direction {
            self.direction == TargetDirection::Undo
        } else {
            self.operation_id < other.operation_id
        }
    }

    proof fn irreflexive(a: RollbackTarget) {
    }

    proof fn transitive(a: RollbackTarget, b: RollbackTarget, c: RollbackTarget) {
    }

    proof fn negatively_transitive(a: RollbackTarget, b: RollbackTarget, c: RollbackTarget) {
    }
}

impl Total for RollbackTarget {
    proof fn separates(a: RollbackTarget, b: RollbackTarget) {
    }
}

// ---------------------------------------------------------------------------
// Findings
// ---------------------------------------------------------------------------

pub open spec fn evidence_debug(e: EvidenceKind) -> Seq<char> {
    match e {
        EvidenceKind::StateLineage => "StateLineage"@,
        EvidenceKind::EffectOverlap => "EffectOverlap"@,
        EvidenceKind::TemporalOrdering => "TemporalOrdering"@,
    }
}

fn evidence_name(e: EvidenceKind) -> (r: &'static str)
    ensures
        r@ == evidence_debug(e),
{
    match e {
        EvidenceKind::StateLineage => "StateLineage",
        EvidenceKind::EffectOverlap => "EffectOverlap",
        EvidenceKind::TemporalOrdering => "TemporalOrdering",
    }
}

pub open spec fn bool_debug(b: bool) -> Seq<char> {
    if b {
        "true"@
    } else {
        "false"@
    }
}

fn bool_name(b: bool) -> (r: &'static str)
    ensures
        r@ == bool_debug(b),
{
    if b {
        "true"
    } else {
        "false"
    }
}

/// Numbers separated by commas.
pub open spec fn ids_joined(ids: Seq<i64>) -> Seq<char>
    decreases ids.len(),
{
    if ids.len() == 0 {
        Seq::empty()
    } else if ids.len() == 1 {
        decimal_int(ids[0] as int)
    } else {
        ids_joined(ids.drop_last()) + ", "@ + decimal_int(ids.last() as int)
    }
}

pub open spec fn ids_debug(ids: Seq<i64>) -> Seq<char> {
    "["@ + ids_joined(ids) + "]"@
}

fn debug_ids(ids: &Vec<i64>) -> (r: String)
    ensures
        r@ == ids_debug(ids@),
{
    let mut out = text::copy("[");
    let ghost head = out@;
    let mut i: usize = 0;
    assert(ids@.take(0) =~= Seq::empty());
    assert(out@ =~= head + ids_joined(ids@.take(0)));
    while i < ids.len()
        invariant
            i <= ids@.len(),
            out@ == head + ids_joined(ids@.take(i as int)),
        decreases ids@.len() - i,
    {
        if i > 0 {
            out.append(", ");
        }
        out.append(text::decimal_i64(ids[i]).as_str());
        proof {
            let next = ids@.take(i + 1);
            assert(next.drop_last() =~= ids@.take(i as int));
            assert(out@ =~= head + ids_joined(next));
        }
        i = i + 1;
    }
    assert(ids@.take(i as int) =~= ids@);
    out.append("]");
    assert(out@ =~= ids_debug(ids@));
    out
}

pub open spec fn texts_joined(texts: Seq<Seq<char>>) -> Seq<char>
    decreases texts.len(),
{
    if texts.len() == 0 {
        Seq::empty()
    } else if texts.len() == 1 {
        debug_text(texts[0])
    } else {
        texts_joined(texts.drop_last()) + ", "@ + debug_text(texts.last())
    }
}

pub open spec fn texts_debug(texts: Seq<Seq<char>>) -> Seq<char> {
    "["@ + texts_joined(texts) + "]"@
}

fn debug_texts(texts: &Vec<String>) -> (r: String)
    ensures
        r@ == texts_debug(views(texts@)),
{
    let mut out = text::copy("[");
    let ghost head = out@;
    let ghost all = views(texts@);
    let mut i: usize = 0;
    assert(all.take(0) =~= Seq::empty());
    assert(out@ =~= head + texts_joined(all.take(0)));
    while i < texts.len()
        invariant
            i <= texts@.len(),
            all == views(texts@),
            out@ == head + texts_joined(all.take(i as int)),
        decreases texts@.len() - i,
    {
        if i > 0 {
            out.append(", ");
        }
        out.append(text::debug(texts[i].as_str()).as_str());
        proof {
            let next = all.take(i + 1);
            assert(next.drop_last() =~= all.take(i as int));
            assert(next.last() == texts@[i as int]@);
            assert(out@ =~= head + texts_joined(next));
        }
        i = i + 1;
    }
    assert(all.take(i as int) =~= all);
    out.append("]");
    assert(out@ =~= texts_debug(all));
    out
}

fn same_ids(a: &Vec<i64>, b: &Vec<i64>) -> (r: bool)
    ensures
        r == (a@ == b@),
{
    if a.len() != b.len() {
        return false;
    }
    let mut i: usize = 0;
    while i < a.len()
        invariant
            i <= a@.len() == b@.len(),
            forall|k: int| 0 <= k < i ==> a@[k] == b@[k],
        decreases a@.len() - i,
    {
        if a[i] != b[i] {
            return false;
        }
        i = i + 1;
    }
    assert(a@ =~= b@);
    true
}

/// A structured conflict: each variant can be told apart and carries the durable
/// ids that caused it.
#[derive(Clone, Debug, PartialEq, Eq)]
pub enum RollbackConflict {
    TargetNotEligible { operation_id: i64, status: String, reversibility: String, direction: TargetDirection },
    ConflictingTargets { operation_ids: Vec<i64>, detail: String },
    DependencyUnknown { operation_id: i64, evidence: EvidenceKind },
    UnknownInterval { interval_id: i64, reason: String },
    UnsupportedObject { operation_id: i64, path: String, descriptor: String },
    MissingHistoricalState { operation_id: i64, state_id: String },
    IncompatibleOrdering { operation_ids: Vec<i64> },
    CycleDetected { nodes: Vec<String> },
    LiveStateMismatch { expected_state_id: String, found_state_id: String },
    LiveStateUnavailable { detail: String },
}

/// A conflict with its texts as sequences.
pub enum Conflict {
    TargetNotEligible { operation_id: i64, status: Seq<char>, reversibility: Seq<char>, direction: TargetDirection },
    ConflictingTargets { operation_ids: Seq<i64>, detail: Seq<char> },
    DependencyUnknown { operation_id: i64, evidence: EvidenceKind },
    UnknownInterval { interval_id: i64, reason: Seq<char> },
    UnsupportedObject { operation_id: i64, path: Seq<char>, descriptor: Seq<char> },
    MissingHistoricalState { operation_id: i64, state_id: Seq<char> },
    IncompatibleOrdering { operation_ids: Seq<i64> },
    CycleDetected { nodes: Seq<Seq<char>> },
    LiveStateMismatch { expected_state_id: Seq<char>, found_state_id: Seq<char> },
    LiveStateUnavailable { detail: Seq<char> },
}

impl View for RollbackConflict {
    type V = Conflict;

    open spec fn view(&self) -> Conflict {
        match self {
            RollbackConflict::TargetNotEligible { operation_id, status, reversibility, direction } => Conflict::TargetNotEligible { operation_id: *operation_id, status: status@, reversibility: reversibility@, direction: *direction },
            RollbackConflict::ConflictingTargets { operation_ids, detail } => Conflict::ConflictingTargets { operation_ids: operation_ids@, detail: detail@ },
            RollbackConflict::DependencyUnknown { operation_id, evidence } => Conflict::DependencyUnknown { operation_id: *operation_id, evidence: *evidence },
            RollbackConflict::UnknownInterval { interval_id, reason } => Conflict::UnknownInterval { interval_id: *interval_id, reason: reason@ },
            RollbackConflict::UnsupportedObject { operation_id, path, descriptor } => Conflict::UnsupportedObject { operation_id: *operation_id, path: path@, descriptor: descriptor@ },
            RollbackConflict::MissingHistoricalState { operation_id, state_id } => Conflict::MissingHistoricalState { operation_id: *operation_id, state_id: state_id@ },
            RollbackConflict::IncompatibleOrdering { operation_ids } => Conflict::IncompatibleOrdering { operation_ids: operation_ids@ },
            RollbackConflict::CycleDetected { nodes } => Conflict::CycleDetected { nodes: views(nodes@) },
            RollbackConflict::LiveStateMismatch { expected_state_id, found_state_id } => Conflict::LiveStateMismatch { expected_state_id: expected_state_id@, found_state_id: found_state_id@ },
            RollbackConflict::LiveStateUnavailable { detail } => Conflict::LiveStateUnavailable { detail: detail@ },
        }
    }
}

impl Conflict {
    /// The rendering by which findings are ordered.
    pub open spec fn debug(self) -> Seq<char> {
        match self {
            Conflict::TargetNotEligible { operation_id, status, reversibility, direction } => "TargetNotEligible { operation_id: "@ + decimal_int(operation_id as int) + ", status: "@ + debug_text(status) + ", reversibility: "@ + debug_text(reversibility) + ", direction: "@ + direction.debug() + " }"@,
            Conflict::ConflictingTargets { operation_ids, detail } => "ConflictingTargets { operation_ids: "@ + ids_debug(operation_ids) + ", detail: "@ + debug_text(detail) + " }"@,
            Conflict::DependencyUnknown { operation_id, evidence } => "DependencyUnknown { operation_id: "@ + decimal_int(operation_id as int) + ", evidence: "@ + evidence_debug(evidence) + " }"@,
            Conflict::UnknownInterval { interval_id, reason } => "UnknownInterval { interval_id: "@ + decimal_int(interval_id as int) + ", reason: "@ + debug_text(reason) + " }"@,
            Conflict::UnsupportedObject { operation_id, path, descriptor } => "UnsupportedObject { operation_id: "@ + decimal_int(operation_id as int) + ", path: "@ + debug_text(path) + ", descriptor: "@ + debug_text(descriptor) + " }"@,
            Conflict::MissingHistoricalState { operation_id, state_id } => "MissingHistoricalState { operation_id: "@ + decimal_int(operation_id as int) + ", state_id: "@ + debug_text(state_id) + " }"@,
            Conflict::IncompatibleOrdering { operation_ids } => "IncompatibleOrdering { operation_ids: "@ + ids_debug(operation_ids) + " }"@,
            Conflict::CycleDetected { nodes } => "CycleDetected { nodes: "@ + texts_debug(nodes) + " }"@,
            Conflict::LiveStateMismatch { expected_state_id, found_state_id } => "LiveStateMismatch { expected_state_id: "@ + debug_text(expected_state_id) + ", found_state_id: "@ + debug_text(found_state_id) + " }"@,
            Conflict::LiveStateUnavailable { detail } => "LiveStateUnavailable { detail: "@ + debug_text(detail) + " }"@,
        }
    }
}

impl RollbackConflict {
    /// The rendering by which findings are ordered.
    pub fn debug_text(&self) -> (r: String)
        ensures
            r@ == self@.debug(),
    {
        match self {
            RollbackConflict::TargetNotEligible { operation_id, status, reversibility, direction } => {
                let mut out = text::copy("TargetNotEligible { operation_id: ");
                out.append(text::decimal_i64(*operation_id).as_str());
                out.append(", status: ");
                out.append(text::debug(status).as_str());
                out.append(", reversibility: ");
                out.append(text::debug(reversibility).as_str());
                out.append(", direction: ");
                out.append(text::copy(direction.debug_name()).as_str());
                out.append(" }");
                out
            },
            RollbackConflict::ConflictingTargets { operation_ids, detail } => {
                let mut out = text::copy("ConflictingTargets { operation_ids: ");
                out.append(debug_ids(operation_ids).as_str());
                out.append(", detail: ");
                out.append(text::debug(detail).as_str());
                out.append(" }");
                out
            },
            RollbackConflict::DependencyUnknown { operation_id, evidence } => {
                let mut out = text::copy("DependencyUnknown { operation_id: ");
                out.append(text::decimal_i64(*operation_id).as_str());
                out.append(", evidence: ");
                out.append(text::copy(evidence_name(*evidence)).as_str());
                out.append(" }");
                out
            },
            RollbackConflict::UnknownInterval { interval_id, reason } => {
                let mut out = text::copy("UnknownInterval { interval_id: ");
                out.append(text::decimal_i64(*interval_id).as_str());
                out.append(", reason: ");
                out.append(text::debug(reason).as_str());
                out.append(" }");
                out
            },
            RollbackConflict::UnsupportedObject { operation_id, path, descriptor } => {
                let mut out = text::copy("UnsupportedObject { operation_id: ");
                out.append(text::decimal_i64(*operation_id).as_str());
                out.append(", path: ");
                out.append(text::debug(path).as_str());
                out.append(", descriptor: ");
                out.append(text::debug(descriptor).as_str());
                out.append(" }");
                out
            },
            RollbackConflict::MissingHistoricalState { operation_id, state_id } => {
                let mut out = text::copy("MissingHistoricalState { operation_id: ");
                out.append(text::decimal_i64(*operation_id).as_str());
                out.append(", state_id: ");
                out.append(text::debug(state_id).as_str());
                out.append(" }");
                out
            },
            RollbackConflict::IncompatibleOrdering { operation_ids } => {
                let mut out = text::copy("IncompatibleOrdering { operation_ids: ");
                out.append(debug_ids(operation_ids).as_str());
                out.append(" }");
                out
            },
            RollbackConflict::CycleDetected { nodes } => {
                let mut out = text::copy("CycleDetected { nodes: ");
                out.append(debug_texts(nodes).as_str());
                out.append(" }");
                out
            },
            RollbackConflict::LiveStateMismatch { expected_state_id, found_state_id } => {
                let mut out = text::copy("LiveStateMismatch { expected_state_id: ");
                out.append(text::debug(expected_state_id).as_str());
                out.append(", found_state_id: ");
                out.append(text::debug(found_state_id).as_str());
                out.append(" }");
                out
            },
            RollbackConflict::LiveStateUnavailable { detail } => {
                let mut out = text::copy("LiveStateUnavailable { detail: ");
                out.append(text::debug(detail).as_str());
                out.append(" }");
                out
            },
        }
    }
}

impl Alike for RollbackConflict {
    fn alike(&self, other: &Self) -> (r: bool) {
        match (self, other) {
            (RollbackConflict::TargetNotEligible { operation_id: a0, status: a1, reversibility: a2, direction: a3 }, RollbackConflict::TargetNotEligible { operation_id: b0, status: b1, reversibility: b2, direction: b3 }) => {
                *a0 == *b0 && text::same(a1, b1) && text::same(a2, b2) && *a3 == *b3
            },
            (RollbackConflict::ConflictingTargets { operation_ids: a0, detail: a1 }, RollbackConflict::ConflictingTargets { operation_ids: b0, detail: b1 }) => {
                same_ids(a0, b0) && text::same(a1, b1)
            },
            (RollbackConflict::DependencyUnknown { operation_id: a0, evidence: a1 }, RollbackConflict::DependencyUnknown { operation_id: b0, evidence: b1 }) => {
                *a0 == *b0 && *a1 == *b1
            },
            (RollbackConflict::UnknownInterval { interval_id: a0, reason: a1 }, RollbackConflict::UnknownInterval { interval_id: b0, reason: b1 }) => {
                *a0 == *b0 && text::same(a1, b1)
            },
            (RollbackConflict::UnsupportedObject { operation_id: a0, path: a1, descriptor: a2 }, RollbackConflict::UnsupportedObject { operation_id: b0, path: b1, descriptor: b2 }) => {
                *a0 == *b0 && text::same(a1, b1) && text::same(a2, b2)
            },
            (RollbackConflict::MissingHistoricalState { operation_id: a0, state_id: a1 }, RollbackConflict::MissingHistoricalState { operation_id: b0, state_id: b1 }) => {
                *a0 == *b0 && text::same(a1, b1)
            },
            (RollbackConflict::IncompatibleOrdering { operation_ids: a0 }, RollbackConflict::IncompatibleOrdering { operation_ids: b0 }) => {
                same_ids(a0, b0)
            },
            (RollbackConflict::CycleDetected { nodes: a0 }, RollbackConflict::CycleDetected { nodes: b0 }) => {
                same_texts(a0, b0)
            },
            (RollbackConflict::LiveStateMismatch { expected_state_id: a0, found_state_id: a1 }, RollbackConflict::LiveStateMismatch { expected_state_id: b0, found_state_id: b1 }) => {
                text::same(a0, b0) && text::same(a1, b1)
            },
            (RollbackConflict::LiveStateUnavailable { detail: a0 }, RollbackConflict::LiveStateUnavailable { detail: b0 }) => {
                text::same(a0, b0)
            },
            _ => false,
        }
    }
}

impl Ranked for RollbackConflict {
    open spec fn before(a: Conflict, b: Conflict) -> bool {
        text::before(a.debug(), b.debug())
    }

    fn is_before(&self, other: &Self) -> (r: bool) {
        let rank = text::compare(self.debug_text().as_str(), other.debug_text().as_str());
        assert(Self::before(self@, other@) == text::before(self@.debug(), other@.debug()));
        rank == Rank::Less
    }

    proof fn irreflexive(a: Conflict) {
        text::before_irreflexive(a.debug());
    }

    proof fn transitive(a: Conflict, b: Conflict, c: Conflict) {
        text::before_transitive(a.debug(), b.debug(), c.debug());
    }

    proof fn negatively_transitive(a: Conflict, b: Conflict, c: Conflict) {
        String::negatively_transitive(a.debug(), b.debug(), c.debug());
    }
}

/// Why a plan may not be carried out.
#[derive(Clone, Debug, PartialEq, Eq)]
pub enum BlockReason {
    NotReversible { operation_id: i64, reversibility: String },
    UnknownInterval { interval_id: i64, detail: String },
    MissingHistoricalState { operation_id: i64, state_id: String },
    UnsupportedObject { operation_id: i64, path: String },
    WorkspaceNotHealthy { condition: String, pending_bypass: bool },
    RecoveryRequired { transaction_id: String },
    ConflictingTargets { operation_ids: Vec<i64>, detail: String },
    CycleInClosure { nodes: Vec<String> },
    LiveStateMismatch { expected_state_id: String, found_state_id: String },
    LiveStateUnavailable { detail: String },
}

/// A block reason with its texts as sequences.
pub enum Block {
    NotReversible { operation_id: i64, reversibility: Seq<char> },
    UnknownInterval { interval_id: i64, detail: Seq<char> },
    MissingHistoricalState { operation_id: i64, state_id: Seq<char> },
    UnsupportedObject { operation_id: i64, path: Seq<char> },
    WorkspaceNotHealthy { condition: Seq<char>, pending_bypass: bool },
    RecoveryRequired { transaction_id: Seq<char> },
    ConflictingTargets { operation_ids: Seq<i64>, detail: Seq<char> },
    CycleInClosure { nodes: Seq<Seq<char>> },
    LiveStateMismatch { expected_state_id: Seq<char>, found_state_id: Seq<char> },
    LiveStateUnavailable { detail: Seq<char> },
}

impl View for BlockReason {
    type V = Block;

    open spec fn view(&self) -> Block {
        match self {
            BlockReason::NotReversible { operation_id, reversibility } => Block::NotReversible { operation_id: *operation_id, reversibility: reversibility@ },
            BlockReason::UnknownInterval { interval_id, detail } => Block::UnknownInterval { interval_id: *interval_id, detail: detail@ },
            BlockReason::MissingHistoricalState { operation_id, state_id } => Block::MissingHistoricalState { operation_id: *operation_id, state_id: state_id@ },
            BlockReason::UnsupportedObject { operation_id, path } => Block::UnsupportedObject { operation_id: *operation_id, path: path@ },
            BlockReason::WorkspaceNotHealthy { condition, pending_bypass } => Block::WorkspaceNotHealthy { condition: condition@, pending_bypass: *pending_bypass },
            BlockReason::RecoveryRequired { transaction_id } => Block::RecoveryRequired { transaction_id: transaction_id@ },
            BlockReason::ConflictingTargets { operation_ids, detail } => Block::ConflictingTargets { operation_ids: operation_ids@, detail: detail@ },
            BlockReason::CycleInClosure { nodes } => Block::CycleInClosure { nodes: views(nodes@) },
            BlockReason::LiveStateMismatch { expected_state_id, found_state_id } => Block::LiveStateMismatch { expected_state_id: expected_state_id@, found_state_id: found_state_id@ },
            BlockReason::LiveStateUnavailable { detail } => Block::LiveStateUnavailable { detail: detail@ },
        }
    }
}

impl Block {
    /// The rendering by which findings are ordered.
    pub open spec fn debug(self) -> Seq<char> {
        match self {
            Block::NotReversible { operation_id, reversibility } => "NotReversible { operation_id: "@ + decimal_int(operation_id as int) + ", reversibility: "@ + debug_text(reversibility) + " }"@,
            Block::UnknownInterval { interval_id, detail } => "UnknownInterval { interval_id: "@ + decimal_int(interval_id as int) + ", detail: "@ + debug_text(detail) + " }"@,
            Block::MissingHistoricalState { operation_id, state_id } => "MissingHistoricalState { operation_id: "@ + decimal_int(operation_id as int) + ", state_id: "@ + debug_text(state_id) + " }"@,
            Block::UnsupportedObject { operation_id, path } => "UnsupportedObject { operation_id: "@ + decimal_int(operation_id as int) + ", path: "@ + debug_text(path) + " }"@,
            Block::WorkspaceNotHealthy { condition, pending_bypass } => "WorkspaceNotHealthy { condition: "@ + debug_text(condition) + ", pending_bypass: "@ + bool_debug(pending_bypass) + " }"@,
            Block::RecoveryRequired { transaction_id } => "RecoveryRequired { transaction_id: "@ + debug_text(transaction_id) + " }"@,
            Block::ConflictingTargets { operation_ids, detail } => "ConflictingTargets { operation_ids: "@ + ids_debug(operation_ids) + ", detail: "@ + debug_text(detail) + " }"@,
            Block::CycleInClosure { nodes } => "CycleInClosure { nodes: "@ + texts_debug(nodes) + " }"@,
            Block::LiveStateMismatch { expected_state_id, found_state_id } => "LiveStateMismatch { expected_state_id: "@ + debug_text(expected_state_id) + ", found_state_id: "@ + debug_text(found_state_id) + " }"@,
            Block::LiveStateUnavailable { detail } => "LiveStateUnavailable { detail: "@ + debug_text(detail) + " }"@,
        }
    }
}

impl BlockReason {
    /// The rendering by which findings are ordered.
    pub fn debug_text(&self) -> (r: String)
        ensures
            r@ == self@.debug(),
    {
        match self {
            BlockReason::NotReversible { operation_id, reversibility } => {
                let mut out = text::copy("NotReversible { operation_id: ");
                out.append(text::decimal_i64(*operation_id).as_str());
                out.append(", reversibility: ");
                out.append(text::debug(reversibility).as_str());
                out.append(" }");
                out
            },
            BlockReason::UnknownInterval { interval_id, detail } => {
                let mut out = text::copy("UnknownInterval { interval_id: ");
                out.append(text::decimal_i64(*interval_id).as_str());
                out.append(", detail: ");
                out.append(text::debug(detail).as_str());
                out.append(" }");
                out
            },
            BlockReason::MissingHistoricalState { operation_id, state_id } => {
                let mut out = text::copy("MissingHistoricalState { operation_id: ");
                out.append(text::decimal_i64(*operation_id).as_str());
                out.append(", state_id: ");
                out.append(text::debug(state_id).as_str());
                out.append(" }");
                out
            },
            BlockReason::UnsupportedObject { operation_id, path } => {
                let mut out = text::copy("UnsupportedObject { operation_id: ");
                out.append(text::decimal_i64(*operation_id).as_str());
                out.append(", path: ");
                out.append(text::debug(path).as_str());
                out.append(" }");
                out
            },
            BlockReason::WorkspaceNotHealthy { condition, pending_bypass } => {
                let mut out = text::copy("WorkspaceNotHealthy { condition: ");
                out.append(text::debug(condition).as_str());
                out.append(", pending_bypass: ");
                out.append(text::copy(bool_name(*pending_bypass)).as_str());
                out.append(" }");
                out
            },
            BlockReason::RecoveryRequired { transaction_id } => {
                let mut out = text::copy("RecoveryRequired { transaction_id: ");
                out.append(text::debug(transaction_id).as_str());
                out.append(" }");
                out
            },
            BlockReason::ConflictingTargets { operation_ids, detail } => {
                let mut out = text::copy("ConflictingTargets { operation_ids: ");
                out.append(debug_ids(operation_ids).as_str());
                out.append(", detail: ");
                out.append(text::debug(detail).as_str());
                out.append(" }");
                out
            },
            BlockReason::CycleInClosure { nodes } => {
                let mut out = text::copy("CycleInClosure { nodes: ");
                out.append(debug_texts(nodes).as_str());
                out.append(" }");
                out
            },
            BlockReason::LiveStateMismatch { expected_state_id, found_state_id } => {
                let mut out = text::copy("LiveStateMismatch { expected_state_id: ");
                out.append(text::debug(expected_state_id).as_str());
                out.append(", found_state_id: ");
                out.append(text::debug(found_state_id).as_str());
                out.append(" }");
                out
            },
            BlockReason::LiveStateUnavailable { detail } => {
                let mut out = text::copy("LiveStateUnavailable { detail: ");
                out.append(text::debug(detail).as_str());
                out.append(" }");
                out
            },
        }
    }
}

impl Alike for BlockReason {
    fn alike(&self, other: &Self) -> (r: bool) {
        match (self, other) {
            (BlockReason::NotReversible { operation_id: a0, reversibility: a1 }, BlockReason::NotReversible { operation_id: b0, reversibility: b1 }) => {
                *a0 == *b0 && text::same(a1, b1)
            },
            (BlockReason::UnknownInterval { interval_id: a0, detail: a1 }, BlockReason::UnknownInterval { interval_id: b0, detail: b1 }) => {
                *a0 == *b0 && text::same(a1, b1)
            },
            (BlockReason::MissingHistoricalState { operation_id: a0, state_id: a1 }, BlockReason::MissingHistoricalState { operation_id: b0, state_id: b1 }) => {
                *a0 == *b0 && text::same(a1, b1)
            },
            (BlockReason::UnsupportedObject { operation_id: a0, path: a1 }, BlockReason::UnsupportedObject { operation_id: b0, path: b1 }) => {
                *a0 == *b0 && text::same(a1, b1)
            },
            (BlockReason::WorkspaceNotHealthy { condition: a0, pending_bypass: a1 }, BlockReason::WorkspaceNotHealthy { condition: b0, pending_bypass: b1 }) => {
                text::same(a0, b0) && *a1 == *b1
            },
            (BlockReason::RecoveryRequired { transaction_id: a0 }, BlockReason::RecoveryRequired { transaction_id: b0 }) => {
                text::same(a0, b0)
            },
            (BlockReason::ConflictingTargets { operation_ids: a0, detail: a1 }, BlockReason::ConflictingTargets { operation_ids: b0, detail: b1 }) => {
                same_ids(a0, b0) && text::same(a1, b1)
            },
            (BlockReason::CycleInClosure { nodes: a0 }, BlockReason::CycleInClosure { nodes: b0 }) => {
                same_texts(a0, b0)
            },
            (BlockReason::LiveStateMismatch { expected_state_id: a0, found_state_id: a1 }, BlockReason::LiveStateMismatch { expected_state_id: b0, found_state_id: b1 }) => {
                text::same(a0, b0) && text::same(a1, b1)
            },
            (BlockReason::LiveStateUnavailable { detail: a0 }, BlockReason::LiveStateUnavailable { detail: b0 }) => {
                text::same(a0, b0)
            },
            _ => false,
        }
    }
}

impl Ranked for BlockReason {
    open spec fn before(a: Block, b: Block) -> bool {
        text::before(a.debug(), b.debug())
    }

    fn is_before(&self, other: &Self) -> (r: bool) {
        let rank = text::compare(self.debug_text().as_str(), other.debug_text().as_str());
        assert(Self::before(self@, other@) == text::before(self@.debug(), other@.debug()));
        rank == Rank::Less
    }

    proof fn irreflexive(a: Block) {
        text::before_irreflexive(a.debug());
    }

    proof fn transitive(a: Block, b: Block, c: Block) {
        text::before_transitive(a.debug(), b.debug(), c.debug());
    }

    proof fn negatively_transitive(a: Block, b: Block, c: Block) {
        String::negatively_transitive(a.debug(), b.debug(), c.debug());
    }
}

#[derive(Clone, Copy, Debug, PartialEq, Eq, Structural)]
pub enum IncludedReason {
    Selected,
    RequiredBy { operation_id: i64 },
}

#[derive(Clone, Copy, Debug, PartialEq, Eq, Structural)]
pub struct PlannedStep {
    pub operation_id: i64,
    pub direction: TargetDirection,
    pub reason: IncludedReason,
}

#[derive(Clone, Copy, Debug, PartialEq, Eq, Structural)]
pub enum PlanDecision {
    Executable,
    Refused,
}

#[derive(Clone, Debug, PartialEq, Eq)]
pub struct RollbackPlan {
    pub workspace_id: String,
    pub targets: Vec<RollbackTarget>,
    pub decision: PlanDecision,
    /// The deterministic execution order: what will happen, and why.
    pub order: Vec<PlannedStep>,
    pub conflicts: Vec<RollbackConflict>,
    pub block_reasons: Vec<BlockReason>,
    /// Evidence that could not be evaluated for operations in the closure.
    pub unknowns: Vec<IncompleteEvidence>,
    /// Advisory (heuristic) edges touching the closure. Context only: no step
    /// in `order` was caused by one, and none may be.
    pub advisory_context: Vec<DependencyEdge>,
    pub live_state_checked: bool,
    /// True when the plan rests only on evidence that was evaluated.
    pub complete: bool,
}

impl RollbackPlan {
    pub fn is_executable(&self) -> (r: bool)
        ensures
            r == (self.decision == PlanDecision::Executable),
    {
        self.decision == PlanDecision::Executable
    }
}

// ---------------------------------------------------------------------------
// What a plan is made from
// ---------------------------------------------------------------------------

/// What reading the live state gave: its id, or why it could not be read.
#[derive(Clone, Debug, PartialEq, Eq)]
pub enum Observation {
    Seen(String),
    Unavailable(String),
}

/// What is known of a workspace when a plan is made.
#[derive(Debug)]
pub struct PlanInput {
    pub history: History,
    pub condition: WorkspaceCondition,
    pub pending_bypass: bool,
    /// The first transaction that is not finished, if there is one.
    pub unfinished: Option<u128>,
    pub intervals: Vec<UnknownIntervalRow>,
}

/// The targets in order, each once.
pub open spec fn canonical(targets: Seq<RollbackTarget>) -> Seq<RollbackTarget> {
    choose|c: Seq<RollbackTarget>|
        strictly_ascending::<RollbackTarget>(c) && forall|t: RollbackTarget| #[trigger]
            c.contains(t) == targets.contains(t)
}

proof fn canonical_is(targets: Seq<RollbackTarget>, c: Seq<RollbackTarget>)
    requires
        strictly_ascending::<RollbackTarget>(c),
        forall|t: RollbackTarget| #[trigger] c.contains(t) == targets.contains(t),
    ensures
        c == canonical(targets),
{
    let d = canonical(targets);
    assert(strictly_ascending::<RollbackTarget>(d) && forall|t: RollbackTarget| #[trigger]
        d.contains(t) == targets.contains(t));
    assert forall|t: RollbackTarget| c.contains(t) == d.contains(t) by {}
    order::ascending_unique::<RollbackTarget>(c, d);
}

pub open spec fn has_id(ops: Seq<OperationRecord>, id: i64) -> bool {
    exists|i: int| 0 <= i < ops.len() && (#[trigger] ops[i]).id == id
}

/// Where the operation with the given id stands.
pub open spec fn at_id(ops: Seq<OperationRecord>, id: i64) -> int {
    choose|i: int| 0 <= i < ops.len() && (#[trigger] ops[i]).id == id
}

pub open spec fn selected(c: Seq<RollbackTarget>, id: i64) -> bool {
    exists|k: int| 0 <= k < c.len() && (#[trigger] c[k]).operation_id == id
}

/// Whether targets ask for both directions.
pub open spec fn mixed(c: Seq<RollbackTarget>) -> bool {
    c.len() > 0 && c[0].direction != c.last().direction
}

pub open spec fn undoing(c: Seq<RollbackTarget>) -> bool {
    !mixed(c) && c.len() > 0 && c[0].direction == TargetDirection::Undo
}

pub open spec fn redoing(c: Seq<RollbackTarget>) -> bool {
    !mixed(c) && c.len() > 0 && c[0].direction == TargetDirection::Redo
}

/// Where the oldest selected operation stands.
pub open spec fn oldest(ops: Seq<OperationRecord>, c: Seq<RollbackTarget>) -> int {
    choose|i: int|
        0 <= i < ops.len() && selected(c, (#[trigger] ops[i]).id) && forall|j: int|
            0 <= j < i ==> !selected(c, (#[trigger] ops[j]).id)
}

/// The operations of the closure: for an undo, the oldest selected operation
/// and everything after it that is not undone already; for a redo, the selected
/// operation.
pub open spec fn in_closure(ops: Seq<OperationRecord>, c: Seq<RollbackTarget>, i: int) -> bool {
    &&& 0 <= i < ops.len()
    &&& {
        ||| undoing(c) && oldest(ops, c) <= i && ops[i].status != OperationStatus::Undone
        ||| redoing(c) && ops[i].id == c[0].operation_id
    }
}

pub open spec fn closure_has(ops: Seq<OperationRecord>, c: Seq<RollbackTarget>, id: i64) -> bool {
    exists|i: int| #[trigger] in_closure(ops, c, i) && ops[i].id == id
}

pub open spec fn closure_node(ops: Seq<OperationRecord>, c: Seq<RollbackTarget>, n: NodeKey) -> bool {
    n matches NodeKey::Operation { id } && closure_has(ops, c, id)
}

/// The operations that an undo will undo, oldest first.
pub open spec fn undo_list(ops: Seq<OperationRecord>, c: Seq<RollbackTarget>) -> Seq<int> {
    order::chosen(ops.len(), |i: int| oldest(ops, c) <= i && can_undo(ops[i]))
}

pub open spec fn undo_step(ops: Seq<OperationRecord>, c: Seq<RollbackTarget>, i: int) -> PlannedStep {
    PlannedStep {
        operation_id: ops[i].id,
        direction: TargetDirection::Undo,
        reason: if selected(c, ops[i].id) {
            IncludedReason::Selected
        } else {
            IncludedReason::RequiredBy { operation_id: ops[oldest(ops, c)].id }
        },
    }
}

/// What will happen, in order. An undo goes from the newest operation back.
#[verifier::opaque]
pub open spec fn planned_order(ops: Seq<OperationRecord>, c: Seq<RollbackTarget>) -> Seq<PlannedStep> {
    if undoing(c) {
        undo_list(ops, c).reverse().map_values(|i: int| undo_step(ops, c, i))
    } else if redoing(c) {
        seq![
            PlannedStep {
                operation_id: c[0].operation_id,
                direction: TargetDirection::Redo,
                reason: IncludedReason::Selected,
            },
        ]
    } else {
        Seq::empty()
    }
}

/// The state the workspace must be in for the plan to begin.
#[verifier::opaque]
pub open spec fn expected_state(ops: Seq<OperationRecord>, c: Seq<RollbackTarget>) -> Option<Seq<char>> {
    if redoing(c) {
        text::optional(ops[at_id(ops, c[0].operation_id)].pre_state_id)
    } else if undoing(c) && undo_list(ops, c).len() > 0 {
        text::optional(ops[undo_list(ops, c).last()].post_state_id)
    } else {
        None
    }
}

// ---------------------------------------------------------------------------
// What counts against a plan
// ---------------------------------------------------------------------------

pub open spec fn eligible(op: OperationRecord, direction: TargetDirection) -> bool {
    match direction {
        TargetDirection::Undo => can_undo(op),
        TargetDirection::Redo => can_redo(op),
    }
}

pub open spec fn not_eligible(ops: Seq<OperationRecord>, t: RollbackTarget) -> Conflict {
    let op = ops[at_id(ops, t.operation_id)];
    Conflict::TargetNotEligible {
        operation_id: t.operation_id,
        status: op.status.text(),
        reversibility: op.reversibility.text(),
        direction: t.direction,
    }
}

pub open spec fn is_not_eligible(ops: Seq<OperationRecord>, c: Seq<RollbackTarget>, x: Conflict) -> bool {
    exists|k: int|
        0 <= k < c.len() && !eligible(
            ops[at_id(ops, (#[trigger] c[k]).operation_id)],
            c[k].direction,
        ) && x == not_eligible(ops, c[k])
}

pub open spec fn target_ids(c: Seq<RollbackTarget>) -> Seq<i64> {
    c.map_values(|t: RollbackTarget| t.operation_id)
}

pub open spec fn redo_count(c: Seq<RollbackTarget>) -> nat
    decreases c.len(),
{
    if c.len() == 0 {
        0
    } else {
        redo_count(c.drop_last()) + if c.last().direction == TargetDirection::Redo {
            1nat
        } else {
            0
        }
    }
}

pub open spec fn is_conflicting(c: Seq<RollbackTarget>, x: Conflict) -> bool {
    ||| mixed(c) && x == (Conflict::ConflictingTargets {
        operation_ids: target_ids(c),
        detail: "Phase 2 executes one direction per plan; undo and redo targets cannot be combined"@,
    })
    ||| redo_count(c) > 1 && x == (Conflict::ConflictingTargets {
        operation_ids: target_ids(c),
        detail: "Phase 2 executes at most one redo target per plan"@,
    })
    ||| exists|i: int, j: int|
        0 <= i < j < c.len() && (#[trigger] c[i]).operation_id == (#[trigger] c[j]).operation_id && x
            == (Conflict::ConflictingTargets {
            operation_ids: seq![c[i].operation_id],
            detail: "the same operation is a target in two directions"@,
        })
}

/// Whether the closure holds an operation recorded at or after `time`.
pub open spec fn closure_reaches(ops: Seq<OperationRecord>, c: Seq<RollbackTarget>, time: i64) -> bool {
    exists|i: int| #[trigger] in_closure(ops, c, i) && ops[i].created_at >= time
}

pub open spec fn interval_detail(row: UnknownIntervalRow, reached: bool) -> Seq<char> {
    "open unknown interval from state "@ + (match text::optional(row.start_state_id) {
        Some(s) => s,
        None => "<unrecorded state>"@,
    }) + " ("@ + row.reason@ + ") has not been reconciled"@ + (if reached {
        "; the rollback closure reaches into the interval"@
    } else {
        "; the trusted baseline does not cover the present"@
    })
}

pub open spec fn missing_in(h: History, ops: Seq<OperationRecord>, c: Seq<RollbackTarget>, i: int, state: Seq<char>) -> bool {
    in_closure(ops, c, i) && references(ops[i], state) && !h.knows(state)
}

pub open spec fn unsupported_at(ops: Seq<OperationRecord>, c: Seq<RollbackTarget>, i: int, k: int) -> bool {
    in_closure(ops, c, i) && 0 <= k < ops[i].effects@.len() && (!ops[i].effects@[k].pre@.supported()
        || !ops[i].effects@[k].post@.supported())
}

/// A cycle all of whose nodes are operations of the closure.
pub open spec fn cycle_inside(ops: Seq<OperationRecord>, c: Seq<RollbackTarget>, cycle: Seq<NodeKey>) -> bool {
    forall|j: int| 0 <= j < cycle.len() ==> closure_node(ops, c, #[trigger] cycle[j])
}

pub open spec fn node_texts(cycle: Seq<NodeKey>) -> Seq<Seq<char>> {
    cycle.map_values(|n: NodeKey| n.as_text())
}

pub open spec fn mismatch(ops: Seq<OperationRecord>, c: Seq<RollbackTarget>, live: Option<Observation>, expected: Seq<char>, found: Seq<char>) -> bool {
    &&& c.len() == 1
    &&& live matches Some(Observation::Seen(s))
    &&& s@ == found
    &&& expected_state(ops, c) == Some(expected)
    &&& expected != found
}

pub open spec fn unavailable(c: Seq<RollbackTarget>, live: Option<Observation>, detail: Seq<char>) -> bool {
    &&& c.len() == 1
    &&& live matches Some(Observation::Unavailable(s))
    &&& s@ == detail
}

/// Whether something is a conflict of the plan for the targets `c`.
#[verifier::opaque]
pub open spec fn is_conflict(
    input: PlanInput,
    c: Seq<RollbackTarget>,
    live: Option<Observation>,
    graph: DependencyGraph,
    x: Conflict,
) -> bool {
    let ops = input.history.ordered();
    match x {
        Conflict::TargetNotEligible { .. } => is_not_eligible(ops, c, x),
        Conflict::ConflictingTargets { .. } => is_conflicting(c, x),
        Conflict::UnknownInterval { interval_id, reason } => exists|k: int|
            0 <= k < input.intervals@.len() && (#[trigger] input.intervals@[k]).is_open
                && input.intervals@[k].id == interval_id && input.intervals@[k].reason@ == reason,
        Conflict::MissingHistoricalState { operation_id, state_id } => exists|i: int|
            #[trigger] missing_in(input.history, ops, c, i, state_id) && ops[i].id == operation_id,
        Conflict::UnsupportedObject { operation_id, path, descriptor } => exists|i: int, k: int|
            #[trigger] unsupported_at(ops, c, i, k) && ops[i].id == operation_id
                && ops[i].effects@[k].path@ == path && descriptor == ops[i].effects@[k].pre@.describe()
                + " -> "@ + ops[i].effects@[k].post@.describe(),
        Conflict::CycleDetected { nodes } => exists|m: int|
            0 <= m < listed(graph.cycles@).len() && cycle_inside(ops, c, #[trigger] listed(graph.cycles@)[m])
                && nodes == node_texts(listed(graph.cycles@)[m]),
        Conflict::LiveStateMismatch { expected_state_id, found_state_id } => mismatch(
            ops,
            c,
            live,
            expected_state_id,
            found_state_id,
        ),
        Conflict::LiveStateUnavailable { detail } => unavailable(c, live, detail),
        Conflict::DependencyUnknown { operation_id, evidence } => closure_has(ops, c, operation_id)
            && exists|g: Gap| #[trigger]
            views(graph.incomplete@).contains(g) && g.operation_id == operation_id && g.evidence
                == evidence,
        Conflict::IncompatibleOrdering { .. } => false,
    }
}

/// Whether something blocks the plan for the targets `c`.
#[verifier::opaque]
pub open spec fn is_block(
    input: PlanInput,
    c: Seq<RollbackTarget>,
    live: Option<Observation>,
    graph: DependencyGraph,
    x: Block,
) -> bool {
    let ops = input.history.ordered();
    match x {
        Block::NotReversible { operation_id, reversibility } => undoing(c) && exists|i: int|
            #[trigger] in_closure(ops, c, i) && !can_undo(ops[i]) && ops[i].id == operation_id
                && ops[i].reversibility.text() == reversibility,
        Block::UnknownInterval { interval_id, detail } => exists|k: int|
            0 <= k < input.intervals@.len() && (#[trigger] input.intervals@[k]).is_open
                && input.intervals@[k].id == interval_id && detail == interval_detail(
                input.intervals@[k],
                closure_reaches(ops, c, input.intervals@[k].created_at),
            ),
        Block::MissingHistoricalState { operation_id, state_id } => exists|i: int|
            #[trigger] missing_in(input.history, ops, c, i, state_id) && ops[i].id == operation_id,
        Block::UnsupportedObject { operation_id, path } => exists|i: int, k: int|
            #[trigger] unsupported_at(ops, c, i, k) && ops[i].id == operation_id
                && ops[i].effects@[k].path@ == path,
        Block::WorkspaceNotHealthy { condition, pending_bypass } => (input.condition
            != WorkspaceCondition::Healthy || input.pending_bypass) && condition
            == input.condition.text() && pending_bypass == input.pending_bypass,
        Block::RecoveryRequired { transaction_id } => input.unfinished matches Some(t)
            && transaction_id == outside::uuid_text(t),
        Block::CycleInClosure { nodes } => exists|m: int|
            0 <= m < listed(graph.cycles@).len() && cycle_inside(ops, c, #[trigger] listed(graph.cycles@)[m])
                && nodes == node_texts(listed(graph.cycles@)[m]),
        Block::LiveStateMismatch { expected_state_id, found_state_id } => mismatch(
            ops,
            c,
            live,
            expected_state_id,
            found_state_id,
        ),
        Block::LiveStateUnavailable { detail } => unavailable(c, live, detail),
        Block::ConflictingTargets { .. } => false,
    }
}

// ---------------------------------------------------------------------------
// The plan
// ---------------------------------------------------------------------------

/// `all` holds what was found, ordered by rendering, without repetitions.
pub open spec fn arranged<T: Ranked>(all: Seq<T::V>, found: spec_fn(T::V) -> bool) -> bool {
    &&& forall|i: int, j: int| 0 <= i < j < all.len() ==> !T::before(#[trigger] all[j], #[trigger] all[i])
    &&& forall|i: int, j: int| 0 <= i && j == i + 1 && j < all.len() ==> #[trigger] all[i] != #[trigger] all[j]
    &&& forall|x: T::V| #[trigger] all.contains(x) == found(x)
}

/// `list` shows what was found, ordered by rendering, up to the limit.
pub open spec fn presents<T: Ranked>(list: Seq<T::V>, found: spec_fn(T::V) -> bool) -> bool {
    exists|all: Seq<T::V>| #[trigger]
        arranged::<T>(all, found) && list == all.take(
            if all.len() <= FINDING_LIMIT { all.len() as int } else { FINDING_LIMIT as int },
        )
}

impl RollbackPlan {
    /// What the plan for `targets` says, given the graph of the history.
    pub open spec fn planned_from(
        self,
        input: PlanInput,
        targets: Seq<RollbackTarget>,
        live: Option<Observation>,
        graph: DependencyGraph,
    ) -> bool {
        let ops = input.history.ordered();
        let c = canonical(targets);
        &&& self.workspace_id@ == outside::uuid_text(input.history.workspace_id)
        &&& self.targets@ == c
        &&& self.order@ == planned_order(ops, c)
        &&& presents::<RollbackConflict>(
            views(self.conflicts@),
            |x: Conflict| is_conflict(input, c, live, graph, x),
        )
        &&& presents::<BlockReason>(
            views(self.block_reasons@),
            |x: Block| is_block(input, c, live, graph, x),
        )
        &&& (self.decision == PlanDecision::Executable) == (self.conflicts@.len() == 0
            && self.block_reasons@.len() == 0)
        &&& views(self.unknowns@) == views(graph.incomplete@).filter(
            |g: Gap| closure_has(ops, c, g.operation_id),
        )
        &&& self.complete == (self.unknowns@.len() == 0)
        &&& ({
            let context = graph.links().filter(
                |e: Link|
                    e.confidence == EdgeConfidence::Advisory && (closure_node(ops, c, e.from)
                        || closure_node(ops, c, e.to)),
            );
            views(self.advisory_context@) == context.take(
                if context.len() <= ADVISORY_CONTEXT_LIMIT {
                    context.len() as int
                } else {
                    ADVISORY_CONTEXT_LIMIT as int
                },
            )
        })
        &&& self.live_state_checked == (c.len() == 1 && live matches Some(Observation::Seen(_)))
    }
}

// ---------------------------------------------------------------------------
// Planning
// ---------------------------------------------------------------------------

fn canonical_targets(targets: &Vec<RollbackTarget>) -> (r: Vec<RollbackTarget>)
    ensures
        r@ == canonical(targets@),
        strictly_ascending::<RollbackTarget>(r@),
        forall|t: RollbackTarget| #[trigger] r@.contains(t) == targets@.contains(t),
{
    let mut set: Vec<RollbackTarget> = Vec::new();
    let mut i: usize = 0;
    assert(views(set@) =~= set@);
    while i < targets.len()
        invariant
            i <= targets@.len(),
            views(set@) == set@,
            strictly_ascending::<RollbackTarget>(set@),
            forall|t: RollbackTarget| #[trigger] set@.contains(t) == targets@.take(i as int).contains(t),
        decreases targets@.len() - i,
    {
        let ghost before = set@;
        order::insert(&mut set, targets[i]);
        proof {
            assert(views(set@) =~= set@);
            let a = targets@.take(i as int);
            let b = targets@.take(i + 1);
            assert(b =~= a.push(targets@[i as int]));
            assert forall|t: RollbackTarget| #[trigger] set@.contains(t) == b.contains(t) by {
                assert(before.contains(t) == a.contains(t));
                if a.contains(t) {
                    let k = choose|k: int| 0 <= k < a.len() && a[k] == t;
                    assert(b[k] == t);
                }
                assert(b[i as int] == targets@[i as int]);
                if b.contains(t) {
                    let k = choose|k: int| 0 <= k < b.len() && b[k] == t;
                    if k < i {
                        assert(a[k] == t);
                    }
                }
            }
        }
        i = i + 1;
    }
    proof {
        assert(targets@.take(i as int) =~= targets@);
        canonical_is(targets@, set@);
    }
    set
}

proof fn canonical_facts(targets: Seq<RollbackTarget>)
    ensures
        strictly_ascending::<RollbackTarget>(canonical(targets)),
        forall|t: RollbackTarget| #[trigger] canonical(targets).contains(t) == targets.contains(t),
    decreases targets.len(),
{
    canonical_exists(targets);
    let c = choose|c: Seq<RollbackTarget>| #[trigger]
        strictly_ascending::<RollbackTarget>(c) && forall|t: RollbackTarget| #[trigger]
            c.contains(t) == targets.contains(t);
    canonical_is(targets, c);
}

proof fn canonical_exists(targets: Seq<RollbackTarget>)
    ensures
        exists|c: Seq<RollbackTarget>| #[trigger]
            strictly_ascending::<RollbackTarget>(c) && forall|t: RollbackTarget| #[trigger]
                c.contains(t) == targets.contains(t),
{
    order::sorted_ascends(targets);
    order::sorted_keeps(targets);
    let s = sorted(targets);
    assert(views(s) =~= s);
    assert forall|i: int, j: int|
        0 <= i < s.len() && 0 <= j < s.len() && !RollbackTarget::before((#[trigger] s[i])@, (#[trigger] s[j])@)
            && !RollbackTarget::before(s[j]@, s[i]@) implies s[i]@ == s[j]@ by {
        RollbackTarget::separates(s[i], s[j]);
    }
    order::deduplicated_ascends(s);
    order::deduplicated_keeps(s);
    let d = deduplicated(s);
    assert forall|t: RollbackTarget| #[trigger] d.contains(t) == targets.contains(t) by {
        assert(d.contains(t) == s.contains(t));
    }
    assert(strictly_ascending::<RollbackTarget>(d));
}

fn find_id(ops: &Vec<OperationRecord>, id: i64) -> (r: Option<usize>)
    requires
        crate::depgraph::distinct_ids(ops@),
    ensures
        match r {
            Some(i) => i < ops@.len() && ops@[i as int].id == id && has_id(ops@, id) && at_id(ops@, id) == i,
            None => !has_id(ops@, id),
        },
{
    let mut i: usize = 0;
    while i < ops.len()
        invariant
            i <= ops@.len(),
            forall|k: int| 0 <= k < i ==> (#[trigger] ops@[k]).id != id,
            crate::depgraph::distinct_ids(ops@),
        decreases ops@.len() - i,
    {
        if ops[i].id == id {
            proof {
                let j = at_id(ops@, id);
                assert(0 <= j < ops@.len() && ops@[j].id == id);
                if i < j {
                    assert(ops@[i as int].id != ops@[j].id);
                }
            }
            return Some(i);
        }
        i = i + 1;
    }
    None
}

fn is_selected(c: &Vec<RollbackTarget>, id: i64) -> (r: bool)
    ensures
        r == selected(c@, id),
{
    let mut i: usize = 0;
    while i < c.len()
        invariant
            i <= c@.len(),
            forall|k: int| 0 <= k < i ==> (#[trigger] c@[k]).operation_id != id,
        decreases c@.len() - i,
    {
        if c[i].operation_id == id {
            return true;
        }
        i = i + 1;
    }
    false
}

/// Every target names a recorded operation, or the first that does not.
fn check_targets(ops: &Vec<OperationRecord>, c: &Vec<RollbackTarget>) -> (r: Result<()>)
    requires
        crate::depgraph::distinct_ids(ops@),
    ensures
        match r {
            Ok(_) => forall|k: int| 0 <= k < c@.len() ==> has_id(ops@, (#[trigger] c@[k]).operation_id),
            Err(e) => exists|k: int|
                0 <= k < c@.len() && !has_id(ops@, (#[trigger] c@[k]).operation_id) && e@
                    == db::operation_fault(c@[k].operation_id) && forall|j: int|
                    0 <= j < k ==> has_id(ops@, (#[trigger] c@[j]).operation_id),
        },
{
    let mut i: usize = 0;
    while i < c.len()
        invariant
            i <= c@.len(),
            crate::depgraph::distinct_ids(ops@),
            forall|k: int| 0 <= k < i ==> has_id(ops@, (#[trigger] c@[k]).operation_id),
        decreases c@.len() - i,
    {
        match find_id(ops, c[i].operation_id) {
            Some(_) => {},
            None => {
                assert(!has_id(ops@, c@[i as int].operation_id));
                return Err(db::operation_missing(c[i].operation_id));
            },
        }
        i = i + 1;
    }
    Ok(())
}

/// Adds a finding.
fn note<T: View>(out: &mut Vec<T>, x: T)
    ensures
        forall|v: T::V| #[trigger]
            views(final(out)@).contains(v) == (views(old(out)@).contains(v) || v == x@),
{
    proof {
        order::push_contains(out@, x);
    }
    out.push(x);
}

fn eligibility(ops: &Vec<OperationRecord>, c: &Vec<RollbackTarget>) -> (r: Vec<RollbackConflict>)
    requires
        crate::depgraph::distinct_ids(ops@),
        forall|k: int| 0 <= k < c@.len() ==> has_id(ops@, (#[trigger] c@[k]).operation_id),
    ensures
        forall|x: Conflict| #[trigger] views(r@).contains(x) == is_not_eligible(ops@, c@, x),
{
    let mut out: Vec<RollbackConflict> = Vec::new();
    let mut i: usize = 0;
    while i < c.len()
        invariant
            i <= c@.len(),
            crate::depgraph::distinct_ids(ops@),
            forall|k: int| 0 <= k < c@.len() ==> has_id(ops@, (#[trigger] c@[k]).operation_id),
            forall|x: Conflict| #[trigger] views(out@).contains(x) == is_not_eligible(ops@, c@.take(i as int), x),
        decreases c@.len() - i,
    {
        let ghost before = out@;
        let target = c[i];
        assert(has_id(ops@, c@[i as int].operation_id));
        if let Some(at) = find_id(ops, target.operation_id) {
            let fits = match target.direction {
                TargetDirection::Undo => db::is_undoable(&ops[at]),
                TargetDirection::Redo => db::is_redoable(&ops[at]),
            };
            if !fits {
                let conflict = RollbackConflict::TargetNotEligible {
                    operation_id: ops[at].id,
                    status: text::copy(ops[at].status.as_str()),
                    reversibility: text::copy(ops[at].reversibility.as_str()),
                    direction: target.direction,
                };
                assert(conflict@ == not_eligible(ops@, target));
                note(&mut out, conflict);
            }
            proof {
                let a = c@.take(i as int);
                let b = c@.take(i + 1);
                assert forall|x: Conflict| #[trigger] views(out@).contains(x) == is_not_eligible(ops@, b, x) by {
                    assert(views(before).contains(x) == is_not_eligible(ops@, a, x));
                    if is_not_eligible(ops@, a, x) {
                        let k = choose|k: int|
                            0 <= k < a.len() && !eligible(ops@[at_id(ops@, (#[trigger] a[k]).operation_id)], a[k].direction)
                                && x == not_eligible(ops@, a[k]);
                        assert(b[k] == a[k]);
                    }
                    assert(b[i as int] == target);
                    if is_not_eligible(ops@, b, x) {
                        let k = choose|k: int|
                            0 <= k < b.len() && !eligible(ops@[at_id(ops@, (#[trigger] b[k]).operation_id)], b[k].direction)
                                && x == not_eligible(ops@, b[k]);
                        if k < i {
                            assert(a[k] == b[k]);
                        }
                    }
                }
            }
        }
        i = i + 1;
    }
    assert(c@.take(i as int) =~= c@);
    out
}

fn ids_of(c: &Vec<RollbackTarget>) -> (r: Vec<i64>)
    ensures
        r@ == target_ids(c@),
{
    let mut out: Vec<i64> = Vec::new();
    let mut i: usize = 0;
    while i < c.len()
        invariant
            i <= c@.len(),
            out@ == target_ids(c@).take(i as int),
        decreases c@.len() - i,
    {
        out.push(c[i].operation_id);
        assert(target_ids(c@).take(i + 1) =~= target_ids(c@).take(i as int).push(c@[i as int].operation_id));
        i = i + 1;
    }
    assert(target_ids(c@).take(i as int) =~= target_ids(c@));
    out
}

fn count_redo(c: &Vec<RollbackTarget>) -> (r: usize)
    ensures
        r == redo_count(c@),
{
    let mut n: usize = 0;
    let mut i: usize = 0;
    assert(c@.take(0) =~= Seq::empty());
    while i < c.len()
        invariant
            i <= c@.len(),
            n <= i,
            n == redo_count(c@.take(i as int)),
        decreases c@.len() - i,
    {
        assert(c@.take(i + 1).drop_last() =~= c@.take(i as int));
        if c[i].direction == TargetDirection::Redo {
            n = n + 1;
        }
        i = i + 1;
    }
    assert(c@.take(i as int) =~= c@);
    n
}

fn conflicting(c: &Vec<RollbackTarget>) -> (r: Vec<RollbackConflict>)
    ensures
        forall|x: Conflict| #[trigger] views(r@).contains(x) == is_conflicting(c@, x),
{
    let mut out: Vec<RollbackConflict> = Vec::new();
    if c.len() > 0 && c[0].direction != c[c.len() - 1].direction {
        note(
            &mut out,
            RollbackConflict::ConflictingTargets {
                operation_ids: ids_of(c),
                detail: text::copy("Phase 2 executes one direction per plan; undo and redo targets cannot be combined"),
            },
        );
    }
    if count_redo(c) > 1 {
        note(
            &mut out,
            RollbackConflict::ConflictingTargets {
                operation_ids: ids_of(c),
                detail: text::copy("Phase 2 executes at most one redo target per plan"),
            },
        );
    }
    let ghost start = out@;
    let mut i: usize = 0;
    while i < c.len()
        invariant
            i <= c@.len(),
            forall|x: Conflict| #[trigger] views(out@).contains(x) ==> views(start).contains(x) || exists|a: int, b: int|
                0 <= a < b < c@.len() && (#[trigger] c@[a]).operation_id == (#[trigger] c@[b]).operation_id && x == doubled(c@[a].operation_id),
            forall|x: Conflict| views(start).contains(x) ==> #[trigger] views(out@).contains(x),
            forall|a: int, b: int|
                0 <= a < i && a < b < c@.len() && (#[trigger] c@[a]).operation_id == (#[trigger] c@[b]).operation_id
                    ==> views(out@).contains(doubled(c@[a].operation_id)),
        decreases c@.len() - i,
    {
        let mut j: usize = i + 1;
        while j < c.len()
            invariant
                i < j <= c@.len(),
                forall|x: Conflict| #[trigger] views(out@).contains(x) ==> views(start).contains(x) || exists|a: int, b: int|
                    0 <= a < b < c@.len() && (#[trigger] c@[a]).operation_id == (#[trigger] c@[b]).operation_id && x == doubled(c@[a].operation_id),
                forall|x: Conflict| views(start).contains(x) ==> #[trigger] views(out@).contains(x),
                forall|a: int, b: int|
                    (0 <= a < i && a < b < c@.len() || a == i && i < b < j) && (#[trigger] c@[a]).operation_id == (#[trigger] c@[b]).operation_id
                        ==> views(out@).contains(doubled(c@[a].operation_id)),
            decreases c@.len() - j,
        {
            if c[i].operation_id == c[j].operation_id {
                let mut ids: Vec<i64> = Vec::new();
                ids.push(c[i].operation_id);
                assert(ids@ =~= seq![c@[i as int].operation_id]);
                let conflict = RollbackConflict::ConflictingTargets {
                    operation_ids: ids,
                    detail: text::copy("the same operation is a target in two directions"),
                };
                assert(conflict@ == doubled(c@[i as int].operation_id));
                note(&mut out, conflict);
            }
            j = j + 1;
        }
        i = i + 1;
    }
    proof {
        assert forall|x: Conflict| #[trigger] views(out@).contains(x) == is_conflicting(c@, x) by {
            if exists|a: int, b: int|
                0 <= a < b < c@.len() && (#[trigger] c@[a]).operation_id == (#[trigger] c@[b]).operation_id && x == doubled(c@[a].operation_id) {
                let (a, b) = choose|a: int, b: int|
                    0 <= a < b < c@.len() && (#[trigger] c@[a]).operation_id == (#[trigger] c@[b]).operation_id && x == doubled(c@[a].operation_id);
                assert(views(out@).contains(doubled(c@[a].operation_id)));
            }
        }
    }
    out
}

spec fn doubled(id: i64) -> Conflict {
    Conflict::ConflictingTargets {
        operation_ids: seq![id],
        detail: "the same operation is a target in two directions"@,
    }
}

fn find_oldest(ops: &Vec<OperationRecord>, c: &Vec<RollbackTarget>) -> (r: usize)
    requires
        c@.len() > 0,
        has_id(ops@, c@[0].operation_id),
    ensures
        r == oldest(ops@, c@),
        r < ops@.len(),
{
    let mut i: usize = 0;
    while i < ops.len()
        invariant
            i <= ops@.len(),
            forall|k: int| 0 <= k < i ==> !selected(c@, (#[trigger] ops@[k]).id),
        decreases ops@.len() - i,
    {
        if is_selected(c, ops[i].id) {
            proof {
                let o = oldest(ops@, c@);
                assert(0 <= i < ops@.len() && selected(c@, ops@[i as int].id) && forall|j: int|
                    0 <= j < i ==> !selected(c@, (#[trigger] ops@[j]).id));
                assert(0 <= o < ops@.len() && selected(c@, ops@[o].id) && forall|j: int|
                    0 <= j < o ==> !selected(c@, (#[trigger] ops@[j]).id));
                if i < o {
                    assert(!selected(c@, ops@[i as int].id));
                }
            }
            return i;
        }
        i = i + 1;
    }
    proof {
        let k = at_id(ops@, c@[0].operation_id);
        assert(0 <= k < ops@.len() && ops@[k].id == c@[0].operation_id);
        assert(c@[0].operation_id == ops@[k].id);
        assert(selected(c@, ops@[k].id));
    }
    0
}

/// `closure` holds the positions of the operations of the closure.
spec fn closure_is(ops: Seq<OperationRecord>, c: Seq<RollbackTarget>, closure: Seq<usize>) -> bool {
    &&& forall|k: int| 0 <= k < closure.len() ==> in_closure(ops, c, (#[trigger] closure[k]) as int)
    &&& forall|i: int| #[trigger] in_closure(ops, c, i) ==> exists|k: int|
        0 <= k < closure.len() && (#[trigger] closure[k]) as int == i
}

/// The positions of the operations of the closure, oldest first.
fn closure_of(ops: &Vec<OperationRecord>, c: &Vec<RollbackTarget>) -> (r: Vec<usize>)
    requires
        crate::depgraph::distinct_ids(ops@),
        c@.len() > 0,
        has_id(ops@, c@[0].operation_id),
    ensures
        closure_is(ops@, c@, r@),
        redoing(c@) ==> r@.len() == 1 && r@[0] == at_id(ops@, c@[0].operation_id),
{
    if c[0].direction != c[c.len() - 1].direction {
        assert(mixed(c@));
        return Vec::new();
    }
    if c[0].direction == TargetDirection::Undo {
        undo_closure(ops, c)
    } else {
        redo_closure(ops, c)
    }
}

fn undo_closure(ops: &Vec<OperationRecord>, c: &Vec<RollbackTarget>) -> (r: Vec<usize>)
    requires
        undoing(c@),
        has_id(ops@, c@[0].operation_id),
    ensures
        closure_is(ops@, c@, r@),
{
    let mut out: Vec<usize> = Vec::new();
    let from = find_oldest(ops, c);
    let mut i: usize = from;
    while i < ops.len()
        invariant
            from <= i <= ops@.len(),
            from == oldest(ops@, c@),
            undoing(c@),
            forall|k: int| 0 <= k < out@.len() ==> in_closure(ops@, c@, (#[trigger] out@[k]) as int),
            forall|k: int| k < i && #[trigger] in_closure(ops@, c@, k) ==> exists|q: int|
                0 <= q < out@.len() && (#[trigger] out@[q]) as int == k,
        decreases ops@.len() - i,
    {
        if ops[i].status != OperationStatus::Undone {
            let ghost before = out@;
            out.push(i);
            proof {
                assert(out@[before.len() as int] == i);
                assert(in_closure(ops@, c@, i as int));
                assert forall|k: int| k < i + 1 && #[trigger] in_closure(ops@, c@, k) implies exists|q: int|
                    0 <= q < out@.len() && (#[trigger] out@[q]) as int == k by {
                    if k < i {
                        let q = choose|q: int| 0 <= q < before.len() && (#[trigger] before[q]) as int == k;
                        assert(out@[q] as int == k);
                    } else {
                        assert(out@[before.len() as int] as int == k);
                    }
                }
            }
        }
        i = i + 1;
    }
    out
}

fn redo_closure(ops: &Vec<OperationRecord>, c: &Vec<RollbackTarget>) -> (r: Vec<usize>)
    requires
        crate::depgraph::distinct_ids(ops@),
        redoing(c@),
        has_id(ops@, c@[0].operation_id),
    ensures
        closure_is(ops@, c@, r@),
        r@.len() == 1 && r@[0] == at_id(ops@, c@[0].operation_id),
{
    let mut out: Vec<usize> = Vec::new();
    if let Some(at) = find_id(ops, c[0].operation_id) {
        out.push(at);
        proof {
            assert(in_closure(ops@, c@, at as int));
            assert forall|i: int| #[trigger] in_closure(ops@, c@, i) implies i == at by {
                if i < at {
                    assert(ops@[i].id != ops@[at as int].id);
                } else if i > at {
                    assert(ops@[at as int].id != ops@[i].id);
                }
            }
            assert(out@[0] as int == at);
        }
    }
    out
}

proof fn reversed_step(a: Seq<int>, i: int, f: spec_fn(int) -> PlannedStep)
    ensures
        (seq![i] + a).reverse().map_values(f) == a.reverse().map_values(f).push(f(i)),
{
    assert((seq![i] + a).reverse() =~= a.reverse().push(i));
    assert((seq![i] + a).reverse().map_values(f) =~= a.reverse().map_values(f).push(f(i)));
}

/// The steps of the plan, in the order in which they will happen.
#[verifier::spinoff_prover]
fn order_of(ops: &Vec<OperationRecord>, c: &Vec<RollbackTarget>) -> (r: Vec<PlannedStep>)
    requires
        c@.len() > 0,
        has_id(ops@, c@[0].operation_id),
    ensures
        r@ == planned_order(ops@, c@),
{
    proof {
        reveal(planned_order);
    }
    let mut out: Vec<PlannedStep> = Vec::new();
    if c[0].direction != c[c.len() - 1].direction {
        return out;
    }
    if c[0].direction == TargetDirection::Redo {
        out.push(
            PlannedStep {
                operation_id: c[0].operation_id,
                direction: TargetDirection::Redo,
                reason: IncludedReason::Selected,
            },
        );
        assert(out@ =~= planned_order(ops@, c@));
        return out;
    }
    let from = find_oldest(ops, c);
    let anchor = ops[from].id;
    let ghost keep = |i: int| oldest(ops@, c@) <= i && can_undo(ops@[i]);
    let ghost f = |i: int| undo_step(ops@, c@, i);
    let ghost n = ops@.len();
    let ghost list = order::chosen(n, keep);
    let mut i: usize = ops.len();
    proof {
        order::chosen_split(n, n, keep);
        assert(order::chosen_from(n, n, keep) =~= Seq::empty());
    }
    while i > 0
        invariant
            i <= n == ops@.len(),
            undoing(c@),
            from == oldest(ops@, c@),
            from < ops@.len(),
            anchor == ops@[from as int].id,
            keep == (|i: int| oldest(ops@, c@) <= i && can_undo(ops@[i])),
            f == (|i: int| undo_step(ops@, c@, i)),
            out@ == order::chosen_from(i as nat, n, keep).reverse().map_values(f),
        decreases i,
    {
        i = i - 1;
        proof {
            order::chosen_from_step(i as nat, n, keep);
        }
        if from <= i && db::is_undoable(&ops[i]) {
            assert(keep(i as int));
            let reason = if is_selected(c, ops[i].id) {
                IncludedReason::Selected
            } else {
                IncludedReason::RequiredBy { operation_id: anchor }
            };
            let step = PlannedStep { operation_id: ops[i].id, direction: TargetDirection::Undo, reason };
            out.push(step);
            proof {
                assert(step == f(i as int));
                reversed_step(order::chosen_from((i + 1) as nat, n, keep), i as int, f);
            }
        } else {
            assert(!keep(i as int));
        }
    }
    proof {
        order::chosen_split(0, n, keep);
        assert(order::chosen(0, keep) + order::chosen_from(0, n, keep) =~= order::chosen_from(0, n, keep));
        assert(list == undo_list(ops@, c@));
    }
    out
}

fn not_reversible(ops: &Vec<OperationRecord>, c: &Vec<RollbackTarget>, closure: &Vec<usize>) -> (r: Vec<BlockReason>)
    requires
        c@.len() > 0,
        closure_is(ops@, c@, closure@),
    ensures
        forall|x: Block| #[trigger]
            views(r@).contains(x) == (undoing(c@) && exists|i: int|
                #[trigger] in_closure(ops@, c@, i) && !can_undo(ops@[i]) && x == irreversible(ops@[i])),
{
    let mut out: Vec<BlockReason> = Vec::new();
    if c[0].direction != c[c.len() - 1].direction || c[0].direction != TargetDirection::Undo {
        return out;
    }
    let mut k: usize = 0;
    while k < closure.len()
        invariant
            k <= closure@.len(),
            closure_is(ops@, c@, closure@),
            forall|x: Block| #[trigger]
                views(out@).contains(x) == exists|j: int|
                    0 <= j < k && !can_undo(ops@[(#[trigger] closure@[j]) as int]) && x == irreversible(ops@[closure@[j] as int]),
        decreases closure@.len() - k,
    {
        let ghost before = out@;
        assert(in_closure(ops@, c@, closure@[k as int] as int));
        let op = &ops[closure[k]];
        if !db::is_undoable(op) {
            note(
                &mut out,
                BlockReason::NotReversible {
                    operation_id: op.id,
                    reversibility: text::copy(op.reversibility.as_str()),
                },
            );
        }
        proof {
            assert forall|x: Block| #[trigger]
                views(out@).contains(x) == exists|j: int|
                    0 <= j < k + 1 && !can_undo(ops@[(#[trigger] closure@[j]) as int]) && x == irreversible(ops@[closure@[j] as int]) by {
                let was = views(before).contains(x);
                if was {
                    let j = choose|j: int|
                        0 <= j < k && !can_undo(ops@[(#[trigger] closure@[j]) as int]) && x == irreversible(ops@[closure@[j] as int]);
                    assert(!can_undo(ops@[closure@[j] as int]));
                }
                if exists|j: int|
                    0 <= j < k + 1 && !can_undo(ops@[(#[trigger] closure@[j]) as int]) && x == irreversible(ops@[closure@[j] as int]) {
                    let j = choose|j: int|
                        0 <= j < k + 1 && !can_undo(ops@[(#[trigger] closure@[j]) as int]) && x == irreversible(ops@[closure@[j] as int]);
                    if j < k {
                        assert(!can_undo(ops@[closure@[j] as int]));
                    }
                }
                if !can_undo(*op) {
                    assert(!can_undo(ops@[closure@[k as int] as int]));
                }
            }
        }
        k = k + 1;
    }
    proof {
        assert forall|x: Block| #[trigger]
            views(out@).contains(x) == exists|i: int|
                #[trigger] in_closure(ops@, c@, i) && !can_undo(ops@[i]) && x == irreversible(ops@[i]) by {
            if views(out@).contains(x) {
                let j = choose|j: int|
                    0 <= j < k && !can_undo(ops@[(#[trigger] closure@[j]) as int]) && x == irreversible(ops@[closure@[j] as int]);
                assert(in_closure(ops@, c@, closure@[j] as int));
            }
            if exists|i: int| #[trigger] in_closure(ops@, c@, i) && !can_undo(ops@[i]) && x == irreversible(ops@[i]) {
                let i = choose|i: int| #[trigger] in_closure(ops@, c@, i) && !can_undo(ops@[i]) && x == irreversible(ops@[i]);
                let j = choose|j: int| 0 <= j < closure@.len() && (#[trigger] closure@[j]) as int == i;
                assert(!can_undo(ops@[closure@[j] as int]));
            }
        }
    }
    out
}

spec fn irreversible(op: OperationRecord) -> Block {
    Block::NotReversible { operation_id: op.id, reversibility: op.reversibility.text() }
}

fn reaches_into(ops: &Vec<OperationRecord>, c: &Vec<RollbackTarget>, closure: &Vec<usize>, time: i64) -> (r: bool)
    requires
        closure_is(ops@, c@, closure@),
    ensures
        r == closure_reaches(ops@, c@, time),
{
    let mut k: usize = 0;
    while k < closure.len()
        invariant
            k <= closure@.len(),
            closure_is(ops@, c@, closure@),
            forall|j: int| 0 <= j < k ==> ops@[(#[trigger] closure@[j]) as int].created_at < time,
        decreases closure@.len() - k,
    {
        assert(in_closure(ops@, c@, closure@[k as int] as int));
        if ops[closure[k]].created_at >= time {
            return true;
        }
        k = k + 1;
    }
    proof {
        if closure_reaches(ops@, c@, time) {
            let i = choose|i: int| #[trigger] in_closure(ops@, c@, i) && ops@[i].created_at >= time;
            let j = choose|j: int| 0 <= j < closure@.len() && (#[trigger] closure@[j]) as int == i;
            assert(ops@[closure@[j] as int].created_at < time);
        }
    }
    false
}

fn describe_interval(row: &UnknownIntervalRow, reached: bool) -> (r: String)
    ensures
        r@ == interval_detail(*row, reached),
{
    let mut out = text::copy("open unknown interval from state ");
    match &row.start_state_id {
        Some(s) => {
            out.append(s);
        },
        None => {
            out.append("<unrecorded state>");
        },
    }
    out.append(" (");
    out.append(row.reason.as_str());
    out.append(") has not been reconciled");
    if reached {
        out.append("; the rollback closure reaches into the interval");
    } else {
        out.append("; the trusted baseline does not cover the present");
    }
    out
}

spec fn interval_block(ops: Seq<OperationRecord>, c: Seq<RollbackTarget>, row: UnknownIntervalRow) -> Block {
    Block::UnknownInterval {
        interval_id: row.id,
        detail: interval_detail(row, closure_reaches(ops, c, row.created_at)),
    }
}

spec fn interval_conflict(row: UnknownIntervalRow) -> Conflict {
    Conflict::UnknownInterval { interval_id: row.id, reason: row.reason@ }
}

fn interval_findings(
    ops: &Vec<OperationRecord>,
    c: &Vec<RollbackTarget>,
    closure: &Vec<usize>,
    rows: &Vec<UnknownIntervalRow>,
) -> (r: (Vec<RollbackConflict>, Vec<BlockReason>))
    requires
        closure_is(ops@, c@, closure@),
    ensures
        forall|x: Conflict| #[trigger]
            views(r.0@).contains(x) == exists|k: int|
                0 <= k < rows@.len() && (#[trigger] rows@[k]).is_open && x == interval_conflict(rows@[k]),
        forall|x: Block| #[trigger]
            views(r.1@).contains(x) == exists|k: int|
                0 <= k < rows@.len() && (#[trigger] rows@[k]).is_open && x == interval_block(ops@, c@, rows@[k]),
{
    let mut conflicts: Vec<RollbackConflict> = Vec::new();
    let mut blocks: Vec<BlockReason> = Vec::new();
    let mut i: usize = 0;
    while i < rows.len()
        invariant
            i <= rows@.len(),
            closure_is(ops@, c@, closure@),
            forall|x: Conflict| #[trigger]
                views(conflicts@).contains(x) == exists|k: int|
                    0 <= k < i && (#[trigger] rows@[k]).is_open && x == interval_conflict(rows@[k]),
            forall|x: Block| #[trigger]
                views(blocks@).contains(x) == exists|k: int|
                    0 <= k < i && (#[trigger] rows@[k]).is_open && x == interval_block(ops@, c@, rows@[k]),
        decreases rows@.len() - i,
    {
        let ghost cs = conflicts@;
        let ghost bs = blocks@;
        let row = &rows[i];
        if row.is_open {
            let reached = reaches_into(ops, c, closure, row.created_at);
            note(
                &mut blocks,
                BlockReason::UnknownInterval { interval_id: row.id, detail: describe_interval(row, reached) },
            );
            note(
                &mut conflicts,
                RollbackConflict::UnknownInterval { interval_id: row.id, reason: row.reason.clone() },
            );
        }
        proof {
            assert forall|x: Conflict| #[trigger]
                views(conflicts@).contains(x) == exists|k: int|
                    0 <= k < i + 1 && (#[trigger] rows@[k]).is_open && x == interval_conflict(rows@[k]) by {
                assert(views(conflicts@).contains(x) == (views(cs).contains(x) || (row.is_open && x == interval_conflict(rows@[i as int]))));
                if views(cs).contains(x) {
                    let k = choose|k: int| 0 <= k < i && (#[trigger] rows@[k]).is_open && x == interval_conflict(rows@[k]);
                    assert(rows@[k].is_open);
                }
                if exists|k: int| 0 <= k < i + 1 && (#[trigger] rows@[k]).is_open && x == interval_conflict(rows@[k]) {
                    let k = choose|k: int| 0 <= k < i + 1 && (#[trigger] rows@[k]).is_open && x == interval_conflict(rows@[k]);
                    if k < i {
                        assert(rows@[k].is_open);
                    }
                }
            }
            assert forall|x: Block| #[trigger]
                views(blocks@).contains(x) == exists|k: int|
                    0 <= k < i + 1 && (#[trigger] rows@[k]).is_open && x == interval_block(ops@, c@, rows@[k]) by {
                assert(views(blocks@).contains(x) == (views(bs).contains(x) || (row.is_open && x == interval_block(ops@, c@, rows@[i as int]))));
                if views(bs).contains(x) {
                    let k = choose|k: int| 0 <= k < i && (#[trigger] rows@[k]).is_open && x == interval_block(ops@, c@, rows@[k]);
                    assert(rows@[k].is_open);
                }
                if exists|k: int| 0 <= k < i + 1 && (#[trigger] rows@[k]).is_open && x == interval_block(ops@, c@, rows@[k]) {
                    let k = choose|k: int| 0 <= k < i + 1 && (#[trigger] rows@[k]).is_open && x == interval_block(ops@, c@, rows@[k]);
                    if k < i {
                        assert(rows@[k].is_open);
                    }
                }
            }
        }
        i = i + 1;
    }
    (conflicts, blocks)
}

spec fn missing_conflict(op: OperationRecord, state: Seq<char>) -> Conflict {
    Conflict::MissingHistoricalState { operation_id: op.id, state_id: state }
}

spec fn missing_block(op: OperationRecord, state: Seq<char>) -> Block {
    Block::MissingHistoricalState { operation_id: op.id, state_id: state }
}

spec fn unsupported_conflict(op: OperationRecord, e: Effect) -> Conflict {
    Conflict::UnsupportedObject {
        operation_id: op.id,
        path: e.path@,
        descriptor: e.pre@.describe() + " -> "@ + e.post@.describe(),
    }
}

spec fn unsupported_block(op: OperationRecord, e: Effect) -> Block {
    Block::UnsupportedObject { operation_id: op.id, path: e.path@ }
}

spec fn bad_effect(e: Effect) -> bool {
    !e.pre@.supported() || !e.post@.supported()
}

/// What counts against one operation of the closure: states it refers to that
/// are gone, and objects that cannot be restored.
spec fn operation_conflict(h: History, op: OperationRecord, x: Conflict) -> bool {
    ||| exists|s: Seq<char>| #[trigger] references(op, s) && !h.knows(s) && x == missing_conflict(op, s)
    ||| exists|k: int|
        0 <= k < op.effects@.len() && bad_effect(#[trigger] op.effects@[k]) && x == unsupported_conflict(op, op.effects@[k])
}

spec fn operation_block(h: History, op: OperationRecord, x: Block) -> bool {
    ||| exists|s: Seq<char>| #[trigger] references(op, s) && !h.knows(s) && x == missing_block(op, s)
    ||| exists|k: int|
        0 <= k < op.effects@.len() && bad_effect(#[trigger] op.effects@[k]) && x == unsupported_block(op, op.effects@[k])
}

fn state_finding(
    Ghost(h): Ghost<History>,
    known: &Vec<String>,
    op: &OperationRecord,
    state: &Option<String>,
    conflicts: &mut Vec<RollbackConflict>,
    blocks: &mut Vec<BlockReason>,
)
    requires
        strictly_ascending::<String>(views(known@)),
        forall|s: Seq<char>| #[trigger] views(known@).contains(s) == h.knows(s),
    ensures
        forall|x: Conflict| #[trigger]
            views(final(conflicts)@).contains(x) == (views(old(conflicts)@).contains(x) || (state is Some
                && !h.knows(state->0@) && x == missing_conflict(*op, state->0@))),
        forall|x: Block| #[trigger]
            views(final(blocks)@).contains(x) == (views(old(blocks)@).contains(x) || (state is Some
                && !h.knows(state->0@) && x == missing_block(*op, state->0@))),
{
    if let Some(id) = state {
        let present = order::holds(known, id);
        assert(present == h.knows(id@));
        if !present {
            note(blocks, BlockReason::MissingHistoricalState { operation_id: op.id, state_id: id.clone() });
            note(
                conflicts,
                RollbackConflict::MissingHistoricalState { operation_id: op.id, state_id: id.clone() },
            );
        }
    }
}

fn operation_findings(
    Ghost(h): Ghost<History>,
    known: &Vec<String>,
    op: &OperationRecord,
    conflicts: &mut Vec<RollbackConflict>,
    blocks: &mut Vec<BlockReason>,
)
    requires
        strictly_ascending::<String>(views(known@)),
        forall|s: Seq<char>| #[trigger] views(known@).contains(s) == h.knows(s),
    ensures
        forall|x: Conflict| #[trigger]
            views(final(conflicts)@).contains(x) == (views(old(conflicts)@).contains(x) || operation_conflict(h, *op, x)),
        forall|x: Block| #[trigger]
            views(final(blocks)@).contains(x) == (views(old(blocks)@).contains(x) || operation_block(h, *op, x)),
{
    let ghost c0 = conflicts@;
    let ghost b0 = blocks@;
    state_finding(Ghost(h), known, op, &op.pre_state_id, conflicts, blocks);
    state_finding(Ghost(h), known, op, &op.post_state_id, conflicts, blocks);
    let ghost c1 = conflicts@;
    let ghost b1 = blocks@;
    let mut i: usize = 0;
    while i < op.effects.len()
        invariant
            i <= op.effects@.len(),
            forall|x: Conflict| #[trigger]
                views(conflicts@).contains(x) == (views(c1).contains(x) || exists|k: int|
                    0 <= k < i && bad_effect(#[trigger] op.effects@[k]) && x == unsupported_conflict(*op, op.effects@[k])),
            forall|x: Block| #[trigger]
                views(blocks@).contains(x) == (views(b1).contains(x) || exists|k: int|
                    0 <= k < i && bad_effect(#[trigger] op.effects@[k]) && x == unsupported_block(*op, op.effects@[k])),
        decreases op.effects@.len() - i,
    {
        let ghost cs = conflicts@;
        let ghost bs = blocks@;
        let effect = &op.effects[i];
        let bad = !effect.pre.is_supported_for_restore() || !effect.post.is_supported_for_restore();
        if bad {
            note(blocks, BlockReason::UnsupportedObject { operation_id: op.id, path: effect.path.clone() });
            let mut descriptor = effect.pre.describe();
            descriptor.append(" -> ");
            descriptor.append(effect.post.describe().as_str());
            note(
                conflicts,
                RollbackConflict::UnsupportedObject {
                    operation_id: op.id,
                    path: effect.path.clone(),
                    descriptor,
                },
            );
        }
        proof {
            let e = op.effects@[i as int];
            assert forall|x: Conflict| #[trigger]
                views(conflicts@).contains(x) == (views(c1).contains(x) || exists|k: int|
                    0 <= k < i + 1 && bad_effect(#[trigger] op.effects@[k]) && x == unsupported_conflict(*op, op.effects@[k])) by {
                assert(views(conflicts@).contains(x) == (views(cs).contains(x) || (bad_effect(e) && x == unsupported_conflict(*op, e))));
                if exists|k: int| 0 <= k < i + 1 && bad_effect(#[trigger] op.effects@[k]) && x == unsupported_conflict(*op, op.effects@[k]) {
                    let k = choose|k: int| 0 <= k < i + 1 && bad_effect(#[trigger] op.effects@[k]) && x == unsupported_conflict(*op, op.effects@[k]);
                    if k < i {
                        assert(bad_effect(op.effects@[k]));
                    }
                }
                if exists|k: int| 0 <= k < i && bad_effect(#[trigger] op.effects@[k]) && x == unsupported_conflict(*op, op.effects@[k]) {
                    let k = choose|k: int| 0 <= k < i && bad_effect(#[trigger] op.effects@[k]) && x == unsupported_conflict(*op, op.effects@[k]);
                    assert(bad_effect(op.effects@[k]));
                }
            }
            assert forall|x: Block| #[trigger]
                views(blocks@).contains(x) == (views(b1).contains(x) || exists|k: int|
                    0 <= k < i + 1 && bad_effect(#[trigger] op.effects@[k]) && x == unsupported_block(*op, op.effects@[k])) by {
                assert(views(blocks@).contains(x) == (views(bs).contains(x) || (bad_effect(e) && x == unsupported_block(*op, e))));
                if exists|k: int| 0 <= k < i + 1 && bad_effect(#[trigger] op.effects@[k]) && x == unsupported_block(*op, op.effects@[k]) {
                    let k = choose|k: int| 0 <= k < i + 1 && bad_effect(#[trigger] op.effects@[k]) && x == unsupported_block(*op, op.effects@[k]);
                    if k < i {
                        assert(bad_effect(op.effects@[k]));
                    }
                }
                if exists|k: int| 0 <= k < i && bad_effect(#[trigger] op.effects@[k]) && x == unsupported_block(*op, op.effects@[k]) {
                    let k = choose|k: int| 0 <= k < i && bad_effect(#[trigger] op.effects@[k]) && x == unsupported_block(*op, op.effects@[k]);
                    assert(bad_effect(op.effects@[k]));
                }
            }
        }
        i = i + 1;
    }
    proof {
        let pre = op.pre_state_id;
        let post = op.post_state_id;
        if pre is Some {
            assert(references(*op, pre->0@));
        }
        if post is Some {
            assert(references(*op, post->0@));
        }
    }
}

/// The findings about the operations of the closure.
fn closure_findings(
    Ghost(h): Ghost<History>,
    known: &Vec<String>,
    ops: &Vec<OperationRecord>,
    Ghost(c): Ghost<Seq<RollbackTarget>>,
    closure: &Vec<usize>,
) -> (r: (Vec<RollbackConflict>, Vec<BlockReason>))
    requires
        strictly_ascending::<String>(views(known@)),
        forall|s: Seq<char>| #[trigger] views(known@).contains(s) == h.knows(s),
        closure_is(ops@, c, closure@),
    ensures
        forall|x: Conflict| #[trigger]
            views(r.0@).contains(x) == exists|i: int|
                #[trigger] in_closure(ops@, c, i) && operation_conflict(h, ops@[i], x),
        forall|x: Block| #[trigger]
            views(r.1@).contains(x) == exists|i: int|
                #[trigger] in_closure(ops@, c, i) && operation_block(h, ops@[i], x),
{
    let mut conflicts: Vec<RollbackConflict> = Vec::new();
    let mut blocks: Vec<BlockReason> = Vec::new();
    let mut k: usize = 0;
    while k < closure.len()
        invariant
            k <= closure@.len(),
            strictly_ascending::<String>(views(known@)),
            forall|s: Seq<char>| #[trigger] views(known@).contains(s) == h.knows(s),
            closure_is(ops@, c, closure@),
            forall|x: Conflict| #[trigger]
                views(conflicts@).contains(x) == exists|j: int|
                    0 <= j < k && operation_conflict(h, ops@[(#[trigger] closure@[j]) as int], x),
            forall|x: Block| #[trigger]
                views(blocks@).contains(x) == exists|j: int|
                    0 <= j < k && operation_block(h, ops@[(#[trigger] closure@[j]) as int], x),
        decreases closure@.len() - k,
    {
        let ghost cs = conflicts@;
        let ghost bs = blocks@;
        assert(in_closure(ops@, c, closure@[k as int] as int));
        operation_findings(Ghost(h), known, &ops[closure[k]], &mut conflicts, &mut blocks);
        proof {
            assert forall|x: Conflict| #[trigger]
                views(conflicts@).contains(x) == exists|j: int|
                    0 <= j < k + 1 && operation_conflict(h, ops@[(#[trigger] closure@[j]) as int], x) by {
                assert(views(conflicts@).contains(x) == (views(cs).contains(x) || operation_conflict(h, ops@[closure@[k as int] as int], x)));
                if views(cs).contains(x) {
                    let j = choose|j: int| 0 <= j < k && operation_conflict(h, ops@[(#[trigger] closure@[j]) as int], x);
                    assert(operation_conflict(h, ops@[closure@[j] as int], x));
                }
                if exists|j: int| 0 <= j < k + 1 && operation_conflict(h, ops@[(#[trigger] closure@[j]) as int], x) {
                    let j = choose|j: int| 0 <= j < k + 1 && operation_conflict(h, ops@[(#[trigger] closure@[j]) as int], x);
                    if j < k {
                        assert(operation_conflict(h, ops@[closure@[j] as int], x));
                    }
                }
            }
            assert forall|x: Block| #[trigger]
                views(blocks@).contains(x) == exists|j: int|
                    0 <= j < k + 1 && operation_block(h, ops@[(#[trigger] closure@[j]) as int], x) by {
                assert(views(blocks@).contains(x) == (views(bs).contains(x) || operation_block(h, ops@[closure@[k as int] as int], x)));
                if views(bs).contains(x) {
                    let j = choose|j: int| 0 <= j < k && operation_block(h, ops@[(#[trigger] closure@[j]) as int], x);
                    assert(operation_block(h, ops@[closure@[j] as int], x));
                }
                if exists|j: int| 0 <= j < k + 1 && operation_block(h, ops@[(#[trigger] closure@[j]) as int], x) {
                    let j = choose|j: int| 0 <= j < k + 1 && operation_block(h, ops@[(#[trigger] closure@[j]) as int], x);
                    if j < k {
                        assert(operation_block(h, ops@[closure@[j] as int], x));
                    }
                }
            }
        }
        k = k + 1;
    }
    proof {
        assert forall|x: Conflict| #[trigger]
            views(conflicts@).contains(x) == exists|i: int|
                #[trigger] in_closure(ops@, c, i) && operation_conflict(h, ops@[i], x) by {
            if views(conflicts@).contains(x) {
                let j = choose|j: int| 0 <= j < k && operation_conflict(h, ops@[(#[trigger] closure@[j]) as int], x);
                assert(in_closure(ops@, c, closure@[j] as int));
            }
            if exists|i: int| #[trigger] in_closure(ops@, c, i) && operation_conflict(h, ops@[i], x) {
                let i = choose|i: int| #[trigger] in_closure(ops@, c, i) && operation_conflict(h, ops@[i], x);
                let j = choose|j: int| 0 <= j < closure@.len() && (#[trigger] closure@[j]) as int == i;
                assert(operation_conflict(h, ops@[closure@[j] as int], x));
            }
        }
        assert forall|x: Block| #[trigger]
            views(blocks@).contains(x) == exists|i: int|
                #[trigger] in_closure(ops@, c, i) && operation_block(h, ops@[i], x) by {
            if views(blocks@).contains(x) {
                let j = choose|j: int| 0 <= j < k && operation_block(h, ops@[(#[trigger] closure@[j]) as int], x);
                assert(in_closure(ops@, c, closure@[j] as int));
            }
            if exists|i: int| #[trigger] in_closure(ops@, c, i) && operation_block(h, ops@[i], x) {
                let i = choose|i: int| #[trigger] in_closure(ops@, c, i) && operation_block(h, ops@[i], x);
                let j = choose|j: int| 0 <= j < closure@.len() && (#[trigger] closure@[j]) as int == i;
                assert(operation_block(h, ops@[closure@[j] as int], x));
            }
        }
    }
    (conflicts, blocks)
}

/// The ids of the operations of the closure.
fn closure_ids(ops: &Vec<OperationRecord>, Ghost(c): Ghost<Seq<RollbackTarget>>, closure: &Vec<usize>) -> (r: Vec<i64>)
    requires
        closure_is(ops@, c, closure@),
    ensures
        strictly_ascending::<i64>(views(r@)),
        forall|id: i64| #[trigger] views(r@).contains(id) == closure_has(ops@, c, id),
{
    let mut set: Vec<i64> = Vec::new();
    let mut k: usize = 0;
    while k < closure.len()
        invariant
            k <= closure@.len(),
            closure_is(ops@, c, closure@),
            strictly_ascending::<i64>(views(set@)),
            forall|id: i64| #[trigger]
                views(set@).contains(id) == exists|j: int|
                    0 <= j < k && ops@[(#[trigger] closure@[j]) as int].id == id,
        decreases closure@.len() - k,
    {
        let ghost before = set@;
        assert(in_closure(ops@, c, closure@[k as int] as int));
        let id = ops[closure[k]].id;
        order::insert(&mut set, id);
        proof {
            assert forall|x: i64| #[trigger]
                views(set@).contains(x) == exists|j: int|
                    0 <= j < k + 1 && ops@[(#[trigger] closure@[j]) as int].id == x by {
                assert(views(set@).contains(x) == (x == id || views(before).contains(x)));
                if views(before).contains(x) {
                    let j = choose|j: int| 0 <= j < k && ops@[(#[trigger] closure@[j]) as int].id == x;
                    assert(ops@[closure@[j] as int].id == x);
                }
                assert(ops@[closure@[k as int] as int].id == id);
                if exists|j: int| 0 <= j < k + 1 && ops@[(#[trigger] closure@[j]) as int].id == x {
                    let j = choose|j: int| 0 <= j < k + 1 && ops@[(#[trigger] closure@[j]) as int].id == x;
                    if j < k {
                        assert(ops@[closure@[j] as int].id == x);
                    }
                }
            }
        }
        k = k + 1;
    }
    proof {
        assert forall|id: i64| #[trigger] views(set@).contains(id) == closure_has(ops@, c, id) by {
            if views(set@).contains(id) {
                let j = choose|j: int| 0 <= j < k && ops@[(#[trigger] closure@[j]) as int].id == id;
                assert(in_closure(ops@, c, closure@[j] as int));
            }
            if closure_has(ops@, c, id) {
                let i = choose|i: int| #[trigger] in_closure(ops@, c, i) && ops@[i].id == id;
                let j = choose|j: int| 0 <= j < closure@.len() && (#[trigger] closure@[j]) as int == i;
                assert(ops@[closure@[j] as int].id == id);
            }
        }
    }
    set
}

fn holds_node(ids: &Vec<i64>, Ghost(ops): Ghost<Seq<OperationRecord>>, Ghost(c): Ghost<Seq<RollbackTarget>>, n: &NodeId) -> (r: bool)
    requires
        strictly_ascending::<i64>(views(ids@)),
        forall|id: i64| #[trigger] views(ids@).contains(id) == closure_has(ops, c, id),
    ensures
        r == closure_node(ops, c, n@),
{
    match n {
        NodeId::Operation { id } => {
            let r = order::holds(ids, id);
            assert(r == views(ids@).contains(*id));
            r
        },
        _ => false,
    }
}

fn texts_of(cycle: &Vec<NodeId>) -> (r: Vec<String>)
    ensures
        views(r@) == node_texts(views(cycle@)),
{
    let mut out: Vec<String> = Vec::new();
    let mut i: usize = 0;
    let ghost all = node_texts(views(cycle@));
    while i < cycle.len()
        invariant
            i <= cycle@.len(),
            all == node_texts(views(cycle@)),
            views(out@) == all.take(i as int),
        decreases cycle@.len() - i,
    {
        let ghost before = out@;
        out.push(cycle[i].as_text());
        proof {
            assert(all[i as int] == cycle@[i as int]@.as_text());
            assert(views(out@) =~= views(before).push(all[i as int]));
            assert(all.take(i + 1) =~= all.take(i as int).push(all[i as int]));
        }
        i = i + 1;
    }
    assert(all.take(i as int) =~= all);
    out
}

spec fn cycle_at(ops: Seq<OperationRecord>, c: Seq<RollbackTarget>, cycles: Seq<Seq<NodeKey>>, m: int) -> bool {
    0 <= m < cycles.len() && cycle_inside(ops, c, cycles[m])
}

fn cycle_findings(
    graph: &DependencyGraph,
    ids: &Vec<i64>,
    Ghost(ops): Ghost<Seq<OperationRecord>>,
    Ghost(c): Ghost<Seq<RollbackTarget>>,
) -> (r: (Vec<RollbackConflict>, Vec<BlockReason>))
    requires
        strictly_ascending::<i64>(views(ids@)),
        forall|id: i64| #[trigger] views(ids@).contains(id) == closure_has(ops, c, id),
    ensures
        forall|x: Conflict| #[trigger]
            views(r.0@).contains(x) == exists|m: int|
                #[trigger] cycle_at(ops, c, listed(graph.cycles@), m) && x == (Conflict::CycleDetected {
                    nodes: node_texts(listed(graph.cycles@)[m]),
                }),
        forall|x: Block| #[trigger]
            views(r.1@).contains(x) == exists|m: int|
                #[trigger] cycle_at(ops, c, listed(graph.cycles@), m) && x == (Block::CycleInClosure {
                    nodes: node_texts(listed(graph.cycles@)[m]),
                }),
{
    let mut conflicts: Vec<RollbackConflict> = Vec::new();
    let mut blocks: Vec<BlockReason> = Vec::new();
    let ghost all = listed(graph.cycles@);
    let mut i: usize = 0;
    while i < graph.cycles.len()
        invariant
            i <= graph.cycles@.len(),
            all == listed(graph.cycles@),
            strictly_ascending::<i64>(views(ids@)),
            forall|id: i64| #[trigger] views(ids@).contains(id) == closure_has(ops, c, id),
            forall|x: Conflict| #[trigger]
                views(conflicts@).contains(x) == exists|m: int|
                    m < i && #[trigger] cycle_at(ops, c, all, m) && x == (Conflict::CycleDetected { nodes: node_texts(all[m]) }),
            forall|x: Block| #[trigger]
                views(blocks@).contains(x) == exists|m: int|
                    m < i && #[trigger] cycle_at(ops, c, all, m) && x == (Block::CycleInClosure { nodes: node_texts(all[m]) }),
        decreases graph.cycles@.len() - i,
    {
        let ghost cs = conflicts@;
        let ghost bs = blocks@;
        let cycle = &graph.cycles[i];
        assert(all[i as int] == views(cycle@));
        let mut inside = true;
        let mut j: usize = 0;
        while j < cycle.len() && inside
            invariant
                j <= cycle@.len(),
                strictly_ascending::<i64>(views(ids@)),
                forall|id: i64| #[trigger] views(ids@).contains(id) == closure_has(ops, c, id),
                inside ==> forall|k: int| 0 <= k < j ==> closure_node(ops, c, #[trigger] views(cycle@)[k]),
                !inside ==> exists|k: int| 0 <= k < cycle@.len() && !closure_node(ops, c, #[trigger] views(cycle@)[k]),
            decreases cycle@.len() - j,
        {
            assert(views(cycle@)[j as int] == cycle@[j as int]@);
            if !holds_node(ids, Ghost(ops), Ghost(c), &cycle[j]) {
                inside = false;
            }
            j = j + 1;
        }
        assert(inside == cycle_inside(ops, c, all[i as int]));
        assert(inside == cycle_at(ops, c, all, i as int));
        if inside {
            let nodes = texts_of(cycle);
            note(&mut conflicts, RollbackConflict::CycleDetected { nodes: copy_texts(&nodes) });
            note(&mut blocks, BlockReason::CycleInClosure { nodes });
        }
        proof {
            assert forall|x: Conflict| #[trigger]
                views(conflicts@).contains(x) == exists|m: int|
                    m < i + 1 && #[trigger] cycle_at(ops, c, all, m) && x == (Conflict::CycleDetected { nodes: node_texts(all[m]) }) by {
                assert(views(conflicts@).contains(x) == (views(cs).contains(x) || (inside && x == (Conflict::CycleDetected { nodes: node_texts(all[i as int]) }))));
                if views(cs).contains(x) {
                    let m = choose|m: int| m < i && #[trigger] cycle_at(ops, c, all, m) && x == (Conflict::CycleDetected { nodes: node_texts(all[m]) });
                    assert(cycle_at(ops, c, all, m));
                }
                if exists|m: int| m < i + 1 && #[trigger] cycle_at(ops, c, all, m) && x == (Conflict::CycleDetected { nodes: node_texts(all[m]) }) {
                    let m = choose|m: int| m < i + 1 && #[trigger] cycle_at(ops, c, all, m) && x == (Conflict::CycleDetected { nodes: node_texts(all[m]) });
                    if m < i {
                        assert(cycle_at(ops, c, all, m));
                    }
                }
            }
            assert forall|x: Block| #[trigger]
                views(blocks@).contains(x) == exists|m: int|
                    m < i + 1 && #[trigger] cycle_at(ops, c, all, m) && x == (Block::CycleInClosure { nodes: node_texts(all[m]) }) by {
                assert(views(blocks@).contains(x) == (views(bs).contains(x) || (inside && x == (Block::CycleInClosure { nodes: node_texts(all[i as int]) }))));
                if views(bs).contains(x) {
                    let m = choose|m: int| m < i && #[trigger] cycle_at(ops, c, all, m) && x == (Block::CycleInClosure { nodes: node_texts(all[m]) });
                    assert(cycle_at(ops, c, all, m));
                }
                if exists|m: int| m < i + 1 && #[trigger] cycle_at(ops, c, all, m) && x == (Block::CycleInClosure { nodes: node_texts(all[m]) }) {
                    let m = choose|m: int| m < i + 1 && #[trigger] cycle_at(ops, c, all, m) && x == (Block::CycleInClosure { nodes: node_texts(all[m]) });
                    if m < i {
                        assert(cycle_at(ops, c, all, m));
                    }
                }
            }
        }
        i = i + 1;
    }
    (conflicts, blocks)
}

spec fn live_conflict(ops: Seq<OperationRecord>, c: Seq<RollbackTarget>, live: Option<Observation>, x: Conflict) -> bool {
    match x {
        Conflict::LiveStateMismatch { expected_state_id, found_state_id } => mismatch(ops, c, live, expected_state_id, found_state_id),
        Conflict::LiveStateUnavailable { detail } => unavailable(c, live, detail),
        _ => false,
    }
}

spec fn live_block(ops: Seq<OperationRecord>, c: Seq<RollbackTarget>, live: Option<Observation>, x: Block) -> bool {
    match x {
        Block::LiveStateMismatch { expected_state_id, found_state_id } => mismatch(ops, c, live, expected_state_id, found_state_id),
        Block::LiveStateUnavailable { detail } => unavailable(c, live, detail),
        _ => false,
    }
}

/// The first step of an undo is the newest operation that is undone.
proof fn first_undo(ops: Seq<OperationRecord>, c: Seq<RollbackTarget>)
    requires
        undoing(c),
        planned_order(ops, c).len() > 0,
    ensures
        undo_list(ops, c).len() > 0,
        0 <= undo_list(ops, c).last() < ops.len(),
        ops[undo_list(ops, c).last()].id == planned_order(ops, c)[0].operation_id,
{
    reveal(planned_order);
    let keep = |i: int| oldest(ops, c) <= i && can_undo(ops[i]);
    order::chosen_are(ops.len(), keep);
    let list = undo_list(ops, c);
    assert(list.len() == planned_order(ops, c).len());
    assert(list.contains(list.last()));
    assert(list.reverse()[0] == list.last());
    assert(planned_order(ops, c)[0] == undo_step(ops, c, list.last()));
}

proof fn expected_cases(ops: Seq<OperationRecord>, c: Seq<RollbackTarget>)
    requires
        c.len() > 0,
    ensures
        mixed(c) ==> expected_state(ops, c) is None,
        redoing(c) ==> expected_state(ops, c) == text::optional(
            ops[at_id(ops, c[0].operation_id)].pre_state_id,
        ),
        undoing(c) && planned_order(ops, c).len() == 0 ==> expected_state(ops, c) is None,
        undoing(c) && planned_order(ops, c).len() > 0 ==> exists|i: int|
            0 <= i < ops.len() && (#[trigger] ops[i]).id == planned_order(ops, c)[0].operation_id
                && expected_state(ops, c) == text::optional(ops[i].post_state_id),
{
    reveal(expected_state);
    if undoing(c) {
        if planned_order(ops, c).len() > 0 {
            first_undo(ops, c);
            assert(ops[undo_list(ops, c).last()].id == planned_order(ops, c)[0].operation_id);
        } else {
            reveal(planned_order);
            assert(undo_list(ops, c).len() == planned_order(ops, c).len());
        }
    }
}

/// The state the workspace must be in for the plan to begin.
fn expected_of(ops: &Vec<OperationRecord>, c: &Vec<RollbackTarget>, order: &Vec<PlannedStep>) -> (r: Option<String>)
    requires
        crate::depgraph::distinct_ids(ops@),
        c@.len() > 0,
        has_id(ops@, c@[0].operation_id),
        order@ == planned_order(ops@, c@),
    ensures
        text::optional(r) == expected_state(ops@, c@),
{
    proof {
        expected_cases(ops@, c@);
    }
    if c[0].direction != c[c.len() - 1].direction {
        return None;
    }
    if c[0].direction == TargetDirection::Redo {
        return match find_id(ops, c[0].operation_id) {
            Some(at) => text::copy_optional(&ops[at].pre_state_id),
            None => None,
        };
    }
    if order.len() == 0 {
        return None;
    }
    let ghost last = choose|i: int|
        0 <= i < ops@.len() && (#[trigger] ops@[i]).id == order@[0].operation_id && expected_state(ops@, c@)
            == text::optional(ops@[i].post_state_id);
    match find_id(ops, order[0].operation_id) {
        Some(at) => {
            proof {
                crate::depgraph::same_id(ops@, at as int, last);
            }
            text::copy_optional(&ops[at].post_state_id)
        },
        None => {
            assert(ops@[last].id == order@[0].operation_id);
            None
        },
    }
}

#[verifier::spinoff_prover]
fn live_findings(
    ops: &Vec<OperationRecord>,
    c: &Vec<RollbackTarget>,
    order: &Vec<PlannedStep>,
    live: &Option<Observation>,
) -> (r: (Vec<RollbackConflict>, Vec<BlockReason>))
    requires
        crate::depgraph::distinct_ids(ops@),
        c@.len() > 0,
        has_id(ops@, c@[0].operation_id),
        order@ == planned_order(ops@, c@),
    ensures
        forall|x: Conflict| #[trigger] views(r.0@).contains(x) == live_conflict(ops@, c@, *live, x),
        forall|x: Block| #[trigger] views(r.1@).contains(x) == live_block(ops@, c@, *live, x),
{
    let mut conflicts: Vec<RollbackConflict> = Vec::new();
    let mut blocks: Vec<BlockReason> = Vec::new();
    if c.len() != 1 {
        return (conflicts, blocks);
    }
    let expected = expected_of(ops, c, order);
    match live {
        Some(Observation::Seen(found)) => {
            if let Some(wanted) = &expected {
                if !text::same(wanted, found) {
                    note(
                        &mut conflicts,
                        RollbackConflict::LiveStateMismatch {
                            expected_state_id: wanted.clone(),
                            found_state_id: found.clone(),
                        },
                    );
                    note(
                        &mut blocks,
                        BlockReason::LiveStateMismatch {
                            expected_state_id: wanted.clone(),
                            found_state_id: found.clone(),
                        },
                    );
                }
            }
        },
        Some(Observation::Unavailable(detail)) => {
            note(&mut conflicts, RollbackConflict::LiveStateUnavailable { detail: detail.clone() });
            note(&mut blocks, BlockReason::LiveStateUnavailable { detail: detail.clone() });
        },
        None => {},
    }
    (conflicts, blocks)
}

/// The incomplete evidence about operations of the closure.
fn unknowns_of(
    graph: &DependencyGraph,
    ids: &Vec<i64>,
    Ghost(ops): Ghost<Seq<OperationRecord>>,
    Ghost(c): Ghost<Seq<RollbackTarget>>,
) -> (r: Vec<IncompleteEvidence>)
    requires
        strictly_ascending::<i64>(views(ids@)),
        forall|id: i64| #[trigger] views(ids@).contains(id) == closure_has(ops, c, id),
    ensures
        views(r@) == views(graph.incomplete@).filter(|g: Gap| closure_has(ops, c, g.operation_id)),
{
    let mut out: Vec<IncompleteEvidence> = Vec::new();
    let ghost keep = |g: Gap| closure_has(ops, c, g.operation_id);
    let ghost all = views(graph.incomplete@);
    let mut i: usize = 0;
    proof {
        reveal(Seq::filter);
        assert(all.take(0).filter(keep) =~= Seq::empty());
    }
    while i < graph.incomplete.len()
        invariant
            i <= graph.incomplete@.len(),
            all == views(graph.incomplete@),
            keep == (|g: Gap| closure_has(ops, c, g.operation_id)),
            strictly_ascending::<i64>(views(ids@)),
            forall|id: i64| #[trigger] views(ids@).contains(id) == closure_has(ops, c, id),
            views(out@) == all.take(i as int).filter(keep),
        decreases graph.incomplete@.len() - i,
    {
        let record = &graph.incomplete[i];
        let here = order::holds(ids, &record.operation_id);
        proof {
            reveal(Seq::filter);
            let next = all.take(i + 1);
            assert(next.drop_last() =~= all.take(i as int));
            assert(next.last() == record@);
            assert(here == keep(record@));
        }
        if here {
            let ghost before = out@;
            out.push(record.duplicate());
            assert(views(out@) =~= views(before).push(record@));
        }
        i = i + 1;
    }
    assert(all.take(i as int) =~= all);
    out
}

/// The first advisory edges that touch the closure.
fn context_of(
    graph: &DependencyGraph,
    ids: &Vec<i64>,
    Ghost(ops): Ghost<Seq<OperationRecord>>,
    Ghost(c): Ghost<Seq<RollbackTarget>>,
) -> (r: Vec<DependencyEdge>)
    requires
        strictly_ascending::<i64>(views(ids@)),
        forall|id: i64| #[trigger] views(ids@).contains(id) == closure_has(ops, c, id),
    ensures
        ({
            let context = graph.links().filter(
                |e: Link|
                    e.confidence == EdgeConfidence::Advisory && (closure_node(ops, c, e.from)
                        || closure_node(ops, c, e.to)),
            );
            views(r@) == context.take(
                if context.len() <= ADVISORY_CONTEXT_LIMIT {
                    context.len() as int
                } else {
                    ADVISORY_CONTEXT_LIMIT as int
                },
            )
        }),
{
    let mut out: Vec<DependencyEdge> = Vec::new();
    let ghost keep = |e: Link|
        e.confidence == EdgeConfidence::Advisory && (closure_node(ops, c, e.from) || closure_node(
            ops,
            c,
            e.to,
        ));
    let ghost all = graph.links();
    let mut i: usize = 0;
    proof {
        reveal(Seq::filter);
        assert(all.take(0).filter(keep) =~= Seq::empty());
    }
    while i < graph.edges.len()
        invariant
            i <= graph.edges@.len(),
            all == graph.links(),
            keep == (|e: Link|
                e.confidence == EdgeConfidence::Advisory && (closure_node(ops, c, e.from) || closure_node(
                    ops,
                    c,
                    e.to,
                ))),
            strictly_ascending::<i64>(views(ids@)),
            forall|id: i64| #[trigger] views(ids@).contains(id) == closure_has(ops, c, id),
            views(out@) == all.take(i as int).filter(keep),
        decreases graph.edges@.len() - i,
    {
        let edge = &graph.edges[i];
        let here = edge.confidence == EdgeConfidence::Advisory && (holds_node(
            ids,
            Ghost(ops),
            Ghost(c),
            &edge.from,
        ) || holds_node(ids, Ghost(ops), Ghost(c), &edge.to));
        proof {
            reveal(Seq::filter);
            let next = all.take(i + 1);
            assert(next.drop_last() =~= all.take(i as int));
            assert(next.last() == edge@);
            assert(here == keep(edge@));
        }
        if here {
            let ghost before = out@;
            out.push(edge.duplicate());
            assert(views(out@) =~= views(before).push(edge@));
        }
        i = i + 1;
    }
    assert(all.take(i as int) =~= all);
    let ghost context = all.filter(keep);
    if out.len() > ADVISORY_CONTEXT_LIMIT {
        let ghost before = out@;
        out.truncate(ADVISORY_CONTEXT_LIMIT);
        assert(views(out@) =~= views(before).take(ADVISORY_CONTEXT_LIMIT as int));
    } else {
        assert(context.take(context.len() as int) =~= context);
    }
    out
}

spec fn unknown_conflict(g: Gap) -> Conflict {
    Conflict::DependencyUnknown { operation_id: g.operation_id, evidence: g.evidence }
}

fn unknown_findings(unknowns: &Vec<IncompleteEvidence>) -> (r: Vec<RollbackConflict>)
    ensures
        forall|x: Conflict| #[trigger]
            views(r@).contains(x) == exists|k: int|
                0 <= k < unknowns@.len() && x == unknown_conflict((#[trigger] unknowns@[k])@),
{
    let mut out: Vec<RollbackConflict> = Vec::new();
    let mut i: usize = 0;
    while i < unknowns.len()
        invariant
            i <= unknowns@.len(),
            forall|x: Conflict| #[trigger]
                views(out@).contains(x) == exists|k: int|
                    0 <= k < i && x == unknown_conflict((#[trigger] unknowns@[k])@),
        decreases unknowns@.len() - i,
    {
        let ghost before = out@;
        note(
            &mut out,
            RollbackConflict::DependencyUnknown {
                operation_id: unknowns[i].operation_id,
                evidence: unknowns[i].evidence,
            },
        );
        proof {
            assert forall|x: Conflict| #[trigger]
                views(out@).contains(x) == exists|k: int|
                    0 <= k < i + 1 && x == unknown_conflict((#[trigger] unknowns@[k])@) by {
                assert(views(out@).contains(x) == (views(before).contains(x) || x == unknown_conflict(unknowns@[i as int]@)));
                if views(before).contains(x) {
                    let k = choose|k: int| 0 <= k < i && x == unknown_conflict((#[trigger] unknowns@[k])@);
                    assert(x == unknown_conflict(unknowns@[k]@));
                }
                if exists|k: int| 0 <= k < i + 1 && x == unknown_conflict((#[trigger] unknowns@[k])@) {
                    let k = choose|k: int| 0 <= k < i + 1 && x == unknown_conflict((#[trigger] unknowns@[k])@);
                    if k < i {
                        assert(x == unknown_conflict(unknowns@[k]@));
                    }
                }
            }
        }
        i = i + 1;
    }
    out
}

proof fn tidied<T: Ranked>(s: Seq<T>)
    requires
        order::ascending(s),
    ensures
        ({
            let d = deduplicated(views(s));
            &&& forall|i: int, j: int| 0 <= i < j < d.len() ==> !T::before(#[trigger] d[j], #[trigger] d[i])
            &&& forall|i: int, j: int| 0 <= i && j == i + 1 && j < d.len() ==> #[trigger] d[i] != #[trigger] d[j]
        }),
    decreases s.len(),
{
    if s.len() >= 2 {
        let head = s.drop_last();
        let n = s.len() as int;
        assert(order::ascending(head)) by {
            assert forall|i: int, j: int| 0 <= i < j < head.len() implies !T::before(
                (#[trigger] head[j])@,
                (#[trigger] head[i])@,
            ) by {
                assert(head[i] == s[i] && head[j] == s[j]);
            }
        }
        tidied(head);
        assert(views(head) =~= views(s).drop_last());
        let d = deduplicated(views(head));
        order::deduplicated_keeps(views(head));
        let r = deduplicated(views(s));
        if views(s)[n - 1] != views(s)[n - 2] {
            assert(r == d.push(s[n - 1]@));
            assert forall|i: int, j: int| 0 <= i < j < r.len() implies !T::before(#[trigger] r[j], #[trigger] r[i]) by {
                if j == d.len() {
                    assert(d.contains(d[i]));
                    assert(views(head).contains(d[i]));
                    let k = choose|k: int| 0 <= k < views(head).len() && views(head)[k] == d[i];
                    assert(s[k]@ == d[i]);
                    assert(!T::before(s[n - 1]@, s[k]@));
                }
            }
            assert forall|i: int, j: int| 0 <= i && j == i + 1 && j < r.len() implies #[trigger] r[i] != #[trigger] r[j] by {
                if j == d.len() {
                    assert(r[i] == d.last());
                    assert(d.last() == s[n - 2]@);
                }
            }
        }
    } else {
        let d = deduplicated(views(s));
        assert(d == views(s));
    }
}

/// Orders what was found by rendering, drops repetitions and cuts the list at
/// the limit.
fn arrange<T: Ranked + Alike>(raw: Vec<T>, Ghost(found): Ghost<spec_fn(T::V) -> bool>) -> (r: Vec<T>)
    requires
        forall|x: T::V| #[trigger] views(raw@).contains(x) == found(x),
    ensures
        presents::<T>(views(r@), found),
        (r@.len() == 0) == (forall|x: T::V| !#[trigger] found(x)),
{
    let ghost start = raw@;
    let sorted_list = order::sort(raw);
    let ghost s = sorted_list@;
    let mut list = order::deduplicate(sorted_list);
    let ghost all = views(list@);
    proof {
        order::sorted_keeps(start);
        order::deduplicated_keeps(views(s));
        tidied(s);
        assert forall|x: T::V| #[trigger] all.contains(x) == found(x) by {
            assert(all.contains(x) == views(s).contains(x));
            if views(s).contains(x) {
                let i = choose|i: int| 0 <= i < views(s).len() && views(s)[i] == x;
                assert(s.contains(s[i]));
                assert(start.contains(s[i]));
                let k = choose|k: int| 0 <= k < start.len() && start[k] == s[i];
                assert(views(start)[k] == x);
                assert(views(start).contains(x));
            }
            if found(x) {
                assert(views(start).contains(x));
                let i = choose|i: int| 0 <= i < views(start).len() && views(start)[i] == x;
                assert(start.contains(start[i]));
                assert(s.contains(start[i]));
                let k = choose|k: int| 0 <= k < s.len() && s[k] == start[i];
                assert(views(s)[k] == x);
            }
        }
        assert(arranged::<T>(all, found));
    }
    if list.len() > FINDING_LIMIT {
        let ghost before = list@;
        list.truncate(FINDING_LIMIT);
        assert(views(list@) =~= all.take(FINDING_LIMIT as int));
    } else {
        assert(all.take(all.len() as int) =~= all);
    }
    proof {
        if list@.len() == 0 {
            assert(all.len() == 0);
            assert forall|x: T::V| !#[trigger] found(x) by {
                assert(!all.contains(x));
            }
        } else {
            assert(all.contains(all[0]));
            assert(found(all[0]));
        }
    }
    list
}

fn extend_findings<T: View>(out: &mut Vec<T>, more: Vec<T>)
    ensures
        forall|v: T::V| #[trigger]
            views(final(out)@).contains(v) == (views(old(out)@).contains(v) || views(more@).contains(v)),
{
    let mut more = more;
    let ghost a = out@;
    let ghost b = more@;
    out.append(&mut more);
    proof {
        crate::depgraph::concat_contains(a, b);
        assert(out@ =~= a + b);
    }
}

/// Whether the live state has to be read before a plan for these targets is
/// made: it is when there is one target.
pub fn needs_observation(targets: &Vec<RollbackTarget>) -> (r: bool)
    ensures
        r == (canonical(targets@).len() == 1),
{
    canonical_targets(targets).len() == 1
}

/// Everything that counts against the plan, in the order in which it is found.
#[verifier::spinoff_prover]
#[verifier::rlimit(30)]
fn gather(
    Ghost(input): Ghost<PlanInput>,
    ops: &Vec<OperationRecord>,
    known: &Vec<String>,
    c: &Vec<RollbackTarget>,
    closure: &Vec<usize>,
    ids: &Vec<i64>,
    order_list: &Vec<PlannedStep>,
    graph: &DependencyGraph,
    unknowns: &Vec<IncompleteEvidence>,
    condition: WorkspaceCondition,
    pending_bypass: bool,
    unfinished: Option<u128>,
    intervals: &Vec<UnknownIntervalRow>,
    live: &Option<Observation>,
) -> (r: (Vec<RollbackConflict>, Vec<BlockReason>))
    requires
        ops@ == input.history.ordered(),
        crate::depgraph::distinct_ids(ops@),
        strictly_ascending::<String>(views(known@)),
        forall|s: Seq<char>| #[trigger] views(known@).contains(s) == input.history.knows(s),
        c@.len() > 0,
        forall|k: int| 0 <= k < c@.len() ==> has_id(ops@, (#[trigger] c@[k]).operation_id),
        closure_is(ops@, c@, closure@),
        strictly_ascending::<i64>(views(ids@)),
        forall|id: i64| #[trigger] views(ids@).contains(id) == closure_has(ops@, c@, id),
        order_list@ == planned_order(ops@, c@),
        views(unknowns@) == views(graph.incomplete@).filter(
            |g: Gap| closure_has(ops@, c@, g.operation_id),
        ),
        condition == input.condition,
        pending_bypass == input.pending_bypass,
        unfinished == input.unfinished,
        intervals@ == input.intervals@,
    ensures
        forall|x: Conflict| #[trigger]
            views(r.0@).contains(x) == is_conflict(input, c@, *live, *graph, x),
        forall|x: Block| #[trigger] views(r.1@).contains(x) == is_block(input, c@, *live, *graph, x),
{
    assert(has_id(ops@, c@[0].operation_id));
    let mut conflicts = eligibility(ops, c);
    extend_findings(&mut conflicts, conflicting(c));
    let mut blocks = not_reversible(ops, c, closure);
    if let Some(transaction) = unfinished {
        note(
            &mut blocks,
            BlockReason::RecoveryRequired { transaction_id: outside::identifier(transaction) },
        );
    }
    if condition != WorkspaceCondition::Healthy || pending_bypass {
        note(
            &mut blocks,
            BlockReason::WorkspaceNotHealthy {
                condition: text::copy(condition.as_str()),
                pending_bypass,
            },
        );
    }
    let (interval_conflicts, interval_blocks) = interval_findings(ops, c, closure, intervals);
    extend_findings(&mut conflicts, interval_conflicts);
    extend_findings(&mut blocks, interval_blocks);
    let (state_conflicts, state_blocks) = closure_findings(
        Ghost(input.history),
        known,
        ops,
        Ghost(c@),
        closure,
    );
    extend_findings(&mut conflicts, state_conflicts);
    extend_findings(&mut blocks, state_blocks);
    let (cycle_conflicts, cycle_blocks) = cycle_findings(graph, ids, Ghost(ops@), Ghost(c@));
    extend_findings(&mut conflicts, cycle_conflicts);
    extend_findings(&mut blocks, cycle_blocks);
    let (live_conflicts, live_blocks) = live_findings(ops, c, order_list, live);
    extend_findings(&mut conflicts, live_conflicts);
    extend_findings(&mut blocks, live_blocks);
    extend_findings(&mut conflicts, unknown_findings(unknowns));
    proof {
        assert forall|x: Conflict| #[trigger]
            views(conflicts@).contains(x) == is_conflict(input, c@, *live, *graph, x) by {
            conflict_cases(input, ops@, c@, *live, *graph, unknowns@, x);
        }
        assert forall|x: Block| #[trigger]
            views(blocks@).contains(x) == is_block(input, c@, *live, *graph, x) by {
            block_cases(input, ops@, c@, *live, *graph, x);
        }
    }
    (conflicts, blocks)
}

proof fn targets_named(ops: Seq<OperationRecord>, targets: Seq<RollbackTarget>, c: Seq<RollbackTarget>)
    requires
        targets.len() > 0,
        forall|t: RollbackTarget| #[trigger] c.contains(t) == targets.contains(t),
        forall|k: int| 0 <= k < c.len() ==> has_id(ops, (#[trigger] c[k]).operation_id),
    ensures
        c.len() > 0,
        forall|k: int| 0 <= k < targets.len() ==> has_id(ops, (#[trigger] targets[k]).operation_id),
{
    assert(targets.contains(targets[0]));
    assert(c.contains(targets[0]));
    assert forall|k: int| 0 <= k < targets.len() implies has_id(ops, (#[trigger] targets[k]).operation_id) by {
        assert(targets.contains(targets[k]));
        assert(c.contains(targets[k]));
        let q = choose|q: int| 0 <= q < c.len() && c[q] == targets[k];
        assert(has_id(ops, c[q].operation_id));
    }
}

/// Makes a plan for `targets`. Nothing is changed.
///
/// `live` is what reading the live state gave, where [`needs_observation`] asks
/// for it.
#[verifier::spinoff_prover]
pub fn plan_rollback(
    input: PlanInput,
    targets: &Vec<RollbackTarget>,
    live: Option<Observation>,
) -> (r: Result<RollbackPlan>)
    requires
        input.history.valid(),
        canonical(targets@).len() == 1 ==> live is Some,
    ensures
        match r {
            Ok(plan) => {
                &&& targets@.len() > 0
                &&& forall|k: int|
                    0 <= k < targets@.len() ==> has_id(
                        input.history.ordered(),
                        (#[trigger] targets@[k]).operation_id,
                    )
                &&& exists|graph: DependencyGraph|
                    graph.built_from(input.history) && #[trigger] plan.planned_from(
                        input,
                        targets@,
                        live,
                        graph,
                    )
            },
            Err(e) => {
                ||| targets@.len() == 0 && e@ == Fault::InvalidCommand(
                    "at least one rollback target is required"@,
                )
                ||| targets@.len() > 0 && exists|k: int|
                    0 <= k < canonical(targets@).len() && !has_id(
                        input.history.ordered(),
                        (#[trigger] canonical(targets@)[k]).operation_id,
                    ) && e@ == db::operation_fault(canonical(targets@)[k].operation_id) && forall|j: int|
                        0 <= j < k ==> has_id(
                            input.history.ordered(),
                            (#[trigger] canonical(targets@)[j]).operation_id,
                        )
            },
        },
{
    if targets.len() == 0 {
        return Err(RewindError::InvalidCommand(text::copy("at least one rollback target is required")));
    }
    let ghost given = input;
    let PlanInput { history, condition, pending_bypass, unfinished, intervals } = input;
    let ghost h = history;
    let History { workspace_id, operations, known_states, boundaries } = history;
    let ops = order::sort(operations);
    proof {
        crate::depgraph::sorted_distinct(h.operations@);
    }
    let c = canonical_targets(targets);
    match check_targets(&ops, &c) {
        Ok(_) => {},
        Err(e) => {
            return Err(e);
        },
    }
    proof {
        targets_named(ops@, targets@, c@);
        assert(has_id(ops@, c@[0].operation_id));
    }
    let known = crate::depgraph::text_set(&known_states);
    let graph = DependencyGraph::build_sorted(workspace_id, &ops, known_states, boundaries, Ghost(h));
    let closure = closure_of(&ops, &c);
    let ids = closure_ids(&ops, Ghost(c@), &closure);
    let order_list = order_of(&ops, &c);
    let unknowns = unknowns_of(&graph, &ids, Ghost(ops@), Ghost(c@));
    let (conflicts, blocks) = gather(
        Ghost(given),
        &ops,
        &known,
        &c,
        &closure,
        &ids,
        &order_list,
        &graph,
        &unknowns,
        condition,
        pending_bypass,
        unfinished,
        &intervals,
        &live,
    );
    let advisory_context = context_of(&graph, &ids, Ghost(ops@), Ghost(c@));
    let live_state_checked = c.len() == 1 && match &live {
        Some(Observation::Seen(_)) => true,
        _ => false,
    };
    let conflicts = arrange(conflicts, Ghost(|x: Conflict| is_conflict(given, c@, live, graph, x)));
    let block_reasons = arrange(blocks, Ghost(|x: Block| is_block(given, c@, live, graph, x)));
    let decision = if conflicts.len() == 0 && block_reasons.len() == 0 {
        PlanDecision::Executable
    } else {
        PlanDecision::Refused
    };
    let complete = unknowns.len() == 0;
    let plan = RollbackPlan {
        workspace_id: outside::identifier(workspace_id),
        targets: c,
        decision,
        order: order_list,
        conflicts,
        block_reasons,
        unknowns,
        advisory_context,
        live_state_checked,
        complete,
    };
    assert(plan.planned_from(given, targets@, live, graph));
    Ok(plan)
}

/// A conflict is one of those that the parts of planning find.
proof fn conflict_cases(
    input: PlanInput,
    ops: Seq<OperationRecord>,
    c: Seq<RollbackTarget>,
    live: Option<Observation>,
    graph: DependencyGraph,
    unknowns: Seq<IncompleteEvidence>,
    x: Conflict,
)
    requires
        ops == input.history.ordered(),
        views(unknowns) == views(graph.incomplete@).filter(|g: Gap| closure_has(ops, c, g.operation_id)),
    ensures
        is_conflict(input, c, live, graph, x) == {
            ||| is_not_eligible(ops, c, x)
            ||| is_conflicting(c, x)
            ||| exists|k: int|
                0 <= k < input.intervals@.len() && (#[trigger] input.intervals@[k]).is_open && x
                    == interval_conflict(input.intervals@[k])
            ||| exists|i: int| #[trigger] in_closure(ops, c, i) && operation_conflict(input.history, ops[i], x)
            ||| exists|m: int|
                #[trigger] cycle_at(ops, c, listed(graph.cycles@), m) && x == (Conflict::CycleDetected {
                    nodes: node_texts(listed(graph.cycles@)[m]),
                })
            ||| live_conflict(ops, c, live, x)
            ||| exists|k: int| 0 <= k < unknowns.len() && x == unknown_conflict((#[trigger] unknowns[k])@)
        },
{
    reveal(is_conflict);
    let h = input.history;
    let keep = |g: Gap| closure_has(ops, c, g.operation_id);
    match x {
        Conflict::MissingHistoricalState { operation_id, state_id } => {
            if is_conflict(input, c, live, graph, x) {
                let i = choose|i: int| #[trigger] missing_in(h, ops, c, i, state_id) && ops[i].id == operation_id;
                assert(in_closure(ops, c, i));
                assert(x == missing_conflict(ops[i], state_id));
                assert(operation_conflict(h, ops[i], x));
            }
            if exists|i: int| #[trigger] in_closure(ops, c, i) && operation_conflict(h, ops[i], x) {
                let i = choose|i: int| #[trigger] in_closure(ops, c, i) && operation_conflict(h, ops[i], x);
                assert(missing_in(h, ops, c, i, state_id));
            }
        },
        Conflict::UnsupportedObject { operation_id, path, descriptor } => {
            if is_conflict(input, c, live, graph, x) {
                let (i, k) = choose|i: int, k: int|
                    #[trigger] unsupported_at(ops, c, i, k) && ops[i].id == operation_id
                        && ops[i].effects@[k].path@ == path && descriptor == ops[i].effects@[k].pre@.describe()
                        + " -> "@ + ops[i].effects@[k].post@.describe();
                assert(in_closure(ops, c, i));
                assert(bad_effect(ops[i].effects@[k]));
                assert(x == unsupported_conflict(ops[i], ops[i].effects@[k]));
                assert(operation_conflict(h, ops[i], x));
            }
            if exists|i: int| #[trigger] in_closure(ops, c, i) && operation_conflict(h, ops[i], x) {
                let i = choose|i: int| #[trigger] in_closure(ops, c, i) && operation_conflict(h, ops[i], x);
                let k = choose|k: int|
                    0 <= k < ops[i].effects@.len() && bad_effect(#[trigger] ops[i].effects@[k]) && x
                        == unsupported_conflict(ops[i], ops[i].effects@[k]);
                assert(unsupported_at(ops, c, i, k));
            }
        },
        Conflict::CycleDetected { nodes } => {
            if is_conflict(input, c, live, graph, x) {
                let m = choose|m: int|
                    0 <= m < listed(graph.cycles@).len() && cycle_inside(ops, c, #[trigger] listed(graph.cycles@)[m])
                        && nodes == node_texts(listed(graph.cycles@)[m]);
                assert(cycle_at(ops, c, listed(graph.cycles@), m));
            }
        },
        Conflict::DependencyUnknown { operation_id, evidence } => {
            let all = views(graph.incomplete@);
            let u = views(unknowns);
            if is_conflict(input, c, live, graph, x) {
                let g = choose|g: Gap| #[trigger]
                    all.contains(g) && g.operation_id == operation_id && g.evidence == evidence;
                assert(keep(g));
                let i = choose|i: int| 0 <= i < all.len() && all[i] == g;
                all.lemma_filter_contains(keep, i);
                assert(u.contains(g));
                let k = choose|k: int| 0 <= k < u.len() && u[k] == g;
                assert(x == unknown_conflict(unknowns[k]@));
            }
            if exists|k: int| 0 <= k < unknowns.len() && x == unknown_conflict((#[trigger] unknowns[k])@) {
                let k = choose|k: int| 0 <= k < unknowns.len() && x == unknown_conflict((#[trigger] unknowns[k])@);
                assert(u[k] == unknowns[k]@);
                all.lemma_filter_pred(keep, k);
                all.lemma_filter_contains_rev(keep, u[k]);
                assert(all.contains(u[k]));
            }
        },
        _ => {},
    }
}

/// A block reason is one of those that the parts of planning find.
proof fn block_cases(
    input: PlanInput,
    ops: Seq<OperationRecord>,
    c: Seq<RollbackTarget>,
    live: Option<Observation>,
    graph: DependencyGraph,
    x: Block,
)
    requires
        ops == input.history.ordered(),
    ensures
        is_block(input, c, live, graph, x) == {
            ||| undoing(c) && exists|i: int|
                #[trigger] in_closure(ops, c, i) && !can_undo(ops[i]) && x == irreversible(ops[i])
            ||| input.unfinished is Some && x == (Block::RecoveryRequired {
                transaction_id: outside::uuid_text(input.unfinished->0),
            })
            ||| (input.condition != WorkspaceCondition::Healthy || input.pending_bypass) && x
                == (Block::WorkspaceNotHealthy {
                condition: input.condition.text(),
                pending_bypass: input.pending_bypass,
            })
            ||| exists|k: int|
                0 <= k < input.intervals@.len() && (#[trigger] input.intervals@[k]).is_open && x
                    == interval_block(ops, c, input.intervals@[k])
            ||| exists|i: int| #[trigger] in_closure(ops, c, i) && operation_block(input.history, ops[i], x)
            ||| exists|m: int|
                #[trigger] cycle_at(ops, c, listed(graph.cycles@), m) && x == (Block::CycleInClosure {
                    nodes: node_texts(listed(graph.cycles@)[m]),
                })
            ||| live_block(ops, c, live, x)
        },
{
    reveal(is_block);
    let h = input.history;
    match x {
        Block::MissingHistoricalState { operation_id, state_id } => {
            if is_block(input, c, live, graph, x) {
                let i = choose|i: int| #[trigger] missing_in(h, ops, c, i, state_id) && ops[i].id == operation_id;
                assert(in_closure(ops, c, i));
                assert(x == missing_block(ops[i], state_id));
                assert(operation_block(h, ops[i], x));
            }
            if exists|i: int| #[trigger] in_closure(ops, c, i) && operation_block(h, ops[i], x) {
                let i = choose|i: int| #[trigger] in_closure(ops, c, i) && operation_block(h, ops[i], x);
                assert(missing_in(h, ops, c, i, state_id));
            }
        },
        Block::UnsupportedObject { operation_id, path } => {
            if is_block(input, c, live, graph, x) {
                let (i, k) = choose|i: int, k: int|
                    #[trigger] unsupported_at(ops, c, i, k) && ops[i].id == operation_id
                        && ops[i].effects@[k].path@ == path;
                assert(in_closure(ops, c, i));
                assert(bad_effect(ops[i].effects@[k]));
                assert(x == unsupported_block(ops[i], ops[i].effects@[k]));
                assert(operation_block(h, ops[i], x));
            }
            if exists|i: int| #[trigger] in_closure(ops, c, i) && operation_block(h, ops[i], x) {
                let i = choose|i: int| #[trigger] in_closure(ops, c, i) && operation_block(h, ops[i], x);
                let k = choose|k: int|
                    0 <= k < ops[i].effects@.len() && bad_effect(#[trigger] ops[i].effects@[k]) && x
                        == unsupported_block(ops[i], ops[i].effects@[k]);
                assert(unsupported_at(ops, c, i, k));
            }
        },
        Block::CycleInClosure { nodes } => {
            if is_block(input, c, live, graph, x) {
                let m = choose|m: int|
                    0 <= m < listed(graph.cycles@).len() && cycle_inside(ops, c, #[trigger] listed(graph.cycles@)[m])
                        && nodes == node_texts(listed(graph.cycles@)[m]);
                assert(cycle_at(ops, c, listed(graph.cycles@), m));
            }
        },
        _ => {},
    }
}

// ---------------------------------------------------------------------------
// Executing a plan
// ---------------------------------------------------------------------------

fn same_steps(a: &Vec<PlannedStep>, b: &Vec<PlannedStep>) -> (r: bool)
    ensures
        r == (a@ == b@),
{
    if a.len() != b.len() {
        return false;
    }
    let mut i: usize = 0;
    while i < a.len()
        invariant
            i <= a@.len() == b@.len(),
            forall|k: int| 0 <= k < i ==> a@[k] == b@[k],
        decreases a@.len() - i,
    {
        if a[i] != b[i] {
            return false;
        }
        i = i + 1;
    }
    assert(a@ =~= b@);
    true
}

/// Whether a plan may be carried out at all.
pub fn approve(plan: &RollbackPlan) -> (r: Result<()>)
    ensures
        match r {
            Ok(_) => plan.decision == PlanDecision::Executable,
            Err(e) => plan.decision != PlanDecision::Executable && e@ == Fault::ConditionBlocked(
                "the plan is refused; nothing was executed"@,
            ),
        },
{
    if !plan.is_executable() {
        return Err(
            RewindError::ConditionBlocked(text::copy("the plan is refused; nothing was executed")),
        );
    }
    Ok(())
}

/// A plan is a proposal, never a capability: it is made again from the same
/// targets just before it is carried out, and refused if the result differs.
/// What may be carried out are the steps of the new plan.
pub fn confirm<'a>(plan: &RollbackPlan, current: &'a RollbackPlan) -> (r: Result<&'a Vec<PlannedStep>>)
    ensures
        match r {
            Ok(steps) => current.decision == PlanDecision::Executable && current.order@ == plan.order@
                && steps@ == current.order@,
            Err(e) => (current.decision != PlanDecision::Executable || current.order@ != plan.order@)
                && e@ == Fault::ConditionBlocked(
                "the plan is stale: the workspace or history changed since it was built; re-plan before executing"@,
            ),
        },
{
    if !current.is_executable() || !same_steps(&current.order, &plan.order) {
        return Err(
            RewindError::ConditionBlocked(
                text::copy(
                    "the plan is stale: the workspace or history changed since it was built; re-plan before executing",
                ),
            ),
        );
    }
    Ok(&current.order)
}

// ---------------------------------------------------------------------------
// Laws
// ---------------------------------------------------------------------------

proof fn nothing_presented<T: Ranked>(list: Seq<T::V>, found: spec_fn(T::V) -> bool)
    requires
        presents::<T>(list, found),
    ensures
        (list.len() == 0) == (forall|x: T::V| !#[trigger] found(x)),
{
    let all = choose|all: Seq<T::V>| #[trigger]
        arranged::<T>(all, found) && list == all.take(
            if all.len() <= FINDING_LIMIT { all.len() as int } else { FINDING_LIMIT as int },
        );
    if list.len() == 0 {
        assert(all.len() == 0);
        assert forall|x: T::V| !#[trigger] found(x) by {
            assert(!all.contains(x));
        }
    } else {
        assert(all.contains(all[0]));
        assert(found(all[0]));
    }
}

/// A plan is executable exactly when nothing counts against it.
pub proof fn executable_iff_unopposed(
    plan: RollbackPlan,
    input: PlanInput,
    targets: Seq<RollbackTarget>,
    live: Option<Observation>,
    graph: DependencyGraph,
)
    requires
        plan.planned_from(input, targets, live, graph),
    ensures
        (plan.decision == PlanDecision::Executable) == {
            &&& forall|x: Conflict| !#[trigger] is_conflict(input, canonical(targets), live, graph, x)
            &&& forall|x: Block| !#[trigger] is_block(input, canonical(targets), live, graph, x)
        },
{
    let c = canonical(targets);
    let fc = |x: Conflict| is_conflict(input, c, live, graph, x);
    let fb = |x: Block| is_block(input, c, live, graph, x);
    nothing_presented::<RollbackConflict>(views(plan.conflicts@), fc);
    nothing_presented::<BlockReason>(views(plan.block_reasons@), fb);
    if plan.decision == PlanDecision::Executable {
        assert forall|x: Conflict| !#[trigger] is_conflict(input, c, live, graph, x) by {
            assert(!fc(x));
        }
        assert forall|x: Block| !#[trigger] is_block(input, c, live, graph, x) by {
            assert(!fb(x));
        }
    }
    if (forall|x: Conflict| !#[trigger] is_conflict(input, c, live, graph, x)) && (forall|x: Block|
        !#[trigger] is_block(input, c, live, graph, x)) {
        assert forall|x: Conflict| !#[trigger] fc(x) by {
            assert(!is_conflict(input, c, live, graph, x));
        }
        assert forall|x: Block| !#[trigger] fb(x) by {
            assert(!is_block(input, c, live, graph, x));
        }
    }
}

/// Nothing is rolled back while the workspace is not healthy, a bypass is
/// pending, a transaction is unfinished, a span of time is unknown, or the two
/// directions are asked for at once.
pub proof fn gates_refuse(
    plan: RollbackPlan,
    input: PlanInput,
    targets: Seq<RollbackTarget>,
    live: Option<Observation>,
    graph: DependencyGraph,
)
    requires
        plan.planned_from(input, targets, live, graph),
        input.condition != WorkspaceCondition::Healthy || input.pending_bypass || input.unfinished is Some
            || (exists|k: int| 0 <= k < input.intervals@.len() && (#[trigger] input.intervals@[k]).is_open)
            || mixed(canonical(targets)),
    ensures
        plan.decision == PlanDecision::Refused,
{
    let c = canonical(targets);
    let ops = input.history.ordered();
    executable_iff_unopposed(plan, input, targets, live, graph);
    reveal(is_conflict);
    reveal(is_block);
    if input.condition != WorkspaceCondition::Healthy || input.pending_bypass {
        let x = Block::WorkspaceNotHealthy {
            condition: input.condition.text(),
            pending_bypass: input.pending_bypass,
        };
        assert(is_block(input, c, live, graph, x));
    } else if input.unfinished is Some {
        let x = Block::RecoveryRequired { transaction_id: outside::uuid_text(input.unfinished->0) };
        assert(is_block(input, c, live, graph, x));
    } else if mixed(c) {
        let x = Conflict::ConflictingTargets {
            operation_ids: target_ids(c),
            detail: "Phase 2 executes one direction per plan; undo and redo targets cannot be combined"@,
        };
        assert(is_conflict(input, c, live, graph, x));
    } else {
        let k = choose|k: int| 0 <= k < input.intervals@.len() && (#[trigger] input.intervals@[k]).is_open;
        let row = input.intervals@[k];
        let x = Conflict::UnknownInterval { interval_id: row.id, reason: row.reason@ };
        assert(is_conflict(input, c, live, graph, x));
    }
}

/// Evidence that could not be evaluated for an operation of the closure refuses
/// the plan: an executable plan is complete.
pub proof fn executable_is_complete(
    plan: RollbackPlan,
    input: PlanInput,
    targets: Seq<RollbackTarget>,
    live: Option<Observation>,
    graph: DependencyGraph,
)
    requires
        plan.planned_from(input, targets, live, graph),
        plan.decision == PlanDecision::Executable,
    ensures
        plan.complete,
{
    let c = canonical(targets);
    let ops = input.history.ordered();
    executable_iff_unopposed(plan, input, targets, live, graph);
    if plan.unknowns@.len() > 0 {
        let keep = |g: Gap| closure_has(ops, c, g.operation_id);
        let all = views(graph.incomplete@);
        let u = views(plan.unknowns@);
        assert(u == all.filter(keep));
        let g = u[0];
        assert(u.contains(g));
        all.lemma_filter_pred(keep, 0);
        all.lemma_filter_contains_rev(keep, g);
        reveal(is_conflict);
        let x = Conflict::DependencyUnknown { operation_id: g.operation_id, evidence: g.evidence };
        assert(all.contains(g));
        assert(is_conflict(input, c, live, graph, x));
    }
}

/// An undo runs from the newest operation back, and every step of it undoes an
/// operation that is in effect and fully reversible.
pub proof fn undo_runs_backwards(ops: Seq<OperationRecord>, c: Seq<RollbackTarget>, i: int, j: int)
    requires
        undoing(c),
        0 <= i < j < planned_order(ops, c).len(),
    ensures
        exists|a: int, b: int|
            0 <= b < a < ops.len() && can_undo(#[trigger] ops[a]) && can_undo(#[trigger] ops[b])
                && planned_order(ops, c)[i].operation_id == ops[a].id && planned_order(ops, c)[j].operation_id
                == ops[b].id,
{
    reveal(planned_order);
    let keep = |i: int| oldest(ops, c) <= i && can_undo(ops[i]);
    order::chosen_are(ops.len(), keep);
    let list = undo_list(ops, c);
    let n = list.len() as int;
    let a = list[n - 1 - i];
    let b = list[n - 1 - j];
    assert(list.contains(a) && list.contains(b));
    assert(list.reverse()[i] == a && list.reverse()[j] == b);
    assert(list[n - 1 - j] < list[n - 1 - i]);
    assert(can_undo(ops[a]) && can_undo(ops[b]));
}

/// Every target of an executable plan is eligible: an undo target is in effect,
/// a redo target is undone, and both are fully reversible.
pub proof fn executable_targets_eligible(
    plan: RollbackPlan,
    input: PlanInput,
    targets: Seq<RollbackTarget>,
    live: Option<Observation>,
    graph: DependencyGraph,
    k: int,
)
    requires
        plan.planned_from(input, targets, live, graph),
        plan.decision == PlanDecision::Executable,
        0 <= k < canonical(targets).len(),
    ensures
        eligible(
            input.history.ordered()[at_id(
                input.history.ordered(),
                canonical(targets)[k].operation_id,
            )],
            canonical(targets)[k].direction,
        ),
{
    let c = canonical(targets);
    let ops = input.history.ordered();
    executable_iff_unopposed(plan, input, targets, live, graph);
    if !eligible(ops[at_id(ops, c[k].operation_id)], c[k].direction) {
        let x = not_eligible(ops, c[k]);
        assert(is_not_eligible(ops, c, x));
        reveal(is_conflict);
        assert(is_conflict(input, c, live, graph, x));
    }
}

/// A selected operation that can be undone is undone by the plan, as selected.
pub proof fn selected_is_undone(ops: Seq<OperationRecord>, c: Seq<RollbackTarget>, at: int)
    requires
        undoing(c),
        0 <= at < ops.len(),
        selected(c, ops[at].id),
        can_undo(ops[at]),
    ensures
        planned_order(ops, c).contains(
            (PlannedStep {
                operation_id: ops[at].id,
                direction: TargetDirection::Undo,
                reason: IncludedReason::Selected,
            }),
        ),
{
    oldest_at_most(ops, c, at);
    let keep = |i: int| oldest(ops, c) <= i && can_undo(ops[i]);
    order::chosen_are(ops.len(), keep);
    let list = undo_list(ops, c);
    assert(keep(at));
    assert(list.contains(at));
    let p = choose|p: int| 0 <= p < list.len() && list[p] == at;
    let i = list.len() - 1 - p;
    reveal(planned_order);
    assert(list.reverse()[i] == at);
    assert(planned_order(ops, c)[i] == undo_step(ops, c, at));
}

proof fn oldest_at_most(ops: Seq<OperationRecord>, c: Seq<RollbackTarget>, at: int)
    requires
        0 <= at < ops.len(),
        selected(c, ops[at].id),
    ensures
        0 <= oldest(ops, c) <= at,
    decreases at,
{
    if exists|j: int| 0 <= j < at && selected(c, (#[trigger] ops[j]).id) {
        let j = choose|j: int| 0 <= j < at && selected(c, (#[trigger] ops[j]).id);
        oldest_at_most(ops, c, j);
    } else {
        assert(0 <= at < ops.len() && selected(c, ops[at].id) && forall|j: int|
            0 <= j < at ==> !selected(c, (#[trigger] ops[j]).id));
        let o = oldest(ops, c);
        assert(0 <= o < ops.len() && selected(c, ops[o].id) && forall|j: int|
            0 <= j < o ==> !selected(c, (#[trigger] ops[j]).id));
    }
}

/// The order and the number of times in which targets are named do not matter.
pub proof fn targets_are_a_set(a: Seq<RollbackTarget>, b: Seq<RollbackTarget>)
    requires
        forall|t: RollbackTarget| a.contains(t) == b.contains(t),
    ensures
        canonical(a) == canonical(b),
{
    canonical_facts(a);
    canonical_facts(b);
    assert forall|t: RollbackTarget| canonical(a).contains(t) == canonical(b).contains(t) by {
        assert(canonical(a).contains(t) == a.contains(t));
        assert(canonical(b).contains(t) == b.contains(t));
    }
    order::ascending_unique::<RollbackTarget>(canonical(a), canonical(b));
}

/// What a plan does rests on the history alone, not on advisory evidence: two
/// histories that agree on the operations, their status and whether they can be
/// reversed have the same steps, whatever effects, times or states correlate
/// them.
pub proof fn advice_does_not_order(a: Seq<OperationRecord>, b: Seq<OperationRecord>, c: Seq<RollbackTarget>)
    requires
        a.len() == b.len(),
        forall|i: int|
            0 <= i < a.len() ==> (#[trigger] a[i]).id == (#[trigger] b[i]).id && a[i].status == b[i].status
                && a[i].reversibility == b[i].reversibility,
        c.len() > 0,
        has_id(a, c[0].operation_id),
    ensures
        planned_order(a, c) == planned_order(b, c),
{
    reveal(planned_order);
    if undoing(c) {
        let at = choose|i: int| 0 <= i < a.len() && (#[trigger] a[i]).id == c[0].operation_id;
        assert(a[at].id == b[at].id);
        assert(selected(c, c[0].operation_id)) by {
            assert(c[0].operation_id == c[0].operation_id);
        }
        oldest_is(a, c, at);
        oldest_is(b, c, at);
        let x = oldest(a, c);
        let y = oldest(b, c);
        if x < y {
            assert(!selected(c, b[x].id));
            assert(a[x].id == b[x].id);
        } else if y < x {
            assert(!selected(c, a[y].id));
            assert(a[y].id == b[y].id);
        }
        let n = a.len();
        let keep_a = |i: int| oldest(a, c) <= i && can_undo(a[i]);
        let keep_b = |i: int| oldest(b, c) <= i && can_undo(b[i]);
        order::chosen_are(n, keep_a);
        order::chosen_are(n, keep_b);
        let p = undo_list(a, c);
        let q = undo_list(b, c);
        assert forall|i: int| #[trigger] p.contains(i) == q.contains(i) by {
            if 0 <= i < n {
                assert(a[i].id == b[i].id);
                assert(keep_a(i) == keep_b(i));
            }
        }
        order::numbers_unique(p, q);
        let r = planned_order(a, c);
        let s = planned_order(b, c);
        assert forall|k: int| 0 <= k < r.len() implies r[k] == s[k] by {
            let i = p.reverse()[k];
            assert(p.contains(i)) by {
                assert(i == p[p.len() - 1 - k]);
            }
            assert(a[i].id == b[i].id);
            assert(a[x].id == b[x].id);
            assert(r[k] == undo_step(a, c, i));
            assert(s[k] == undo_step(b, c, i));
        }
        assert(r =~= s);
    }
}

proof fn oldest_is(ops: Seq<OperationRecord>, c: Seq<RollbackTarget>, at: int)
    requires
        0 <= at < ops.len(),
        selected(c, ops[at].id),
    ensures
        0 <= oldest(ops, c) < ops.len(),
        selected(c, ops[oldest(ops, c)].id),
        forall|j: int| 0 <= j < oldest(ops, c) ==> !selected(c, (#[trigger] ops[j]).id),
    decreases at,
{
    if exists|j: int| 0 <= j < at && selected(c, (#[trigger] ops[j]).id) {
        let j = choose|j: int| 0 <= j < at && selected(c, (#[trigger] ops[j]).id);
        oldest_is(ops, c, j);
    } else {
        assert(0 <= at < ops.len() && selected(c, ops[at].id) && forall|j: int|
            0 <= j < at ==> !selected(c, (#[trigger] ops[j]).id));
    }
}

// ---------------------------------------------------------------------------
// What the calls promise
// ---------------------------------------------------------------------------

/// Whether an operation is the one with an id, or was recorded after it.
pub open spec fn from_on(history: History, i: int, id: i64) -> bool {
    exists|a: int|
        0 <= a < history.operations@.len() && (#[trigger] history.operations@[a]).id == id
            && !crate::depgraph::recorded_before(history.operations@[i], history.operations@[a])
}

/// Whether a target concerns an operation: for a redo the one that is named, and
/// for an undo the one that is named and every later one, unless it is undone
/// already.
pub open spec fn concerns(history: History, target: RollbackTarget, i: int) -> bool {
    match target.direction {
        TargetDirection::Redo => history.operations@[i].id == target.operation_id,
        TargetDirection::Undo => history.operations@[i].status != OperationStatus::Undone && from_on(
            history,
            i,
            target.operation_id,
        ),
    }
}

/// Whether a target concerns an operation.
pub open spec fn concerned(history: History, targets: Seq<RollbackTarget>, i: int) -> bool {
    exists|k: int| 0 <= k < targets.len() && concerns(history, #[trigger] targets[k], i)
}

/// Whether targets ask for one direction.
pub open spec fn one_direction(targets: Seq<RollbackTarget>, direction: TargetDirection) -> bool {
    targets.len() > 0 && forall|k: int| 0 <= k < targets.len() ==> (#[trigger] targets[k]).direction == direction
}

/// Whether targets are one target, however often it is named.
pub open spec fn one_target(targets: Seq<RollbackTarget>) -> bool {
    targets.len() > 0 && forall|k: int| 0 <= k < targets.len() ==> #[trigger] targets[k] == targets[0]
}

/// Whether each target names an operation of the history.
pub open spec fn named(history: History, targets: Seq<RollbackTarget>) -> bool {
    forall|k: int|
        0 <= k < targets.len() ==> exists|a: int|
            0 <= a < history.operations@.len() && (#[trigger] history.operations@[a]).id == (
            #[trigger] targets[k]).operation_id
}

proof fn named_as_ordered(history: History, targets: Seq<RollbackTarget>)
    ensures
        named(history, targets) == forall|k: int|
            0 <= k < targets.len() ==> has_id(history.ordered(), (#[trigger] targets[k]).operation_id),
{
    let ops = history.operations@;
    let s = history.ordered();
    if named(history, targets) {
        assert forall|k: int| 0 <= k < targets.len() implies has_id(s, (#[trigger] targets[k]).operation_id) by {
            let a = choose|a: int| 0 <= a < ops.len() && (#[trigger] ops[a]).id == targets[k].operation_id;
            let p = crate::depgraph::position(ops, a);
            assert(s[p].id == targets[k].operation_id);
        }
    }
    if forall|k: int| 0 <= k < targets.len() ==> has_id(s, (#[trigger] targets[k]).operation_id) {
        assert forall|k: int| 0 <= k < targets.len() implies exists|a: int|
            0 <= a < ops.len() && (#[trigger] ops[a]).id == (#[trigger] targets[k]).operation_id by {
            assert(has_id(s, targets[k].operation_id));
            let p = choose|p: int| 0 <= p < s.len() && (#[trigger] s[p]).id == targets[k].operation_id;
            let a = crate::depgraph::origin(ops, p);
            assert(ops[a].id == targets[k].operation_id);
        }
    }
}

/// What the canonical targets are, in terms of the targets.
proof fn canonical_as_given(targets: Seq<RollbackTarget>)
    requires
        targets.len() > 0,
    ensures
        canonical(targets).len() > 0,
        forall|id: i64| #[trigger] selected(canonical(targets), id) == exists|k: int|
            0 <= k < targets.len() && (#[trigger] targets[k]).operation_id == id,
        undoing(canonical(targets)) == one_direction(targets, TargetDirection::Undo),
        redoing(canonical(targets)) == one_direction(targets, TargetDirection::Redo),
        mixed(canonical(targets)) == (!one_direction(targets, TargetDirection::Undo) && !one_direction(
            targets,
            TargetDirection::Redo,
        )),
        (canonical(targets).len() == 1) == one_target(targets),
        canonical(targets).len() == 1 ==> canonical(targets)[0] == targets[0],
        forall|k: int| 0 <= k < canonical(targets).len() ==> targets.contains(#[trigger] canonical(targets)[k]),
{
    let c = canonical(targets);
    canonical_facts(targets);
    assert(targets.contains(targets[0]));
    assert(c.contains(targets[0]));
    assert forall|k: int| 0 <= k < c.len() implies targets.contains(#[trigger] c[k]) by {
        assert(c.contains(c[k]));
    }
    assert forall|id: i64| #[trigger] selected(c, id) == exists|k: int|
        0 <= k < targets.len() && (#[trigger] targets[k]).operation_id == id by {
        if selected(c, id) {
            let j = choose|j: int| 0 <= j < c.len() && (#[trigger] c[j]).operation_id == id;
            assert(targets.contains(c[j]));
            let k = choose|k: int| 0 <= k < targets.len() && targets[k] == c[j];
            assert(targets[k].operation_id == id);
        }
        if exists|k: int| 0 <= k < targets.len() && (#[trigger] targets[k]).operation_id == id {
            let k = choose|k: int| 0 <= k < targets.len() && (#[trigger] targets[k]).operation_id == id;
            assert(targets.contains(targets[k]));
            assert(c.contains(targets[k]));
            let j = choose|j: int| 0 <= j < c.len() && c[j] == targets[k];
            assert(c[j].operation_id == id);
        }
    }
    assert forall|k: int| 0 <= k < targets.len() implies exists|j: int|
        0 <= j < c.len() && c[j] == #[trigger] targets[k] by {
        assert(targets.contains(targets[k]));
        assert(c.contains(targets[k]));
    }
    if c[0].direction == c.last().direction {
        assert forall|k: int| 0 <= k < targets.len() implies (#[trigger] targets[k]).direction == c[0].direction by {
            let j = choose|j: int| 0 <= j < c.len() && c[j] == targets[k];
            if 0 < j {
                assert(RollbackTarget::before(c[0], c[j]));
            }
            if j < c.len() - 1 {
                assert(RollbackTarget::before(c[j], c[c.len() - 1]));
            }
        }
    } else {
        assert(targets.contains(c[0]) && targets.contains(c[c.len() - 1]));
        let a = choose|a: int| 0 <= a < targets.len() && targets[a] == c[0];
        let b = choose|b: int| 0 <= b < targets.len() && targets[b] == c[c.len() - 1];
        assert(targets[a].direction != targets[b].direction);
    }
    if c.len() == 1 {
        assert forall|k: int| 0 <= k < targets.len() implies #[trigger] targets[k] == targets[0] by {
            let j = choose|j: int| 0 <= j < c.len() && c[j] == targets[k];
            let i = choose|i: int| 0 <= i < c.len() && c[i] == targets[0];
        }
        let i = choose|i: int| 0 <= i < c.len() && c[i] == targets[0];
    } else if one_target(targets) {
        assert(targets.contains(c[0]) && targets.contains(c[1]));
        let a = choose|a: int| 0 <= a < targets.len() && targets[a] == c[0];
        let b = choose|b: int| 0 <= b < targets.len() && targets[b] == c[1];
        assert(targets[a] == targets[b]);
        assert(RollbackTarget::before(c[0], c[1]));
        RollbackTarget::irreflexive(c[0]);
    }
}

/// An undo reaches from the oldest target on.
proof fn oldest_as_named(history: History, targets: Seq<RollbackTarget>, i: int, p: int)
    requires
        history.valid(),
        named(history, targets),
        one_direction(targets, TargetDirection::Undo),
        0 <= i < history.operations@.len(),
        0 <= p < history.ordered().len(),
        history.ordered()[p] == history.operations@[i],
    ensures
        (oldest(history.ordered(), canonical(targets)) <= p) == exists|k: int|
            0 <= k < targets.len() && from_on(history, i, (#[trigger] targets[k]).operation_id),
{
    let ops = history.operations@;
    let s = history.ordered();
    let c = canonical(targets);
    canonical_as_given(targets);
    let t = choose|a: int| 0 <= a < ops.len() && (#[trigger] ops[a]).id == targets[0].operation_id;
    let first = crate::depgraph::position(ops, t);
    assert(selected(c, s[first].id)) by {
        assert(targets[0].operation_id == s[first].id);
    }
    oldest_is(s, c, first);
    let o = oldest(s, c);
    if o <= p {
        let b = crate::depgraph::origin(ops, o);
        assert(selected(c, s[o].id));
        let k = choose|k: int| 0 <= k < targets.len() && (#[trigger] targets[k]).operation_id == s[o].id;
        crate::depgraph::placed_as_recorded(ops, p, o);
        assert(ops[b].id == targets[k].operation_id);
        assert(from_on(history, i, targets[k].operation_id));
    }
    if exists|k: int| 0 <= k < targets.len() && from_on(history, i, (#[trigger] targets[k]).operation_id) {
        let k = choose|k: int| 0 <= k < targets.len() && from_on(history, i, (#[trigger] targets[k]).operation_id);
        let a = choose|a: int|
            0 <= a < ops.len() && (#[trigger] ops[a]).id == targets[k].operation_id
                && !crate::depgraph::recorded_before(ops[i], ops[a]);
        let q = crate::depgraph::position(ops, a);
        assert(selected(c, s[q].id)) by {
            assert(targets[k].operation_id == s[q].id);
        }
        oldest_at_most(s, c, q);
        crate::depgraph::placed_as_recorded(ops, p, q);
    }
}

/// The operations of the closure are those that the targets concern.
proof fn closure_as_concerned(history: History, targets: Seq<RollbackTarget>, i: int, p: int)
    requires
        history.valid(),
        named(history, targets),
        one_direction(targets, TargetDirection::Undo) || (one_target(targets) && one_direction(
            targets,
            TargetDirection::Redo,
        )),
        0 <= i < history.operations@.len(),
        0 <= p < history.ordered().len(),
        history.ordered()[p] == history.operations@[i],
    ensures
        in_closure(history.ordered(), canonical(targets), p) == concerned(history, targets, i),
{
    let c = canonical(targets);
    canonical_as_given(targets);
    let op = history.operations@[i];
    if one_direction(targets, TargetDirection::Undo) {
        oldest_as_named(history, targets, i, p);
        assert(targets[0].direction == TargetDirection::Undo);
        if exists|k: int| 0 <= k < targets.len() && from_on(history, i, (#[trigger] targets[k]).operation_id) {
            let k = choose|k: int| 0 <= k < targets.len() && from_on(history, i, (#[trigger] targets[k]).operation_id);
            assert(concerns(history, targets[k], i) == (op.status != OperationStatus::Undone));
        }
        if concerned(history, targets, i) {
            let k = choose|k: int| 0 <= k < targets.len() && concerns(history, #[trigger] targets[k], i);
            assert(from_on(history, i, targets[k].operation_id));
        }
    } else {
        assert(c[0] == targets[0]);
        assert(concerns(history, targets[0], i) == (op.id == targets[0].operation_id));
        if concerned(history, targets, i) {
            let k = choose|k: int| 0 <= k < targets.len() && concerns(history, #[trigger] targets[k], i);
            assert(targets[k] == targets[0]);
        }
    }
}

/// A plan is made exactly when there is a target and each names an operation of
/// the history.
pub proof fn a_plan_needs_known_targets(
    input: PlanInput,
    targets: Vec<RollbackTarget>,
    live: Option<Observation>,
    r: Result<RollbackPlan>,
)
    requires
        input.history.valid(),
        call_ensures(plan_rollback, (input, &targets, live), r),
    ensures
        r is Ok == (targets@.len() > 0 && named(input.history, targets@)),
{
    named_as_ordered(input.history, targets@);
    if r is Err && targets@.len() > 0 {
        canonical_as_given(targets@);
        let c = canonical(targets@);
        let k = choose|k: int|
            0 <= k < c.len() && !has_id(input.history.ordered(), (#[trigger] c[k]).operation_id) && r->Err_0@
                == db::operation_fault(c[k].operation_id);
        assert(targets@.contains(c[k]));
        let j = choose|j: int| 0 <= j < targets@.len() && targets@[j] == c[k];
        assert(!has_id(input.history.ordered(), targets@[j].operation_id));
    }
}

/// What a plan rests on.
proof fn plan_graph(
    input: PlanInput,
    targets: Vec<RollbackTarget>,
    live: Option<Observation>,
    plan: RollbackPlan,
) -> (graph: DependencyGraph)
    requires
        call_ensures(plan_rollback, (input, &targets, live), Ok::<RollbackPlan, RewindError>(plan)),
    ensures
        graph.built_from(input.history),
        plan.planned_from(input, targets@, live, graph),
        targets@.len() > 0,
        named(input.history, targets@),
{
    named_as_ordered(input.history, targets@);
    choose|graph: DependencyGraph|
        graph.built_from(input.history) && #[trigger] plan.planned_from(input, targets@, live, graph)
}

/// What a plan that may be carried out says, without the graph behind it.
proof fn unopposed(
    input: PlanInput,
    targets: Vec<RollbackTarget>,
    live: Option<Observation>,
    plan: RollbackPlan,
) -> (graph: DependencyGraph)
    requires
        call_ensures(plan_rollback, (input, &targets, live), Ok::<RollbackPlan, RewindError>(plan)),
        plan.decision == PlanDecision::Executable,
    ensures
        targets@.len() > 0,
        named(input.history, targets@),
        plan.order@ == planned_order(input.history.ordered(), canonical(targets@)),
        forall|x: Conflict| !#[trigger] is_conflict(input, canonical(targets@), live, graph, x),
        forall|x: Block| !#[trigger] is_block(input, canonical(targets@), live, graph, x),
        plan.live_state_checked == (canonical(targets@).len() == 1 && live matches Some(Observation::Seen(_))),
{
    let graph = plan_graph(input, targets, live, plan);
    executable_iff_unopposed(plan, input, targets@, live, graph);
    graph
}

/// A plan that may be carried out is one for a healthy workspace, with no bypass
/// pending, no transaction unfinished and no span of time unknown, and it goes
/// in one direction.
pub proof fn an_executable_plan_passed_every_check(
    input: PlanInput,
    targets: Vec<RollbackTarget>,
    live: Option<Observation>,
    plan: RollbackPlan,
)
    requires
        call_ensures(plan_rollback, (input, &targets, live), Ok::<RollbackPlan, RewindError>(plan)),
        plan.decision == PlanDecision::Executable,
    ensures
        input.condition == WorkspaceCondition::Healthy,
        !input.pending_bypass,
        input.unfinished is None,
        forall|k: int| 0 <= k < input.intervals@.len() ==> !(#[trigger] input.intervals@[k]).is_open,
        one_direction(targets@, TargetDirection::Undo) || (one_direction(targets@, TargetDirection::Redo)
            && one_target(targets@)),
        plan.conflicts@.len() == 0,
        plan.block_reasons@.len() == 0,
        plan.unknowns@.len() == 0,
        plan.complete,
{
    let graph = plan_graph(input, targets, live, plan);
    let c = canonical(targets@);
    canonical_as_given(targets@);
    executable_is_complete(plan, input, targets@, live, graph);
    if input.condition != WorkspaceCondition::Healthy || input.pending_bypass || input.unfinished is Some || (exists|
        k: int,
    |
        0 <= k < input.intervals@.len() && (#[trigger] input.intervals@[k]).is_open) || mixed(c) {
        gates_refuse(plan, input, targets@, live, graph);
    }
    if redoing(c) && c.len() > 1 {
        executable_iff_unopposed(plan, input, targets@, live, graph);
        assert forall|k: int| 0 <= k < c.len() implies (#[trigger] c[k]).direction == TargetDirection::Redo by {
            assert(targets@.contains(c[k]));
            let j = choose|j: int| 0 <= j < targets@.len() && targets@[j] == c[k];
        }
        all_redo(c, c.len() as int);
        assert(c.take(c.len() as int) =~= c);
        let x = Conflict::ConflictingTargets {
            operation_ids: target_ids(c),
            detail: "Phase 2 executes at most one redo target per plan"@,
        };
        reveal(is_conflict);
        assert(is_conflicting(c, x));
        assert(is_conflict(input, c, live, graph, x));
    }
}

proof fn all_redo(c: Seq<RollbackTarget>, n: int)
    requires
        0 <= n <= c.len(),
        forall|k: int| 0 <= k < c.len() ==> (#[trigger] c[k]).direction == TargetDirection::Redo,
    ensures
        redo_count(c.take(n)) == n,
    decreases n,
{
    if n > 0 {
        all_redo(c, n - 1);
        assert(c.take(n).drop_last() =~= c.take(n - 1));
        assert(c.take(n).last() == c[n - 1]);
    }
}

/// An undo that may be carried out undoes exactly the operations that were named
/// and every later one that is still in effect, and each of them can be undone.
/// An operation that was named is there because it was, and any other because a
/// named one needs it.
pub proof fn an_undo_takes_back_everything_later(
    input: PlanInput,
    targets: Vec<RollbackTarget>,
    live: Option<Observation>,
    plan: RollbackPlan,
    i: int,
)
    requires
        input.history.valid(),
        call_ensures(plan_rollback, (input, &targets, live), Ok::<RollbackPlan, RewindError>(plan)),
        plan.decision == PlanDecision::Executable,
        one_direction(targets@, TargetDirection::Undo),
        0 <= i < input.history.operations@.len(),
    ensures
        ({
            let op = input.history.operations@[i];
            let due = concerned(input.history, targets@, i);
            &&& due == exists|n: int| 0 <= n < plan.order@.len() && (#[trigger] plan.order@[n]).operation_id == op.id
            &&& due ==> op.status == OperationStatus::Completed && op.reversibility == Reversibility::FullyReversible
            &&& forall|n: int|
                0 <= n < plan.order@.len() && (#[trigger] plan.order@[n]).operation_id == op.id ==> {
                    &&& plan.order@[n].direction == TargetDirection::Undo
                    &&& plan.order@[n].reason is Selected == exists|k: int|
                        0 <= k < targets@.len() && (#[trigger] targets@[k]).operation_id == op.id
                }
        }),
{
    let graph = unopposed(input, targets, live, plan);
    let p = crate::depgraph::position(input.history.operations@, i);
    closure_in_plan(input, targets@, i, p);
    let op = input.history.operations@[i];
    let s = input.history.ordered();
    let c = canonical(targets@);
    if in_closure(s, c, p) && !can_undo(op) {
        closure_is_undoable(input, c, live, graph, p);
    }
}

proof fn closure_is_undoable(
    input: PlanInput,
    c: Seq<RollbackTarget>,
    live: Option<Observation>,
    graph: DependencyGraph,
    p: int,
)
    requires
        forall|x: Block| !#[trigger] is_block(input, c, live, graph, x),
        undoing(c),
        in_closure(input.history.ordered(), c, p),
    ensures
        can_undo(input.history.ordered()[p]),
{
    let op = input.history.ordered()[p];
    if !can_undo(op) {
        let x = Block::NotReversible { operation_id: op.id, reversibility: op.reversibility.text() };
        assert(is_block(input, c, live, graph, x)) by {
            reveal(is_block);
        }
    }
}

proof fn closure_in_plan(input: PlanInput, targets: Seq<RollbackTarget>, i: int, p: int)
    requires
        input.history.valid(),
        named(input.history, targets),
        one_direction(targets, TargetDirection::Undo),
        0 <= i < input.history.operations@.len(),
        0 <= p < input.history.ordered().len(),
        input.history.ordered()[p] == input.history.operations@[i],
    ensures
        ({
            let op = input.history.operations@[i];
            let s = input.history.ordered();
            let c = canonical(targets);
            let steps = planned_order(s, c);
            &&& undoing(c)
            &&& in_closure(s, c, p) == concerned(input.history, targets, i)
            &&& (in_closure(s, c, p) && can_undo(op)) == exists|n: int|
                0 <= n < steps.len() && (#[trigger] steps[n]).operation_id == op.id
            &&& forall|n: int|
                0 <= n < steps.len() && (#[trigger] steps[n]).operation_id == op.id ==> {
                    &&& steps[n].direction == TargetDirection::Undo
                    &&& steps[n].reason is Selected == exists|k: int|
                        0 <= k < targets.len() && (#[trigger] targets[k]).operation_id == op.id
                }
        }),
{
    let s = input.history.ordered();
    let c = canonical(targets);
    let op = input.history.operations@[i];
    closure_as_concerned(input.history, targets, i, p);
    canonical_as_given(targets);
    crate::depgraph::sorted_distinct(input.history.operations@);
    undo_steps_are(s, c, p);
    assert(selected(c, op.id) == exists|k: int|
        0 <= k < targets.len() && (#[trigger] targets[k]).operation_id == op.id);
}

/// The steps of an undo are those of the operations from the oldest on that can
/// be undone.
proof fn undo_steps_are(s: Seq<OperationRecord>, c: Seq<RollbackTarget>, p: int)
    requires
        crate::depgraph::distinct_ids(s),
        undoing(c),
        0 <= p < s.len(),
    ensures
        ({
            let steps = planned_order(s, c);
            let due = oldest(s, c) <= p && can_undo(s[p]);
            &&& due == exists|n: int| 0 <= n < steps.len() && (#[trigger] steps[n]).operation_id == s[p].id
            &&& forall|n: int|
                0 <= n < steps.len() && (#[trigger] steps[n]).operation_id == s[p].id ==> steps[n] == undo_step(s, c, p)
        }),
{
    reveal(planned_order);
    let keep = |i: int| oldest(s, c) <= i && can_undo(s[i]);
    order::chosen_are(s.len(), keep);
    let list = undo_list(s, c);
    let rev = list.reverse();
    let steps = planned_order(s, c);
    if oldest(s, c) <= p && can_undo(s[p]) {
        assert(keep(p));
        assert(list.contains(p));
        let q = choose|q: int| 0 <= q < list.len() && list[q] == p;
        let n = list.len() - 1 - q;
        assert(rev[n] == p);
        assert(steps[n] == undo_step(s, c, p));
    }
    assert forall|n: int| 0 <= n < steps.len() && (#[trigger] steps[n]).operation_id == s[p].id implies steps[n]
        == undo_step(s, c, p) && oldest(s, c) <= p && can_undo(s[p]) by {
        let q = rev[n];
        assert(q == list[list.len() - 1 - n]);
        assert(list.contains(q));
        assert(keep(q));
        assert(steps[n] == undo_step(s, c, q));
        crate::depgraph::same_id(s, p, q);
    }
}

/// The steps of an undo go from the newest operation back.
pub proof fn an_undo_starts_with_the_newest(
    input: PlanInput,
    targets: Vec<RollbackTarget>,
    live: Option<Observation>,
    plan: RollbackPlan,
    n: int,
    m: int,
)
    requires
        input.history.valid(),
        call_ensures(plan_rollback, (input, &targets, live), Ok::<RollbackPlan, RewindError>(plan)),
        one_direction(targets@, TargetDirection::Undo),
        0 <= n < m < plan.order@.len(),
    ensures
        exists|a: int, b: int|
            0 <= a < input.history.operations@.len() && 0 <= b < input.history.operations@.len() && (
            #[trigger] input.history.operations@[a]).id == plan.order@[n].operation_id && (
            #[trigger] input.history.operations@[b]).id == plan.order@[m].operation_id
                && crate::depgraph::recorded_before(input.history.operations@[b], input.history.operations@[a]),
{
    let graph = plan_graph(input, targets, live, plan);
    let ops = input.history.operations@;
    let s = input.history.ordered();
    let c = canonical(targets@);
    canonical_as_given(targets@);
    undo_runs_backwards(s, c, n, m);
    let (x, y) = choose|x: int, y: int|
        0 <= y < x < s.len() && can_undo(#[trigger] s[x]) && can_undo(#[trigger] s[y]) && planned_order(
            s,
            c,
        )[n].operation_id == s[x].id && planned_order(s, c)[m].operation_id == s[y].id;
    let a = crate::depgraph::origin(ops, x);
    let b = crate::depgraph::origin(ops, y);
    crate::depgraph::placed_as_recorded(ops, y, x);
    assert(ops[a].id == plan.order@[n].operation_id);
    assert(ops[b].id == plan.order@[m].operation_id);
}

/// A redo that may be carried out redoes the one operation that was named, which
/// is undone and fully reversible.
pub proof fn a_redo_redoes_what_was_named(
    input: PlanInput,
    targets: Vec<RollbackTarget>,
    live: Option<Observation>,
    plan: RollbackPlan,
    i: int,
)
    requires
        input.history.valid(),
        call_ensures(plan_rollback, (input, &targets, live), Ok::<RollbackPlan, RewindError>(plan)),
        plan.decision == PlanDecision::Executable,
        one_direction(targets@, TargetDirection::Redo),
        0 <= i < input.history.operations@.len(),
        input.history.operations@[i].id == targets@[0].operation_id,
    ensures
        plan.order@.len() == 1,
        plan.order@[0].operation_id == targets@[0].operation_id,
        plan.order@[0].direction == TargetDirection::Redo,
        plan.order@[0].reason is Selected,
        input.history.operations@[i].status == OperationStatus::Undone,
        input.history.operations@[i].reversibility == Reversibility::FullyReversible,
{
    let graph = plan_graph(input, targets, live, plan);
    let ops = input.history.operations@;
    let s = input.history.ordered();
    let c = canonical(targets@);
    canonical_as_given(targets@);
    an_executable_plan_passed_every_check(input, targets, live, plan);
    reveal(planned_order);
    executable_targets_eligible(plan, input, targets@, live, graph, 0);
    assert(c[0] == targets@[0]);
    let p = crate::depgraph::position(ops, i);
    assert(s[p].id == c[0].operation_id);
    let q = at_id(s, c[0].operation_id);
    crate::depgraph::sorted_distinct(ops);
    crate::depgraph::same_id(s, p, q);
}

/// A plan for one target rests on the state that was found: an undo on the state
/// that the newest operation to be undone left, and a redo on the state that
/// the operation started from. Without a look at the workspace there is none.
pub proof fn one_target_needs_its_state(
    input: PlanInput,
    targets: Vec<RollbackTarget>,
    live: Option<Observation>,
    plan: RollbackPlan,
    i: int,
)
    requires
        input.history.valid(),
        call_ensures(plan_rollback, (input, &targets, live), Ok::<RollbackPlan, RewindError>(plan)),
        plan.decision == PlanDecision::Executable,
        one_target(targets@),
        live is Some,
        0 <= i < input.history.operations@.len(),
        plan.order@.len() > 0,
        input.history.operations@[i].id == plan.order@[0].operation_id,
    ensures
        live->0 is Seen,
        plan.live_state_checked,
        ({
            let op = input.history.operations@[i];
            let state = if targets@[0].direction == TargetDirection::Undo {
                op.post_state_id
            } else {
                op.pre_state_id
            };
            state is Some ==> state->0@ == live->0->Seen_0@
        }),
{
    let graph = unopposed(input, targets, live, plan);
    let ops = input.history.operations@;
    let s = input.history.ordered();
    let c = canonical(targets@);
    canonical_as_given(targets@);
    an_executable_plan_passed_every_check(input, targets, live, plan);
    crate::depgraph::sorted_distinct(ops);
    let p = crate::depgraph::position(ops, i);
    if live->0 is Unavailable {
        let x = Conflict::LiveStateUnavailable { detail: live->0->Unavailable_0@ };
        assert(is_conflict(input, c, live, graph, x)) by {
            reveal(is_conflict);
        }
    }
    assert(targets@[0] == c[0]);
    expected_of_first(s, c, p);
    if expected_state(s, c) is Some && expected_state(s, c)->0 != live->0->Seen_0@ {
        let x = Conflict::LiveStateMismatch {
            expected_state_id: expected_state(s, c)->0,
            found_state_id: live->0->Seen_0@,
        };
        assert(is_conflict(input, c, live, graph, x)) by {
            reveal(is_conflict);
        }
    }
}

/// The state that a plan expects is that from which its first step starts.
proof fn expected_of_first(s: Seq<OperationRecord>, c: Seq<RollbackTarget>, p: int)
    requires
        crate::depgraph::distinct_ids(s),
        undoing(c) || redoing(c),
        0 <= p < s.len(),
        planned_order(s, c).len() > 0,
        planned_order(s, c)[0].operation_id == s[p].id,
    ensures
        expected_state(s, c) == text::optional(
            if undoing(c) {
                s[p].post_state_id
            } else {
                s[p].pre_state_id
            },
        ),
{
    expected_cases(s, c);
    if redoing(c) {
        assert(s[p].id == c[0].operation_id) by {
            reveal(planned_order);
        }
        crate::depgraph::same_id(s, p, at_id(s, c[0].operation_id));
    } else {
        let i = choose|i: int|
            0 <= i < s.len() && (#[trigger] s[i]).id == planned_order(s, c)[0].operation_id && expected_state(s, c)
                == text::optional(s[i].post_state_id);
        crate::depgraph::same_id(s, p, i);
    }
}

/// Every operation that a plan touches that may be carried out is known in full:
/// the catalog has its states, all that it changed can be restored, and nothing
/// about it is left open.
pub proof fn an_executable_plan_rests_on_what_is_known(
    input: PlanInput,
    targets: Vec<RollbackTarget>,
    live: Option<Observation>,
    plan: RollbackPlan,
    i: int,
    state: Seq<char>,
    k: int,
)
    requires
        input.history.valid(),
        call_ensures(plan_rollback, (input, &targets, live), Ok::<RollbackPlan, RewindError>(plan)),
        plan.decision == PlanDecision::Executable,
        0 <= i < input.history.operations@.len(),
        concerned(input.history, targets@, i),
    ensures
        ({
            let op = input.history.operations@[i];
            let named = (op.pre_state_id is Some && op.pre_state_id->0@ == state) || (op.post_state_id is Some
                && op.post_state_id->0@ == state);
            &&& named ==> exists|n: int|
                0 <= n < input.history.known_states@.len() && (#[trigger] input.history.known_states@[n])@ == state
            &&& 0 <= k < op.effects@.len() ==> !(op.effects@[k].pre@ is Unsupported) && !(
            op.effects@[k].post@ is Unsupported)
            &&& !crate::depgraph::leaves_open(input.history, op, EvidenceKind::StateLineage)
            &&& !crate::depgraph::leaves_open(input.history, op, EvidenceKind::EffectOverlap)
        }),
{
    let graph = unopposed(input, targets, live, plan);
    an_executable_plan_passed_every_check(input, targets, live, plan);
    let p = crate::depgraph::position(input.history.operations@, i);
    closure_as_concerned(input.history, targets@, i, p);
    nothing_open_in_closure(input, targets, live, plan, i, p);
    closure_is_known(input, canonical(targets@), live, graph, p, state, k);
    crate::depgraph::known_as_listed(input.history, state);
}

proof fn closure_is_known(
    input: PlanInput,
    c: Seq<RollbackTarget>,
    live: Option<Observation>,
    graph: DependencyGraph,
    p: int,
    state: Seq<char>,
    k: int,
)
    requires
        forall|x: Conflict| !#[trigger] is_conflict(input, c, live, graph, x),
        forall|x: Block| !#[trigger] is_block(input, c, live, graph, x),
        in_closure(input.history.ordered(), c, p),
    ensures
        ({
            let op = input.history.ordered()[p];
            &&& references(op, state) ==> input.history.knows(state)
            &&& 0 <= k < op.effects@.len() ==> !(op.effects@[k].pre@ is Unsupported) && !(
            op.effects@[k].post@ is Unsupported)
        }),
{
    let s = input.history.ordered();
    let op = s[p];
    if references(op, state) && !input.history.knows(state) {
        let x = Block::MissingHistoricalState { operation_id: op.id, state_id: state };
        block_cases(input, s, c, live, graph, x);
        assert(operation_block(input.history, s[p], x)) by {
            assert(x == missing_block(s[p], state));
        }
        assert(is_block(input, c, live, graph, x));
    }
    if 0 <= k < op.effects@.len() && (op.effects@[k].pre@ is Unsupported || op.effects@[k].post@ is Unsupported) {
        let x = Block::UnsupportedObject { operation_id: op.id, path: op.effects@[k].path@ };
        assert(unsupported_at(s, c, p, k));
        assert(is_block(input, c, live, graph, x)) by {
            reveal(is_block);
        }
    }
}

proof fn nothing_open_in_closure(
    input: PlanInput,
    targets: Vec<RollbackTarget>,
    live: Option<Observation>,
    plan: RollbackPlan,
    i: int,
    p: int,
)
    requires
        input.history.valid(),
        call_ensures(plan_rollback, (input, &targets, live), Ok::<RollbackPlan, RewindError>(plan)),
        plan.decision == PlanDecision::Executable,
        0 <= i < input.history.operations@.len(),
        0 <= p < input.history.ordered().len(),
        input.history.ordered()[p] == input.history.operations@[i],
        in_closure(input.history.ordered(), canonical(targets@), p),
    ensures
        !crate::depgraph::leaves_open(input.history, input.history.operations@[i], EvidenceKind::StateLineage),
        !crate::depgraph::leaves_open(input.history, input.history.operations@[i], EvidenceKind::EffectOverlap),
{
    let graph = plan_graph(input, targets, live, plan);
    told_open_refuses(input, targets@, live, plan, graph, i, p, EvidenceKind::StateLineage);
    told_open_refuses(input, targets@, live, plan, graph, i, p, EvidenceKind::EffectOverlap);
}

proof fn told_open_refuses(
    input: PlanInput,
    targets: Seq<RollbackTarget>,
    live: Option<Observation>,
    plan: RollbackPlan,
    graph: DependencyGraph,
    i: int,
    p: int,
    kind: EvidenceKind,
)
    requires
        input.history.valid(),
        graph.built_from(input.history),
        plan.planned_from(input, targets, live, graph),
        plan.decision == PlanDecision::Executable,
        0 <= i < input.history.operations@.len(),
        0 <= p < input.history.ordered().len(),
        input.history.ordered()[p] == input.history.operations@[i],
        in_closure(input.history.ordered(), canonical(targets), p),
    ensures
        !crate::depgraph::leaves_open(input.history, input.history.operations@[i], kind),
{
    let op = input.history.operations@[i];
    let s = input.history.ordered();
    let c = canonical(targets);
    executable_iff_unopposed(plan, input, targets, live, graph);
    crate::depgraph::open_as_built(input.history, graph, i, kind);
    if crate::depgraph::leaves_open(input.history, op, kind) {
        let g = choose|g: int|
            0 <= g < graph.incomplete@.len() && (#[trigger] graph.incomplete@[g]).operation_id == op.id
                && graph.incomplete@[g].evidence == kind;
        let gap = graph.incomplete@[g]@;
        assert(views(graph.incomplete@)[g] == gap);
        assert(views(graph.incomplete@).contains(gap));
        let x = Conflict::DependencyUnknown { operation_id: op.id, evidence: kind };
        reveal(is_conflict);
        assert(closure_has(s, c, op.id));
        assert(is_conflict(input, c, live, graph, x));
    }
}

/// Where nothing of what planning looks for is there, nothing is found.
proof fn nothing_found(
    input: PlanInput,
    s: Seq<OperationRecord>,
    c: Seq<RollbackTarget>,
    live: Option<Observation>,
    graph: DependencyGraph,
    unknowns: Seq<IncompleteEvidence>,
)
    requires
        s == input.history.ordered(),
        views(unknowns) == views(graph.incomplete@).filter(|g: Gap| closure_has(s, c, g.operation_id)),
        unknowns.len() == 0,
        input.condition == WorkspaceCondition::Healthy,
        !input.pending_bypass,
        input.unfinished is None,
        forall|k: int| 0 <= k < input.intervals@.len() ==> !(#[trigger] input.intervals@[k]).is_open,
        !mixed(c),
        redo_count(c) <= 1,
        forall|i: int, j: int| 0 <= i < j < c.len() ==> (#[trigger] c[i]).operation_id != (#[trigger] c[j]).operation_id,
        forall|k: int|
            0 <= k < c.len() ==> eligible(s[at_id(s, (#[trigger] c[k]).operation_id)], c[k].direction),
        forall|p: int| #[trigger] in_closure(s, c, p) && undoing(c) ==> can_undo(s[p]),
        forall|p: int, state: Seq<char>| in_closure(s, c, p) && #[trigger] references(s[p], state) ==> input.history.knows(state),
        forall|p: int, k: int|
            in_closure(s, c, p) && 0 <= k < s[p].effects@.len() ==> !bad_effect(#[trigger] s[p].effects@[k]),
        graph.cycles@.len() == 0,
        c.len() == 1 ==> live is Some && live->0 is Seen && (expected_state(s, c) is Some ==> expected_state(s, c)->0
            == live->0->Seen_0@),
    ensures
        forall|x: Conflict| !#[trigger] is_conflict(input, c, live, graph, x),
        forall|x: Block| !#[trigger] is_block(input, c, live, graph, x),
{
    assert(listed(graph.cycles@).len() == 0);
    assert forall|x: Conflict| !#[trigger] is_conflict(input, c, live, graph, x) by {
        conflict_cases(input, s, c, live, graph, unknowns, x);
    }
    assert forall|x: Block| !#[trigger] is_block(input, c, live, graph, x) by {
        block_cases(input, s, c, live, graph, x);
    }
}

/// The cycles of a graph are those of its history.
proof fn cycles_as_built(history: History, a: DependencyGraph, b: DependencyGraph)
    requires
        a.built_from(history),
        b.built_from(history),
    ensures
        listed(a.cycles@) == listed(b.cycles@),
{
    assert forall|e: Link| a.links().contains(e) == b.links().contains(e) by {}
    order::ascending_unique::<DependencyEdge>(a.links(), b.links());
    assert forall|n: NodeKey| views(a.nodes@).contains(n) == views(b.nodes@).contains(n) by {}
    order::ascending_unique::<NodeId>(views(a.nodes@), views(b.nodes@));
}

/// Whether nothing about the operations that the targets concern stands against
/// a plan.
pub open spec fn all_clear(history: History, targets: Seq<RollbackTarget>) -> bool {
    &&& forall|i: int|
        0 <= i < history.operations@.len() && concerned(history, targets, i) ==> {
            let op = #[trigger] history.operations@[i];
            &&& targets[0].direction == TargetDirection::Undo ==> op.status == OperationStatus::Completed
            &&& targets[0].direction == TargetDirection::Redo ==> op.status == OperationStatus::Undone
            &&& op.reversibility == Reversibility::FullyReversible
            &&& !crate::depgraph::leaves_open(history, op, EvidenceKind::StateLineage)
            &&& !crate::depgraph::leaves_open(history, op, EvidenceKind::EffectOverlap)
            &&& forall|k: int|
                0 <= k < op.effects@.len() ==> !((#[trigger] op.effects@[k]).pre@ is Unsupported) && !(
                op.effects@[k].post@ is Unsupported)
        }
    &&& forall|i: int, k: int|
        0 <= i < history.operations@.len() && 0 <= k < targets.len() && (#[trigger] history.operations@[i]).id == (
        #[trigger] targets[k]).operation_id ==> concerned(history, targets, i)
}

/// Nothing but what counts against a plan refuses it. In a healthy workspace
/// with nothing pending, a plan in one direction may be carried out where every
/// operation that it concerns is in the right status and fully reversible,
/// changed nothing that cannot be restored and leaves nothing open, where the
/// history has no cycle, and where the state that was found for one target is
/// the one that its first step starts from.
pub proof fn nothing_else_refuses_a_plan(
    input: PlanInput,
    targets: Vec<RollbackTarget>,
    live: Option<Observation>,
    plan: RollbackPlan,
    graph: DependencyGraph,
)
    requires
        input.history.valid(),
        call_ensures(plan_rollback, (input, &targets, live), Ok::<RollbackPlan, RewindError>(plan)),
        call_ensures(DependencyGraph::build, (input.history,), graph),
        graph.cycles@.len() == 0,
        one_direction(targets@, TargetDirection::Undo) || (one_target(targets@) && one_direction(
            targets@,
            TargetDirection::Redo,
        )),
        input.condition == WorkspaceCondition::Healthy,
        !input.pending_bypass,
        input.unfinished is None,
        forall|k: int| 0 <= k < input.intervals@.len() ==> !(#[trigger] input.intervals@[k]).is_open,
        all_clear(input.history, targets@),
        one_target(targets@) ==> live is Some && live->0 is Seen,
        one_target(targets@) ==> forall|i: int|
            0 <= i < input.history.operations@.len() && plan.order@.len() > 0 && (
            #[trigger] input.history.operations@[i]).id == plan.order@[0].operation_id ==> {
                let op = input.history.operations@[i];
                let state = if targets@[0].direction == TargetDirection::Undo {
                    op.post_state_id
                } else {
                    op.pre_state_id
                };
                state is Some ==> state->0@ == live->0->Seen_0@
            },
    ensures
        plan.decision == PlanDecision::Executable,
{
    let own = plan_graph(input, targets, live, plan);
    let s = input.history.ordered();
    let c = canonical(targets@);
    executable_iff_unopposed(plan, input, targets@, live, own);
    cycles_as_built(input.history, own, graph);
    assert(listed(own.cycles@).len() == own.cycles@.len());
    assert(listed(graph.cycles@).len() == graph.cycles@.len());
    clear_targets(input.history, targets@);
    nothing_unknown(input.history, targets@, own, plan.unknowns@);
    assert forall|p: int| #[trigger] in_closure(s, c, p) implies clear_at(input.history, s, c, p) by {
        clear_closure(input.history, targets@, p);
    }
    assert forall|p: int, state: Seq<char>| in_closure(s, c, p) && #[trigger] references(s[p], state) implies
        input.history.knows(state) by {
        assert(clear_at(input.history, s, c, p));
    }
    assert forall|p: int, k: int| in_closure(s, c, p) && 0 <= k < s[p].effects@.len() implies !bad_effect(
        #[trigger] s[p].effects@[k],
    ) by {
        assert(clear_at(input.history, s, c, p));
    }
    assert forall|p: int| #[trigger] in_closure(s, c, p) && undoing(c) implies can_undo(s[p]) by {
        assert(clear_at(input.history, s, c, p));
    }
    if c.len() == 1 {
        expected_is_found(input.history, targets@, live, plan.order@);
    }
    nothing_found(input, s, c, live, own, plan.unknowns@);
}

proof fn expected_is_found(
    history: History,
    targets: Seq<RollbackTarget>,
    live: Option<Observation>,
    steps: Seq<PlannedStep>,
)
    requires
        history.valid(),
        named(history, targets),
        one_target(targets),
        live is Some,
        live->0 is Seen,
        steps == planned_order(history.ordered(), canonical(targets)),
        forall|i: int|
            0 <= i < history.operations@.len() && steps.len() > 0 && (#[trigger] history.operations@[i]).id
                == steps[0].operation_id ==> {
                let op = history.operations@[i];
                let state = if targets[0].direction == TargetDirection::Undo {
                    op.post_state_id
                } else {
                    op.pre_state_id
                };
                state is Some ==> state->0@ == live->0->Seen_0@
            },
    ensures
        expected_state(history.ordered(), canonical(targets)) is Some ==> expected_state(
            history.ordered(),
            canonical(targets),
        )->0 == live->0->Seen_0@,
{
    let s = history.ordered();
    let c = canonical(targets);
    let ops = history.operations@;
    canonical_as_given(targets);
    expected_cases(s, c);
    crate::depgraph::sorted_distinct(ops);
    if steps.len() > 0 {
        assert(undoing(c) || redoing(c)) by {
            assert(c[0] == c.last());
        }
        let p = if redoing(c) {
            reveal(planned_order);
            let a = choose|a: int| 0 <= a < ops.len() && (#[trigger] ops[a]).id == targets[0].operation_id;
            crate::depgraph::position(ops, a)
        } else {
            choose|i: int| 0 <= i < s.len() && (#[trigger] s[i]).id == planned_order(s, c)[0].operation_id
        };
        expected_of_first(s, c, p);
        let i = crate::depgraph::origin(ops, p);
        assert(ops[i].id == steps[0].operation_id);
    } else if redoing(c) {
        reveal(planned_order);
    }
}

/// Whether nothing about an operation of the closure stands against a plan.
spec fn clear_at(history: History, s: Seq<OperationRecord>, c: Seq<RollbackTarget>, p: int) -> bool {
    &&& undoing(c) ==> can_undo(s[p])
    &&& forall|state: Seq<char>| #[trigger] references(s[p], state) ==> history.knows(state)
    &&& forall|k: int| 0 <= k < s[p].effects@.len() ==> !bad_effect(#[trigger] s[p].effects@[k])
}

proof fn clear_closure(history: History, targets: Seq<RollbackTarget>, p: int)
    requires
        history.valid(),
        named(history, targets),
        one_direction(targets, TargetDirection::Undo) || (one_target(targets) && one_direction(
            targets,
            TargetDirection::Redo,
        )),
        all_clear(history, targets),
        in_closure(history.ordered(), canonical(targets), p),
    ensures
        clear_at(history, history.ordered(), canonical(targets), p),
{
    let s = history.ordered();
    let c = canonical(targets);
    canonical_as_given(targets);
    let i = crate::depgraph::origin(history.operations@, p);
    let op = history.operations@[i];
    closure_as_concerned(history, targets, i, p);
    assert forall|state: Seq<char>| #[trigger] references(s[p], state) implies history.knows(state) by {
        crate::depgraph::known_as_listed(history, state);
        assert(!crate::depgraph::leaves_open(history, op, EvidenceKind::StateLineage));
    }
    assert forall|k: int| 0 <= k < s[p].effects@.len() implies !bad_effect(#[trigger] s[p].effects@[k]) by {
        assert(!(op.effects@[k].pre@ is Unsupported) && !(op.effects@[k].post@ is Unsupported));
    }
}

proof fn clear_targets(history: History, targets: Seq<RollbackTarget>)
    requires
        history.valid(),
        named(history, targets),
        one_direction(targets, TargetDirection::Undo) || (one_target(targets) && one_direction(
            targets,
            TargetDirection::Redo,
        )),
        all_clear(history, targets),
    ensures
        !mixed(canonical(targets)),
        redo_count(canonical(targets)) <= 1,
        forall|i: int, j: int|
            0 <= i < j < canonical(targets).len() ==> (#[trigger] canonical(targets)[i]).operation_id != (
            #[trigger] canonical(targets)[j]).operation_id,
        forall|k: int|
            0 <= k < canonical(targets).len() ==> eligible(
                history.ordered()[at_id(history.ordered(), (#[trigger] canonical(targets)[k]).operation_id)],
                canonical(targets)[k].direction,
            ),
        (canonical(targets).len() == 1) == one_target(targets),
{
    let s = history.ordered();
    let c = canonical(targets);
    let ops = history.operations@;
    canonical_as_given(targets);
    canonical_facts(targets);
    let d = targets[0].direction;
    assert forall|k: int| 0 <= k < c.len() implies (#[trigger] c[k]).direction == d by {
        assert(targets.contains(c[k]));
        let j = choose|j: int| 0 <= j < targets.len() && targets[j] == c[k];
    }
    assert forall|i: int, j: int| 0 <= i < j < c.len() implies (#[trigger] c[i]).operation_id != (
    #[trigger] c[j]).operation_id by {
        assert(RollbackTarget::before(c[i], c[j]));
    }
    if d == TargetDirection::Redo {
        assert(!one_direction(targets, TargetDirection::Undo));
        all_redo(c, c.len() as int);
        assert(c.take(c.len() as int) =~= c);
    } else {
        no_redo(c);
    }
    assert forall|k: int| 0 <= k < c.len() implies eligible(
        s[at_id(s, (#[trigger] c[k]).operation_id)],
        c[k].direction,
    ) by {
        assert(targets.contains(c[k]));
        let j = choose|j: int| 0 <= j < targets.len() && targets[j] == c[k];
        clear_target(history, targets, j);
    }
}

proof fn clear_target(history: History, targets: Seq<RollbackTarget>, j: int)
    requires
        history.valid(),
        named(history, targets),
        all_clear(history, targets),
        0 <= j < targets.len(),
        targets[j].direction == targets[0].direction,
    ensures
        eligible(history.ordered()[at_id(history.ordered(), targets[j].operation_id)], targets[j].direction),
{
    let s = history.ordered();
    let ops = history.operations@;
    let a = choose|a: int| 0 <= a < ops.len() && (#[trigger] ops[a]).id == targets[j].operation_id;
    let p = crate::depgraph::position(ops, a);
    crate::depgraph::sorted_distinct(ops);
    crate::depgraph::same_id(s, p, at_id(s, targets[j].operation_id));
    assert(concerned(history, targets, a));
}

proof fn no_redo(c: Seq<RollbackTarget>)
    requires
        forall|k: int| 0 <= k < c.len() ==> (#[trigger] c[k]).direction == TargetDirection::Undo,
    ensures
        redo_count(c) == 0,
    decreases c.len(),
{
    if c.len() > 0 {
        let head = c.drop_last();
        assert forall|k: int| 0 <= k < head.len() implies (#[trigger] head[k]).direction == TargetDirection::Undo by {
            assert(head[k] == c[k]);
        }
        no_redo(head);
        assert(c.last() == c[c.len() - 1]);
    }
}

proof fn nothing_unknown(
    history: History,
    targets: Seq<RollbackTarget>,
    graph: DependencyGraph,
    unknowns: Seq<IncompleteEvidence>,
)
    requires
        history.valid(),
        named(history, targets),
        one_direction(targets, TargetDirection::Undo) || (one_target(targets) && one_direction(
            targets,
            TargetDirection::Redo,
        )),
        all_clear(history, targets),
        graph.built_from(history),
        views(unknowns) == views(graph.incomplete@).filter(
            |g: Gap| closure_has(history.ordered(), canonical(targets), g.operation_id),
        ),
    ensures
        unknowns.len() == 0,
{
    let s = history.ordered();
    let c = canonical(targets);
    if unknowns.len() > 0 {
        let keep = |g: Gap| closure_has(s, c, g.operation_id);
        let all = views(graph.incomplete@);
        let u = views(unknowns);
        assert(u == all.filter(keep));
        assert(u.len() > 0);
        let g = u[0];
        assert(u.contains(g));
        all.lemma_filter_pred(keep, 0);
        all.lemma_filter_contains_rev(keep, g);
        let p = choose|p: int| #[trigger] in_closure(s, c, p) && s[p].id == g.operation_id;
        let i = crate::depgraph::origin(history.operations@, p);
        canonical_as_given(targets);
        closure_as_concerned(history, targets, i, p);
        let n = choose|n: int| 0 <= n < all.len() && all[n] == g;
        assert(graph.incomplete@[n]@ == g);
        assert(graph.incomplete@[n].operation_id == history.operations@[i].id);
        crate::depgraph::open_as_built(history, graph, i, g.evidence);
        assert(crate::depgraph::leaves_open(history, history.operations@[i], g.evidence));
        assert(g.evidence != EvidenceKind::TemporalOrdering);
    }
}

/// What is presented was found, and what was found is presented, unless the list
/// is full.
proof fn presented_is_found<T: Ranked>(list: Seq<T::V>, found: spec_fn(T::V) -> bool, x: T::V)
    requires
        presents::<T>(list, found),
    ensures
        list.contains(x) ==> found(x),
        found(x) ==> list.contains(x) || list.len() == FINDING_LIMIT,
{
    let all = choose|all: Seq<T::V>| #[trigger]
        arranged::<T>(all, found) && list == all.take(
            if all.len() <= FINDING_LIMIT { all.len() as int } else { FINDING_LIMIT as int },
        );
    if list.contains(x) {
        let k = choose|k: int| 0 <= k < list.len() && list[k] == x;
        assert(all[k] == x);
        assert(all.contains(x));
    }
    if found(x) {
        assert(all.contains(x));
        if all.len() <= FINDING_LIMIT {
            assert(list =~= all);
        }
    }
}

/// Every conflict that a plan tells of is so: the operation, the state, the path
/// or the interval that it names is there, and is as it says.
pub proof fn a_conflict_is_as_it_says(
    input: PlanInput,
    targets: Vec<RollbackTarget>,
    live: Option<Observation>,
    plan: RollbackPlan,
    n: int,
)
    requires
        input.history.valid(),
        call_ensures(plan_rollback, (input, &targets, live), Ok::<RollbackPlan, RewindError>(plan)),
        0 <= n < plan.conflicts@.len(),
    ensures
        match plan.conflicts@[n] {
            RollbackConflict::UnknownInterval { interval_id, reason } => exists|k: int|
                0 <= k < input.intervals@.len() && (#[trigger] input.intervals@[k]).is_open && input.intervals@[k].id
                    == interval_id && input.intervals@[k].reason@ == reason@,
            RollbackConflict::MissingHistoricalState { operation_id, state_id } => exists|i: int|
                0 <= i < input.history.operations@.len() && (#[trigger] input.history.operations@[i]).id
                    == operation_id && references(input.history.operations@[i], state_id@) && !input.history.knows(
                    state_id@,
                ),
            RollbackConflict::UnsupportedObject { operation_id, path, descriptor } => exists|i: int, k: int|
                0 <= i < input.history.operations@.len() && (#[trigger] input.history.operations@[i]).id
                    == operation_id && 0 <= k < input.history.operations@[i].effects@.len() && (
                #[trigger] input.history.operations@[i].effects@[k]).path@ == path@ && (
                input.history.operations@[i].effects@[k].pre@ is Unsupported
                    || input.history.operations@[i].effects@[k].post@ is Unsupported),
            RollbackConflict::LiveStateMismatch { expected_state_id, found_state_id } => live is Some && live->0 is Seen
                && live->0->Seen_0@ == found_state_id@ && expected_state_id@ != found_state_id@,
            RollbackConflict::LiveStateUnavailable { detail } => live is Some && live->0 is Unavailable
                && live->0->Unavailable_0@ == detail@,
            RollbackConflict::TargetNotEligible { operation_id, status, reversibility, direction } => exists|i: int|
                0 <= i < input.history.operations@.len() && (#[trigger] input.history.operations@[i]).id
                    == operation_id && !(input.history.operations@[i].reversibility == Reversibility::FullyReversible
                    && input.history.operations@[i].status == if direction == TargetDirection::Undo {
                    OperationStatus::Completed
                } else {
                    OperationStatus::Undone
                }),
            RollbackConflict::IncompatibleOrdering { operation_ids } => false,
            _ => true,
        },
{
    let graph = plan_graph(input, targets, live, plan);
    let c = canonical(targets@);
    let s = input.history.ordered();
    let ops = input.history.operations@;
    let x = plan.conflicts@[n]@;
    let found = |x: Conflict| is_conflict(input, c, live, graph, x);
    assert(views(plan.conflicts@)[n] == x);
    assert(views(plan.conflicts@).contains(x));
    presented_is_found::<RollbackConflict>(views(plan.conflicts@), found, x);
    assert(is_conflict(input, c, live, graph, x));
    reveal(is_conflict);
    match plan.conflicts@[n] {
        RollbackConflict::MissingHistoricalState { operation_id, state_id } => {
            let p = choose|p: int| #[trigger]
                missing_in(input.history, s, c, p, state_id@) && s[p].id == operation_id;
            let i = crate::depgraph::origin(ops, p);
            assert(ops[i].id == operation_id);
        },
        RollbackConflict::UnsupportedObject { operation_id, path, descriptor } => {
            let (p, k) = choose|p: int, k: int| #[trigger]
                unsupported_at(s, c, p, k) && s[p].id == operation_id && s[p].effects@[k].path@ == path@ && descriptor@
                    == s[p].effects@[k].pre@.describe() + " -> "@ + s[p].effects@[k].post@.describe();
            let i = crate::depgraph::origin(ops, p);
            assert(ops[i].id == operation_id);
            assert(ops[i].effects@[k].path@ == path@);
        },
        RollbackConflict::TargetNotEligible { operation_id, status, reversibility, direction } => {
            let k = choose|k: int|
                0 <= k < c.len() && !eligible(s[at_id(s, (#[trigger] c[k]).operation_id)], c[k].direction) && x
                    == not_eligible(s, c[k]);
            canonical_as_given(targets@);
            named_as_ordered(input.history, targets@);
            assert(targets@.contains(c[k]));
            let j = choose|j: int| 0 <= j < targets@.len() && targets@[j] == c[k];
            assert(has_id(s, targets@[j].operation_id));
            let p = at_id(s, c[k].operation_id);
            let i = crate::depgraph::origin(ops, p);
            assert(ops[i].id == operation_id);
        },
        _ => {},
    }
}

/// What stands against a plan is told: an open interval, a workspace that is not
/// healthy, a pending bypass and an unfinished transaction each have their line,
/// unless the list is full.
pub proof fn what_stands_against_a_plan_is_told(
    input: PlanInput,
    targets: Vec<RollbackTarget>,
    live: Option<Observation>,
    plan: RollbackPlan,
    k: int,
)
    requires
        input.history.valid(),
        call_ensures(plan_rollback, (input, &targets, live), Ok::<RollbackPlan, RewindError>(plan)),
    ensures
        0 <= k < input.intervals@.len() && input.intervals@[k].is_open ==> plan.conflicts@.len() == FINDING_LIMIT || exists|
            n: int,
        |
            0 <= n < plan.conflicts@.len() && (#[trigger] plan.conflicts@[n]) is UnknownInterval
                && plan.conflicts@[n]->UnknownInterval_interval_id == input.intervals@[k].id,
        input.condition != WorkspaceCondition::Healthy || input.pending_bypass ==> plan.block_reasons@.len()
            == FINDING_LIMIT || exists|n: int|
            0 <= n < plan.block_reasons@.len() && (#[trigger] plan.block_reasons@[n]) is WorkspaceNotHealthy
                && plan.block_reasons@[n]->pending_bypass == input.pending_bypass,
        input.unfinished is Some ==> plan.block_reasons@.len() == FINDING_LIMIT || exists|n: int|
            0 <= n < plan.block_reasons@.len() && (#[trigger] plan.block_reasons@[n]) is RecoveryRequired
                && plan.block_reasons@[n]->transaction_id@ == outside::uuid_text(input.unfinished->0),
{
    let graph = plan_graph(input, targets, live, plan);
    let c = canonical(targets@);
    let fc = |x: Conflict| is_conflict(input, c, live, graph, x);
    let fb = |x: Block| is_block(input, c, live, graph, x);
    let conflicts = views(plan.conflicts@);
    let blocks = views(plan.block_reasons@);
    assert(conflicts.len() == plan.conflicts@.len());
    assert(blocks.len() == plan.block_reasons@.len());
    if 0 <= k < input.intervals@.len() && input.intervals@[k].is_open {
        let row = input.intervals@[k];
        let x = Conflict::UnknownInterval { interval_id: row.id, reason: row.reason@ };
        assert(is_conflict(input, c, live, graph, x)) by {
            reveal(is_conflict);
        }
        assert(fc(x));
        presented_is_found::<RollbackConflict>(conflicts, fc, x);
        if conflicts.contains(x) {
            let n = choose|n: int| 0 <= n < conflicts.len() && conflicts[n] == x;
            assert(plan.conflicts@[n]@ == x);
        }
    }
    if input.condition != WorkspaceCondition::Healthy || input.pending_bypass {
        let x = Block::WorkspaceNotHealthy {
            condition: input.condition.text(),
            pending_bypass: input.pending_bypass,
        };
        assert(is_block(input, c, live, graph, x)) by {
            reveal(is_block);
        }
        assert(fb(x));
        presented_is_found::<BlockReason>(blocks, fb, x);
        if blocks.contains(x) {
            let n = choose|n: int| 0 <= n < blocks.len() && blocks[n] == x;
            assert(plan.block_reasons@[n]@ == x);
        }
    }
    if input.unfinished is Some {
        let x = Block::RecoveryRequired { transaction_id: outside::uuid_text(input.unfinished->0) };
        assert(is_block(input, c, live, graph, x)) by {
            reveal(is_block);
        }
        assert(fb(x));
        presented_is_found::<BlockReason>(blocks, fb, x);
        if blocks.contains(x) {
            let n = choose|n: int| 0 <= n < blocks.len() && blocks[n] == x;
            assert(plan.block_reasons@[n]@ == x);
        }
    }
}

/// What a plan carries as context are correlations alone, and nothing that it
/// does was caused by one: none of its edges is a fact.
pub proof fn context_is_never_a_fact(
    input: PlanInput,
    targets: Vec<RollbackTarget>,
    live: Option<Observation>,
    plan: RollbackPlan,
    n: int,
)
    requires
        call_ensures(plan_rollback, (input, &targets, live), Ok::<RollbackPlan, RewindError>(plan)),
        0 <= n < plan.advisory_context@.len(),
    ensures
        plan.advisory_context@[n].confidence == EdgeConfidence::Advisory,
        plan.advisory_context@[n].evidence != EvidenceKind::StateLineage,
{
    let graph = plan_graph(input, targets, live, plan);
    let s = input.history.ordered();
    let c = canonical(targets@);
    let keep = |e: Link|
        e.confidence == EdgeConfidence::Advisory && (closure_node(s, c, e.from) || closure_node(s, c, e.to));
    let context = graph.links().filter(keep);
    let e = plan.advisory_context@[n]@;
    let shown = views(plan.advisory_context@);
    let many = if context.len() <= ADVISORY_CONTEXT_LIMIT {
        context.len() as int
    } else {
        ADVISORY_CONTEXT_LIMIT as int
    };
    assert(shown == context.take(many));
    assert(shown.len() == plan.advisory_context@.len());
    assert(shown[n] == e);
    assert(context[n] == e);
    graph.links().lemma_filter_pred(keep, n);
    assert(context.contains(e));
    graph.links().lemma_filter_contains_rev(keep, e);
    assert(graph.links().contains(e));
    assert(crate::depgraph::is_edge(s, e));
}

/// A plan is carried out only where it still holds: the one made again must be
/// executable and have the same steps, and those are what is done.
pub proof fn a_stale_plan_is_not_carried_out(
    plan: RollbackPlan,
    current: RollbackPlan,
    approved: Result<()>,
    r: Result<&Vec<PlannedStep>>,
)
    requires
        call_ensures(approve, (&plan,), approved),
        call_ensures(confirm, (&plan, &current), r),
    ensures
        approved is Ok == (plan.decision == PlanDecision::Executable),
        r is Ok == (current.decision == PlanDecision::Executable && current.order@ == plan.order@),
        r is Ok ==> r->Ok_0@ == plan.order@,
        approved is Err ==> approved->Err_0 is ConditionBlocked,
        r is Err ==> r->Err_0 is ConditionBlocked,
{
}

}
