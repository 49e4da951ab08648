//! The rows of the catalog and the rules by which they are read and chosen.

use vstd::prelude::*;
use vstd::string::*;

use crate::error::{Fault, Result, RewindError};
use crate::model::{
    Effect, EffectType, JournalStatus, OperationKind, OperationRecord, OperationStatus, Reversibility,
    TrackingConfidence, WorkspaceCondition,
};
use crate::outside;
use crate::text;

verus! {

#[derive(Clone, Debug, PartialEq, Eq)]
pub struct WorkspaceRow {
    pub id: u128,
    pub root: String,
    pub condition: WorkspaceCondition,
    pub baseline_state: Option<String>,
}

/// An operation before the catalog gave it an id and a time.
#[derive(Debug, PartialEq, Eq)]
pub struct OperationDraft {
    pub kind: OperationKind,
    pub status: OperationStatus,
    pub pre_state_id: Option<String>,
    pub post_state_id: Option<String>,
    pub command: Option<String>,
    pub cwd: Option<String>,
    pub exit_code: Option<i32>,
    pub confidence: TrackingConfidence,
    pub reversibility: Reversibility,
    pub error: Option<String>,
    pub effects: Vec<Effect>,
}

/// A command seen by the shell integration.
#[derive(Clone, Debug, PartialEq, Eq)]
pub struct BoundaryRow {
    pub id: String,
    pub session_id: String,
    pub command: String,
    pub cwd: String,
    pub started_at: i64,
    pub ended_at: Option<i64>,
    pub exit_code: Option<i32>,
    pub consumed: bool,
}

/// A boundary, and the workspace that it belongs to.
#[derive(Clone, Debug, PartialEq, Eq)]
pub struct BoundaryRecord {
    pub workspace_id: u128,
    pub row: BoundaryRow,
}

#[derive(Clone, Debug, PartialEq, Eq)]
pub struct SnapshotRow {
    pub name: String,
    pub state_id: String,
    pub created_at: i64,
}

/// A span of time whose changes are unknown until a reconciliation closes it.
#[derive(Clone, Debug, PartialEq, Eq)]
pub struct UnknownIntervalRow {
    pub id: i64,
    pub start_state_id: Option<String>,
    pub end_state_id: Option<String>,
    pub reason: String,
    pub is_open: bool,
    pub created_at: i64,
    pub closed_at: Option<i64>,
}

fn unknown_value(prefix: &str, value: &str) -> (r: RewindError)
    ensures
        r@ == Fault::Database(prefix@ + value@),
{
    let mut message = text::copy(prefix);
    message.append(value);
    RewindError::Database(message)
}

/// The identifier that was read from a column, or what is wrong with the
/// column.
pub fn identified(reading: std::result::Result<u128, String>) -> (r: Result<u128>)
    ensures
        match reading {
            Ok(id) => r == Ok::<u128, RewindError>(id),
            Err(error) => r is Err && r->Err_0@ == Fault::Database(error@),
        },
{
    match reading {
        Ok(id) => Ok(id),
        Err(error) => Err(RewindError::Database(error)),
    }
}

/// Reads an identifier from a column. One that was written there is read back.
pub fn parse_id(value: &str) -> (r: Result<u128>)
    ensures
        match outside::uuid_reading(value@) {
            Ok(id) => r == Ok::<u128, RewindError>(id),
            Err(error) => r is Err && r->Err_0@ == Fault::Database(error),
        },
        forall|id: u128| value@ == #[trigger] outside::uuid_text(id) ==> r == Ok::<u128, RewindError>(id),
{
    identified(outside::read_identifier(value))
}

/// The operation kind with the given text.
pub fn parse_kind(value: &str) -> (r: Result<OperationKind>)
    ensures
        match r {
            Ok(v) => v.text() == value@,
            Err(e) => e@ == Fault::Database("unknown operation kind: "@ + value@) && forall|other: OperationKind|
                (#[trigger] other.text()) != value@,
        },
{
    if text::same(value, "STRONG") {
        return Ok(OperationKind::Strong);
    }
    if text::same(value, "PASSIVE_OBSERVATION") {
        return Ok(OperationKind::PassiveObservation);
    }
    if text::same(value, "RECONCILIATION") {
        return Ok(OperationKind::Reconciliation);
    }
    if text::same(value, "RESTORE") {
        return Ok(OperationKind::Restore);
    }
    if text::same(value, "CAPTURE_FAILED") {
        return Ok(OperationKind::CaptureFailed);
    }
    if text::same(value, "BOUNDARY_ONLY") {
        return Ok(OperationKind::BoundaryOnly);
    }
    Err(unknown_value("unknown operation kind: ", value))
}

/// The operation status with the given text.
pub fn parse_status(value: &str) -> (r: Result<OperationStatus>)
    ensures
        match r {
            Ok(v) => v.text() == value@,
            Err(e) => e@ == Fault::Database("unknown operation status: "@ + value@) && forall|other: OperationStatus|
                (#[trigger] other.text()) != value@,
        },
{
    if text::same(value, "COMPLETED") {
        return Ok(OperationStatus::Completed);
    }
    if text::same(value, "UNDONE") {
        return Ok(OperationStatus::Undone);
    }
    if text::same(value, "FAILED") {
        return Ok(OperationStatus::Failed);
    }
    if text::same(value, "UNTRUSTED") {
        return Ok(OperationStatus::Untrusted);
    }
    Err(unknown_value("unknown operation status: ", value))
}

/// The confidence with the given text.
pub fn parse_confidence(value: &str) -> (r: Result<TrackingConfidence>)
    ensures
        match r {
            Ok(v) => v.text() == value@,
            Err(e) => e@ == Fault::Database("unknown confidence: "@ + value@) && forall|other: TrackingConfidence|
                (#[trigger] other.text()) != value@,
        },
{
    if text::same(value, "TRACKED") {
        return Ok(TrackingConfidence::FullyTracked);
    }
    if text::same(value, "LOW_CONFIDENCE_OBSERVATION") {
        return Ok(TrackingConfidence::LowConfidenceObservation);
    }
    if text::same(value, "DEGRADED") {
        return Ok(TrackingConfidence::Degraded);
    }
    if text::same(value, "UNSUPPORTED") {
        return Ok(TrackingConfidence::Unsupported);
    }
    Err(unknown_value("unknown confidence: ", value))
}

/// The reversibility with the given text.
pub fn parse_reversibility(value: &str) -> (r: Result<Reversibility>)
    ensures
        match r {
            Ok(v) => v.text() == value@,
            Err(e) => e@ == Fault::Database("unknown reversibility: "@ + value@) && forall|other: Reversibility|
                (#[trigger] other.text()) != value@,
        },
{
    if text::same(value, "FULLY_REVERSIBLE") {
        return Ok(Reversibility::FullyReversible);
    }
    if text::same(value, "PARTIALLY_REVERSIBLE") {
        return Ok(Reversibility::PartiallyReversible);
    }
    if text::same(value, "UNAVAILABLE") {
        return Ok(Reversibility::Unavailable);
    }
    if text::same(value, "UNSUPPORTED") {
        return Ok(Reversibility::Unsupported);
    }
    Err(unknown_value("unknown reversibility: ", value))
}

/// The effect type with the given text.
pub fn parse_effect_type(value: &str) -> (r: Result<EffectType>)
    ensures
        match r {
            Ok(v) => v.text() == value@,
            Err(e) => e@ == Fault::Database("unknown effect type: "@ + value@) && forall|other: EffectType|
                (#[trigger] other.text()) != value@,
        },
{
    if text::same(value, "CREATE") {
        return Ok(EffectType::Create);
    }
    if text::same(value, "MODIFY") {
        return Ok(EffectType::Modify);
    }
    if text::same(value, "DELETE") {
        return Ok(EffectType::Delete);
    }
    if text::same(value, "RENAME") {
        return Ok(EffectType::Rename);
    }
    if text::same(value, "TYPE_CHANGE") {
        return Ok(EffectType::TypeChange);
    }
    Err(unknown_value("unknown effect type: ", value))
}

// ---------------------------------------------------------------------------
// Choosing operations
// ---------------------------------------------------------------------------

/// Whether an operation can be undone: it is in effect and fully reversible.
pub open spec fn can_undo(op: OperationRecord) -> bool {
    op.status == OperationStatus::Completed && op.reversibility == Reversibility::FullyReversible
}

/// Whether an operation can be redone: it is undone and fully reversible.
pub open spec fn can_redo(op: OperationRecord) -> bool {
    op.status == OperationStatus::Undone && op.reversibility == Reversibility::FullyReversible
}

pub fn is_undoable(op: &OperationRecord) -> (r: bool)
    ensures
        r == can_undo(*op),
{
    op.status == OperationStatus::Completed && op.reversibility == Reversibility::FullyReversible
}

pub fn is_redoable(op: &OperationRecord) -> (r: bool)
    ensures
        r == can_redo(*op),
{
    op.status == OperationStatus::Undone && op.reversibility == Reversibility::FullyReversible
}

/// `op` is the one with the greatest id among those that qualify.
pub open spec fn latest(ops: Seq<OperationRecord>, redo: bool, op: OperationRecord) -> bool {
    &&& ops.contains(op)
    &&& if redo { can_redo(op) } else { can_undo(op) }
    &&& forall|i: int|
        0 <= i < ops.len() && (if redo { can_redo(#[trigger] ops[i]) } else { can_undo(ops[i]) })
            ==> ops[i].id <= op.id
}

fn latest_of(ops: &Vec<OperationRecord>, redo: bool) -> (r: Option<usize>)
    ensures
        match r {
            Some(k) => k < ops@.len() && latest(ops@, redo, ops@[k as int]),
            None => forall|i: int|
                0 <= i < ops@.len() ==> !(if redo { can_redo(#[trigger] ops@[i]) } else { can_undo(ops@[i]) }),
        },
{
    let mut best: Option<usize> = None;
    let mut i: usize = 0;
    while i < ops.len()
        invariant
            i <= ops@.len(),
            match best {
                Some(k) => k < i && (if redo { can_redo(ops@[k as int]) } else { can_undo(ops@[k as int]) })
                    && forall|j: int|
                    0 <= j < i && (if redo { can_redo(#[trigger] ops@[j]) } else { can_undo(ops@[j]) })
                        ==> ops@[j].id <= ops@[k as int].id,
                None => forall|j: int|
                    0 <= j < i ==> !(if redo { can_redo(#[trigger] ops@[j]) } else { can_undo(ops@[j]) }),
            },
        decreases ops@.len() - i,
    {
        let qualifies = if redo { is_redoable(&ops[i]) } else { is_undoable(&ops[i]) };
        if qualifies {
            best = match best {
                Some(k) => if ops[i].id >= ops[k].id { Some(i) } else { Some(k) },
                None => Some(i),
            };
        }
        i = i + 1;
    }
    best
}

/// Whether no operation qualifies.
pub open spec fn none_qualifies(ops: Seq<OperationRecord>, redo: bool) -> bool {
    forall|i: int| 0 <= i < ops.len() ==> !(if redo { can_redo(#[trigger] ops[i]) } else { can_undo(ops[i]) })
}

/// The most recent operation that can be undone.
pub fn latest_undoable(ops: &Vec<OperationRecord>) -> (r: Result<&OperationRecord>)
    ensures
        match r {
            Ok(op) => latest(ops@, false, *op),
            Err(e) => e@ == Fault::NotFound("no undoable operation"@) && forall|i: int|
                0 <= i < ops@.len() ==> !can_undo(#[trigger] ops@[i]),
        },
        r is Err ==> none_qualifies(ops@, false),
{
    match latest_of(ops, false) {
        Some(k) => Ok(&ops[k]),
        None => Err(RewindError::NotFound(text::copy("no undoable operation"))),
    }
}

/// The most recent operation that can be redone.
pub fn latest_redoable(ops: &Vec<OperationRecord>) -> (r: Result<&OperationRecord>)
    ensures
        match r {
            Ok(op) => latest(ops@, true, *op),
            Err(e) => e@ == Fault::NotFound("no redoable operation"@) && forall|i: int|
                0 <= i < ops@.len() ==> !can_redo(#[trigger] ops@[i]),
        },
        r is Err ==> none_qualifies(ops@, true),
{
    match latest_of(ops, true) {
        Some(k) => Ok(&ops[k]),
        None => Err(RewindError::NotFound(text::copy("no redoable operation"))),
    }
}

pub open spec fn operation_fault(id: i64) -> Fault {
    Fault::NotFound("operation "@ + text::decimal_int(id as int))
}

pub fn operation_missing(id: i64) -> (r: RewindError)
    ensures
        r@ == operation_fault(id),
{
    let mut message = text::copy("operation ");
    message.append(text::decimal_i64(id).as_str());
    RewindError::NotFound(message)
}

/// Whether no operation has an id.
pub open spec fn no_operation(ops: Seq<OperationRecord>, id: i64) -> bool {
    forall|i: int| 0 <= i < ops.len() ==> (#[trigger] ops[i]).id != id
}

/// The operation with the given id.
pub fn operation(ops: &Vec<OperationRecord>, id: i64) -> (r: Result<&OperationRecord>)
    ensures
        match r {
            Ok(op) => ops@.contains(*op) && op.id == id,
            Err(e) => e@ == operation_fault(id) && forall|i: int|
                0 <= i < ops@.len() ==> (#[trigger] ops@[i]).id != id,
        },
        r is Err ==> no_operation(ops@, id),
{
    let mut i: usize = 0;
    while i < ops.len()
        invariant
            i <= ops@.len(),
            forall|k: int| 0 <= k < i ==> (#[trigger] ops@[k]).id != id,
        decreases ops@.len() - i,
    {
        if ops[i].id == id {
            return Ok(&ops[i]);
        }
        i = i + 1;
    }
    Err(operation_missing(id))
}

// ---------------------------------------------------------------------------
// Boundaries and intervals
// ---------------------------------------------------------------------------

impl BoundaryRecord {
    /// Whether this is the boundary with the given id, of the given workspace.
    pub open spec fn is(self, workspace_id: u128, id: Seq<char>) -> bool {
        self.workspace_id == workspace_id && self.row.id@ == id
    }

    /// The record after a caller of the workspace has tried to claim the
    /// boundary with the given id.
    pub open spec fn after_claim(
        self,
        workspace_id: u128,
        id: Seq<char>,
        ended_at: i64,
        exit_code: i32,
    ) -> BoundaryRecord {
        if self.is(workspace_id, id) && !self.row.consumed {
            BoundaryRecord {
                row: BoundaryRow {
                    ended_at: Some(ended_at),
                    exit_code: Some(exit_code),
                    consumed: true,
                    ..self.row
                },
                ..self
            }
        } else {
            self
        }
    }

    fn belongs(&self, workspace_id: u128, id: &str) -> (r: bool)
        ensures
            r == self.is(workspace_id, id@),
    {
        self.workspace_id == workspace_id && text::same(self.row.id.as_str(), id)
    }
}

/// Whether a boundary is there to be claimed.
pub open spec fn claimable(records: Seq<BoundaryRecord>, workspace_id: u128, id: Seq<char>) -> bool {
    exists|i: int| 0 <= i < records.len() && (#[trigger] records[i]).is(workspace_id, id) && !records[i].row.consumed
}

/// The records after a claim: what was claimed is settled, the rest is as it
/// was.
pub open spec fn after_claim(
    records: Seq<BoundaryRecord>,
    workspace_id: u128,
    id: Seq<char>,
    ended_at: i64,
    exit_code: i32,
) -> Seq<BoundaryRecord> {
    records.map_values(|r: BoundaryRecord| r.after_claim(workspace_id, id, ended_at, exit_code))
}

/// Whether no two boundaries have the same id.
pub open spec fn ids_differ(records: Seq<BoundaryRecord>) -> bool {
    forall|i: int, j: int|
        0 <= i < records.len() && 0 <= j < records.len() && (#[trigger] records[i]).row.id@ == (
        #[trigger] records[j]).row.id@ ==> i == j
}

/// The boundary of a workspace with the given id.
pub fn boundary<'a>(records: &'a Vec<BoundaryRecord>, workspace_id: u128, id: &str) -> (r: Option<&'a BoundaryRow>)
    ensures
        match r {
            Some(row) => exists|i: int|
                0 <= i < records@.len() && (#[trigger] records@[i]).is(workspace_id, id@) && *row == records@[i].row,
            None => forall|i: int| 0 <= i < records@.len() ==> !(#[trigger] records@[i]).is(workspace_id, id@),
        },
{
    for i in 0..records.len()
        invariant
            forall|k: int| 0 <= k < i ==> !(#[trigger] records@[k]).is(workspace_id, id@),
    {
        if records[i].belongs(workspace_id, id) {
            return Some(&records[i].row);
        }
    }
    None
}

/// Whether a boundary of a session is still to be claimed.
pub open spec fn awaits(record: BoundaryRecord, workspace_id: u128, session_id: Seq<char>) -> bool {
    record.workspace_id == workspace_id && record.row.session_id@ == session_id && !record.row.consumed
}

/// Whether a boundary is the latest that a session has still to claim, the first
/// of those that began at the same time.
pub open spec fn latest_pending(
    records: Seq<BoundaryRecord>,
    workspace_id: u128,
    session_id: Seq<char>,
    i: int,
) -> bool {
    &&& 0 <= i < records.len()
    &&& awaits(records[i], workspace_id, session_id)
    &&& forall|j: int|
        0 <= j < records.len() && #[trigger] awaits(records[j], workspace_id, session_id) ==> records[j].row.started_at
            < records[i].row.started_at || (records[j].row.started_at == records[i].row.started_at && i <= j)
}

/// Whether a session has no boundary to claim.
pub open spec fn none_awaits(records: Seq<BoundaryRecord>, workspace_id: u128, session_id: Seq<char>) -> bool {
    forall|j: int| 0 <= j < records.len() ==> !awaits(#[trigger] records[j], workspace_id, session_id)
}

/// The latest boundary that a session has still to claim.
pub fn pending_boundary<'a>(
    records: &'a Vec<BoundaryRecord>,
    workspace_id: u128,
    session_id: &str,
) -> (r: Option<&'a BoundaryRow>)
    ensures
        match r {
            Some(row) => exists|i: int|
                #[trigger] latest_pending(records@, workspace_id, session_id@, i) && *row == records@[i].row,
            None => forall|j: int|
                0 <= j < records@.len() ==> !(#[trigger] awaits(records@[j], workspace_id, session_id@)),
        },
        r is None ==> none_awaits(records@, workspace_id, session_id@),
{
    let mut found: Option<usize> = None;
    for i in 0..records.len()
        invariant
            match found {
                Some(k) => k < i && latest_pending(records@.take(i as int), workspace_id, session_id@, k as int),
                None => forall|j: int|
                    0 <= j < i ==> !(#[trigger] awaits(records@[j], workspace_id, session_id@)),
            },
    {
        let ghost part = records@.take(i as int);
        let ghost more = records@.take(i + 1);
        assert(forall|j: int| 0 <= j < i ==> #[trigger] part[j] == records@[j]);
        assert(forall|j: int| 0 <= j <= i ==> #[trigger] more[j] == records@[j]);
        let record = &records[i];
        let pending = record.workspace_id == workspace_id && text::same(
            record.row.session_id.as_str(),
            session_id,
        ) && !record.row.consumed;
        assert(pending == awaits(records@[i as int], workspace_id, session_id@));
        let later = match found {
            Some(k) => records[k].row.started_at < record.row.started_at,
            None => true,
        };
        let ghost before = found;
        if pending && later {
            found = Some(i);
        }
        proof {
            match found {
                Some(k) => {
                    assert forall|j: int|
                        0 <= j < more.len() && #[trigger] awaits(more[j], workspace_id, session_id@) implies more[j].row.started_at
                        < more[k as int].row.started_at || (more[j].row.started_at == more[k as int].row.started_at && k
                        <= j) by {
                        if j < i {
                            assert(awaits(records@[j], workspace_id, session_id@));
                            assert(awaits(part[j], workspace_id, session_id@));
                        }
                    }
                    assert(latest_pending(more, workspace_id, session_id@, k as int));
                },
                None => {},
            }
        }
    }
    assert(records@.take(records@.len() as int) =~= records@);
    match found {
        Some(k) => Some(&records[k].row),
        None => None,
    }
}

/// Finishes a command boundary: records when it ended and how, and consumes it.
/// A boundary that was consumed before, an unknown id and a boundary of another
/// workspace are left as they are, so exactly one of several callers claims it.
pub fn finish_boundary(
    records: &mut Vec<BoundaryRecord>,
    workspace_id: u128,
    id: &str,
    ended_at: i64,
    exit_code: i32,
) -> (claimed: bool)
    ensures
        claimed == claimable(old(records)@, workspace_id, id@),
        final(records)@ == after_claim(old(records)@, workspace_id, id@, ended_at, exit_code),
{
    let ghost before = records@;
    let mut claimed = false;
    let count: usize = records.len();
    for i in 0..count
        invariant
            count == before.len(),
            records@.len() == before.len(),
            forall|k: int| i <= k < before.len() ==> records@[k] == before[k],
            forall|k: int|
                0 <= k < i ==> #[trigger] records@[k] == before[k].after_claim(
                    workspace_id,
                    id@,
                    ended_at,
                    exit_code,
                ),
            claimed == claimable(before.take(i as int), workspace_id, id@),
    {
        let ghost part = before.take(i as int);
        let ghost more = before.take(i + 1);
        assert(forall|k: int| 0 <= k < i ==> #[trigger] part[k] == more[k]);
        assert(more[i as int] == before[i as int]);
        if records[i].belongs(workspace_id, id) && !records[i].row.consumed {
            records[i].row.ended_at = Some(ended_at);
            records[i].row.exit_code = Some(exit_code);
            records[i].row.consumed = true;
            claimed = true;
            assert(claimable(more, workspace_id, id@));
        } else {
            if claimed {
                let ghost k = choose|k: int|
                    0 <= k < part.len() && (#[trigger] part[k]).is(workspace_id, id@) && !part[k].row.consumed;
                assert(more[k].is(workspace_id, id@));
            }
            assert(claimable(more, workspace_id, id@) ==> claimed) by {
                if claimable(more, workspace_id, id@) {
                    let k = choose|k: int|
                        0 <= k < more.len() && (#[trigger] more[k]).is(workspace_id, id@) && !more[k].row.consumed;
                    assert(part[k].is(workspace_id, id@));
                }
            }
        }
    }
    assert(before.take(before.len() as int) =~= before);
    assert(records@ =~= after_claim(before, workspace_id, id@, ended_at, exit_code));
    claimed
}

/// A boundary is claimed once: the first claim settles it and no other, and
/// every later one finds nothing to claim and changes nothing.
pub proof fn a_boundary_is_claimed_once(
    records: Seq<BoundaryRecord>,
    b: int,
    workspace_id: u128,
    id: Seq<char>,
    ended_at: i64,
    exit_code: i32,
    later: i64,
    other_code: i32,
)
    requires
        ids_differ(records),
        0 <= b < records.len(),
        records[b].is(workspace_id, id),
        !records[b].row.consumed,
    ensures
        claimable(records, workspace_id, id),
        ({
            let after = after_claim(records, workspace_id, id, ended_at, exit_code);
            &&& after.len() == records.len()
            &&& after[b].row.consumed
            &&& after[b].row.exit_code == Some(exit_code)
            &&& after[b].row.ended_at == Some(ended_at)
            &&& after[b].is(workspace_id, id)
            &&& forall|i: int| 0 <= i < records.len() && i != b ==> #[trigger] after[i] == records[i]
            &&& !claimable(after, workspace_id, id)
            &&& after_claim(after, workspace_id, id, later, other_code) == after
        }),
{
    let after = after_claim(records, workspace_id, id, ended_at, exit_code);
    assert forall|i: int| 0 <= i < records.len() && i != b implies #[trigger] after[i] == records[i] by {
        assert(records[i].row.id@ != records[b].row.id@);
    }
    assert forall|i: int| 0 <= i < after.len() implies !((#[trigger] after[i]).is(workspace_id, id)
        && !after[i].row.consumed) by {
        assert(after[i] == records[i].after_claim(workspace_id, id, ended_at, exit_code));
    }
    let again = after_claim(after, workspace_id, id, later, other_code);
    assert forall|i: int| 0 <= i < after.len() implies again[i] == after[i] by {
        assert(!(after[i].is(workspace_id, id) && !after[i].row.consumed));
    }
    assert(again =~= after);
}

/// A claim with an id that the workspace does not have, one that is unknown or
/// another workspace's, finds nothing and changes nothing.
pub proof fn a_foreign_claim_changes_nothing(
    records: Seq<BoundaryRecord>,
    workspace_id: u128,
    id: Seq<char>,
    ended_at: i64,
    exit_code: i32,
)
    requires
        forall|i: int| 0 <= i < records.len() ==> !(#[trigger] records[i]).is(workspace_id, id),
    ensures
        !claimable(records, workspace_id, id),
        after_claim(records, workspace_id, id, ended_at, exit_code) == records,
{
    assert(after_claim(records, workspace_id, id, ended_at, exit_code) =~= records);
}

/// Whether some span of time is still unknown.
pub fn has_open_unknown(rows: &Vec<UnknownIntervalRow>) -> (r: bool)
    ensures
        r == exists|i: int| 0 <= i < rows@.len() && (#[trigger] rows@[i]).is_open,
{
    let mut i: usize = 0;
    while i < rows.len()
        invariant
            i <= rows@.len(),
            forall|k: int| 0 <= k < i ==> !(#[trigger] rows@[k]).is_open,
        decreases rows@.len() - i,
    {
        if rows[i].is_open {
            return true;
        }
        i = i + 1;
    }
    false
}

/// Closes an unknown interval at a known state.
pub fn close_unknown(row: &mut UnknownIntervalRow, end_state: &str, closed_at: i64)
    ensures
        final(row).id == old(row).id,
        final(row).start_state_id == old(row).start_state_id,
        final(row).reason == old(row).reason,
        final(row).created_at == old(row).created_at,
        !final(row).is_open,
        old(row).is_open ==> text::optional(final(row).end_state_id) == Some(end_state@)
            && final(row).closed_at == Some(closed_at),
        !old(row).is_open ==> *final(row) == *old(row),
{
    if row.is_open {
        row.end_state_id = Some(text::copy(end_state));
        row.closed_at = Some(closed_at);
        row.is_open = false;
    }
}

/// Whether a transaction with the recorded status text is still to be finished.
pub fn is_unfinished(status: &str) -> (r: bool)
    ensures
        r == (status@ != JournalStatus::Committed.text() && status@ != JournalStatus::Abandoned.text()),
{
    !text::same(status, "COMMITTED") && !text::same(status, "ABANDONED")
}

// ---------------------------------------------------------------------------
// What the calls promise
// ---------------------------------------------------------------------------

/// The operation that an undo takes back by default is one of those that are in
/// effect and fully reversible, and none of them is newer. There is none exactly
/// when no operation is so.
pub proof fn the_newest_undoable_is_found(ops: Vec<OperationRecord>, r: Result<&OperationRecord>)
    requires
        call_ensures(latest_undoable, (&ops,), r),
    ensures
        r is Ok == exists|i: int|
            0 <= i < ops@.len() && (#[trigger] ops@[i]).status == OperationStatus::Completed && ops@[i].reversibility
                == Reversibility::FullyReversible,
        r is Ok ==> exists|i: int| 0 <= i < ops@.len() && *r->Ok_0 == #[trigger] ops@[i],
        r is Ok ==> r->Ok_0.status == OperationStatus::Completed && r->Ok_0.reversibility
            == Reversibility::FullyReversible,
        r is Ok ==> forall|i: int|
            0 <= i < ops@.len() && (#[trigger] ops@[i]).status == OperationStatus::Completed && ops@[i].reversibility
                == Reversibility::FullyReversible ==> ops@[i].id <= r->Ok_0.id,
        r is Err ==> r->Err_0 is NotFound,
{
    if r is Ok {
        let i = choose|i: int| 0 <= i < ops@.len() && ops@[i] == *r->Ok_0;
        assert(ops@[i].status == OperationStatus::Completed);
    }
}

/// The operation that a redo brings back by default is one of those that are
/// undone and fully reversible, and none of them is newer.
pub proof fn the_newest_redoable_is_found(ops: Vec<OperationRecord>, r: Result<&OperationRecord>)
    requires
        call_ensures(latest_redoable, (&ops,), r),
    ensures
        r is Ok == exists|i: int|
            0 <= i < ops@.len() && (#[trigger] ops@[i]).status == OperationStatus::Undone && ops@[i].reversibility
                == Reversibility::FullyReversible,
        r is Ok ==> exists|i: int| 0 <= i < ops@.len() && *r->Ok_0 == #[trigger] ops@[i],
        r is Ok ==> r->Ok_0.status == OperationStatus::Undone && r->Ok_0.reversibility
            == Reversibility::FullyReversible,
        r is Ok ==> forall|i: int|
            0 <= i < ops@.len() && (#[trigger] ops@[i]).status == OperationStatus::Undone && ops@[i].reversibility
                == Reversibility::FullyReversible ==> ops@[i].id <= r->Ok_0.id,
        r is Err ==> r->Err_0 is NotFound,
{
    if r is Ok {
        let i = choose|i: int| 0 <= i < ops@.len() && ops@[i] == *r->Ok_0;
        assert(ops@[i].status == OperationStatus::Undone);
    }
}

/// An operation is found by its id exactly when it is recorded.
pub proof fn an_operation_is_found_by_its_id(ops: Vec<OperationRecord>, id: i64, r: Result<&OperationRecord>)
    requires
        call_ensures(operation, (&ops, id), r),
    ensures
        r is Ok == exists|i: int| 0 <= i < ops@.len() && (#[trigger] ops@[i]).id == id,
        r is Ok ==> r->Ok_0.id == id && ops@.contains(*r->Ok_0),
        r is Err ==> r->Err_0 is NotFound,
{
    if r is Ok {
        let i = choose|i: int| 0 <= i < ops@.len() && ops@[i] == *r->Ok_0;
        assert(ops@[i].id == id);
    }
}

/// What is written of an operation is read back as it was.
pub proof fn what_is_written_is_read_back(
    kind: OperationKind,
    status: OperationStatus,
    confidence: TrackingConfidence,
    reversibility: Reversibility,
    effect: EffectType,
    a: &'static str,
    b: &'static str,
    c: &'static str,
    d: &'static str,
    e: &'static str,
    ra: Result<OperationKind>,
    rb: Result<OperationStatus>,
    rc: Result<TrackingConfidence>,
    rd: Result<Reversibility>,
    re: Result<EffectType>,
)
    requires
        call_ensures(OperationKind::as_str, (&kind,), a),
        call_ensures(OperationStatus::as_str, (&status,), b),
        call_ensures(TrackingConfidence::as_str, (&confidence,), c),
        call_ensures(Reversibility::as_str, (&reversibility,), d),
        call_ensures(EffectType::as_str, (&effect,), e),
        call_ensures(parse_kind, (a,), ra),
        call_ensures(parse_status, (b,), rb),
        call_ensures(parse_confidence, (c,), rc),
        call_ensures(parse_reversibility, (d,), rd),
        call_ensures(parse_effect_type, (e,), re),
    ensures
        ra == Ok::<OperationKind, RewindError>(kind),
        rb == Ok::<OperationStatus, RewindError>(status),
        rc == Ok::<TrackingConfidence, RewindError>(confidence),
        rd == Ok::<Reversibility, RewindError>(reversibility),
        re == Ok::<EffectType, RewindError>(effect),
{
    assert(kind.text() == a@);
    assert(status.text() == b@);
    assert(confidence.text() == c@);
    assert(reversibility.text() == d@);
    assert(effect.text() == e@);
    crate::model::operation_kind_texts_distinct(ra->Ok_0, kind);
    crate::model::operation_status_texts_distinct(rb->Ok_0, status);
    crate::model::tracking_confidence_texts_distinct(rc->Ok_0, confidence);
    crate::model::reversibility_texts_distinct(rd->Ok_0, reversibility);
    crate::model::effect_type_texts_distinct(re->Ok_0, effect);
}

/// Whether a boundary of a workspace waits for its claim.
pub open spec fn waits(record: BoundaryRecord, workspace_id: u128, id: Seq<char>) -> bool {
    record.workspace_id == workspace_id && record.row.id@ == id && !record.row.consumed
}

/// A claim succeeds exactly when the boundary waits for it. It settles that
/// boundary with the time and the code, and leaves every other as it is.
pub proof fn a_claim_settles_its_boundary(
    records: &mut Vec<BoundaryRecord>,
    workspace_id: u128,
    id: &str,
    ended_at: i64,
    exit_code: i32,
    claimed: bool,
    i: int,
)
    requires
        call_ensures(finish_boundary, (records, workspace_id, id, ended_at, exit_code), claimed),
        0 <= i < old(records)@.len(),
    ensures
        claimed == exists|k: int| 0 <= k < old(records)@.len() && waits(#[trigger] old(records)@[k], workspace_id, id@),
        final(records)@.len() == old(records)@.len(),
        waits(old(records)@[i], workspace_id, id@) ==> {
            let row = final(records)@[i].row;
            &&& row.consumed
            &&& row.ended_at == Some(ended_at)
            &&& row.exit_code == Some(exit_code)
            &&& row.id == old(records)@[i].row.id
            &&& row.session_id == old(records)@[i].row.session_id
            &&& row.command == old(records)@[i].row.command
            &&& row.started_at == old(records)@[i].row.started_at
            &&& row.cwd == old(records)@[i].row.cwd
        },
        !waits(old(records)@[i], workspace_id, id@) ==> final(records)@[i] == old(records)@[i],
        !waits(final(records)@[i], workspace_id, id@),
{
    let r = old(records)@;
    if claimable(r, workspace_id, id@) {
        let k = choose|k: int| 0 <= k < r.len() && (#[trigger] r[k]).is(workspace_id, id@) && !r[k].row.consumed;
        assert(waits(r[k], workspace_id, id@));
    }
    if exists|k: int| 0 <= k < r.len() && waits(#[trigger] r[k], workspace_id, id@) {
        let k = choose|k: int| 0 <= k < r.len() && waits(#[trigger] r[k], workspace_id, id@);
        assert(r[k].is(workspace_id, id@));
    }
    assert(final(records)@[i] == r[i].after_claim(workspace_id, id@, ended_at, exit_code));
}

/// The boundary that a session ends next is one of its own that waits, and none
/// of those began later.
pub proof fn a_session_ends_its_latest_boundary(
    records: Vec<BoundaryRecord>,
    workspace_id: u128,
    session_id: &str,
    r: Option<&BoundaryRow>,
)
    requires
        call_ensures(pending_boundary, (&records, workspace_id, session_id), r),
    ensures
        r is Some == exists|k: int|
            0 <= k < records@.len() && (#[trigger] records@[k]).workspace_id == workspace_id
                && records@[k].row.session_id@ == session_id@ && !records@[k].row.consumed,
        r is Some ==> exists|k: int|
            0 <= k < records@.len() && (#[trigger] records@[k]).workspace_id == workspace_id && records@[k].row
                == *r->0 && !r->0.consumed && r->0.session_id@ == session_id@,
        r is Some ==> forall|k: int|
            0 <= k < records@.len() && (#[trigger] records@[k]).workspace_id == workspace_id
                && records@[k].row.session_id@ == session_id@ && !records@[k].row.consumed
                ==> records@[k].row.started_at <= r->0.started_at,
{
    if r is Some {
        let i = choose|i: int|
            #[trigger] latest_pending(records@, workspace_id, session_id@, i) && *r->0 == records@[i].row;
        assert(awaits(records@[i], workspace_id, session_id@));
        assert forall|k: int|
            0 <= k < records@.len() && (#[trigger] records@[k]).workspace_id == workspace_id
                && records@[k].row.session_id@ == session_id@ && !records@[k].row.consumed implies records@[k].row.started_at
            <= r->0.started_at by {
            assert(awaits(records@[k], workspace_id, session_id@));
        }
    } else {
        assert forall|k: int| 0 <= k < records@.len() implies !((#[trigger] records@[k]).workspace_id == workspace_id
            && records@[k].row.session_id@ == session_id@ && !records@[k].row.consumed) by {
            assert(!awaits(records@[k], workspace_id, session_id@));
        }
    }
}

/// An unknown interval that is closed stays as it was closed: with the state and
/// the time of the first closing.
pub proof fn an_interval_is_closed_once(
    row: &mut UnknownIntervalRow,
    end_state: &str,
    closed_at: i64,
)
    requires
        call_ensures(close_unknown, (row, end_state, closed_at), ()),
    ensures
        !final(row).is_open,
        final(row).id == old(row).id,
        final(row).created_at == old(row).created_at,
        final(row).reason == old(row).reason,
        old(row).is_open ==> final(row).closed_at == Some(closed_at) && final(row).end_state_id is Some
            && final(row).end_state_id->0@ == end_state@,
        !old(row).is_open ==> final(row).closed_at == old(row).closed_at && final(row).end_state_id
            == old(row).end_state_id,
{
}

/// A transaction is finished exactly when it was committed or given up.
pub proof fn a_transaction_ends_committed_or_given_up(status: JournalStatus, shown: &'static str, r: bool, t: bool)
    requires
        call_ensures(JournalStatus::as_str, (&status,), shown),
        call_ensures(is_unfinished, (shown,), r),
        call_ensures(JournalStatus::is_terminal, (&status,), t),
    ensures
        r == !(status == JournalStatus::Committed || status == JournalStatus::Abandoned),
        t == !r,
{
    assert(status.text() == shown@);
    if status.text() == JournalStatus::Committed.text() {
        crate::model::journal_status_texts_distinct(status, JournalStatus::Committed);
    }
    if status.text() == JournalStatus::Abandoned.text() {
        crate::model::journal_status_texts_distinct(status, JournalStatus::Abandoned);
    }
}

}
