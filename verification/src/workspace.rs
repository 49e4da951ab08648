//! A workspace: when it can be trusted, what a command run in it leaves behind,
//! and how trust is restored.

use vstd::prelude::*;
use vstd::string::*;

use crate::db::{OperationDraft, WorkspaceRow};
use crate::error::{Fault, Result, RewindError};
use crate::model::{
    at, Change, Effect, Fingerprint, Journal, JournalStatus, Manifest, OperationKind, OperationStatus, Print, Reversibility,
    StateKind, TrackingConfidence, WorkspaceCondition, WorkspacePointer,
};
use crate::order::views;
use crate::outside;
use crate::outside::uuid_text;
use crate::paths;
use crate::paths::Platform;
use crate::rollback::JournalRecord;
use crate::scan;
use crate::scan::changes_between;
use crate::table;
use crate::text;
use crate::text::decimal;
use crate::text::joined_by;
use crate::text::optional;

verus! {

// ---------------------------------------------------------------------------
// Identity
// ---------------------------------------------------------------------------

/// Whether a store lies in the workspace that it is to serve.
pub open spec fn store_inside(platform: Platform, root: Seq<char>, store: Seq<char>) -> bool {
    paths::begins_with(platform, store, root)
}

/// Refuses a store inside of the workspace.
pub fn check_store(platform: Platform, root: &str, store: &str) -> (r: Result<()>)
    ensures
        r is Ok == !store_inside(platform, root@, store@),
        r is Err ==> r->Err_0@ == Fault::Storage("external store must not be inside the workspace"@),
{
    if paths::starts_with(platform, store, root) {
        Err(RewindError::Storage(text::copy("external store must not be inside the workspace")))
    } else {
        Ok(())
    }
}

/// Refuses a marker that was made for another place.
pub fn check_marker(pointer: &WorkspacePointer, root: &str) -> (r: Result<()>)
    ensures
        r is Ok == (pointer.root@ == root@),
        r is Err ==> r->Err_0@ == Fault::WorkspaceIdentity(
            "existing marker points to "@ + pointer.root@ + ", not "@ + root@,
        ),
{
    if text::same(pointer.root.as_str(), root) {
        return Ok(());
    }
    let mut message = text::copy("existing marker points to ");
    message.append(pointer.root.as_str());
    message.append(", not ");
    message.append(root);
    Err(RewindError::WorkspaceIdentity(message))
}

/// Refuses a catalog that was made for another place.
pub fn check_catalog(pointer: &WorkspacePointer, row: &WorkspaceRow) -> (r: Result<()>)
    ensures
        r is Ok == (row.root@ == pointer.root@),
        r is Err ==> r->Err_0@ == Fault::WorkspaceIdentity(
            "catalog root "@ + row.root@ + " differs from pointer "@ + pointer.root@,
        ),
{
    if text::same(row.root.as_str(), pointer.root.as_str()) {
        return Ok(());
    }
    let mut message = text::copy("catalog root ");
    message.append(row.root.as_str());
    message.append(" differs from pointer ");
    message.append(pointer.root.as_str());
    Err(RewindError::WorkspaceIdentity(message))
}

/// The pointer of a new workspace.
pub fn new_pointer(workspace_id: u128, root: &str, store_root: &str) -> (r: WorkspacePointer)
    ensures
        r.workspace_id == workspace_id,
        r.root@ == root@,
        r.store_root@ == store_root@,
        r.schema_version == 1,
{
    WorkspacePointer { workspace_id, root: text::copy(root), store_root: text::copy(store_root), schema_version: 1 }
}

/// What the holder of the writer's lease writes about itself.
pub fn lease_owner(pid: u32, process: u128) -> (r: String)
    ensures
        r@ == "pid="@ + decimal(pid as nat) + " transaction-process="@ + uuid_text(process) + "\n"@,
{
    let mut out = text::copy("pid=");
    out.append(text::decimal_u64(pid as u64).as_str());
    out.append(" transaction-process=");
    out.append(outside::identifier(process).as_str());
    out.append("\n");
    out
}

/// The error of a lease that another holds.
pub fn lease_unavailable(path: &str, error: &str) -> (r: RewindError)
    ensures
        r@ == Fault::LockUnavailable(path@ + ": "@ + error@),
{
    let mut message = text::copy(path);
    message.append(": ");
    message.append(error);
    RewindError::LockUnavailable(message)
}

/// The state that a workspace is compared with.
pub fn baseline_id(row: &WorkspaceRow) -> (r: Result<String>)
    ensures
        r is Ok == row.baseline_state is Some,
        match r {
            Ok(id) => id@ == row.baseline_state->0@,
            Err(e) => e@ == Fault::NotFound("trusted baseline"@),
        },
{
    match &row.baseline_state {
        Some(id) => Ok(text::copy(id.as_str())),
        None => Err(RewindError::NotFound(text::copy("trusted baseline"))),
    }
}

// ---------------------------------------------------------------------------
// Trust
// ---------------------------------------------------------------------------

/// What gates a workspace: an unknown interval to open, if none is open, and
/// the condition and baseline to record after it.
#[derive(Debug)]
pub struct Gate {
    pub unknown: Option<(Option<String>, String)>,
    pub condition: WorkspaceCondition,
    pub baseline: Option<String>,
}

/// What gates a workspace.
pub struct Barrier {
    pub unknown: Option<(Option<Seq<char>>, Seq<char>)>,
    pub condition: WorkspaceCondition,
    pub baseline: Option<Seq<char>>,
}

impl View for Gate {
    type V = Barrier;

    open spec fn view(&self) -> Barrier {
        Barrier {
            unknown: match self.unknown {
                Some((start, reason)) => Some((optional(start), reason@)),
                None => None,
            },
            condition: self.condition,
            baseline: optional(self.baseline),
        }
    }
}

/// How a workspace is held back in which something happened that is not known.
/// The baseline stays, and the unknown interval starts there.
pub open spec fn barrier(baseline: Option<Seq<char>>, has_open_unknown: bool, reason: Seq<char>) -> Barrier {
    Barrier {
        unknown: if has_open_unknown {
            None
        } else {
            Some((baseline, reason))
        },
        condition: WorkspaceCondition::ReconciliationRequired,
        baseline,
    }
}

/// Gates a workspace for a reason.
pub fn mark_reconciliation_required(baseline: &Option<String>, has_open_unknown: bool, reason: &str) -> (r: Gate)
    ensures
        r@ == barrier(optional(*baseline), has_open_unknown, reason@),
{
    Gate {
        unknown: if has_open_unknown {
            None
        } else {
            Some((text::copy_optional(baseline), text::copy(reason)))
        },
        condition: WorkspaceCondition::ReconciliationRequired,
        baseline: text::copy_optional(baseline),
    }
}

/// Gates a workspace in which a command went past a writer, as the catalog or
/// the log says.
pub fn enforce_pending_safety_gate(
    pending_bypass: bool,
    log_pending: bool,
    baseline: &Option<String>,
    has_open_unknown: bool,
) -> (r: Option<Gate>)
    ensures
        r is Some == (pending_bypass || log_pending),
        r is Some ==> r->0@ == barrier(
            optional(*baseline),
            has_open_unknown,
            "passive boundary bypassed an active writer transaction"@,
        ),
{
    if pending_bypass || log_pending {
        Some(
            mark_reconciliation_required(
                baseline,
                has_open_unknown,
                "passive boundary bypassed an active writer transaction",
            ),
        )
    } else {
        None
    }
}

/// What has to be done before a workspace can be written to.
#[derive(Debug)]
pub enum Readiness {
    Ready,
    /// It is reconciled first, for this reason.
    Reconcile(String),
}

/// Lets a healthy workspace through, has one reconciled that lost its trust,
/// and refuses one with an unfinished rollback.
pub fn ensure_healthy_locked(condition: WorkspaceCondition) -> (r: Result<Readiness>)
    ensures
        match condition {
            WorkspaceCondition::Healthy => r is Ok && r->Ok_0 is Ready,
            WorkspaceCondition::Degraded | WorkspaceCondition::ReconciliationRequired => {
                &&& r is Ok
                &&& r->Ok_0 is Reconcile
                &&& r->Ok_0->Reconcile_0@ == "automatic reconciliation before strong operation"@
            },
            WorkspaceCondition::RecoveryRequired => r is Err && r->Err_0@ == Fault::RecoveryRequired(
                "unfinished rollback requires recovery"@,
            ),
        },
{
    match condition {
        WorkspaceCondition::Healthy => Ok(Readiness::Ready),
        WorkspaceCondition::Degraded | WorkspaceCondition::ReconciliationRequired => Ok(
            Readiness::Reconcile(text::copy("automatic reconciliation before strong operation")),
        ),
        WorkspaceCondition::RecoveryRequired => Err(
            RewindError::RecoveryRequired(text::copy("unfinished rollback requires recovery")),
        ),
    }
}

/// Refuses to reconcile over an unfinished rollback.
pub fn check_reconcile(condition: WorkspaceCondition) -> (r: Result<()>)
    ensures
        r is Ok == !(condition is RecoveryRequired),
        r is Err ==> r->Err_0@ == Fault::RecoveryRequired(
            "filesystem transaction recovery must complete first"@,
        ),
{
    if condition == WorkspaceCondition::RecoveryRequired {
        Err(RewindError::RecoveryRequired(text::copy("filesystem transaction recovery must complete first")))
    } else {
        Ok(())
    }
}

/// What a reconciliation records once the state it found is stored: an unknown
/// interval from the old baseline, where the state changed and none is open,
/// then the end of the open interval, and last the new baseline.
#[derive(Debug)]
pub struct Reconciliation {
    pub unknown: Option<(String, String)>,
    pub state_id: String,
    pub condition: WorkspaceCondition,
}

/// Whether a reconciliation opens an unknown interval of its own.
pub open spec fn opens_unknown(previous: Option<Seq<char>>, state: Seq<char>, has_open_unknown: bool) -> bool {
    previous is Some && previous->0 != state && !has_open_unknown
}

/// Restores trust in a workspace that was scanned as a whole: what was found is
/// the new baseline.
pub fn reconcile_locked(previous: &Option<String>, state_id: &str, has_open_unknown: bool, reason: &str) -> (r:
    Reconciliation)
    ensures
        r.state_id@ == state_id@,
        r.condition == WorkspaceCondition::Healthy,
        r.unknown is Some == opens_unknown(optional(*previous), state_id@, has_open_unknown),
        r.unknown matches Some((start, why)) ==> start@ == previous->0@ && why@ == reason@,
{
    let unknown = match previous {
        Some(p) => if !text::same(p.as_str(), state_id) && !has_open_unknown {
            Some((text::copy(p.as_str()), text::copy(reason)))
        } else {
            None
        },
        None => None,
    };
    Reconciliation { unknown, state_id: text::copy(state_id), condition: WorkspaceCondition::Healthy }
}

// ---------------------------------------------------------------------------
// Running a command
// ---------------------------------------------------------------------------

/// How a run ended.
#[derive(Debug)]
pub struct RunOutcome {
    pub operation_id: Option<i64>,
    pub exit_code: i32,
    pub captured: bool,
    pub capture_error: Option<String>,
}

/// The record of a command whose effects could not be captured, and how the
/// workspace is held back after it.
#[derive(Debug)]
pub struct CaptureFailure {
    pub draft: OperationDraft,
    pub gate: Gate,
}

/// Whether a draft is that of a failed capture.
pub open spec fn is_failure(
    failure: CaptureFailure,
    pre: Option<Seq<char>>,
    command: Option<Seq<char>>,
    cwd: Option<Seq<char>>,
    exit_code: Option<i32>,
    error: Seq<char>,
    has_open_unknown: bool,
) -> bool {
    &&& failure.draft.kind == OperationKind::CaptureFailed
    &&& failure.draft.status == OperationStatus::Failed
    &&& optional(failure.draft.pre_state_id) == pre
    &&& failure.draft.post_state_id is None
    &&& optional(failure.draft.command) == command
    &&& optional(failure.draft.cwd) == cwd
    &&& failure.draft.exit_code == exit_code
    &&& failure.draft.confidence == TrackingConfidence::Degraded
    &&& failure.draft.reversibility == Reversibility::Unavailable
    &&& optional(failure.draft.error) == Some(error)
    &&& failure.draft.effects@.len() == 0
    &&& failure.gate@ == barrier(pre, has_open_unknown, error)
}

/// Records that the effects of a command are not known. The workspace is gated
/// with it: nothing is made up for what was not seen.
pub fn record_capture_failure(
    pre_state_id: &Option<String>,
    command: &Option<String>,
    cwd: &Option<String>,
    exit_code: Option<i32>,
    error: &str,
    has_open_unknown: bool,
) -> (r: CaptureFailure)
    ensures
        is_failure(
            r,
            optional(*pre_state_id),
            optional(*command),
            optional(*cwd),
            exit_code,
            error@,
            has_open_unknown,
        ),
{
    CaptureFailure {
        draft: OperationDraft {
            kind: OperationKind::CaptureFailed,
            status: OperationStatus::Failed,
            pre_state_id: text::copy_optional(pre_state_id),
            post_state_id: None,
            command: text::copy_optional(command),
            cwd: text::copy_optional(cwd),
            exit_code,
            confidence: TrackingConfidence::Degraded,
            reversibility: Reversibility::Unavailable,
            error: Some(text::copy(error)),
            effects: Vec::new(),
        },
        gate: mark_reconciliation_required(pre_state_id, has_open_unknown, error),
    }
}

/// A state that has to be stored.
#[derive(Debug)]
pub struct StateRequest {
    pub kind: StateKind,
    pub parent: String,
    pub label: &'static str,
}

/// What comes next in a run.
#[derive(Debug)]
pub enum RunNext {
    /// Gate the workspace and end with the error of the scan.
    Refuse(Gate),
    /// Reconcile for this reason. The state found is the one before the run.
    Reconcile(String),
    /// Store the scanned state.
    Persist(StateRequest),
    /// Run the command.
    Execute,
    /// Scan again.
    Scan,
    /// Record the operation.
    Record(OperationDraft),
    /// Record that the effects are not known.
    Fail(CaptureFailure),
}

/// A command that is run.
pub struct CommandRun {
    pub command: Vec<String>,
    pub cwd: String,
    pub pre_state: Option<String>,
    pub post_state: Option<String>,
    pub exit_code: i32,
    pub capture_error: Option<String>,
}

/// The state with which a run starts and ends, as the run of a command is
/// recorded.
pub open spec fn reversibility_of(changes: Seq<Change>) -> Reversibility {
    if forall|i: int| 0 <= i < changes.len() ==> (#[trigger] changes[i]).pre.supported() && changes[i].post.supported() {
        Reversibility::FullyReversible
    } else {
        Reversibility::Unsupported
    }
}

fn all_supported(effects: &Vec<Effect>) -> (r: bool)
    ensures
        r == (reversibility_of(views(effects@)) == Reversibility::FullyReversible),
{
    let ghost c = views(effects@);
    for i in 0..effects.len()
        invariant
            c == views(effects@),
            forall|k: int| 0 <= k < i ==> (#[trigger] c[k]).pre.supported() && c[k].post.supported(),
    {
        assert(c[i as int] == effects@[i as int]@);
        if !effects[i].pre.is_supported_for_restore() || !effects[i].post.is_supported_for_restore() {
            assert(!(c[i as int].pre.supported() && c[i as int].post.supported()));
            return false;
        }
    }
    true
}

impl CommandRun {
    /// What is recorded as the command.
    pub open spec fn text(self) -> Seq<char> {
        joined_by(views(self.command@), " "@)
    }

    /// Whether two runs differ only in what was found out since.
    pub open spec fn same_command(self, other: CommandRun) -> bool {
        self.command == other.command && self.cwd == other.cwd
    }

    fn command_text(&self) -> (r: String)
        ensures
            r@ == self.text(),
    {
        assert(self.command@.map_values(|s: String| s@) =~= views(self.command@));
        text::join(&self.command, " ")
    }

    /// Starts a run. There must be a command.
    pub fn begin(command: Vec<String>, cwd: &str) -> (r: Result<CommandRun>)
        ensures
            r is Ok == (command@.len() > 0),
            match r {
                Ok(run) => {
                    &&& run.command == command
                    &&& run.cwd@ == cwd@
                    &&& run.pre_state is None
                    &&& run.post_state is None
                    &&& run.exit_code == 0
                    &&& run.capture_error is None
                },
                Err(e) => e@ == Fault::InvalidCommand("rewind run requires a command after --"@),
            },
    {
        if command.len() == 0 {
            return Err(RewindError::InvalidCommand(text::copy("rewind run requires a command after --")));
        }
        Ok(
            CommandRun {
                command,
                cwd: text::copy(cwd),
                pre_state: None,
                post_state: None,
                exit_code: 0,
                capture_error: None,
            },
        )
    }

    /// Judges the scan before the run: a workspace that is not in its baseline
    /// is reconciled first, and one that cannot be scanned is gated.
    pub fn pre_scanned(
        &self,
        baseline: &str,
        scan: &std::result::Result<String, RewindError>,
        has_open_unknown: bool,
    ) -> (r: RunNext)
        ensures
            match *scan {
                Err(error) => r is Refuse && r->Refuse_0@ == barrier(
                    Some(baseline@),
                    has_open_unknown,
                    error@.message(),
                ),
                Ok(id) => if id@ != baseline@ {
                    r is Reconcile && r->Reconcile_0@ == "workspace drift detected before rewind run"@
                } else {
                    &&& r is Persist
                    &&& r->Persist_0.kind == StateKind::Baseline
                    &&& r->Persist_0.parent@ == baseline@
                    &&& r->Persist_0.label@ == "run-pre-state"@
                },
            },
    {
        match scan {
            Err(error) => RunNext::Refuse(
                mark_reconciliation_required(
                    &Some(text::copy(baseline)),
                    has_open_unknown,
                    error.message().as_str(),
                ),
            ),
            Ok(id) => if !text::same(id.as_str(), baseline) {
                RunNext::Reconcile(text::copy("workspace drift detected before rewind run"))
            } else {
                RunNext::Persist(
                    StateRequest { kind: StateKind::Baseline, parent: text::copy(baseline), label: "run-pre-state" },
                )
            },
        }
    }

    /// Goes on with the state before the run.
    pub fn ready(&mut self, pre_state: &str) -> (r: RunNext)
        ensures
            r is Execute,
            final(self).same_command(*old(self)),
            optional(final(self).pre_state) == Some(pre_state@),
            final(self).post_state == old(self).post_state,
            final(self).exit_code == old(self).exit_code,
            final(self).capture_error == old(self).capture_error,
    {
        self.pre_state = Some(text::copy(pre_state));
        RunNext::Execute
    }

    /// Goes on when the command has ended. One that was killed counts as failed.
    pub fn executed(&mut self, code: Option<i32>) -> (r: RunNext)
        ensures
            r is Scan,
            final(self).same_command(*old(self)),
            final(self).pre_state == old(self).pre_state,
            final(self).post_state == old(self).post_state,
            final(self).capture_error == old(self).capture_error,
            final(self).exit_code == match code {
                Some(c) => c,
                None => 1,
            },
    {
        self.exit_code = match code {
            Some(c) => c,
            None => 1,
        };
        RunNext::Scan
    }

    fn fail(&mut self, error: &RewindError, has_open_unknown: bool) -> (r: RunNext)
        ensures
            r is Fail,
            is_failure(
                r->Fail_0,
                optional(old(self).pre_state),
                Some(old(self).text()),
                Some(old(self).cwd@),
                Some(old(self).exit_code),
                error@.message(),
                has_open_unknown,
            ),
            final(self).same_command(*old(self)),
            final(self).pre_state == old(self).pre_state,
            final(self).post_state == old(self).post_state,
            final(self).exit_code == old(self).exit_code,
            optional(final(self).capture_error) == Some(error@.message()),
    {
        let message = error.message();
        let failure = record_capture_failure(
            &self.pre_state,
            &Some(self.command_text()),
            &Some(text::copy(self.cwd.as_str())),
            Some(self.exit_code),
            message.as_str(),
            has_open_unknown,
        );
        self.capture_error = Some(message);
        RunNext::Fail(failure)
    }

    /// Judges the scan after the run: what was found is stored, and a scan that
    /// failed leaves a failed capture.
    pub fn post_scanned(&mut self, scan: &std::result::Result<(), RewindError>, has_open_unknown: bool) -> (r: RunNext)
        requires
            old(self).pre_state is Some,
        ensures
            final(self).same_command(*old(self)),
            final(self).pre_state == old(self).pre_state,
            final(self).post_state == old(self).post_state,
            final(self).exit_code == old(self).exit_code,
            match *scan {
                Ok(_) => {
                    &&& r is Persist
                    &&& r->Persist_0.kind == StateKind::Baseline
                    &&& r->Persist_0.parent@ == old(self).pre_state->0@
                    &&& r->Persist_0.label@ == "run-post-state"@
                    &&& final(self).capture_error == old(self).capture_error
                },
                Err(error) => {
                    &&& r is Fail
                    &&& is_failure(
                        r->Fail_0,
                        optional(old(self).pre_state),
                        Some(old(self).text()),
                        Some(old(self).cwd@),
                        Some(old(self).exit_code),
                        error@.message(),
                        has_open_unknown,
                    )
                    &&& optional(final(self).capture_error) == Some(error@.message())
                },
            },
    {
        match scan {
            Ok(_) => {
                let parent = match &self.pre_state {
                    Some(p) => text::copy(p.as_str()),
                    None => text::copy(""),
                };
                RunNext::Persist(StateRequest { kind: StateKind::Baseline, parent, label: "run-post-state" })
            },
            Err(error) => self.fail(error, has_open_unknown),
        }
    }

    /// Goes on when the state after the run was stored: the operation is
    /// recorded with its changes, and can be undone if all of them can.
    pub fn persisted(
        &mut self,
        stored: &std::result::Result<String, RewindError>,
        before: &Manifest,
        after: &Manifest,
        has_open_unknown: bool,
    ) -> (r: RunNext)
        ensures
            final(self).same_command(*old(self)),
            final(self).pre_state == old(self).pre_state,
            final(self).exit_code == old(self).exit_code,
            match *stored {
                Ok(id) => {
                    &&& r is Record
                    &&& r->Record_0.kind == OperationKind::Strong
                    &&& r->Record_0.status == OperationStatus::Completed
                    &&& optional(r->Record_0.pre_state_id) == optional(old(self).pre_state)
                    &&& optional(r->Record_0.post_state_id) == Some(id@)
                    &&& optional(r->Record_0.command) == Some(old(self).text())
                    &&& optional(r->Record_0.cwd) == Some(old(self).cwd@)
                    &&& r->Record_0.exit_code == Some(old(self).exit_code)
                    &&& r->Record_0.confidence == TrackingConfidence::FullyTracked
                    &&& r->Record_0.reversibility == reversibility_of(changes_between(before@, after@))
                    &&& r->Record_0.error is None
                    &&& views(r->Record_0.effects@) == changes_between(before@, after@)
                    &&& optional(final(self).post_state) == Some(id@)
                    &&& final(self).capture_error == old(self).capture_error
                },
                Err(error) => {
                    &&& r is Fail
                    &&& is_failure(
                        r->Fail_0,
                        optional(old(self).pre_state),
                        Some(old(self).text()),
                        Some(old(self).cwd@),
                        Some(old(self).exit_code),
                        error@.message(),
                        has_open_unknown,
                    )
                    &&& final(self).post_state == old(self).post_state
                    &&& optional(final(self).capture_error) == Some(error@.message())
                },
            },
    {
        let id = match stored {
            Ok(id) => id,
            Err(error) => {
                return self.fail(error, has_open_unknown);
            },
        };
        let effects = scan::diff_manifests(before, after);
        let reversibility = if all_supported(&effects) {
            Reversibility::FullyReversible
        } else {
            Reversibility::Unsupported
        };
        let draft = OperationDraft {
            kind: OperationKind::Strong,
            status: OperationStatus::Completed,
            pre_state_id: text::copy_optional(&self.pre_state),
            post_state_id: Some(text::copy(id.as_str())),
            command: Some(self.command_text()),
            cwd: Some(text::copy(self.cwd.as_str())),
            exit_code: Some(self.exit_code),
            confidence: TrackingConfidence::FullyTracked,
            reversibility,
            error: None,
            effects,
        };
        self.post_state = Some(text::copy(id.as_str()));
        RunNext::Record(draft)
    }

    /// Goes on when recording the operation failed.
    pub fn unrecorded(&mut self, error: &RewindError, has_open_unknown: bool) -> (r: RunNext)
        ensures
            r is Fail,
            is_failure(
                r->Fail_0,
                optional(old(self).pre_state),
                Some(old(self).text()),
                Some(old(self).cwd@),
                Some(old(self).exit_code),
                error@.message(),
                has_open_unknown,
            ),
            final(self).same_command(*old(self)),
            final(self).pre_state == old(self).pre_state,
            final(self).post_state == old(self).post_state,
            final(self).exit_code == old(self).exit_code,
            optional(final(self).capture_error) == Some(error@.message()),
    {
        self.fail(error, has_open_unknown)
    }

    /// How the run ended, with the operation that was recorded. Where the
    /// effects were captured, the state after the run is the new baseline of a
    /// healthy workspace.
    pub fn finish(&self, operation_id: i64) -> (r: (Option<String>, RunOutcome))
        ensures
            r.1.operation_id == Some(operation_id),
            r.1.exit_code == self.exit_code,
            r.1.captured == self.capture_error is None,
            optional(r.1.capture_error) == optional(self.capture_error),
            optional(r.0) == if self.capture_error is None {
                optional(self.post_state)
            } else {
                None
            },
    {
        let captured = self.capture_error.is_none();
        let baseline = if captured {
            text::copy_optional(&self.post_state)
        } else {
            None
        };
        (
            baseline,
            RunOutcome {
                operation_id: Some(operation_id),
                exit_code: self.exit_code,
                captured,
                capture_error: text::copy_optional(&self.capture_error),
            },
        )
    }
}

/// A failed capture never passes for a captured one: it records no effects and
/// no state after the run, cannot be undone, and gates the workspace.
pub proof fn failed_capture_is_honest(
    failure: CaptureFailure,
    pre: Option<Seq<char>>,
    command: Option<Seq<char>>,
    cwd: Option<Seq<char>>,
    exit_code: Option<i32>,
    error: Seq<char>,
    has_open_unknown: bool,
)
    requires
        is_failure(failure, pre, command, cwd, exit_code, error, has_open_unknown),
    ensures
        failure.draft.effects@.len() == 0,
        failure.draft.post_state_id is None,
        failure.draft.reversibility != Reversibility::FullyReversible,
        failure.gate@.condition == WorkspaceCondition::ReconciliationRequired,
        failure.gate@.baseline == pre,
        failure.gate@.unknown is Some || has_open_unknown,
{
}

// ---------------------------------------------------------------------------
// Repair
// ---------------------------------------------------------------------------

/// The status of the operation of a committed transaction.
pub open spec fn committed_status(journal: JournalRecord) -> OperationStatus {
    if journal.direction == "UNDO"@ {
        OperationStatus::Undone
    } else {
        OperationStatus::Completed
    }
}

/// Whether a committed transaction is not yet what the catalog says of the
/// workspace.
pub open spec fn out_of_step(journal: JournalRecord, row: WorkspaceRow) -> bool {
    optional(row.baseline_state) != Some(journal.target) || !(row.condition is Healthy)
}

/// Whether the workspace has to be scanned before the catalog can follow a
/// committed transaction.
pub fn needs_rescan(journal: &Journal, row: &WorkspaceRow) -> (r: bool)
    ensures
        r == (journal@.status is Committed && out_of_step(journal@, *row)),
{
    if journal.status != JournalStatus::Committed {
        return false;
    }
    let target_matches = match &row.baseline_state {
        Some(id) => text::same(id.as_str(), journal.target_state_id.as_str()),
        None => false,
    };
    !target_matches || row.condition != WorkspaceCondition::Healthy
}

/// What the catalog lacks of a committed transaction.
#[derive(Debug)]
pub struct Repair {
    /// The transaction is marked as committed.
    pub transaction: bool,
    pub operation: Option<(i64, OperationStatus)>,
    /// The baseline of a healthy workspace.
    pub baseline: Option<String>,
}

/// Brings the catalog in step with a committed transaction, whose journal is
/// what counts. The baseline follows only where the workspace was scanned and is
/// in the target state. `operation` is the recorded status, if there is one.
pub fn repair_committed_metadata(
    journal: &Journal,
    row: &WorkspaceRow,
    operation: Option<OperationStatus>,
    scanned: &Option<String>,
) -> (r: Repair)
    ensures
        r.transaction == (journal@.status is Committed),
        r.operation == if journal@.status is Committed && journal@.operation_id is Some && operation is Some
            && operation->0 != committed_status(journal@) {
            Some((journal@.operation_id->0, committed_status(journal@)))
        } else {
            None
        },
        optional(r.baseline) == if journal@.status is Committed && out_of_step(journal@, *row) && optional(*scanned)
            == Some(journal@.target) {
            Some(journal@.target)
        } else {
            None
        },
{
    if journal.status != JournalStatus::Committed {
        return Repair { transaction: false, operation: None, baseline: None };
    }
    let expected = if text::same(journal.direction.as_str(), "UNDO") {
        OperationStatus::Undone
    } else {
        OperationStatus::Completed
    };
    let repaired = match (journal.operation_id, operation) {
        (Some(id), Some(status)) => if status != expected {
            Some((id, expected))
        } else {
            None
        },
        _ => None,
    };
    let there = match scanned {
        Some(id) => text::same(id.as_str(), journal.target_state_id.as_str()),
        None => false,
    };
    let baseline = if needs_rescan(journal, row) && there {
        Some(text::copy(journal.target_state_id.as_str()))
    } else {
        None
    };
    Repair { transaction: true, operation: repaired, baseline }
}

/// A repaired catalog needs no further repair.
pub proof fn repair_is_idempotent(journal: JournalRecord, row: WorkspaceRow)
    requires
        optional(row.baseline_state) == Some(journal.target),
        row.condition is Healthy,
    ensures
        !out_of_step(journal, row),
{
}

// ---------------------------------------------------------------------------
// Summaries
// ---------------------------------------------------------------------------

#[derive(Clone, Debug)]
pub struct WorkspaceStatus {
    pub id: u128,
    pub root: String,
    pub condition: WorkspaceCondition,
    pub baseline: Option<String>,
    pub unfinished_transactions: usize,
    pub open_unknown: bool,
}

/// How many rows of a manifest are files or links, directories, and objects
/// that cannot be restored.
pub open spec fn counted(rows: Seq<(Seq<char>, Print)>) -> (nat, nat, nat)
    decreases rows.len(),
{
    if rows.len() == 0 {
        (0, 0, 0)
    } else {
        let (files, directories, unsupported) = counted(rows.drop_last());
        match rows.last().1 {
            Print::RegularFile { .. } | Print::Symlink { .. } | Print::NamedPipe { .. } => (
                files + 1,
                directories,
                unsupported,
            ),
            Print::Directory { .. } => (files, directories + 1, unsupported),
            Print::Unsupported { .. } => (files, directories, unsupported + 1),
            Print::Absent => (files, directories, unsupported),
        }
    }
}

/// Counts what a manifest holds: files and links, directories, and objects that
/// cannot be restored.
pub fn state_summary(manifest: &Manifest) -> (r: (usize, usize, usize))
    ensures
        (r.0 as nat, r.1 as nat, r.2 as nat) == counted(table::listed(manifest@)),
{
    let entries = &manifest.entries;
    let count = entries.len();
    let ghost rows = entries.shown();
    proof {
        table::table_listed(*entries);
    }
    let mut files: usize = 0;
    let mut directories: usize = 0;
    let mut unsupported: usize = 0;
    for i in 0..count
        invariant
            count == entries.rows().len(),
            entries.ordered(),
            rows == entries.shown(),
            (files as nat, directories as nat, unsupported as nat) == counted(rows.take(i as int)),
            files + directories + unsupported <= i,
    {
        assert(rows.take(i + 1).drop_last() =~= rows.take(i as int));
        assert(rows.take(i + 1).last() == (entries.rows()[i as int].0@, entries.rows()[i as int].1@));
        match entries.value(i) {
            Fingerprint::RegularFile { .. } | Fingerprint::Symlink { .. } | Fingerprint::NamedPipe { .. } => {
                files = files + 1;
            },
            Fingerprint::Directory { .. } => {
                directories = directories + 1;
            },
            Fingerprint::Unsupported { .. } => {
                unsupported = unsupported + 1;
            },
            Fingerprint::Absent => {},
        }
    }
    assert(rows.take(rows.len() as int) =~= rows);
    (files, directories, unsupported)
}

// ---------------------------------------------------------------------------
// What the calls promise
// ---------------------------------------------------------------------------

/// A captured run can be undone exactly when nothing that it changed is, or
/// was, an object that cannot be restored. What it created, changed or deleted
/// besides does not matter. Where all that both manifests list are files,
/// directories, links and pipes, it can be undone.
pub proof fn a_run_is_reversible_unless_an_object_is_not(
    run: &mut CommandRun,
    stored: std::result::Result<String, RewindError>,
    before: Manifest,
    after: Manifest,
    has_open_unknown: bool,
    r: RunNext,
)
    requires
        before.entries.ordered(),
        after.entries.ordered(),
        stored is Ok,
        call_ensures(CommandRun::persisted, (run, &stored, &before, &after, has_open_unknown), r),
    ensures
        r is Record,
        r->Record_0.reversibility == Reversibility::FullyReversible || r->Record_0.reversibility
            == Reversibility::Unsupported,
        (r->Record_0.reversibility == Reversibility::FullyReversible) == !(exists|i: int|
            0 <= i < r->Record_0.effects@.len() && ((#[trigger] r->Record_0.effects@[i]).pre@ is Unsupported
                || r->Record_0.effects@[i].post@ is Unsupported)),
        (forall|p: Seq<char>| #[trigger] before@.contains_key(p) ==> !(before@[p] is Unsupported)) && (forall|p: Seq<char>|
         #[trigger]
            after@.contains_key(p) ==> !(after@[p] is Unsupported)) ==> r->Record_0.reversibility
            == Reversibility::FullyReversible,
{
    let changes = changes_between(before@, after@);
    let effects = r->Record_0.effects@;
    assert(views(effects) == changes);
    assert(effects.len() == changes.len());
    assert forall|i: int| 0 <= i < effects.len() implies (#[trigger] effects[i])@ == changes[i] by {
        assert(views(effects)[i] == effects[i]@);
    }
    if r->Record_0.reversibility == Reversibility::FullyReversible {
        assert forall|i: int| 0 <= i < effects.len() implies !((#[trigger] effects[i]).pre@ is Unsupported
            || effects[i].post@ is Unsupported) by {
            assert(changes[i].pre.supported() && changes[i].post.supported());
        }
    } else {
        let i = choose|i: int|
            0 <= i < changes.len() && !((#[trigger] changes[i]).pre.supported() && changes[i].post.supported());
        assert(effects[i]@ == changes[i]);
        scan::changes_are_exact(before, after, changes[i].path);
        let p = changes[i].path;
        assert(before@.contains_key(p) || after@.contains_key(p));
    }
}

/// A captured run is recorded as it went: as completed, with the state that it
/// started from, the state that was stored after it, its exit code and its
/// directory, and with one effect for each path on which the two states differ.
pub proof fn a_run_is_recorded_as_it_went(
    run: &mut CommandRun,
    stored: std::result::Result<String, RewindError>,
    before: Manifest,
    after: Manifest,
    has_open_unknown: bool,
    r: RunNext,
    path: Seq<char>,
    operation_id: i64,
    ended: (Option<String>, RunOutcome),
)
    requires
        before.entries.ordered(),
        after.entries.ordered(),
        stored is Ok,
        old(run).pre_state is Some,
        old(run).capture_error is None,
        call_ensures(CommandRun::persisted, (run, &stored, &before, &after, has_open_unknown), r),
        call_ensures(CommandRun::finish, (final(run), operation_id), ended),
    ensures
        r is Record,
        r->Record_0.kind == OperationKind::Strong,
        r->Record_0.status == OperationStatus::Completed,
        r->Record_0.confidence == TrackingConfidence::FullyTracked,
        r->Record_0.pre_state_id is Some,
        r->Record_0.pre_state_id->0@ == old(run).pre_state->0@,
        r->Record_0.post_state_id is Some,
        r->Record_0.post_state_id->0@ == stored->Ok_0@,
        r->Record_0.exit_code == Some(old(run).exit_code),
        r->Record_0.cwd is Some,
        r->Record_0.cwd->0@ == old(run).cwd@,
        r->Record_0.error is None,
        (at(before@, path) != at(after@, path)) == exists|i: int|
            0 <= i < r->Record_0.effects@.len() && (#[trigger] r->Record_0.effects@[i]).path@ == path,
        forall|i: int|
            0 <= i < r->Record_0.effects@.len() && (#[trigger] r->Record_0.effects@[i]).path@ == path
                ==> r->Record_0.effects@[i].pre@ == at(before@, path) && r->Record_0.effects@[i].post@
                == at(after@, path),
        ended.0 is Some,
        ended.0->0@ == stored->Ok_0@,
        ended.1.captured,
        ended.1.capture_error is None,
        ended.1.exit_code == old(run).exit_code,
        ended.1.operation_id == Some(operation_id),
{
    let changes = changes_between(before@, after@);
    let effects = r->Record_0.effects@;
    scan::changes_are_exact(before, after, path);
    assert(effects.len() == changes.len());
    assert forall|i: int| 0 <= i < effects.len() implies (#[trigger] effects[i])@ == changes[i] by {
        assert(views(effects)[i] == effects[i]@);
    }
    if at(before@, path) != at(after@, path) {
        let i = choose|i: int| 0 <= i < changes.len() && (#[trigger] changes[i]).path == path;
        assert(effects[i].path@ == path);
    }
    if exists|i: int| 0 <= i < effects.len() && (#[trigger] effects[i]).path@ == path {
        let i = choose|i: int| 0 <= i < effects.len() && (#[trigger] effects[i]).path@ == path;
        assert(changes[i].path == path);
    }
}

/// The command of a run is recorded word by word: one word as it is, and a
/// further word behind a blank.
pub proof fn a_command_is_recorded_word_by_word(
    run: &mut CommandRun,
    longer: &mut CommandRun,
    word: String,
    stored: std::result::Result<String, RewindError>,
    before: Manifest,
    after: Manifest,
    has_open_unknown: bool,
    r: RunNext,
    s: RunNext,
)
    requires
        stored is Ok,
        old(run).command@.len() > 0,
        old(longer).command@ == old(run).command@.push(word),
        call_ensures(CommandRun::persisted, (run, &stored, &before, &after, has_open_unknown), r),
        call_ensures(CommandRun::persisted, (longer, &stored, &before, &after, has_open_unknown), s),
    ensures
        r is Record,
        s is Record,
        r->Record_0.command is Some,
        s->Record_0.command is Some,
        old(run).command@.len() == 1 ==> r->Record_0.command->0@ == old(run).command@[0]@,
        s->Record_0.command->0@ == r->Record_0.command->0@ + " "@ + word@,
{
    let few = views(old(run).command@);
    let more = views(old(longer).command@);
    assert(few.len() == old(run).command@.len());
    assert(more.drop_last() =~= few);
    assert(more.last() == word@);
    assert(few[0] == old(run).command@[0]@);
}

/// Whether a run is recorded as one whose effects are not known: nothing is made
/// up for them, it cannot be undone, the error is kept, and the workspace has to
/// be reconciled from the state before the run on.
pub open spec fn honest(run: CommandRun, failure: CaptureFailure, error: Seq<char>, has_open_unknown: bool) -> bool {
    let draft = failure.draft;
    let gate = failure.gate;
    &&& draft.kind == OperationKind::CaptureFailed
    &&& draft.status == OperationStatus::Failed
    &&& draft.confidence == TrackingConfidence::Degraded
    &&& draft.reversibility == Reversibility::Unavailable
    &&& draft.effects@.len() == 0
    &&& draft.post_state_id is None
    &&& draft.pre_state_id is Some
    &&& draft.pre_state_id->0@ == run.pre_state->0@
    &&& draft.exit_code == Some(run.exit_code)
    &&& draft.cwd is Some
    &&& draft.cwd->0@ == run.cwd@
    &&& draft.command is Some
    &&& draft.error is Some
    &&& draft.error->0@ == error
    &&& gate.condition == WorkspaceCondition::ReconciliationRequired
    &&& gate.baseline is Some
    &&& gate.baseline->0@ == run.pre_state->0@
    &&& gate.unknown is None == has_open_unknown
    &&& gate.unknown matches Some((start, reason)) ==> start is Some && start->0@ == run.pre_state->0@ && reason@
        == error
}

/// A run whose end could not be scanned, stored or recorded is recorded as one
/// whose effects are not known, and ends without a new baseline.
pub proof fn a_run_that_was_not_captured_says_so(
    run: &mut CommandRun,
    scan: std::result::Result<(), RewindError>,
    stored: std::result::Result<String, RewindError>,
    error: RewindError,
    before: Manifest,
    after: Manifest,
    has_open_unknown: bool,
    scanned: RunNext,
    persisted: RunNext,
    unrecorded: RunNext,
)
    requires
        old(run).pre_state is Some,
        scan is Err,
        stored is Err,
    ensures
        call_ensures(CommandRun::post_scanned, (run, &scan, has_open_unknown), scanned) ==> scanned is Fail && honest(
            *old(run),
            scanned->Fail_0,
            scan->Err_0@.message(),
            has_open_unknown,
        ) && final(run).capture_error is Some,
        call_ensures(CommandRun::persisted, (run, &stored, &before, &after, has_open_unknown), persisted)
            ==> persisted is Fail && honest(
            *old(run),
            persisted->Fail_0,
            stored->Err_0@.message(),
            has_open_unknown,
        ) && final(run).capture_error is Some,
        call_ensures(CommandRun::unrecorded, (run, &error, has_open_unknown), unrecorded) ==> unrecorded is Fail
            && honest(*old(run), unrecorded->Fail_0, error@.message(), has_open_unknown)
            && final(run).capture_error is Some,
{
}

/// A run that was not captured ends without a new baseline, with the error and
/// with the exit code of the command.
pub proof fn a_failed_capture_moves_no_baseline(run: CommandRun, operation_id: i64, ended: (Option<String>, RunOutcome))
    requires
        run.capture_error is Some,
        call_ensures(CommandRun::finish, (&run, operation_id), ended),
    ensures
        ended.0 is None,
        !ended.1.captured,
        ended.1.capture_error is Some,
        ended.1.capture_error->0@ == run.capture_error->0@,
        ended.1.exit_code == run.exit_code,
        ended.1.operation_id == Some(operation_id),
{
}

/// Before a run the workspace is in its baseline, or is reconciled first. One
/// that cannot be scanned is gated, and its baseline stays.
pub proof fn a_run_starts_from_its_baseline(
    run: CommandRun,
    baseline: &str,
    scan: std::result::Result<String, RewindError>,
    has_open_unknown: bool,
    r: RunNext,
)
    requires
        call_ensures(CommandRun::pre_scanned, (&run, baseline, &scan, has_open_unknown), r),
    ensures
        match scan {
            Ok(id) => {
                &&& r is Persist == (id@ == baseline@)
                &&& r is Reconcile == (id@ != baseline@)
                &&& r is Persist ==> r->Persist_0.parent@ == baseline@
            },
            Err(error) => {
                &&& r is Refuse
                &&& r->Refuse_0.condition == WorkspaceCondition::ReconciliationRequired
                &&& r->Refuse_0.baseline is Some
                &&& r->Refuse_0.baseline->0@ == baseline@
                &&& r->Refuse_0.unknown is None == has_open_unknown
            },
        },
{
}

/// A reconciliation makes the state that was found the baseline of a healthy
/// workspace. It leaves an interval of which nothing is known exactly where the
/// state is not the one that was trusted, unless such an interval is open, and
/// the interval starts at the trusted state.
pub proof fn a_reconciliation_hides_no_change(
    previous: Option<String>,
    state_id: &str,
    has_open_unknown: bool,
    reason: &str,
    r: Reconciliation,
)
    requires
        call_ensures(reconcile_locked, (&previous, state_id, has_open_unknown, reason), r),
    ensures
        r.state_id@ == state_id@,
        r.condition == WorkspaceCondition::Healthy,
        r.unknown is Some == (!has_open_unknown && previous is Some && previous->0@ != state_id@),
        r.unknown matches Some((start, why)) ==> start@ == previous->0@ && why@ == reason@,
{
}

/// A gate never lets a workspace pass for healthy, keeps its baseline, and
/// leaves an interval of which nothing is known open.
pub proof fn a_gate_keeps_the_baseline(baseline: Option<String>, has_open_unknown: bool, reason: &str, r: Gate)
    requires
        call_ensures(mark_reconciliation_required, (&baseline, has_open_unknown, reason), r),
    ensures
        r.condition == WorkspaceCondition::ReconciliationRequired,
        r.baseline is Some == baseline is Some,
        r.baseline is Some ==> r.baseline->0@ == baseline->0@,
        r.unknown is None == has_open_unknown,
        r.unknown matches Some((start, why)) ==> why@ == reason@ && start is Some == baseline is Some && (start is Some
            ==> start->0@ == baseline->0@),
{
}

/// A command that went past a writer gates the workspace, whoever noted it.
pub proof fn a_bypass_gates(
    pending_bypass: bool,
    log_pending: bool,
    baseline: Option<String>,
    has_open_unknown: bool,
    r: Option<Gate>,
)
    requires
        call_ensures(enforce_pending_safety_gate, (pending_bypass, log_pending, &baseline, has_open_unknown), r),
    ensures
        r is None == (!pending_bypass && !log_pending),
        r is Some ==> r->0.condition == WorkspaceCondition::ReconciliationRequired,
        r is Some && !has_open_unknown ==> r->0.unknown is Some,
        r is Some ==> r->0.baseline is Some == baseline is Some,
        r is Some && baseline is Some ==> r->0.baseline->0@ == baseline->0@,
{
}

/// The catalog follows a committed transaction, and no other. Its baseline
/// becomes the target only where the workspace was found in it, and its
/// operation ends up undone or in effect, by the direction of the transaction.
pub proof fn a_repair_follows_the_journal(
    journal: Journal,
    row: WorkspaceRow,
    operation: Option<OperationStatus>,
    scanned: Option<String>,
    r: Repair,
)
    requires
        call_ensures(repair_committed_metadata, (&journal, &row, operation, &scanned), r),
    ensures
        r.transaction == (journal.status == JournalStatus::Committed),
        journal.status != JournalStatus::Committed ==> r.operation is None && r.baseline is None,
        r.baseline is Some ==> r.baseline->0@ == journal.target_state_id@ && scanned is Some && scanned->0@
            == journal.target_state_id@,
        journal.status == JournalStatus::Committed && scanned is Some && scanned->0@ == journal.target_state_id@ && !(
        row.condition == WorkspaceCondition::Healthy && row.baseline_state is Some && row.baseline_state->0@
            == journal.target_state_id@) ==> r.baseline is Some,
        r.operation matches Some((id, status)) ==> journal.operation_id == Some(id) && operation is Some && operation->0
            != status && status == if journal.direction@ == "UNDO"@ {
            OperationStatus::Undone
        } else {
            OperationStatus::Completed
        },
        journal.status == JournalStatus::Committed && journal.operation_id is Some && journal.direction@ == "UNDO"@
            && operation == Some(OperationStatus::Completed) ==> r.operation == Some(
            (journal.operation_id->0, OperationStatus::Undone),
        ),
        journal.status == JournalStatus::Committed && journal.operation_id is Some && journal.direction@ != "UNDO"@
            && operation == Some(OperationStatus::Undone) ==> r.operation == Some(
            (journal.operation_id->0, OperationStatus::Completed),
        ),
{
}

/// A workspace is written to only where it is healthy, or after it was
/// reconciled; one with an unfinished rollback is refused, and so is
/// reconciling over that.
pub proof fn only_a_healthy_workspace_is_written_to(condition: WorkspaceCondition, r: Result<Readiness>, c: Result<()>)
    requires
        call_ensures(ensure_healthy_locked, (condition,), r),
        call_ensures(check_reconcile, (condition,), c),
    ensures
        (r is Ok && r->Ok_0 is Ready) == (condition == WorkspaceCondition::Healthy),
        r is Err == (condition == WorkspaceCondition::RecoveryRequired),
        c is Err == (condition == WorkspaceCondition::RecoveryRequired),
        r is Err ==> r->Err_0 is RecoveryRequired,
        c is Err ==> c->Err_0 is RecoveryRequired,
{
}

/// The summary of a state counts each entry once: the files, links and pipes,
/// the directories, and the objects that cannot be restored.
pub proof fn a_summary_counts_each_entry(manifest: Manifest, r: (usize, usize, usize))
    requires
        manifest.entries.ordered(),
        call_ensures(state_summary, (&manifest,), r),
    ensures
        ({
            let rows = table::listed(manifest@);
            let files = Set::<int>::new(
                |i: int|
                    0 <= i < rows.len() && (rows[i].1 is RegularFile || rows[i].1 is Symlink || rows[i].1 is NamedPipe),
            );
            let directories = Set::<int>::new(|i: int| 0 <= i < rows.len() && rows[i].1 is Directory);
            let unsupported = Set::<int>::new(|i: int| 0 <= i < rows.len() && rows[i].1 is Unsupported);
            r.0 == files.len() && r.1 == directories.len() && r.2 == unsupported.len()
        }),
{
    counts_are_sizes(table::listed(manifest@));
}

proof fn counts_are_sizes(rows: Seq<(Seq<char>, Print)>)
    ensures
        ({
            let files = Set::<int>::new(
                |i: int|
                    0 <= i < rows.len() && (rows[i].1 is RegularFile || rows[i].1 is Symlink || rows[i].1 is NamedPipe),
            );
            let directories = Set::<int>::new(|i: int| 0 <= i < rows.len() && rows[i].1 is Directory);
            let unsupported = Set::<int>::new(|i: int| 0 <= i < rows.len() && rows[i].1 is Unsupported);
            &&& files.finite() && directories.finite() && unsupported.finite()
            &&& counted(rows) == (files.len(), directories.len(), unsupported.len())
        }),
    decreases rows.len(),
{
    let files = Set::<int>::new(
        |i: int| 0 <= i < rows.len() && (rows[i].1 is RegularFile || rows[i].1 is Symlink || rows[i].1 is NamedPipe),
    );
    let directories = Set::<int>::new(|i: int| 0 <= i < rows.len() && rows[i].1 is Directory);
    let unsupported = Set::<int>::new(|i: int| 0 <= i < rows.len() && rows[i].1 is Unsupported);
    if rows.len() == 0 {
        assert(files =~= Set::<int>::empty());
        assert(directories =~= Set::<int>::empty());
        assert(unsupported =~= Set::<int>::empty());
    } else {
        let head = rows.drop_last();
        let last = rows.len() - 1;
        counts_are_sizes(head);
        let f = Set::<int>::new(
            |i: int| 0 <= i < head.len() && (head[i].1 is RegularFile || head[i].1 is Symlink || head[i].1 is NamedPipe),
        );
        let d = Set::<int>::new(|i: int| 0 <= i < head.len() && head[i].1 is Directory);
        let u = Set::<int>::new(|i: int| 0 <= i < head.len() && head[i].1 is Unsupported);
        if files.contains(last) {
            assert(files =~= f.insert(last));
        } else {
            assert(files =~= f);
        }
        if directories.contains(last) {
            assert(directories =~= d.insert(last));
        } else {
            assert(directories =~= d);
        }
        if unsupported.contains(last) {
            assert(unsupported =~= u.insert(last));
        } else {
            assert(unsupported =~= u);
        }
    }
}

/// A workspace is opened only where it was made: its marker, its catalog and its
/// store must be those of the place, and the store must lie outside.
pub proof fn a_workspace_is_opened_where_it_was_made(
    platform: Platform,
    pointer: WorkspacePointer,
    row: WorkspaceRow,
    root: &str,
    store: &str,
    placed: Result<()>,
    marked: Result<()>,
    listed: Result<()>,
    baseline: Result<String>,
)
    requires
        call_ensures(check_store, (platform, root, store), placed),
        call_ensures(check_marker, (&pointer, root), marked),
        call_ensures(check_catalog, (&pointer, &row), listed),
        call_ensures(baseline_id, (&row,), baseline),
    ensures
        placed is Ok == !paths::begins_with(platform, store@, root@),
        marked is Ok == (pointer.root@ == root@),
        listed is Ok == (row.root@ == pointer.root@),
        marked is Err ==> marked->Err_0 is WorkspaceIdentity,
        listed is Err ==> listed->Err_0 is WorkspaceIdentity,
        baseline is Ok == row.baseline_state is Some,
        baseline is Ok ==> baseline->Ok_0@ == row.baseline_state->0@,
{
}

} // verus!
