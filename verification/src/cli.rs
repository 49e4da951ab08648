//! The commands: what each of them says and how it ends, and what the hooks of
//! a shell leave behind.

use vstd::prelude::*;
use vstd::string::*;

use crate::db::{BoundaryRow, OperationDraft};
use crate::error::{Fault, RewindError};
use crate::model::{
    ArchiveStatus, Effect, Manifest, OperationKind, OperationRecord, OperationStatus, Reversibility, StateKind,
    TrackingConfidence, WorkspaceCondition,
};
use crate::order;
use crate::order::views;
use crate::outside;
use crate::outside::uuid_text;
use crate::scan;
use crate::scan::changes_between;
use crate::text;
use crate::text::decimal;
use crate::text::decimal_int;
use crate::text::occurs;
use crate::text::optional;
use crate::workspace::{RunOutcome, StateRequest, WorkspaceStatus};

verus! {

/// How long the scan of a hook may take, in milliseconds.
pub const HOOK_SCAN_DEADLINE_MS: u64 = 50;

/// How long a hook waits for the writer's lease, in milliseconds.
pub const HOOK_LEASE_RETRY_MS: u64 = 2000;

/// A list of lines to show.
#[derive(Debug)]
pub struct Lines {
    pub list: Vec<String>,
}

impl Lines {
    pub open spec fn shown(self) -> Seq<Seq<char>> {
        views(self.list@)
    }

    fn new() -> (r: Self)
        ensures
            r.shown() == Seq::<Seq<char>>::empty(),
    {
        let r = Lines { list: Vec::new() };
        assert(r.shown() =~= Seq::<Seq<char>>::empty());
        r
    }

    fn push(&mut self, line: String)
        ensures
            final(self).shown() == old(self).shown().push(line@),
    {
        proof {
            order::push_contains(self.list@, line);
        }
        self.list.push(line);
    }
}

/// What is said of a new workspace.
pub fn init_lines(id: u128, root: &str, condition: WorkspaceCondition) -> (r: Lines)
    ensures
        r.shown() == seq![
            "initialized workspace "@ + uuid_text(id),
            "root "@ + root@,
            "condition "@ + condition.text(),
        ],
{
    let mut lines = Lines::new();
    let mut line = text::copy("initialized workspace ");
    line.append(outside::identifier(id).as_str());
    lines.push(line);
    let mut line = text::copy("root ");
    line.append(root);
    lines.push(line);
    let mut line = text::copy("condition ");
    line.append(condition.as_str());
    lines.push(line);
    assert(lines.shown() =~= seq![
        "initialized workspace "@ + uuid_text(id),
        "root "@ + root@,
        "condition "@ + condition.text(),
    ]);
    lines
}

pub open spec fn truth(b: bool) -> Seq<char> {
    if b {
        "true"@
    } else {
        "false"@
    }
}

/// What is said of the status of a workspace.
pub fn status_lines(status: &WorkspaceStatus) -> (r: Lines)
    ensures
        r.shown() == seq![
            "workspace "@ + uuid_text(status.id),
            "root "@ + status.root@,
            "condition "@ + status.condition.text(),
            "baseline "@ + (match status.baseline {
                Some(id) => id@,
                None => "NONE"@,
            }),
            "open_unknown "@ + truth(status.open_unknown),
            "unfinished_transactions "@ + decimal(status.unfinished_transactions as nat),
        ],
{
    let mut lines = Lines::new();
    let mut line = text::copy("workspace ");
    line.append(outside::identifier(status.id).as_str());
    lines.push(line);
    let mut line = text::copy("root ");
    line.append(status.root.as_str());
    lines.push(line);
    let mut line = text::copy("condition ");
    line.append(status.condition.as_str());
    lines.push(line);
    let mut line = text::copy("baseline ");
    match &status.baseline {
        Some(id) => {
            line.append(id.as_str());
        },
        None => {
            line.append("NONE");
        },
    }
    lines.push(line);
    let mut line = text::copy("open_unknown ");
    line.append(
        if status.open_unknown {
            "true"
        } else {
            "false"
        },
    );
    lines.push(line);
    let mut line = text::copy("unfinished_transactions ");
    line.append(text::decimal_usize(status.unfinished_transactions).as_str());
    lines.push(line);
    assert(lines.shown() =~= seq![
        "workspace "@ + uuid_text(status.id),
        "root "@ + status.root@,
        "condition "@ + status.condition.text(),
        "baseline "@ + (match status.baseline {
            Some(id) => id@,
            None => "NONE"@,
        }),
        "open_unknown "@ + truth(status.open_unknown),
        "unfinished_transactions "@ + decimal(status.unfinished_transactions as nat),
    ]);
    lines
}

/// What a recovery says where there is no unfinished transaction, and how it
/// ends.
pub fn recover_idle(condition: WorkspaceCondition) -> (r: (String, i32))
    ensures
        if condition is RecoveryRequired || condition is Degraded {
            r.0@ == "no unfinished transaction; run rewind reconcile"@ && r.1 == 3
        } else {
            r.0@ == "no unfinished transaction; workspace is "@ + condition.text() && r.1 == 0
        },
{
    match condition {
        WorkspaceCondition::RecoveryRequired | WorkspaceCondition::Degraded => (
            text::copy("no unfinished transaction; run rewind reconcile"),
            3,
        ),
        _ => {
            let mut line = text::copy("no unfinished transaction; workspace is ");
            line.append(condition.as_str());
            (line, 0)
        },
    }
}

/// What a run says, and how it ends.
#[derive(Debug)]
pub struct RunReport {
    pub diagnostic: Option<String>,
    pub line: Option<String>,
    pub exit_code: i32,
}

/// Reports on a run. It ends as the command did, unless the command succeeded
/// and its effects could not be captured.
pub fn run_report(outcome: &RunOutcome) -> (r: RunReport)
    ensures
        optional(r.diagnostic) == match outcome.capture_error {
            Some(error) => Some("capture failed; reconciliation required: "@ + error@),
            None => None,
        },
        optional(r.line) == match outcome.operation_id {
            Some(id) => Some(
                (if outcome.captured {
                    "captured"@
                } else {
                    "recorded"@
                }) + " operation "@ + decimal_int(id as int),
            ),
            None => None,
        },
        r.exit_code == if outcome.capture_error is Some && outcome.exit_code == 0 {
            4i32
        } else {
            outcome.exit_code
        },
{
    let diagnostic = match &outcome.capture_error {
        Some(error) => {
            let mut message = text::copy("capture failed; reconciliation required: ");
            message.append(error.as_str());
            Some(message)
        },
        None => None,
    };
    let line = match outcome.operation_id {
        Some(id) => {
            let mut line = text::copy(
                if outcome.captured {
                    "captured"
                } else {
                    "recorded"
                },
            );
            line.append(" operation ");
            line.append(text::decimal_i64(id).as_str());
            Some(line)
        },
        None => None,
    };
    let exit_code: i32 = if diagnostic.is_some() && outcome.exit_code == 0 {
        4
    } else {
        outcome.exit_code
    };
    RunReport { diagnostic, line, exit_code }
}

/// What is said of a transaction that was committed.
pub fn committed_line(verb: &str, transaction_id: u128, state_id: &str) -> (r: String)
    ensures
        r@ == verb@ + " committed transaction "@ + uuid_text(transaction_id) + " at state "@ + state_id@,
{
    let mut line = text::copy(verb);
    line.append(" committed transaction ");
    line.append(outside::identifier(transaction_id).as_str());
    line.append(" at state ");
    line.append(state_id);
    line
}

/// The line of an operation in a list.
pub fn list_line(operation: &OperationRecord) -> (r: String)
    ensures
        r@ == "#"@ + decimal_int(operation.id as int) + " "@ + operation.kind.text() + " "@ + operation.status.text()
            + " "@ + operation.confidence.text() + " "@ + operation.reversibility.text() + " "@ + match operation.command {
            Some(command) => command@,
            None => ""@,
        },
{
    let mut line = text::copy("#");
    line.append(text::decimal_i64(operation.id).as_str());
    line.append(" ");
    line.append(operation.kind.as_str());
    line.append(" ");
    line.append(operation.status.as_str());
    line.append(" ");
    line.append(operation.confidence.as_str());
    line.append(" ");
    line.append(operation.reversibility.as_str());
    line.append(" ");
    match &operation.command {
        Some(command) => {
            line.append(command.as_str());
        },
        None => {
            line.append("");
        },
    }
    line
}

/// The line of a change.
pub fn diff_line(effect: &Effect) -> (r: String)
    ensures
        r@ == effect@.effect_type.text() + " "@ + effect@.path + " "@ + effect@.pre.describe() + " -> "@
            + effect@.post.describe(),
{
    let mut line = text::copy(effect.effect_type.as_str());
    line.append(" ");
    line.append(effect.path.as_str());
    line.append(" ");
    line.append(effect.pre.describe().as_str());
    line.append(" -> ");
    line.append(effect.post.describe().as_str());
    line
}

// ---------------------------------------------------------------------------
// The doctor
// ---------------------------------------------------------------------------

/// A checkup of a workspace: what was said so far, and how it ends.
#[derive(Debug)]
pub struct Doctor {
    pub lines: Lines,
    pub exit_code: i32,
}

impl Doctor {
    /// Whether a finding adds a line, and calls for attention.
    pub open spec fn says(self, before: Doctor, line: Seq<char>, attention: bool) -> bool {
        &&& self.lines.shown() == before.lines.shown().push(line)
        &&& self.exit_code == if attention {
            3i32
        } else {
            before.exit_code
        }
    }

    /// Begins with the workspace and its condition.
    pub fn begin(id: u128, condition: WorkspaceCondition) -> (r: Self)
        ensures
            r.lines.shown() == seq!["workspace "@ + uuid_text(id), "condition "@ + condition.text()],
            r.exit_code == 0,
    {
        let mut lines = Lines::new();
        let mut line = text::copy("workspace ");
        line.append(outside::identifier(id).as_str());
        lines.push(line);
        let mut line = text::copy("condition ");
        line.append(condition.as_str());
        lines.push(line);
        assert(lines.shown() =~= seq!["workspace "@ + uuid_text(id), "condition "@ + condition.text()]);
        Doctor { lines, exit_code: 0 }
    }

    /// The catalog must be sound.
    pub fn catalog(&mut self, integrity: &str)
        ensures
            final(self).says(*old(self), "catalog "@ + integrity@, integrity@ != "ok"@),
    {
        let mut line = text::copy("catalog ");
        line.append(integrity);
        self.lines.push(line);
        if !text::same(integrity, "ok") {
            self.exit_code = 3;
        }
    }

    /// The writer's lease should be free.
    pub fn lease(&mut self, error: &str)
        ensures
            final(self).says(*old(self), "writer_lock unavailable: "@ + error@, true),
    {
        let mut line = text::copy("writer_lock unavailable: ");
        line.append(error);
        self.lines.push(line);
        self.exit_code = 3;
    }

    /// The baseline, and what it holds.
    pub fn baseline(&mut self, baseline: &str, summary: (usize, usize, usize))
        ensures
            final(self).says(
                *old(self),
                "baseline "@ + baseline@ + " files="@ + decimal(summary.0 as nat) + " directories="@ + decimal(
                    summary.1 as nat,
                ) + " unsupported="@ + decimal(summary.2 as nat),
                false,
            ),
    {
        let mut line = text::copy("baseline ");
        line.append(baseline);
        line.append(" files=");
        line.append(text::decimal_usize(summary.0).as_str());
        line.append(" directories=");
        line.append(text::decimal_usize(summary.1).as_str());
        line.append(" unsupported=");
        line.append(text::decimal_usize(summary.2).as_str());
        self.lines.push(line);
    }

    /// The workspace should be in its baseline.
    pub fn drift(&mut self, baseline: &str, observed: &str)
        ensures
            if observed@ == baseline@ {
                *final(self) == *old(self)
            } else {
                final(self).says(
                    *old(self),
                    "baseline_drift expected="@ + baseline@ + " observed="@ + observed@,
                    true,
                )
            },
    {
        if text::same(observed, baseline) {
            return;
        }
        let mut line = text::copy("baseline_drift expected=");
        line.append(baseline);
        line.append(" observed=");
        line.append(observed);
        self.lines.push(line);
        self.exit_code = 3;
    }

    /// No transaction should be unfinished.
    pub fn unfinished(&mut self, id: &str, state: &str, journal: &str)
        ensures
            final(self).says(
                *old(self),
                "unfinished transaction "@ + id@ + " "@ + state@ + " "@ + journal@,
                true,
            ),
    {
        let mut line = text::copy("unfinished transaction ");
        line.append(id);
        line.append(" ");
        line.append(state);
        line.append(" ");
        line.append(journal);
        self.lines.push(line);
        self.exit_code = 3;
    }

    /// An archive that is still to be made.
    pub fn archive(&mut self, transaction_id: u128, status: ArchiveStatus, error: &Option<String>)
        ensures
            final(self).says(
                *old(self),
                "archive_pending transaction="@ + uuid_text(transaction_id) + " status="@ + archive_name(status)
                    + " error="@ + match *error {
                    Some(e) => e@,
                    None => ""@,
                },
                false,
            ),
    {
        let mut line = text::copy("archive_pending transaction=");
        line.append(outside::identifier(transaction_id).as_str());
        line.append(" status=");
        line.append(
            match status {
                ArchiveStatus::NotRequired => "NotRequired",
                ArchiveStatus::Pending => "Pending",
                ArchiveStatus::Archived => "Archived",
                ArchiveStatus::Failed => "Failed",
            },
        );
        line.append(" error=");
        match error {
            Some(e) => {
                line.append(e.as_str());
            },
            None => {
                line.append("");
            },
        }
        self.lines.push(line);
    }

    /// What to do about the condition, if it is not healthy.
    pub fn advice(&mut self, condition: WorkspaceCondition)
        ensures
            if condition is Healthy {
                *final(self) == *old(self)
            } else {
                final(self).says(
                    *old(self),
                    if condition is RecoveryRequired {
                        "action: run `rewind recover` to classify the unfinished transaction; if it cannot be completed safely, run `rewind recover --reconcile`"@
                    } else {
                        "action: run rewind reconcile before normal capture or rollback"@
                    },
                    true,
                )
            },
    {
        match condition {
            WorkspaceCondition::Healthy => {},
            WorkspaceCondition::RecoveryRequired => {
                self.lines.push(
                    text::copy(
                        "action: run `rewind recover` to classify the unfinished transaction; if it cannot be completed safely, run `rewind recover --reconcile`",
                    ),
                );
                self.exit_code = 3;
            },
            _ => {
                self.lines.push(text::copy("action: run rewind reconcile before normal capture or rollback"));
                self.exit_code = 3;
            },
        }
    }
}

/// The name of an archive status.
pub open spec fn archive_name(status: ArchiveStatus) -> Seq<char> {
    match status {
        ArchiveStatus::NotRequired => "NotRequired"@,
        ArchiveStatus::Pending => "Pending"@,
        ArchiveStatus::Archived => "Archived"@,
        ArchiveStatus::Failed => "Failed"@,
    }
}

// ---------------------------------------------------------------------------
// The hooks
// ---------------------------------------------------------------------------

/// The session that a boundary belongs to: the one given, else the one of the
/// environment, else one named after the process.
pub fn session_id(value: &Option<String>, environment: &Option<String>, pid: u32) -> (r: String)
    ensures
        r@ == match (*value, *environment) {
            (Some(v), _) => v@,
            (None, Some(e)) => e@,
            (None, None) => "shell-"@ + decimal(pid as nat),
        },
{
    match value {
        Some(v) => text::copy(v.as_str()),
        None => match environment {
            Some(e) => text::copy(e.as_str()),
            None => {
                let mut session = text::copy("shell-");
                session.append(text::decimal_u64(pid as u64).as_str());
                session
            },
        },
    }
}

/// Why the end of a command is not accounted for, if it is not: its boundary is
/// not known here, or another hook has accounted for it.
pub fn hook_post(boundary_id: &str, known: bool, claimed: bool) -> (r: Option<String>)
    ensures
        r is None == (known && claimed),
        r is Some ==> r->0@ == "rewind hook diagnostic: passive boundary "@ + boundary_id@ + (if !known {
            " is not present in this workspace (unknown id or another workspace); no bookkeeping performed"@
        } else {
            " was already accounted for; no bookkeeping performed"@
        }),
{
    if known && claimed {
        return None;
    }
    let mut message = text::copy("rewind hook diagnostic: passive boundary ");
    message.append(boundary_id);
    if !known {
        message.append(
            " is not present in this workspace (unknown id or another workspace); no bookkeeping performed",
        );
    } else {
        message.append(" was already accounted for; no bookkeeping performed");
    }
    Some(message)
}

/// Whether a hook has waited long enough for the lease.
pub fn lease_wait_is_over(elapsed_ms: u64) -> (r: bool)
    ensures
        r == (elapsed_ms >= HOOK_LEASE_RETRY_MS),
{
    elapsed_ms >= HOOK_LEASE_RETRY_MS
}

/// What a hook that holds the lease does.
#[derive(Debug)]
pub enum HookPlan {
    /// A writer has work to finish: the boundary is marked as passed by.
    Bypass,
    /// The workspace is not trusted: only that a command ran is recorded.
    BoundaryOnly(OperationDraft),
    /// The workspace is scanned.
    Observe,
}

/// Whether a draft only says that a command ran.
pub open spec fn is_boundary_only(
    draft: OperationDraft,
    boundary: BoundaryRow,
    baseline: Option<Seq<char>>,
    exit_code: i32,
) -> bool {
    &&& draft.kind == OperationKind::BoundaryOnly
    &&& draft.status == OperationStatus::Untrusted
    &&& optional(draft.pre_state_id) == baseline
    &&& draft.post_state_id is None
    &&& optional(draft.command) == Some(boundary.command@)
    &&& optional(draft.cwd) == Some(boundary.cwd@)
    &&& draft.exit_code == Some(exit_code)
    &&& draft.confidence == TrackingConfidence::Degraded
    &&& draft.reversibility == Reversibility::Unavailable
    &&& optional(draft.error) == Some("workspace requires reconciliation"@)
    &&& draft.effects@.len() == 0
}

/// Decides what a hook does with a boundary that it has claimed. It never
/// recovers a transaction, and never makes an observation up.
pub fn hook_post_locked(
    unfinished_transactions: bool,
    condition: WorkspaceCondition,
    baseline: &Option<String>,
    boundary: &BoundaryRow,
    exit_code: i32,
) -> (r: HookPlan)
    ensures
        r is Bypass == unfinished_transactions,
        r is Observe == (!unfinished_transactions && condition is Healthy),
        r is BoundaryOnly ==> is_boundary_only(r->BoundaryOnly_0, *boundary, optional(*baseline), exit_code),
{
    if unfinished_transactions {
        return HookPlan::Bypass;
    }
    if condition == WorkspaceCondition::Healthy {
        return HookPlan::Observe;
    }
    HookPlan::BoundaryOnly(
        OperationDraft {
            kind: OperationKind::BoundaryOnly,
            status: OperationStatus::Untrusted,
            pre_state_id: text::copy_optional(baseline),
            post_state_id: None,
            command: Some(text::copy(boundary.command.as_str())),
            cwd: Some(text::copy(boundary.cwd.as_str())),
            exit_code: Some(exit_code),
            confidence: TrackingConfidence::Degraded,
            reversibility: Reversibility::Unavailable,
            error: Some(text::copy("workspace requires reconciliation")),
            effects: Vec::new(),
        },
    )
}

/// The state that an observation stores.
pub fn observed_state(baseline: &str) -> (r: StateRequest)
    ensures
        r.kind == StateKind::Observation,
        r.parent@ == baseline@,
        r.label@ == "passive-observation"@,
{
    StateRequest { kind: StateKind::Observation, parent: text::copy(baseline), label: "passive-observation" }
}

/// Records what a command changed, as it was seen afterwards. Such an
/// observation is of low confidence and cannot be undone.
pub fn observation(
    boundary: &BoundaryRow,
    exit_code: i32,
    baseline: &str,
    post_state: &str,
    before: &Manifest,
    after: &Manifest,
) -> (r: OperationDraft)
    ensures
        r.kind == OperationKind::PassiveObservation,
        r.status == OperationStatus::Completed,
        optional(r.pre_state_id) == Some(baseline@),
        optional(r.post_state_id) == Some(post_state@),
        optional(r.command) == Some(boundary.command@),
        optional(r.cwd) == Some(boundary.cwd@),
        r.exit_code == Some(exit_code),
        r.confidence == TrackingConfidence::LowConfidenceObservation,
        r.reversibility == Reversibility::Unavailable,
        r.error is None,
        views(r.effects@) == changes_between(before@, after@),
{
    OperationDraft {
        kind: OperationKind::PassiveObservation,
        status: OperationStatus::Completed,
        pre_state_id: Some(text::copy(baseline)),
        post_state_id: Some(text::copy(post_state)),
        command: Some(text::copy(boundary.command.as_str())),
        cwd: Some(text::copy(boundary.cwd.as_str())),
        exit_code: Some(exit_code),
        confidence: TrackingConfidence::LowConfidenceObservation,
        reversibility: Reversibility::Unavailable,
        error: None,
        effects: scan::diff_manifests(before, after),
    }
}

/// The reason of a capture gap, where a hook failed because its scan ran out of
/// time. Any other failure leaves a mark for the next writer.
pub fn capture_gap(error: &RewindError) -> (r: Option<String>)
    ensures
        optional(r) == match error@ {
            Fault::ScanIncomplete(reason) => if occurs("deadline"@, reason) {
                Some(reason)
            } else {
                None
            },
            _ => None,
        },
{
    match error {
        RewindError::ScanIncomplete(reason) => if text::contains(reason.as_str(), "deadline") {
            Some(text::copy(reason.as_str()))
        } else {
            None
        },
        _ => None,
    }
}

/// The mark of a boundary that a hook passed by.
pub fn bypass_line(boundary_id: &str, pid: u32) -> (r: String)
    ensures
        r@ == "{\"boundary\":\""@ + boundary_id@ + "\",\"kind\":\"BYPASS_PENDING\",\"pid\":"@ + decimal(pid as nat)
            + "}"@,
{
    let mut line = text::copy("{\"boundary\":\"");
    line.append(boundary_id);
    line.append("\",\"kind\":\"BYPASS_PENDING\",\"pid\":");
    line.append(text::decimal_u64(pid as u64).as_str());
    line.append("}");
    line
}

/// A scan that ran out of time is told from every other fault of a scan.
pub proof fn deadline_is_a_gap()
    ensures
        occurs("deadline"@, scan::out_of_time()->ScanIncomplete_0),
{
    reveal_strlit("deadline");
    reveal_strlit("scan deadline exceeded");
    let whole = "scan deadline exceeded"@;
    assert(whole.len() == 22 && "deadline"@.len() == 8);
    assert(whole.subrange(5, 13) =~= "deadline"@);
    let width = "deadline"@.len() as int;
    assert(whole.subrange(5, 5 + width) == "deadline"@);
}

// ---------------------------------------------------------------------------
// What the calls promise
// ---------------------------------------------------------------------------

/// A run ends as its command did. Only where the command succeeded and what it
/// changed is not known does it end otherwise, and then with a failure; what
/// went wrong is said whenever anything did.
pub proof fn a_run_ends_as_its_command(outcome: RunOutcome, r: RunReport)
    requires
        call_ensures(run_report, (&outcome,), r),
    ensures
        outcome.capture_error is None || outcome.exit_code != 0 ==> r.exit_code == outcome.exit_code,
        outcome.capture_error is Some ==> r.exit_code != 0,
        r.diagnostic is Some == outcome.capture_error is Some,
        r.line is Some == outcome.operation_id is Some,
{
}

/// A hook observes only a workspace that can be trusted and that no transaction
/// is at work in. Otherwise it leaves a mark, or records no more than that a
/// command ran.
pub proof fn a_hook_makes_nothing_up(
    unfinished: bool,
    condition: WorkspaceCondition,
    baseline: Option<String>,
    boundary: BoundaryRow,
    exit_code: i32,
    r: HookPlan,
)
    requires
        call_ensures(hook_post_locked, (unfinished, condition, &baseline, &boundary, exit_code), r),
    ensures
        r is Observe == (!unfinished && condition == WorkspaceCondition::Healthy),
        r is Bypass == unfinished,
        r is BoundaryOnly ==> {
            let draft = r->BoundaryOnly_0;
            &&& draft.kind == OperationKind::BoundaryOnly
            &&& draft.effects@.len() == 0
            &&& draft.post_state_id is None
            &&& draft.reversibility == Reversibility::Unavailable
            &&& draft.status != OperationStatus::Completed
            &&& draft.confidence == TrackingConfidence::Degraded
            &&& draft.command is Some
            &&& draft.command->0@ == boundary.command@
            &&& draft.cwd is Some
            &&& draft.cwd->0@ == boundary.cwd@
            &&& draft.exit_code == Some(exit_code)
            &&& draft.pre_state_id is Some == baseline is Some
            &&& baseline is Some ==> draft.pre_state_id->0@ == baseline->0@
        },
{
}

/// An observation records the command, the two states and each path on which
/// they differ, and it is neither trusted in full nor undone.
pub proof fn an_observation_is_recorded_as_seen(
    boundary: BoundaryRow,
    exit_code: i32,
    baseline: &str,
    post_state: &str,
    before: Manifest,
    after: Manifest,
    draft: OperationDraft,
    path: Seq<char>,
)
    requires
        before.entries.ordered(),
        after.entries.ordered(),
        call_ensures(observation, (&boundary, exit_code, baseline, post_state, &before, &after), draft),
    ensures
        draft.kind == OperationKind::PassiveObservation,
        draft.confidence == TrackingConfidence::LowConfidenceObservation,
        draft.reversibility == Reversibility::Unavailable,
        draft.pre_state_id is Some,
        draft.pre_state_id->0@ == baseline@,
        draft.post_state_id is Some,
        draft.post_state_id->0@ == post_state@,
        draft.command is Some,
        draft.command->0@ == boundary.command@,
        draft.exit_code == Some(exit_code),
        (crate::model::at(before@, path) != crate::model::at(after@, path)) == exists|i: int|
            0 <= i < draft.effects@.len() && (#[trigger] draft.effects@[i]).path@ == path,
        forall|i: int|
            0 <= i < draft.effects@.len() && (#[trigger] draft.effects@[i]).path@ == path ==> draft.effects@[i].pre@
                == crate::model::at(before@, path) && draft.effects@[i].post@ == crate::model::at(after@, path),
{
    let changes = changes_between(before@, after@);
    let effects = draft.effects@;
    scan::changes_are_exact(before, after, path);
    assert(views(effects).len() == effects.len());
    assert forall|i: int| 0 <= i < effects.len() implies (#[trigger] effects[i])@ == changes[i] by {
        assert(views(effects)[i] == effects[i]@);
    }
    if crate::model::at(before@, path) != crate::model::at(after@, path) {
        let i = choose|i: int| 0 <= i < changes.len() && (#[trigger] changes[i]).path == path;
        assert(effects[i].path@ == path);
    }
    if exists|i: int| 0 <= i < effects.len() && (#[trigger] effects[i]).path@ == path {
        let i = choose|i: int| 0 <= i < effects.len() && (#[trigger] effects[i]).path@ == path;
        assert(changes[i].path == path);
    }
}

/// The end of a command is accounted for exactly once: where its boundary is
/// known here and this hook has claimed it.
pub proof fn a_hook_accounts_once(boundary_id: &str, known: bool, claimed: bool, r: Option<String>)
    requires
        call_ensures(hook_post, (boundary_id, known, claimed), r),
    ensures
        r is None == (known && claimed),
{
}

/// A session is the one that was named, else the one of the environment, else
/// one that two processes do not share.
pub proof fn sessions_are_told_apart(
    value: Option<String>,
    environment: Option<String>,
    pid: u32,
    other: u32,
    r: String,
    s: String,
)
    requires
        call_ensures(session_id, (&value, &environment, pid), r),
        call_ensures(session_id, (&None, &None, other), s),
    ensures
        value is Some ==> r@ == value->0@,
        value is None && environment is Some ==> r@ == environment->0@,
        value is None && environment is None ==> (r@ == s@) == (pid == other),
{
    if value is None && environment is None && r@ == s@ {
        let a = decimal(pid as nat);
        let b = decimal(other as nat);
        let head = "shell-"@;
        assert(a =~= (head + a).skip(head.len() as int));
        assert(b =~= (head + b).skip(head.len() as int));
        crate::text::decimal_injective(pid as nat, other as nat);
    }
}

/// A checkup that found anything wrong ends with a failure, whatever it finds
/// afterwards; a sound catalog, a baseline without drift and a healthy condition
/// are no reason.
pub proof fn a_checkup_keeps_what_it_found(
    doctor: &mut Doctor,
    integrity: &str,
    baseline: &str,
    observed: &str,
    condition: WorkspaceCondition,
)
    ensures
        call_ensures(Doctor::catalog, (doctor, integrity), ()) ==> final(doctor).exit_code == if integrity@ == "ok"@ {
            old(doctor).exit_code
        } else {
            3
        },
        call_ensures(Doctor::drift, (doctor, baseline, observed), ()) ==> final(doctor).exit_code == if observed@
            == baseline@ {
            old(doctor).exit_code
        } else {
            3
        },
        call_ensures(Doctor::advice, (doctor, condition), ()) ==> final(doctor).exit_code == if condition
            == WorkspaceCondition::Healthy {
            old(doctor).exit_code
        } else {
            3
        },
        call_ensures(Doctor::lease, (doctor, integrity), ()) ==> final(doctor).exit_code == 3,
        call_ensures(Doctor::unfinished, (doctor, integrity, baseline, observed), ()) ==> final(doctor).exit_code == 3,
{
}

/// A text with something before it and something behind it.
pub open spec fn around(before: Seq<char>, middle: Seq<char>, behind: Seq<char>) -> Seq<char> {
    before + middle + behind
}

/// The line of an operation in a list names it first and ends with its command.
pub proof fn a_list_names_operation_and_command(operation: OperationRecord, r: String)
    requires
        call_ensures(list_line, (&operation,), r),
    ensures
        exists|rest: Seq<char>| r@ == #[trigger] around("#"@, decimal_int(operation.id as int), rest),
        operation.command is Some ==> exists|lead: Seq<char>|
            r@ == #[trigger] around(lead, " "@, operation.command->0@),
{
    let said = match operation.command {
        Some(command) => command@,
        None => ""@,
    };
    let middle = " "@ + operation.kind.text() + " "@ + operation.status.text() + " "@ + operation.confidence.text()
        + " "@ + operation.reversibility.text();
    let id = decimal_int(operation.id as int);
    assert(r@ =~= around("#"@, id, middle + " "@ + said));
    assert(r@ =~= around("#"@ + id + middle, " "@, said));
}

/// The line of a change begins with what happened and to which path, and ends
/// with what stands there now.
pub proof fn a_diff_names_path_and_objects(effect: Effect, r: String)
    requires
        call_ensures(diff_line, (&effect,), r),
    ensures
        exists|rest: Seq<char>|
            r@ == #[trigger] around(effect.effect_type.text() + " "@, effect.path@, " "@ + rest),
        exists|lead: Seq<char>|
            r@ == #[trigger] around(lead, effect.pre@.describe() + " -> "@, effect.post@.describe()),
{
    let kind = effect.effect_type.text();
    let pre = effect.pre@.describe();
    let post = effect.post@.describe();
    assert(r@ =~= around(kind + " "@, effect.path@, " "@ + (pre + " -> "@ + post)));
    assert(r@ =~= around(kind + " "@ + effect.path@ + " "@, pre + " -> "@, post));
}

/// A status says the condition of the workspace, its baseline where there is
/// one, and how many transactions are unfinished.
pub proof fn a_status_says_condition_and_baseline(status: WorkspaceStatus, r: Lines)
    requires
        call_ensures(status_lines, (&status,), r),
    ensures
        r.list@.len() == 6,
        r.list@[2]@ == "condition "@ + status.condition.text(),
        status.baseline is Some ==> r.list@[3]@ == "baseline "@ + status.baseline->0@,
        status.baseline is None ==> r.list@[3]@ == "baseline "@ + "NONE"@,
        r.list@[5]@ == "unfinished_transactions "@ + decimal(status.unfinished_transactions as nat),
{
    let shown = r.shown();
    assert(shown.len() == r.list@.len());
    assert(shown[2] == r.list@[2]@);
    assert(shown[3] == r.list@[3]@);
    assert(shown[5] == r.list@[5]@);
}

} // verus!
