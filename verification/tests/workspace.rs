//! The rules of a workspace: identity, trust, runs, repair, hooks and reports.

use rewind::cli::{
    bypass_line, capture_gap, committed_line, diff_line, hook_post, hook_post_locked, init_lines,
    lease_wait_is_over, list_line, observation, observed_state, recover_idle, run_report,
    session_id, status_lines, Doctor, HookPlan, HOOK_LEASE_RETRY_MS,
};
use rewind::db::{self, finish_boundary, BoundaryRecord, BoundaryRow, WorkspaceRow};
use rewind::error::RewindError;
use rewind::model::{
    ArchiveStatus, Effect, EffectType, Fingerprint, Journal, JournalStatus, Manifest,
    OperationKind, OperationRecord, OperationStatus, Reversibility, StateKind, TrackingConfidence,
    WorkspaceCondition, WorkspacePointer,
};
use rewind::paths::Platform;
use rewind::workspace::{
    baseline_id, check_catalog, check_marker, check_reconcile, check_store,
    enforce_pending_safety_gate, ensure_healthy_locked, lease_owner, lease_unavailable,
    mark_reconciliation_required, needs_rescan, new_pointer, reconcile_locked,
    record_capture_failure, repair_committed_metadata, state_summary, CommandRun, Readiness,
    RunNext, RunOutcome, WorkspaceStatus,
};

fn pointer() -> WorkspacePointer {
    new_pointer(7, "/ws", "/store")
}

fn row(condition: WorkspaceCondition, baseline: &str) -> WorkspaceRow {
    WorkspaceRow {
        id: 7,
        root: "/ws".to_owned(),
        condition,
        baseline_state: Some(baseline.to_owned()),
    }
}

#[test]
fn initialization_is_idempotent_and_external_store_is_required() {
    assert!(check_store(Platform::Posix, "/ws", "/store").is_ok());
    assert!(check_store(Platform::Posix, "/ws", "/wsx").is_ok());
    assert_eq!(
        check_store(Platform::Posix, "/ws", "/ws/.store").expect_err("inside").message(),
        "storage error: external store must not be inside the workspace"
    );
    assert!(check_marker(&pointer(), "/ws").is_ok());
    assert_eq!(
        check_marker(&pointer(), "/other").expect_err("moved").message(),
        "workspace identity conflict: existing marker points to /ws, not /other"
    );
    assert!(check_catalog(&pointer(), &row(WorkspaceCondition::Healthy, "s")).is_ok());
    let mut other = row(WorkspaceCondition::Healthy, "s");
    other.root = "/x".to_owned();
    assert!(check_catalog(&pointer(), &other).is_err());
    assert_eq!(baseline_id(&row(WorkspaceCondition::Healthy, "s")).expect("baseline"), "s");
    other.baseline_state = None;
    assert_eq!(
        baseline_id(&other).expect_err("none").message(),
        "not found: trusted baseline"
    );
}

#[test]
fn the_lease_names_its_owner() {
    assert_eq!(
        lease_owner(42, 1),
        "pid=42 transaction-process=00000000-0000-0000-0000-000000000001\n"
    );
    assert_eq!(
        lease_unavailable("/l", "held").message(),
        "lock unavailable: /l: held"
    );
    assert!(!lease_wait_is_over(HOOK_LEASE_RETRY_MS - 1));
    assert!(lease_wait_is_over(HOOK_LEASE_RETRY_MS));
}

#[test]
fn an_unknown_interval_is_opened_once() {
    let gate = mark_reconciliation_required(&Some("s".to_owned()), false, "why");
    assert_eq!(
        gate.unknown,
        Some((Some("s".to_owned()), "why".to_owned()))
    );
    assert_eq!(gate.condition, WorkspaceCondition::ReconciliationRequired);
    assert_eq!(gate.baseline.as_deref(), Some("s"));
    assert!(mark_reconciliation_required(&None, true, "why").unknown.is_none());
    assert!(enforce_pending_safety_gate(false, false, &None, false).is_none());
    assert!(enforce_pending_safety_gate(true, false, &None, false).is_some());
    assert!(enforce_pending_safety_gate(false, true, &None, false).is_some());
}

#[test]
fn trust_is_restored_by_reconciling_alone() {
    assert!(matches!(
        ensure_healthy_locked(WorkspaceCondition::Healthy),
        Ok(Readiness::Ready)
    ));
    assert!(matches!(
        ensure_healthy_locked(WorkspaceCondition::ReconciliationRequired),
        Ok(Readiness::Reconcile(_))
    ));
    assert!(ensure_healthy_locked(WorkspaceCondition::RecoveryRequired).is_err());
    assert!(check_reconcile(WorkspaceCondition::RecoveryRequired).is_err());
    assert!(check_reconcile(WorkspaceCondition::Degraded).is_ok());

    let changed = reconcile_locked(&Some("a".to_owned()), "b", false, "drift");
    assert_eq!(
        changed.unknown,
        Some(("a".to_owned(), "drift".to_owned()))
    );
    assert_eq!(changed.state_id, "b");
    assert_eq!(changed.condition, WorkspaceCondition::Healthy);
    assert!(reconcile_locked(&Some("b".to_owned()), "b", false, "x").unknown.is_none());
    assert!(reconcile_locked(&Some("a".to_owned()), "b", true, "x").unknown.is_none());
    assert!(reconcile_locked(&None, "b", false, "x").unknown.is_none());
}

fn manifest(hash: &str) -> Manifest {
    let mut manifest = Manifest::empty();
    manifest.entries.insert("foo.txt".to_owned(), file(hash));
    manifest
}

fn file(hash: &str) -> Fingerprint {
    Fingerprint::RegularFile {
        content_hash: hash.to_owned(),
        size: 1,
        metadata: Default::default(),
    }
}

#[test]
fn a_captured_run_records_its_effects() {
    assert!(CommandRun::begin(Vec::new(), "/ws").is_err());
    let mut run = CommandRun::begin(vec!["sh".to_owned(), "-c".to_owned(), "x".to_owned()], "/ws")
        .expect("run");
    assert!(matches!(
        run.pre_scanned("s0", &Ok("elsewhere".to_owned()), false),
        RunNext::Reconcile(_)
    ));
    match run.pre_scanned("s0", &Ok("s0".to_owned()), false) {
        RunNext::Persist(request) => {
            assert_eq!(request.kind, StateKind::Baseline);
            assert_eq!(request.parent, "s0");
        }
        other => panic!("unexpected {other:?}"),
    }
    assert!(matches!(run.ready("s0"), RunNext::Execute));
    assert!(matches!(run.executed(Some(3)), RunNext::Scan));
    assert!(matches!(run.post_scanned(&Ok(()), false), RunNext::Persist(_)));
    match run.persisted(&Ok("s1".to_owned()), &manifest("a"), &manifest("b"), false) {
        RunNext::Record(draft) => {
            assert_eq!(draft.kind, OperationKind::Strong);
            assert_eq!(draft.command.as_deref(), Some("sh -c x"));
            assert_eq!(draft.pre_state_id.as_deref(), Some("s0"));
            assert_eq!(draft.post_state_id.as_deref(), Some("s1"));
            assert_eq!(draft.exit_code, Some(3));
            assert_eq!(draft.reversibility, Reversibility::FullyReversible);
            assert_eq!(draft.effects.len(), 1);
        }
        other => panic!("unexpected {other:?}"),
    }
    let (baseline, outcome) = run.finish(12);
    assert_eq!(baseline.as_deref(), Some("s1"));
    assert!(outcome.captured);
    assert_eq!(outcome.exit_code, 3);
    assert_eq!(outcome.operation_id, Some(12));
}

#[test]
fn failed_capture_enters_reconciliation_and_does_not_fabricate_operation() {
    let mut run = CommandRun::begin(vec!["x".to_owned()], "/ws").expect("run");
    run.ready("s0");
    run.executed(None);
    let error = RewindError::ScanIncomplete("denied".to_owned());
    match run.post_scanned(&Err(error), false) {
        RunNext::Fail(failure) => {
            assert_eq!(failure.draft.kind, OperationKind::CaptureFailed);
            assert_eq!(failure.draft.post_state_id, None);
            assert!(failure.draft.effects.is_empty());
            assert_eq!(failure.draft.exit_code, Some(1));
            assert_eq!(
                failure.gate.condition,
                WorkspaceCondition::ReconciliationRequired
            );
        }
        other => panic!("unexpected {other:?}"),
    }
    let (baseline, outcome) = run.finish(1);
    assert!(baseline.is_none() && !outcome.captured);
    let report = run_report(&outcome);
    assert_eq!(
        report.diagnostic.as_deref(),
        Some("capture failed; reconciliation required: scan incomplete: denied")
    );
    assert_eq!(report.line.as_deref(), Some("recorded operation 1"));
    assert_eq!(report.exit_code, 1);

    let refused = CommandRun::begin(vec!["x".to_owned()], "/ws").expect("run").pre_scanned(
        "s0",
        &Err(RewindError::Io("disk".to_owned())),
        true,
    );
    match refused {
        RunNext::Refuse(gate) => assert!(gate.unknown.is_none()),
        other => panic!("unexpected {other:?}"),
    }
    let failure = record_capture_failure(&None, &None, &None, None, "e", false);
    assert_eq!(failure.draft.error.as_deref(), Some("e"));
}

#[test]
fn a_lost_capture_is_no_success() {
    let outcome = RunOutcome {
        operation_id: Some(2),
        exit_code: 0,
        captured: false,
        capture_error: Some("e".to_owned()),
    };
    assert_eq!(run_report(&outcome).exit_code, 4);
    let fine = RunOutcome {
        operation_id: Some(2),
        exit_code: 0,
        captured: true,
        capture_error: None,
    };
    let report = run_report(&fine);
    assert_eq!(report.line.as_deref(), Some("captured operation 2"));
    assert_eq!((report.diagnostic, report.exit_code), (None, 0));
}

fn committed(direction: &str) -> Journal {
    Journal {
        transaction_id: 5,
        workspace_id: 7,
        operation_id: Some(3),
        anchor_state_id: "anchor".to_owned(),
        target_state_id: "target".to_owned(),
        direction: direction.to_owned(),
        status: JournalStatus::Committed,
        steps: Vec::new(),
        archive_status: ArchiveStatus::NotRequired,
        archive_error: None,
    }
}

#[test]
fn committed_metadata_crash_window_repairs_idempotently() {
    let journal = committed("UNDO");
    let stale = row(WorkspaceCondition::Healthy, "anchor");
    assert!(needs_rescan(&journal, &stale));
    let scanned = Some("target".to_owned());
    let repair =
        repair_committed_metadata(&journal, &stale, Some(OperationStatus::Completed), &scanned);
    assert!(repair.transaction);
    assert_eq!(
        repair.operation,
        Some((3, OperationStatus::Undone)),
        "direction honored"
    );
    assert_eq!(repair.baseline.as_deref(), Some("target"));

    // The baseline follows only where the live state agrees.
    let elsewhere = Some("elsewhere".to_owned());
    let repair =
        repair_committed_metadata(&journal, &stale, Some(OperationStatus::Completed), &elsewhere);
    assert!(repair.baseline.is_none());

    let repaired = row(WorkspaceCondition::Healthy, "target");
    assert!(!needs_rescan(&journal, &repaired));
    let again =
        repair_committed_metadata(&journal, &repaired, Some(OperationStatus::Undone), &scanned);
    assert!(again.operation.is_none() && again.baseline.is_none());
    let redo = repair_committed_metadata(
        &committed("REDO"),
        &repaired,
        Some(OperationStatus::Undone),
        &None,
    );
    assert_eq!(redo.operation, Some((3, OperationStatus::Completed)));
}

#[test]
fn pipes_count_among_the_files() {
    let mut state = manifest("a");
    state.entries.insert(
        "pipe".to_owned(),
        Fingerprint::NamedPipe {
            metadata: Default::default(),
        },
    );
    state.entries.insert(
        "socket".to_owned(),
        Fingerprint::Unsupported {
            object_kind: "UNIX_SOCKET".to_owned(),
            descriptor: "0".to_owned(),
        },
    );
    let directory = Fingerprint::directory_from_children(&manifest("a").entries, Default::default())
        .expect("directory");
    state.entries.insert("dir".to_owned(), directory);
    assert_eq!(state_summary(&state), (2, 1, 1));
}

#[test]
fn the_doctor_collects_findings() {
    let mut doctor = Doctor::begin(7, WorkspaceCondition::Healthy);
    doctor.catalog("ok");
    doctor.baseline("s", (1, 2, 3));
    doctor.drift("s", "s");
    doctor.archive(5, ArchiveStatus::Failed, &Some("full".to_owned()));
    doctor.advice(WorkspaceCondition::Healthy);
    assert_eq!(doctor.exit_code, 0);
    assert_eq!(
        doctor.lines.list,
        [
            "workspace 00000000-0000-0000-0000-000000000007",
            "condition HEALTHY",
            "catalog ok",
            "baseline s files=1 directories=2 unsupported=3",
            "archive_pending transaction=00000000-0000-0000-0000-000000000005 status=Failed error=full",
        ]
    );
    let mut doctor = Doctor::begin(7, WorkspaceCondition::ReconciliationRequired);
    doctor.drift("s", "t");
    doctor.unfinished("id", "APPLYING", "/j");
    doctor.lease("held");
    doctor.advice(WorkspaceCondition::ReconciliationRequired);
    assert_eq!(doctor.exit_code, 3);
    assert!(doctor
        .lines
        .list
        .iter()
        .any(|line| line == "condition RECONCILIATION_REQUIRED"));
    let mut broken = Doctor::begin(7, WorkspaceCondition::Healthy);
    broken.catalog("malformed");
    assert_eq!(broken.exit_code, 3);
    assert_eq!(recover_idle(WorkspaceCondition::RecoveryRequired).1, 3);
    assert_eq!(
        recover_idle(WorkspaceCondition::Healthy),
        (
            "no unfinished transaction; workspace is HEALTHY".to_owned(),
            0
        )
    );
}

fn boundary() -> BoundaryRow {
    BoundaryRow {
        id: "b".to_owned(),
        session_id: "s".to_owned(),
        command: "make".to_owned(),
        cwd: "/ws".to_owned(),
        started_at: 0,
        ended_at: None,
        exit_code: None,
        consumed: true,
    }
}

#[test]
fn passive_hook_defers_recovery_to_writer() {
    let baseline = Some("s".to_owned());
    assert!(matches!(
        hook_post_locked(true, WorkspaceCondition::Healthy, &baseline, &boundary(), 0),
        HookPlan::Bypass
    ));
    assert!(matches!(
        hook_post_locked(false, WorkspaceCondition::Healthy, &baseline, &boundary(), 0),
        HookPlan::Observe
    ));
    match hook_post_locked(
        false,
        WorkspaceCondition::ReconciliationRequired,
        &baseline,
        &boundary(),
        9,
    ) {
        HookPlan::BoundaryOnly(draft) => {
            assert_eq!(draft.kind, OperationKind::BoundaryOnly);
            assert_eq!(draft.command.as_deref(), Some("make"));
            assert_eq!(draft.exit_code, Some(9));
            assert_eq!(draft.post_state_id, None);
        }
        other => panic!("unexpected {other:?}"),
    }
    let seen = observation(&boundary(), 0, "s", "t", &manifest("a"), &manifest("b"));
    assert_eq!(seen.confidence, TrackingConfidence::LowConfidenceObservation);
    assert_eq!(seen.reversibility, Reversibility::Unavailable);
    assert_eq!(seen.effects.len(), 1);
    assert_eq!(observed_state("s").kind, StateKind::Observation);
}

#[test]
fn passive_scan_deadline_degrades_to_capture_gap() {
    let late = RewindError::ScanIncomplete("scan deadline exceeded".to_owned());
    assert_eq!(capture_gap(&late).as_deref(), Some("scan deadline exceeded"));
    assert!(capture_gap(&RewindError::ScanIncomplete("denied".to_owned())).is_none());
    assert!(capture_gap(&RewindError::Storage("deadline".to_owned())).is_none());
}

#[test]
fn nonexistent_boundary_post_fails_open_without_side_effects() {
    assert!(hook_post("b", true, true).is_none());
    assert!(hook_post("b", false, false).expect("unknown").contains("is not present"));
    assert!(hook_post("b", true, false)
        .expect("claimed")
        .contains("was already accounted for"));
    assert_eq!(
        bypass_line("b", 4),
        "{\"boundary\":\"b\",\"kind\":\"BYPASS_PENDING\",\"pid\":4}"
    );
    let given = Some("mine".to_owned());
    let environment = Some("env".to_owned());
    assert_eq!(session_id(&given, &environment, 1), "mine");
    assert_eq!(session_id(&None, &environment, 1), "env");
    assert_eq!(session_id(&None, &None, 1), "shell-1");
}

#[test]
fn lines_of_the_surface() {
    assert_eq!(
        init_lines(7, "/ws", WorkspaceCondition::Healthy).list[1],
        "root /ws"
    );
    let status = WorkspaceStatus {
        id: 7,
        root: "/ws".to_owned(),
        condition: WorkspaceCondition::Healthy,
        baseline: None,
        unfinished_transactions: 2,
        open_unknown: true,
    };
    assert_eq!(
        status_lines(&status).list[3..],
        ["baseline NONE", "open_unknown true", "unfinished_transactions 2"]
    );
    assert_eq!(
        committed_line("undo", 1, "s"),
        "undo committed transaction 00000000-0000-0000-0000-000000000001 at state s"
    );
    let effect = Effect {
        path: "foo.txt".to_owned(),
        from_path: None,
        effect_type: EffectType::Create,
        pre: Fingerprint::Absent,
        post: file("a"),
    };
    assert!(diff_line(&effect).starts_with("CREATE foo.txt "));
    let operation = OperationRecord {
        id: 3,
        workspace_id: 7,
        kind: OperationKind::Strong,
        status: OperationStatus::Completed,
        pre_state_id: None,
        post_state_id: None,
        command: Some("make".to_owned()),
        cwd: None,
        exit_code: None,
        confidence: TrackingConfidence::FullyTracked,
        reversibility: Reversibility::FullyReversible,
        error: None,
        created_at: 0,
        effects: Vec::new(),
    };
    assert_eq!(
        list_line(&operation),
        "#3 STRONG COMPLETED TRACKED FULLY_REVERSIBLE make"
    );
}

fn pending(id: &str, session: &str, command: &str) -> BoundaryRow {
    BoundaryRow {
        id: id.to_owned(),
        session_id: session.to_owned(),
        command: command.to_owned(),
        cwd: "/ws".to_owned(),
        started_at: 1,
        ended_at: None,
        exit_code: None,
        consumed: false,
    }
}

/// A boundary of another workspace is diagnosed, and consumes nothing here.
#[test]
fn cross_workspace_boundary_id_is_refused() {
    let mut records = vec![
        BoundaryRecord { workspace_id: 1, row: pending("one", "session-one", "command-a") },
        BoundaryRecord { workspace_id: 2, row: pending("two", "session-two", "command-b") },
    ];
    let found = db::boundary(&records, 2, "one").is_some();
    let claimed = finish_boundary(&mut records, 2, "one", 2, 11);
    let message = hook_post("one", found, claimed).expect("diagnosed");
    assert!(message.contains("one is not present in this workspace"), "{message}");
    assert!(records.iter().all(|record| !record.row.consumed));

    let found = db::boundary(&records, 1, "one").is_some();
    let claimed = finish_boundary(&mut records, 1, "one", 2, 11);
    assert!(claimed && records[0].row.consumed && !records[1].row.consumed);
    assert_eq!(records[0].row.exit_code, Some(11));
    assert!(hook_post("one", found, claimed).is_none());
}

/// A boundary is accounted for once; a second hook changes nothing.
#[test]
fn duplicate_post_cannot_account_for_a_boundary_twice() {
    let mut records =
        vec![BoundaryRecord { workspace_id: 1, row: pending("one", "session", "command-a") }];
    assert!(finish_boundary(&mut records, 1, "one", 2, 11));
    let first = records.clone();
    let claimed = finish_boundary(&mut records, 1, "one", 9, 12);
    assert!(!claimed);
    assert_eq!(records, first);
    let message = hook_post("one", true, claimed).expect("diagnosed");
    assert!(message.contains("already accounted for"), "{message}");
}
