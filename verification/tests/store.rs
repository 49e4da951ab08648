//! Stored contents, journals and the rows of the catalog.

use rewind::cas::{Cas, Content};
use rewind::db::{
    self,
    close_unknown, finish_boundary, has_open_unknown, identified, is_redoable, is_undoable, is_unfinished,
    latest_redoable, latest_undoable, operation, operation_missing, parse_confidence,
    parse_effect_type, parse_id, parse_kind, parse_reversibility, parse_status, BoundaryRecord, BoundaryRow,
    UnknownIntervalRow,
};
use rewind::error::RewindError;
use rewind::journal::{is_journal_name, JournalStore};
use rewind::model::{
    ArchiveStatus, EffectType, Journal, JournalStatus, OperationKind, OperationRecord,
    OperationStatus, Reversibility, StateKind, TrackingConfidence, WorkspaceCondition,
};
use rewind::paths::Platform;

#[test]
fn cas_detects_corruption_and_cleans_incomplete_objects() {
    let cas = Cas::new(Platform::Posix, "/store/cas");
    assert_eq!(cas.root(), "/store/cas");
    let hash = cas.put_bytes(&b"content".to_vec());
    assert_eq!(hash, blake3::hash(b"content").to_hex().to_string());
    assert_eq!(
        cas.blob_path(&hash).expect("path"),
        format!("/store/cas/blobs/{hash}")
    );
    assert_eq!(
        cas.read_bytes(&hash, Content::Bytes(b"content".to_vec()))
            .expect("bytes"),
        b"content"
    );
    match cas.verify(&hash, &Content::Bytes(b"corrupt".to_vec())) {
        Err(RewindError::Cas(message)) => assert!(message.starts_with("CAS corruption for ")),
        other => panic!("corruption must be found: {other:?}"),
    }
    assert!(cas
        .verify(&hash, &Content::Missing("no such file".to_owned()))
        .expect_err("missing")
        .message()
        .contains("missing CAS object"));
    assert!(cas.blob_path("../../etc/passwd").is_err());
    assert!(cas.blob_path(&hash[1..]).is_err());
    assert_eq!(
        cas.part_path(1),
        "/store/cas/tmp/00000000-0000-0000-0000-000000000001.part"
    );
    assert_eq!(cas.named_path("tmp"), "/store/cas/tmp");
    let good = (hash.clone(), Content::Bytes(b"content".to_vec()));
    let bad = (hash, Content::Bytes(Vec::new()));
    assert!(cas.referenced_objects(&vec![good]).is_ok());
    assert!(cas.referenced_objects(&vec![bad]).is_err());
}

fn journal(id: u128, status: JournalStatus, archive_status: ArchiveStatus) -> Journal {
    Journal {
        transaction_id: id,
        workspace_id: 1,
        operation_id: None,
        anchor_state_id: "a".to_owned(),
        target_state_id: "t".to_owned(),
        direction: "UNDO".to_owned(),
        status,
        steps: Vec::new(),
        archive_status,
        archive_error: None,
    }
}

#[test]
fn journals_are_told_apart_by_their_status() {
    let store = JournalStore::new(Platform::Posix, "/p/journals");
    assert_eq!(
        store.path_for(2),
        "/p/journals/00000000-0000-0000-0000-000000000002.json"
    );
    assert!(store.validate_path("/p/journals/x.json").is_ok());
    assert!(store.validate_path("/p/elsewhere/x.json").is_err());
    assert!(is_journal_name("x.json") && !is_journal_name("x.json.tmp"));

    let all = || {
        vec![
            journal(1, JournalStatus::Applying, ArchiveStatus::Pending),
            journal(2, JournalStatus::Committed, ArchiveStatus::Failed),
            journal(3, JournalStatus::Committed, ArchiveStatus::Archived),
            journal(4, JournalStatus::Abandoned, ArchiveStatus::Pending),
            journal(5, JournalStatus::RecoveryRequired, ArchiveStatus::NotRequired),
        ]
    };
    let ids = |list: Vec<Journal>| -> Vec<u128> { list.iter().map(|j| j.transaction_id).collect() };
    assert_eq!(ids(store.unfinished(all())), [1, 5]);
    assert_eq!(ids(store.pending_archives(all())), [2]);
    let mut one = journal(1, JournalStatus::Durable, ArchiveStatus::Pending);
    store.mark_committed(&mut one);
    assert_eq!(one.status, JournalStatus::Committed);
}

fn boundary(id: &str, command: &str, cwd: &str) -> BoundaryRecord {
    BoundaryRecord {
        workspace_id: 1,
        row: BoundaryRow {
            id: id.to_owned(),
            session_id: "api-session".to_owned(),
            command: command.to_owned(),
            cwd: cwd.to_owned(),
            started_at: 1,
            ended_at: None,
            exit_code: None,
            consumed: false,
        },
    }
}

#[test]
fn boundary_api_accounts_for_exactly_one_boundary_once() {
    let mut catalog = vec![
        boundary("first", "command-a", "/api/cwd-a"),
        boundary("second", "command-b", "/api/cwd-b"),
    ];
    let row = db::boundary(&catalog, 1, "first").expect("boundary exists");
    assert_eq!(row.command, "command-a");
    assert_eq!(row.cwd, "/api/cwd-a");
    assert!(!row.consumed);
    assert_eq!(row.exit_code, None);
    assert!(db::boundary(&catalog, 1, "not-a-boundary-id").is_none());
    assert!(
        db::boundary(&catalog, 2, "first").is_none(),
        "a boundary is not visible from another workspace"
    );

    assert!(
        finish_boundary(&mut catalog, 1, "first", 10, 7),
        "the first accounting must succeed"
    );
    let settled = catalog.clone();
    assert!(
        !finish_boundary(&mut catalog, 1, "first", 20, 9),
        "a boundary cannot be accounted for twice"
    );
    assert!(
        !finish_boundary(&mut catalog, 1, "not-a-boundary-id", 20, 0),
        "an unknown id cannot be accounted for"
    );
    assert!(
        !finish_boundary(&mut catalog, 2, "second", 20, 9),
        "another workspace cannot account for this boundary"
    );
    assert_eq!(catalog, settled);

    let row = db::boundary(&catalog, 1, "first").expect("boundary exists");
    assert!(row.consumed);
    assert_eq!(row.exit_code, Some(7));
    assert_eq!(row.ended_at, Some(10));
    let untouched = db::boundary(&catalog, 1, "second").expect("second boundary exists");
    assert!(!untouched.consumed);
    assert_eq!(untouched.exit_code, None);
}

#[test]
fn an_interval_is_closed_once() {
    let mut row = UnknownIntervalRow {
        id: 1,
        start_state_id: None,
        end_state_id: None,
        reason: "r".to_owned(),
        is_open: true,
        created_at: 0,
        closed_at: None,
    };
    assert!(has_open_unknown(&vec![row.clone()]));
    close_unknown(&mut row, "s", 5);
    close_unknown(&mut row, "t", 6);
    assert_eq!(row.end_state_id.as_deref(), Some("s"));
    assert_eq!(row.closed_at, Some(5));
    assert!(!has_open_unknown(&vec![row]));
}

fn record(id: i64, status: OperationStatus) -> OperationRecord {
    OperationRecord {
        id,
        workspace_id: 1,
        kind: OperationKind::Strong,
        status,
        pre_state_id: None,
        post_state_id: None,
        command: None,
        cwd: None,
        exit_code: None,
        confidence: TrackingConfidence::FullyTracked,
        reversibility: Reversibility::FullyReversible,
        error: None,
        created_at: 0,
        effects: Vec::new(),
    }
}

#[test]
fn the_latest_operation_is_chosen() {
    let ops = vec![
        record(1, OperationStatus::Completed),
        record(4, OperationStatus::Undone),
        record(3, OperationStatus::Completed),
        record(2, OperationStatus::Undone),
    ];
    assert_eq!(latest_undoable(&ops).expect("undoable").id, 3);
    assert_eq!(latest_redoable(&ops).expect("redoable").id, 4);
    assert!(is_undoable(&ops[0]) && is_redoable(&ops[1]));
    assert_eq!(operation(&ops, 2).expect("there").id, 2);
    assert_eq!(
        operation(&ops, 9).expect_err("missing").message(),
        "not found: operation 9"
    );
    assert_eq!(operation_missing(-1).message(), "not found: operation -1");
    assert_eq!(
        latest_undoable(&Vec::new()).expect_err("none").message(),
        "not found: no undoable operation"
    );
}

#[test]
fn recorded_names_are_read_back() {
    for kind in [
        OperationKind::Strong,
        OperationKind::PassiveObservation,
        OperationKind::Reconciliation,
        OperationKind::Restore,
        OperationKind::CaptureFailed,
        OperationKind::BoundaryOnly,
    ] {
        assert_eq!(parse_kind(kind.as_str()).expect("kind"), kind);
    }
    for status in [
        OperationStatus::Completed,
        OperationStatus::Undone,
        OperationStatus::Failed,
        OperationStatus::Untrusted,
    ] {
        assert_eq!(parse_status(status.as_str()).expect("status"), status);
    }
    for confidence in [
        TrackingConfidence::FullyTracked,
        TrackingConfidence::LowConfidenceObservation,
        TrackingConfidence::Degraded,
        TrackingConfidence::Unsupported,
    ] {
        assert_eq!(
            parse_confidence(confidence.as_str()).expect("confidence"),
            confidence
        );
    }
    for reversibility in [
        Reversibility::FullyReversible,
        Reversibility::PartiallyReversible,
        Reversibility::Unavailable,
        Reversibility::Unsupported,
    ] {
        assert_eq!(
            parse_reversibility(reversibility.as_str()).expect("reversibility"),
            reversibility
        );
    }
    for effect in [
        EffectType::Create,
        EffectType::Modify,
        EffectType::Delete,
        EffectType::Rename,
        EffectType::TypeChange,
    ] {
        assert_eq!(parse_effect_type(effect.as_str()).expect("effect"), effect);
    }
    for kind in [
        StateKind::Baseline,
        StateKind::Observation,
        StateKind::Reconciliation,
        StateKind::Snapshot,
        StateKind::Anchor,
    ] {
        assert_eq!(StateKind::from_str(kind.as_str()).expect("kind"), kind);
    }
    for condition in [
        WorkspaceCondition::Healthy,
        WorkspaceCondition::Degraded,
        WorkspaceCondition::ReconciliationRequired,
        WorkspaceCondition::RecoveryRequired,
    ] {
        assert_eq!(
            WorkspaceCondition::from_str(condition.as_str()).expect("condition"),
            condition
        );
    }
    assert!(parse_kind("?").is_err() && parse_status("?").is_err());
    assert!(parse_confidence("?").is_err() && parse_reversibility("?").is_err());
    assert!(parse_effect_type("?").is_err() && StateKind::from_str("?").is_err());
    assert!(WorkspaceCondition::from_str("?").is_err());
    assert!(is_unfinished("PLANNED") && !is_unfinished("COMMITTED") && !is_unfinished("ABANDONED"));
}

#[test]
fn every_error_has_its_message() {
    let text = || "x".to_owned();
    let messages: Vec<String> = [
        RewindError::WorkspaceNotInitialized,
        RewindError::WorkspaceIdentity(text()),
        RewindError::ConditionBlocked(text()),
        RewindError::RecoveryRequired(text()),
        RewindError::Conflict {
            path: text(),
            expected: text(),
            found: text(),
        },
        RewindError::Unsupported(text()),
        RewindError::PathEscape(text()),
        RewindError::Storage(text()),
        RewindError::Cas(text()),
        RewindError::ScanIncomplete(text()),
        RewindError::Journal(text()),
        RewindError::LockUnavailable(text()),
        RewindError::InvalidCommand(text()),
        RewindError::NotFound(text()),
        RewindError::Serialization(text()),
        RewindError::Database(text()),
        RewindError::Io(text()),
    ]
    .iter()
    .map(|error| {
        assert_eq!(error.duplicate().message(), error.message());
        error.message()
    })
    .collect();
    assert_eq!(messages[4], "conflict at x: expected x, found x");
    let mut unique = messages.clone();
    unique.sort();
    unique.dedup();
    assert_eq!(unique.len(), messages.len());
}

#[test]
fn identifiers_are_read_back_from_their_column() {
    let id: u128 = 0x0123_4567_89ab_cdef_fedc_ba98_7654_3210;
    let text = "01234567-89ab-cdef-fedc-ba9876543210";
    assert_eq!(uuid::Uuid::from_u128(id).to_string(), text);
    assert_eq!(parse_id(text).expect("id"), id);
    assert_eq!(
        parse_id("0123").expect_err("too short").message(),
        "database error: invalid length: found 4"
    );
    assert_eq!(identified(Ok(7)).expect("id"), 7);
    assert_eq!(
        identified(Err("why".to_owned())).expect_err("error").message(),
        "database error: why"
    );
}

#[test]
fn staged_objects_have_names_of_their_own() {
    let cas = Cas::new(Platform::Posix, "/store/cas");
    assert_eq!(
        cas.stage_name("a.txt", 1),
        ".a.txt.00000000-0000-0000-0000-000000000001.stage"
    );
}

#[test]
fn the_latest_boundary_of_a_session_is_pending() {
    let started = |id: &str, session: &str, at: i64| {
        let mut record = boundary(id, "command", "/cwd");
        record.row.session_id = session.to_owned();
        record.row.started_at = at;
        record
    };
    let mut catalog = vec![
        started("a", "one", 1),
        started("b", "one", 4),
        started("c", "two", 9),
        started("d", "one", 4),
        started("e", "one", 2),
    ];
    catalog[2].workspace_id = 2;
    let pending = |catalog: &Vec<BoundaryRecord>, workspace: u128, session: &str| {
        db::pending_boundary(catalog, workspace, session).map(|row| row.id.clone())
    };
    assert_eq!(pending(&catalog, 1, "one").as_deref(), Some("b"));
    assert_eq!(pending(&catalog, 1, "two"), None);
    assert_eq!(pending(&catalog, 2, "two").as_deref(), Some("c"));
    assert!(finish_boundary(&mut catalog, 1, "b", 10, 0));
    assert!(finish_boundary(&mut catalog, 1, "d", 10, 0));
    assert_eq!(pending(&catalog, 1, "one").as_deref(), Some("e"));
}
