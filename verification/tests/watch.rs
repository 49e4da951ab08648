//! The watcher: adapter, confinement, loop, lifecycle and gates.

use std::collections::VecDeque;

use rewind::error::RewindError;
use rewind::cli::Doctor;
use rewind::model::{WorkspaceCondition, WorkspacePointer};
use rewind::paths::Platform;
use rewind::watch::adapter::{
    map_notify_event, AdapterOutput, EventAdapter, FakeAdapter, Notice, NoticeKind, NotifyAdapter,
    RawEvent, RawKind, Received,
};
use rewind::watch::detach_windows::{command_line, quote};
use rewind::watch::lifecycle::{
    exit_code, heartbeat_fresh_threshold, heartbeat_is_fresh, Lifecycle,
};
use rewind::watch::model::{
    chrono_display, marker_missing_error, DegradationReason, DegradationRecord, Degradations,
    DirtyIndex, ErrorContext, EventKind, EventSource, FsEvent, StatusKind, WatcherState,
    DEFAULT_BATCH_MS, MAX_BATCH_MS, MIN_BATCH_MS, WATCH_SCHEMA_VERSION,
};
use rewind::watch::run::{
    confine_raw, rotates, Action, LoopExit, Next, ServeLoop, WatchConfig, WatchPaths,
};
use rewind::workspace::{mark_reconciliation_required, reconcile_locked};
use rewind::watch::{
    degradation_summary, enforce_watch_degradations, has_pending_degradations, has_stopped,
    loop_exit_code, record_start_gap, refuse_start, request_stop, status, stop_overdue, watcher_is_running,
    Enforcement, StopRequest, WatchContext,
};

const ROOT: &str = "/ws";

fn raw(kind: RawKind, paths: &[&str]) -> RawEvent {
    RawEvent {
        paths: paths.iter().map(|path| path.to_string()).collect(),
        kind,
    }
}

#[test]
fn confines_inside_paths_to_workspace_relative() {
    let (events, dirty, anomalies) = confine_raw(
        Platform::Posix,
        &raw(RawKind::Modify, &["/ws/a/b.txt"]),
        ROOT,
        0,
        1,
        EventSource::Fake,
        100,
    );
    assert!(anomalies.is_empty());
    assert_eq!(events.len(), 1);
    assert_eq!(events[0].path, "a/b.txt");
    assert_eq!(events[0].kind, EventKind::Modify);
    assert_eq!(dirty, vec!["a/b.txt".to_owned()]);
}

#[test]
fn drops_paths_outside_the_root_as_anomalies() {
    let (events, dirty, anomalies) = confine_raw(
        Platform::Posix,
        &raw(RawKind::Modify, &["/elsewhere/a.txt"]),
        ROOT,
        0,
        1,
        EventSource::Fake,
        100,
    );
    assert!(events.is_empty());
    assert!(dirty.is_empty());
    assert_eq!(anomalies.len(), 1);
    assert!(anomalies[0].contains("unconfineable"));
}

#[test]
fn drops_rewind_metadata_events() {
    for path in ["/ws/.rewind", "/ws/.rewind/workspace.json"] {
        let (events, dirty, anomalies) = confine_raw(
            Platform::Posix,
            &raw(RawKind::Modify, &[path]),
            ROOT,
            0,
            1,
            EventSource::Fake,
            100,
        );
        assert!(events.is_empty() && dirty.is_empty() && anomalies.is_empty());
    }
}

#[test]
fn rename_both_records_both_endpoints() {
    let (events, dirty, anomalies) = confine_raw(
        Platform::Posix,
        &raw(RawKind::RenameBoth, &["/ws/old.txt", "/ws/new.txt"]),
        ROOT,
        0,
        7,
        EventSource::Fake,
        100,
    );
    assert!(anomalies.is_empty());
    assert_eq!(events.len(), 1);
    assert_eq!(events[0].kind, EventKind::Rename);
    assert_eq!(events[0].path, "new.txt");
    assert_eq!(events[0].from_path.as_deref(), Some("old.txt"));
    assert_eq!(dirty.len(), 2);
    assert!(dirty.contains(&"old.txt".to_owned()));
    assert!(dirty.contains(&"new.txt".to_owned()));
}

#[test]
fn rename_from_maps_to_delete_semantics() {
    let (events, dirty, _) = confine_raw(
        Platform::Posix,
        &raw(RawKind::RenameFrom, &["/ws/old.txt"]),
        ROOT,
        0,
        1,
        EventSource::Fake,
        100,
    );
    assert_eq!(events[0].kind, EventKind::Delete);
    assert_eq!(dirty, vec!["old.txt".to_owned()]);
}

#[test]
fn platform_separator_paths_normalize_to_forward_slashes() {
    let path_of = |platform: Platform, absolute: &str, workspace_root: &str| {
        let (events, _, anomalies) = confine_raw(
            platform,
            &raw(RawKind::Modify, &[absolute]),
            workspace_root,
            0,
            1,
            EventSource::Fake,
            100,
        );
        assert!(anomalies.is_empty());
        events[0].path.clone()
    };
    assert_eq!(path_of(Platform::Posix, "/ws/a/b.txt", ROOT), "a/b.txt");
    assert_eq!(path_of(Platform::Windows, "C:\\ws\\a\\b.txt", "C:\\ws"), "a/b.txt");
    assert_eq!(path_of(Platform::Windows, "c:\\ws/a\\b.txt", "C:\\ws"), "a/b.txt");
    assert_eq!(
        path_of(Platform::Windows, "\\\\?\\C:\\ws\\a\\b.txt", "\\\\?\\C:\\ws"),
        "a/b.txt"
    );
    let (events, dirty, anomalies) = confine_raw(
        Platform::Windows,
        &raw(RawKind::Modify, &["D:\\ws\\a.txt"]),
        "C:\\ws",
        0,
        1,
        EventSource::Fake,
        100,
    );
    assert!(events.is_empty() && dirty.is_empty());
    assert_eq!(anomalies, ["dropped unconfineable event path D:\\ws\\a.txt"]);
}

/// Serialization table: the exact escaped representation is part of the
/// contract, because `\"` sequences are what Windows parsing treats
/// specially. Ordinary arguments keep their existing representation.
#[test]
fn quoting_serializes_the_documented_escapes() {
    // Ordinary argument: unchanged behavior (wrapped in quotes).
    assert_eq!(
        quote("D:\\Program Files\\rewind.exe"),
        "\"D:\\Program Files\\rewind.exe\""
    );
    // Simple path without spaces or trailing backslash: literal
    // backslashes stay single.
    assert_eq!(quote("C:\\ws\\a.txt"), "\"C:\\ws\\a.txt\"");
    // Argument containing spaces stays one quoted argument.
    assert_eq!(quote("a b c"), "\"a b c\"");
    // Embedded quotes are escaped, not rejected: 2*0+1 backslashes.
    assert_eq!(quote("has\"quote"), "\"has\\\"quote\"");
    // Backslashes before an embedded quote double, plus the escape.
    assert_eq!(quote("dir\\\"x"), "\"dir\\\\\\\"x\"");
    // Trailing backslash doubles before the closing quote.
    assert_eq!(quote("C:\\ws\\"), "\"C:\\ws\\\\\"");
    // Drive root.
    assert_eq!(quote("C:\\"), "\"C:\\\\\"");
    // Extended-length drive root, as `fs::canonicalize` reports it:
    // backslash runs not before a quote stay literal; the trailing one
    // doubles.
    assert_eq!(quote("\\\\?\\C:\\"), "\"\\\\?\\C:\\\\\"");
    // Multiple trailing backslashes all double.
    assert_eq!(quote("a\\\\"), "\"a\\\\\\\\\"");
    // Empty argument round-trips as an empty argv slot.
    assert_eq!(quote(""), "\"\"");
    // Non-ASCII passes through unchanged: quoting operates on chars, and
    // `wide` converts the finished command line to UTF-16.
    assert_eq!(quote("café-日本語"), "\"café-日本語\"");
    // Non-ASCII combined with a trailing backslash still doubles it.
    assert_eq!(quote("日本語dir\\"), "\"日本語dir\\\\\"");
}

/// Reference decoder: an independent scanner implementing the CRT
/// command-line parsing rules (2n backslashes before a quote → n
/// literal backslashes and the quote as delimiter; 2n+1 → n literal
/// backslashes and a literal quote; otherwise backslashes are literal).
/// Deliberately written as a scanner rather than by reusing the encoder,
/// so the round-trip below is a real independent check.
fn decode_crt_command_line(command_line: &str) -> Vec<String> {
    let characters: Vec<char> = command_line.chars().collect();
    let mut argv: Vec<String> = Vec::new();
    let mut position = 0usize;
    while position < characters.len() {
        while position < characters.len()
            && (characters[position] == ' ' || characters[position] == '\t')
        {
            position += 1;
        }
        if position >= characters.len() {
            break;
        }
        let mut argument = String::new();
        let mut in_quotes = false;
        while position < characters.len() {
            let character = characters[position];
            if character == '\\' {
                let mut run = 0usize;
                while position < characters.len() && characters[position] == '\\' {
                    run += 1;
                    position += 1;
                }
                let followed_by_quote =
                    position < characters.len() && characters[position] == '"';
                if followed_by_quote {
                    // 2n backslashes before a quote → n literal
                    // backslashes; the quote is a delimiter when the run
                    // is even and a literal quote mark when odd.
                    for _ in 0..run / 2 {
                        argument.push('\\');
                    }
                    if run % 2 == 1 {
                        argument.push('"');
                    } else {
                        in_quotes = !in_quotes;
                    }
                    position += 1;
                } else {
                    // Not followed by a quote: every backslash is
                    // literal.
                    for _ in 0..run {
                        argument.push('\\');
                    }
                }
            } else if character == '"' {
                in_quotes = !in_quotes;
                position += 1;
            } else if character == ' ' || character == '\t' {
                if in_quotes {
                    argument.push(character);
                    position += 1;
                } else {
                    break;
                }
            } else {
                argument.push(character);
                position += 1;
            }
        }
        argv.push(argument);
    }
    argv
}

/// Round-trip: quoting each argument and joining them must decode back
/// to the exact original arguments through the reference CRT parser —
/// including the drive-root and trailing-backslash shapes.
#[test]
fn quoting_round_trips_through_the_crt_parsing_rules() {
    let cases: Vec<Vec<&str>> = vec![
        vec!["C:\\"],
        vec!["\\\\?\\C:\\"],
        vec!["D:\\Program Files\\rewind.exe"],
        vec!["a b c"],
        vec!["has\"quote"],
        vec!["dir\\\"x"],
        vec!["C:\\ws\\a.txt"],
        vec!["C:\\ws\\"],
        vec!["a\\\\"],
        vec![""],
        vec!["x y", "z\\", "q\"r", ""],
        // Non-ASCII survives the wide-character conversion untouched.
        vec!["café-日本語"],
        vec!["日本語 dir\\", "café\\"],
        // A full production command line.
        vec![
            "D:\\Program Files\\rewind.exe",
            "watch",
            "serve",
            "--root",
            "C:\\",
            "--batch-ms",
            "50",
        ],
    ];
    for case in cases {
        let command_line = case
            .iter()
            .map(|argument| quote(argument))
            .collect::<Vec<_>>()
            .join(" ");
        let parsed = decode_crt_command_line(&command_line);
        let expected: Vec<String> = case.iter().map(|argument| argument.to_string()).collect();
        assert_eq!(parsed, expected, "round-trip failed for {command_line:?}");
    }
}

fn notice(kind: NoticeKind, paths: &[&str]) -> Notice {
    Notice {
        kind,
        paths: paths.iter().map(|path| path.to_string()).collect(),
        rescan: false,
    }
}

#[test]
fn maps_kinds_to_raw_model() {
    let mapped = map_notify_event(&notice(NoticeKind::Create, &["/w/a.txt"]));
    assert_eq!(mapped.len(), 1);
    assert_eq!(mapped[0].kind, RawKind::Create);

    let mapped = map_notify_event(&notice(NoticeKind::Modify, &["/w/a.txt"]));
    assert_eq!(mapped[0].kind, RawKind::Modify);

    let mapped = map_notify_event(&notice(NoticeKind::RenameFrom, &["/w/old.txt"]));
    assert_eq!(mapped[0].kind, RawKind::RenameFrom);
}

#[test]
fn rename_both_stays_one_event_with_two_paths() {
    let mapped = map_notify_event(&notice(
        NoticeKind::RenameBoth,
        &["/w/from.txt", "/w/to.txt"],
    ));
    assert_eq!(mapped.len(), 1);
    assert_eq!(mapped[0].kind, RawKind::RenameBoth);
    assert_eq!(mapped[0].paths.len(), 2);
}

#[test]
fn batched_paths_fan_out_to_one_raw_event_each() {
    let mapped = map_notify_event(&notice(
        NoticeKind::Create,
        &["/w/a.txt", "/w/b.txt", "/w/c.txt"],
    ));
    assert_eq!(mapped.len(), 3);
    assert!(mapped.iter().all(|raw| raw.kind == RawKind::Create));
}

#[test]
fn access_events_map_to_other() {
    let mapped = map_notify_event(&notice(NoticeKind::Access, &["/w/a.txt"]));
    assert_eq!(mapped[0].kind, RawKind::Other);
}

#[test]
fn fake_adapter_replays_script_then_goes_idle() {
    let mut adapter = FakeAdapter::new(vec![
        AdapterOutput::Overflow,
        AdapterOutput::Failed("x".to_owned()),
    ]);
    assert!(matches!(adapter.poll(0), AdapterOutput::Overflow));
    assert!(matches!(adapter.poll(0), AdapterOutput::Failed(_)));
    assert!(matches!(adapter.poll(0), AdapterOutput::Idle));
    adapter.shutdown();
}

/// One poll of the adapter: what is queued first, else what the channel has.
fn poll(adapter: &mut NotifyAdapter, channel: &mut VecDeque<Received>) -> AdapterOutput {
    match adapter.queued() {
        Some(raw) => AdapterOutput::Event(raw),
        None => adapter.receive(channel.pop_front().unwrap_or(Received::Timeout)),
    }
}

/// A notification carrying several paths delivers every one of them, exactly
/// once and in order, and the queue drains to idle afterwards.
#[test]
fn poll_delivers_every_path_of_a_batched_notification() {
    let mut adapter = NotifyAdapter::new();
    let mut channel = VecDeque::from([Received::Notice(notice(
        NoticeKind::Create,
        &["/w/a.txt", "/w/b.txt", "/w/c.txt"],
    ))]);

    let expected = ["/w/a.txt", "/w/b.txt", "/w/c.txt"];
    for expected_path in expected {
        match poll(&mut adapter, &mut channel) {
            AdapterOutput::Event(raw) => {
                assert_eq!(raw.kind, RawKind::Create);
                assert_eq!(raw.paths, vec![expected_path.to_owned()]);
            }
            other => panic!("expected an event for {expected_path}, got {other:?}"),
        }
    }
    assert!(matches!(
        poll(&mut adapter, &mut channel),
        AdapterOutput::Idle
    ));
}

#[test]
fn queued_events_are_delivered_before_new_notifications() {
    let mut adapter = NotifyAdapter::new();
    let mut channel = VecDeque::from([
        Received::Notice(notice(NoticeKind::Create, &["/w/a.txt", "/w/b.txt"])),
        Received::Notice(notice(NoticeKind::Modify, &["/w/c.txt"])),
    ]);

    let order: Vec<(RawKind, String)> = (0..3)
        .filter_map(|_| match poll(&mut adapter, &mut channel) {
            AdapterOutput::Event(raw) => Some((raw.kind, raw.paths[0].clone())),
            _ => None,
        })
        .collect();
    assert_eq!(
        order,
        vec![
            (RawKind::Create, "/w/a.txt".to_owned()),
            (RawKind::Create, "/w/b.txt".to_owned()),
            (RawKind::Modify, "/w/c.txt".to_owned()),
        ],
        "queued leftovers precede newly received notifications"
    );
}

#[test]
fn rescan_still_reports_overflow_with_queued_events_pending() {
    let mut adapter = NotifyAdapter::new();
    let mut channel = VecDeque::from([
        Received::Notice(notice(NoticeKind::Create, &["/w/a.txt", "/w/b.txt"])),
        Received::Notice(Notice {
            kind: NoticeKind::Other,
            paths: Vec::new(),
            rescan: true,
        }),
    ]);
    assert!(matches!(
        poll(&mut adapter, &mut channel),
        AdapterOutput::Event(_)
    ));
    assert!(matches!(
        poll(&mut adapter, &mut channel),
        AdapterOutput::Event(_)
    ));
    assert!(matches!(
        poll(&mut adapter, &mut channel),
        AdapterOutput::Overflow
    ));
    assert!(matches!(
        poll(&mut adapter, &mut channel),
        AdapterOutput::Idle
    ));
}

#[test]
fn a_lost_channel_is_a_failure() {
    let mut adapter = NotifyAdapter::new();
    assert!(matches!(
        adapter.receive(Received::Disconnected),
        AdapterOutput::Failed(_)
    ));
    match adapter.receive(Received::Error("boom".to_owned())) {
        AdapterOutput::Failed(detail) => assert!(detail.contains("boom")),
        other => panic!("expected a failure, got {other:?}"),
    }
    let mut fake = FakeAdapter::new(Vec::new()).with_failing_restarts();
    assert_eq!(
        fake.restart().expect_err("scripted").message(),
        "storage error: scripted restart failure"
    );
    assert!(FakeAdapter::new(Vec::new()).restart().is_ok());
}

const NOW: i64 = 1_790_380_800_000_000;

fn running_state(heartbeat_age_micros: i64) -> WatcherState {
    planted_state(heartbeat_age_micros, StatusKind::Running)
}

fn planted_state(heartbeat_age_micros: i64, status: StatusKind) -> WatcherState {
    let mut state = WatcherState::new(7, 8, status, 250, 99, NOW);
    state.heartbeat_at = NOW - heartbeat_age_micros;
    state
}

fn marker_of(records: Vec<DegradationRecord>) -> Degradations {
    Degradations {
        schema_version: WATCH_SCHEMA_VERSION,
        workspace_id: 7,
        records,
    }
}

#[test]
fn no_state_is_stopped() {
    assert_eq!(rewind::watch::lifecycle::derive(&None, &None, NOW), Lifecycle::Stopped);
}

#[test]
fn pending_degradations_dominate_every_state() {
    let marker = Some(marker_of(vec![DegradationRecord::new(
        DegradationReason::Overflow,
        "x",
        NOW,
    )]));
    assert_eq!(
        rewind::watch::lifecycle::derive(&Some(running_state(0)), &marker, NOW),
        Lifecycle::ReconciliationRequired
    );
    // Even a dead watcher cannot outrank the workspace gate.
    assert_eq!(
        rewind::watch::lifecycle::derive(&Some(running_state(60_000_000)), &marker, NOW),
        Lifecycle::ReconciliationRequired
    );
}

#[test]
fn stale_heartbeat_is_failed_not_running() {
    // 60 s old, threshold is 10 s: presumed dead.
    assert_eq!(
        rewind::watch::lifecycle::derive(&Some(running_state(60_000_000)), &None, NOW),
        Lifecycle::Failed
    );
    assert_eq!(heartbeat_fresh_threshold(), 10_000);
    assert!(heartbeat_is_fresh(&running_state(10_000_000), NOW));
    assert!(!heartbeat_is_fresh(&running_state(10_000_001), NOW));
}

#[test]
fn fresh_heartbeat_is_running_until_degraded() {
    let state = running_state(0);
    assert_eq!(
        rewind::watch::lifecycle::derive(&Some(state.clone()), &None, NOW),
        Lifecycle::Running
    );
    let mut degraded = state.clone();
    degraded.degraded = true;
    degraded.degraded_detail = Some("overflow".to_owned());
    assert_eq!(rewind::watch::lifecycle::derive(&Some(degraded), &None, NOW), Lifecycle::Degraded);
}

#[test]
fn recorded_stopped_is_stopped_even_when_old() {
    let state = planted_state(3_600_000_000, StatusKind::Stopped);
    assert_eq!(rewind::watch::lifecycle::derive(&Some(state), &None, NOW), Lifecycle::Stopped);
}

#[test]
fn failed_lifecycle_needs_action_and_running_does_not() {
    assert_eq!(exit_code(Lifecycle::Running), 0);
    assert_eq!(exit_code(Lifecycle::Stopped), 0);
    assert_eq!(exit_code(Lifecycle::Failed), 3);
    assert_eq!(exit_code(Lifecycle::ReconciliationRequired), 3);
    assert_eq!(exit_code(Lifecycle::Degraded), 3);
    assert_eq!(exit_code(Lifecycle::Stopping), 0);
}

#[test]
fn degradation_summary_is_bounded_and_names_reasons() {
    let marker = marker_of(vec![
        DegradationRecord::new(DegradationReason::Overflow, "queue overflow", NOW),
        DegradationRecord::gap(
            DegradationReason::WatcherGap,
            1_000,
            2_000,
            "gap detail",
            NOW,
        ),
    ]);
    let summary = degradation_summary(&marker);
    assert!(summary.starts_with("watcher degradation:"));
    assert!(summary.contains("OVERFLOW"));
    assert!(summary.contains("WATCHER_GAP"));
    assert!(summary.len() < 600);

    let many = marker_of(
        (0..50)
            .map(|n| DegradationRecord::new(DegradationReason::Overflow, "é queue overflow", n))
            .collect(),
    );
    let summary = degradation_summary(&many);
    assert!(summary.ends_with(" \u{2026}(truncated)"));
    assert!(summary.len() < 600);
}

#[test]
fn watcher_is_running_requires_fresh_heartbeat() {
    let mut state = WatcherState::new(7, 8, StatusKind::Running, 250, 99, NOW);
    assert!(watcher_is_running(&state, NOW));
    state.heartbeat_at = NOW - 3_600_000_000;
    assert!(!watcher_is_running(&state, NOW));
    let mut stopped = WatcherState::new(7, 8, StatusKind::Stopped, 250, 99, NOW);
    assert!(!watcher_is_running(&stopped, NOW));
    stopped.status = StatusKind::Running;
    stopped.heartbeat_at = NOW;
    assert!(watcher_is_running(&stopped, NOW));
}

#[test]
fn state_degrade_keeps_earliest_cause_visible() {
    let mut state = WatcherState::new(7, 8, StatusKind::Running, 250, 99, NOW);
    state.degrade("queue overflow", NOW);
    state.degrade("another cause", NOW);
    let detail = state.degraded_detail.expect("detail recorded");
    assert!(detail.contains("queue overflow"));
    assert!(detail.contains("another cause"));
}

#[test]
fn chrono_display_formats_civil_time() {
    assert_eq!(chrono_display(0), "1970-01-01T00:00:00Z");
    // 2026-09-24T00:00:00Z (leap years included in the civil algorithm).
    assert_eq!(
        chrono_display(1_790_208_000 * 1_000_000),
        "2026-09-24T00:00:00Z"
    );
}

#[test]
fn unreadable_degradation_marker_reads_as_pending() {
    let parsed = Degradations::pending(Some(None), NOW).expect("pending degradation");
    assert_eq!(parsed.records.len(), 1);
    assert!(parsed.records[0].detail.contains("unreadable"));
    assert!(Degradations::pending(None, NOW).is_none());
}

#[test]
fn context_is_put_before_storage_errors_only() {
    let storage = RewindError::Storage("disk".to_owned()).context("marker");
    assert_eq!(storage.message(), "storage error: marker: disk");
    let typed = RewindError::NotFound("x".to_owned()).context("marker");
    assert_eq!(typed.message(), RewindError::NotFound("x".to_owned()).message());
    assert_eq!(
        marker_missing_error("/w").message(),
        RewindError::WorkspaceNotInitialized.message()
    );
}

#[test]
fn config_env_is_clamped_to_contract_bounds() {
    let config = WatchConfig::from_env(&Some("1".to_owned()), &None, &None);
    assert!(config.batch_ms >= MIN_BATCH_MS);
    let config = WatchConfig::from_env(&Some("999999".to_owned()), &None, &None);
    assert!(config.batch_ms <= MAX_BATCH_MS);
    let config = WatchConfig::from_env(
        &Some("x".to_owned()),
        &Some("12".to_owned()),
        &Some("4096".to_owned()),
    );
    assert_eq!(config.batch_ms, DEFAULT_BATCH_MS);
    assert_eq!((config.dirty_cap, config.log_bytes), (12, 4096));
    assert_eq!(config.with_batch(Some(60_000)).batch_ms, MAX_BATCH_MS);
}

#[test]
fn a_first_ever_start_claims_no_prior_coverage_and_records_no_gap() {
    assert!(record_start_gap(&None, NOW).is_none());
}

#[test]
fn a_crashed_watcher_leaves_an_unobserved_gap_that_gates_the_workspace() {
    // The heartbeat is 13 min old.
    let dead = planted_state(13 * 60 * 1_000_000, StatusKind::Running);
    let heartbeat = dead.heartbeat_at;
    let record = record_start_gap(&Some(dead), NOW).expect("gap");
    assert_eq!(record.reason, DegradationReason::WatcherGap);
    assert_eq!(record.gap_from, Some(heartbeat));
    assert!(record.gap_to.unwrap_or(0) >= heartbeat);

    let marker = Some(Degradations::appended(None, 7, record));
    assert!(has_pending_degradations(&marker));
    match enforce_watch_degradations(&marker, false) {
        Enforcement::Gate(Some(reason)) => assert!(
            reason.contains("WATCHER_GAP"),
            "the interval must name the watcher gap: {reason}"
        ),
        other => panic!("expected a gate, got {other:?}"),
    }
    // An interval that is open already is not opened twice.
    assert!(matches!(
        enforce_watch_degradations(&marker, true),
        Enforcement::Gate(None)
    ));
    assert!(matches!(
        enforce_watch_degradations(&None, false),
        Enforcement::Nothing
    ));
}

#[test]
fn a_graceful_stop_still_leaves_the_interval_after_it_unobserved() {
    let mut stopped = planted_state(0, StatusKind::Stopped);
    stopped.stopped_at = Some(NOW - 5 * 60 * 1_000_000);
    let record = record_start_gap(&Some(stopped), NOW).expect("gap");
    assert_eq!(record.reason, DegradationReason::WatcherGap);
}

#[test]
fn watch_status_reports_a_dead_watcher_as_failed_not_running() {
    let dead = planted_state(13 * 60 * 1_000_000, StatusKind::Running);
    let report = status(7, &Some(dead), &None, &None, NOW);
    assert_eq!(
        report.exit_code, 3,
        "a dead watcher needs operator action"
    );
    assert_eq!(report.lifecycle.as_str(), "FAILED");
    assert!(report.recommendation.contains("restart"));
}

#[test]
fn a_second_start_is_refused_while_a_watcher_is_running() {
    assert!(refuse_start(&Some(running_state(0)), NOW).is_some());
    assert!(refuse_start(&Some(running_state(60_000_000)), NOW).is_none());
    assert!(refuse_start(&None, NOW).is_none());
}

#[test]
fn stopping_asks_only_a_live_watcher() {
    assert!(matches!(request_stop(&None, NOW), StopRequest::NotRunning(_)));
    assert!(matches!(
        request_stop(&Some(running_state(0)), NOW),
        StopRequest::Ask(_)
    ));
    assert!(has_stopped(&Some(planted_state(0, StatusKind::Stopped))));
    assert!(!has_stopped(&Some(running_state(0))));
    assert_eq!(loop_exit_code(LoopExit::Stopped), 0);
}

// ---------------------------------------------------------------------------
// The loop
// ---------------------------------------------------------------------------

/// What a run of the loop left behind.
struct Traces {
    exit: LoopExit,
    events: Vec<FsEvent>,
    degradations: Vec<DegradationReason>,
    state: WatcherState,
    index: DirtyIndex,
}

/// Runs the loop over a script, with the stop flag up once the script is done.
fn serve(
    previous: Option<DirtyIndex>,
    script: Vec<AdapterOutput>,
    failing_restarts: bool,
    config: WatchConfig,
) -> Traces {
    let polls = script.len();
    let mut adapter = FakeAdapter::new(script);
    if failing_restarts {
        adapter = adapter.with_failing_restarts();
    }
    let mut served = ServeLoop::begin(previous, 7, 8, 99, Platform::Posix, ROOT, EventSource::Fake, config, NOW);
    let mut traces = Traces {
        exit: LoopExit::Stopped,
        events: Vec::new(),
        degradations: Vec::new(),
        state: served.state.clone(),
        index: served.index.clone(),
    };
    let mut done = 0;
    loop {
        let mut step = served.polled(adapter.poll(config.batch_ms), NOW);
        done += 1;
        loop {
            for action in std::mem::take(&mut step.actions) {
                match action {
                    Action::AppendEvent(event) => traces.events.push(event),
                    Action::AppendDegradation(record) => traces.degradations.push(record.reason),
                    Action::WriteState(state) => traces.state = state,
                    Action::WriteDirty(index) => traces.index = index,
                    Action::ShutDown => adapter.shutdown(),
                    Action::AppendLine(_) | Action::ClearStopFlag => {}
                }
            }
            match step.next {
                Next::Poll => break,
                Next::Restart => {
                    let error = adapter.restart().err().map(|error| error.message());
                    step = served.restarted(&error, NOW);
                }
                Next::Check => step = served.checked(done > polls, 0, NOW),
                Next::Exit(exit) => {
                    traces.exit = exit;
                    return traces;
                }
            }
        }
    }
}

fn config(batch_ms: u64) -> WatchConfig {
    WatchConfig {
        batch_ms,
        ..WatchConfig::default()
    }
}

fn told(kind: RawKind, path: &str) -> AdapterOutput {
    AdapterOutput::Event(raw(kind, &[path]))
}

#[test]
fn dirty_index_survives_a_restart_by_merging() {
    let mut previous = DirtyIndex::new(0);
    previous.paths.push("kept.txt".to_owned());
    let traces = serve(Some(previous), Vec::new(), false, config(MIN_BATCH_MS));
    assert_eq!(traces.exit, LoopExit::Stopped);
    assert!(
        traces.index.paths.contains(&"kept.txt".to_owned()),
        "a restart must not erase the previous run's evidence"
    );
}

#[test]
fn repeated_modifies_coalesce_into_one_dirty_entry_without_losing_evidence() {
    let script = (0..5)
        .map(|_| told(RawKind::Modify, "/ws/foo.txt"))
        .collect();
    let traces = serve(None, script, false, config(50));
    assert_eq!(traces.exit, LoopExit::Stopped);
    assert_eq!(traces.index.paths, ["foo.txt"]);
    let modifies = traces
        .events
        .iter()
        .filter(|event| event.kind == EventKind::Modify && event.path == "foo.txt")
        .count();
    assert_eq!(modifies, 5, "raw events must be preserved in events.log");
}

#[test]
fn create_then_delete_in_one_run_leaves_the_path_dirty() {
    let traces = serve(
        None,
        vec![
            told(RawKind::Create, "/ws/temp.txt"),
            told(RawKind::Delete, "/ws/temp.txt"),
        ],
        false,
        config(50),
    );
    assert_eq!(traces.exit, LoopExit::Stopped);
    assert_eq!(traces.index.paths, ["temp.txt"]);
    assert!(traces.events.iter().any(|e| e.kind == EventKind::Create));
    assert!(traces.events.iter().any(|e| e.kind == EventKind::Delete));
}

#[test]
fn the_dirty_index_is_serialized_sorted_and_deterministic() {
    let script = ["z.txt", "a.txt", "m.txt"]
        .iter()
        .map(|name| told(RawKind::Modify, &format!("/ws/{name}")))
        .collect();
    let traces = serve(None, script, false, config(50));
    assert_eq!(
        traces.index.paths,
        vec!["a.txt", "m.txt", "z.txt"],
        "the index is sorted regardless of arrival order"
    );
}

#[test]
fn overflow_records_a_degradation_keeps_evidence_and_never_gates_by_itself() {
    let traces = serve(
        None,
        vec![
            told(RawKind::Modify, "/ws/foo.txt"),
            AdapterOutput::Overflow,
            told(RawKind::Modify, "/ws/bar.txt"),
        ],
        false,
        config(50),
    );
    assert_eq!(traces.exit, LoopExit::Stopped);
    assert_eq!(traces.degradations, vec![DegradationReason::Overflow]);
    assert_eq!(traces.index.paths, vec!["bar.txt", "foo.txt"]);
    assert!(traces.state.degraded);
    assert!(traces
        .state
        .degraded_detail
        .as_deref()
        .unwrap_or_default()
        .contains("overflow"));
}

#[test]
fn an_unrecoverable_adapter_failure_lands_failed_with_a_degradation_record() {
    let traces = serve(
        None,
        vec![AdapterOutput::Failed("injected failure".to_owned())],
        true,
        config(50),
    );
    assert_eq!(traces.exit, LoopExit::Failed);
    assert_eq!(
        traces.degradations,
        vec![
            DegradationReason::AdapterFailed,
            DegradationReason::AdapterFailed
        ],
        "one record for the failure, one for the abandoned restart"
    );
    assert_eq!(traces.state.status, StatusKind::Failed);
    let marker = Some(marker_of(vec![DegradationRecord::new(
        DegradationReason::AdapterFailed,
        "injected failure",
        NOW,
    )]));
    // A pending marker dominates: the workspace gate outranks the watcher's
    // own state.
    assert_eq!(
        rewind::watch::lifecycle::derive(&Some(traces.state), &marker, NOW),
        Lifecycle::ReconciliationRequired
    );
}

#[test]
fn the_dirty_cap_degrades_instead_of_growing_unbounded() {
    let script = ["a.txt", "b.txt", "c.txt", "d.txt"]
        .iter()
        .map(|name| told(RawKind::Modify, &format!("/ws/{name}")))
        .collect();
    let watch_config = WatchConfig {
        batch_ms: 50,
        dirty_cap: 2,
        ..WatchConfig::default()
    };
    let traces = serve(None, script, false, watch_config);
    assert_eq!(traces.exit, LoopExit::Stopped);
    assert!(traces.degradations.contains(&DegradationReason::DirtyCap));
    assert!(
        traces.index.paths.len() <= 2,
        "no paths are added past the cap: {:?}",
        traces.index.paths
    );
}

#[test]
fn events_outside_the_root_and_rewind_metadata_are_dropped() {
    let traces = serve(
        None,
        vec![
            told(RawKind::Modify, "/tmp/rewind-outside-probe.txt"),
            told(RawKind::Modify, "/ws/.rewind/workspace.json"),
            told(RawKind::Modify, "/ws/foo.txt"),
        ],
        false,
        config(50),
    );
    assert_eq!(traces.index.paths, ["foo.txt"]);
    assert_eq!(traces.index.anomalies, 1, "the escape is dropped and counted");
    assert!(
        traces.events.iter().all(|e| !e.path.contains(".rewind")),
        "watcher scope equals scanner scope: no .rewind events"
    );
}

#[test]
fn watch_files_stand_under_the_project() {
    let paths = WatchPaths::new(Platform::Posix, "/store/project");
    for path in [
        &paths.state,
        &paths.dirty,
        &paths.events,
        &paths.events_previous,
        &paths.degradations,
        &paths.stop_flag,
    ] {
        assert!(path.starts_with(paths.dir.as_str()));
    }
    assert!(rotates(100, 1, 100));
    assert!(!rotates(0, 10, 100));
}

#[test]
fn a_command_line_quotes_every_part() {
    assert_eq!(
        command_line("C:\\", &vec!["a b".to_owned()]),
        "\"C:\\\\\" \"a b\""
    );
}

#[test]
fn a_context_belongs_to_its_root_and_store() {
    let pointer = WorkspacePointer {
        workspace_id: 7,
        root: "/ws".to_owned(),
        store_root: "/store".to_owned(),
        schema_version: 1,
    };
    let context = WatchContext::discover(Platform::Posix, &pointer, "/ws", "/store").expect("context");
    assert_eq!(context.workspace_id, 7);
    assert_eq!(context.workspace_root, "/ws");
    assert!(context.project_root.starts_with("/store/"));
    assert!(context
        .project_root
        .ends_with("00000000-0000-0000-0000-000000000007"));
    assert!(WatchContext::discover(Platform::Posix, &pointer, "/other", "/store").is_err());
}

#[test]
fn a_watcher_that_does_not_stop_is_named() {
    assert_eq!(
        stop_overdue(7, "/p/watch"),
        "rewind: watcher (pid 7) did not stop within the bounded wait; inspect /p/watch"
    );
}

/// A gap that a restart records holds the writer back until a reconciliation.
#[test]
fn a_pending_marker_gates_the_writer_and_reconcile_clears_it() {
    let mut state = planted_state(0, StatusKind::Stopped);
    state.stopped_at = Some(NOW);
    let gap = record_start_gap(&Some(state), NOW).expect("gap");
    let marker = Some(Degradations::appended(None, 7, gap));
    let reason = match enforce_watch_degradations(&marker, false) {
        Enforcement::Gate(Some(reason)) => reason,
        other => panic!("the marker must gate: {other:?}"),
    };
    let baseline = Some("s0".to_owned());
    let gate = mark_reconciliation_required(&baseline, false, &reason);
    assert_eq!(gate.condition, WorkspaceCondition::ReconciliationRequired);

    let mut doctor = Doctor::begin(7, gate.condition);
    doctor.advice(gate.condition);
    assert_eq!(doctor.exit_code, 3);
    assert!(doctor
        .lines
        .list
        .iter()
        .any(|line| line.contains("RECONCILIATION_REQUIRED")));

    let reconciled = reconcile_locked(&baseline, "s0", true, "explicit reconciliation");
    assert_eq!(reconciled.condition, WorkspaceCondition::Healthy);
    assert!(matches!(
        enforce_watch_degradations(&None, false),
        Enforcement::Nothing
    ));
}

/// A notification with several paths reaches the index and the log whole.
#[test]
fn serve_loop_ingests_every_path_of_a_batched_notification() {
    let mut adapter = NotifyAdapter::new();
    let mut script = vec![adapter.receive(Received::Notice(Notice {
        kind: NoticeKind::Create,
        paths: ["a.txt", "b.txt", "c.txt"]
            .iter()
            .map(|name| format!("{ROOT}/{name}"))
            .collect(),
        rescan: false,
    }))];
    while let Some(event) = adapter.queued() {
        script.push(AdapterOutput::Event(event));
    }
    let traces = serve(None, script, false, config(50));
    assert_eq!(traces.exit, LoopExit::Stopped);
    assert_eq!(traces.index.paths, ["a.txt", "b.txt", "c.txt"]);
    for name in ["a.txt", "b.txt", "c.txt"] {
        let count = traces
            .events
            .iter()
            .filter(|event| event.path == name && event.kind == EventKind::Create)
            .count();
        assert_eq!(count, 1, "{name} must appear exactly once in the log");
    }
}
