//! Timelines: what falls into a range and how complete it is.

use rewind::db::{BoundaryRow, SnapshotRow, UnknownIntervalRow};
use rewind::humantime::{format_rfc3339, parse_rfc3339};
use rewind::model::{
    Effect, OperationKind, OperationRecord, OperationStatus, Reversibility, TrackingConfidence,
};
use rewind::table::Table;
use rewind::timeline::{
    read_watcher_evidence, requested_range, watcher_log_may_predate_range, DegradationSummary,
    LogGeneration, Tier, TimelineInput, WatcherEvidence, TIMELINE_SCHEMA_VERSION,
};
use rewind::watch::model::{
    DegradationReason, DegradationRecord, Degradations, EventKind, EventSource, FsEvent,
};

const SINCE: i64 = 1_000_000_000;
const UNTIL: i64 = 2_000_000_000;
const NOW: i64 = 3_000_000_000;

fn operation(id: i64, created_at: i64) -> OperationRecord {
    OperationRecord {
        id,
        workspace_id: 0,
        kind: OperationKind::Strong,
        status: OperationStatus::Completed,
        pre_state_id: Some("pre".to_owned()),
        post_state_id: Some("post".to_owned()),
        command: Some(format!("cmd-{id}")),
        cwd: None,
        exit_code: Some(0),
        confidence: TrackingConfidence::FullyTracked,
        reversibility: Reversibility::FullyReversible,
        error: None,
        created_at,
        effects: Vec::<Effect>::new(),
    }
}

fn boundary(id: &str, started_at: i64, ended_at: Option<i64>) -> BoundaryRow {
    BoundaryRow {
        id: id.to_owned(),
        session_id: "session".to_owned(),
        command: format!("shell-{id}"),
        cwd: "/ws".to_owned(),
        started_at,
        ended_at,
        exit_code: Some(0),
        consumed: true,
    }
}

fn interval(
    id: i64,
    created_at: i64,
    closed_at: Option<i64>,
    is_open: bool,
) -> UnknownIntervalRow {
    UnknownIntervalRow {
        id,
        start_state_id: None,
        end_state_id: None,
        reason: "watcher degradation: OVERFLOW".to_owned(),
        is_open,
        created_at,
        closed_at,
    }
}

fn snapshot(name: &str, created_at: i64) -> SnapshotRow {
    SnapshotRow {
        name: name.to_owned(),
        state_id: "state".to_owned(),
        created_at,
    }
}

fn degradation(recorded_at: i64) -> DegradationSummary {
    DegradationSummary {
        reason: DegradationReason::Overflow,
        detail: "platform watcher queue overflow".to_owned(),
        recorded_at,
    }
}

fn input(
    operations: Vec<OperationRecord>,
    snapshots: Vec<SnapshotRow>,
    boundaries: Vec<BoundaryRow>,
    intervals: Vec<UnknownIntervalRow>,
    watcher: WatcherEvidence,
) -> TimelineInput {
    TimelineInput {
        since: SINCE,
        until: UNTIL,
        now: NOW,
        operations,
        snapshots,
        boundaries,
        unknown_intervals: intervals,
        watcher,
    }
}

/// empty history produces a valid, complete, empty timeline.
#[test]
fn empty_history_is_a_valid_complete_empty_timeline() {
    let report = input(vec![], vec![], vec![], vec![], WatcherEvidence::default()).build();
    assert!(report.entries.is_empty());
    assert!(report.history_complete);
    assert_eq!(report.schema_version, TIMELINE_SCHEMA_VERSION);
    assert_eq!(report.since_text, format_rfc3339(SINCE));
}

/// since is inclusive, until is exclusive; adjacent ranges tile.
#[test]
fn range_boundaries_are_since_inclusive_and_until_exclusive() {
    let report = input(
        vec![
            operation(1, SINCE),     // exactly at since: included
            operation(2, UNTIL),     // exactly at until: excluded
            operation(3, UNTIL - 1), // one micro before until: included
            operation(4, SINCE - 1), // one micro before since: excluded
        ],
        vec![],
        vec![],
        vec![],
        WatcherEvidence::default(),
    )
    .build();
    let ids: Vec<String> = report
        .entries
        .iter()
        .map(|e| e.identifier.clone())
        .collect();
    assert_eq!(ids, vec!["operation 1", "operation 3"]);

    // Tiling: [SINCE, MID) ∪ [MID, UNTIL) contains each record once.
    let mid = 1_500_000_000;
    let first_half = TimelineInput {
        since: SINCE,
        until: mid,
        ..input(
            vec![operation(1, SINCE), operation(2, mid)],
            vec![],
            vec![],
            vec![],
            WatcherEvidence::default(),
        )
    }
    .build();
    let second_half = TimelineInput {
        since: mid,
        until: UNTIL,
        ..input(
            vec![operation(1, SINCE), operation(2, mid)],
            vec![],
            vec![],
            vec![],
            WatcherEvidence::default(),
        )
    }
    .build();
    assert_eq!(first_half.entries.len(), 1);
    assert_eq!(first_half.entries[0].identifier, "operation 1");
    assert_eq!(second_half.entries.len(), 1);
    assert_eq!(second_half.entries[0].identifier, "operation 2");
}

/// deterministic ordering by (timestamp, tier rank, identifier);
/// byte-identical JSON for identical inputs.
#[test]
fn ordering_is_deterministic_and_json_is_stable() {
    let make = || {
        input(
            vec![operation(7, 1_500_000_000), operation(3, 1_200_000_000)],
            vec![snapshot("snap", 1_500_000_000)],
            vec![boundary("b", 1_400_000_000, Some(1_450_000_000))],
            vec![],
            WatcherEvidence::default(),
        )
    };
    let first = make().build();
    let second = make().build();
    assert_eq!(
        format!("{:?}", first.entries),
        format!("{:?}", second.entries)
    );

    let tiers_and_stamps: Vec<(i64, Tier)> = first
        .entries
        .iter()
        .map(|e| (e.timestamp, e.tier))
        .collect();
    assert_eq!(
        tiers_and_stamps,
        vec![
            (1_200_000_000, Tier::Operation),
            (1_400_000_000, Tier::PassiveBoundary),
            // Same timestamp: an operation ranks before a snapshot.
            (1_500_000_000, Tier::Operation),
            (1_500_000_000, Tier::Snapshot),
        ]
    );
}

/// an unknown interval intersecting the range appears (whole, not
/// trimmed) and forces history_complete false; an outside one does not.
#[test]
fn unknown_intervals_render_as_uncertainty_and_break_completeness() {
    // Open interval opened before the range, extending through now:
    // intersects the range and is shown whole with no invented end.
    let report = input(
        vec![],
        vec![],
        vec![],
        vec![interval(1, SINCE - 5_000_000, None, true)],
        WatcherEvidence::default(),
    )
    .build();
    assert_eq!(report.entries.len(), 1);
    assert_eq!(report.entries[0].tier, Tier::UnknownInterval);
    assert_eq!(report.entries[0].timestamp, SINCE - 5_000_000);
    assert_eq!(report.entries[0].end_timestamp, None);
    assert_eq!(report.entries[0].open, Some(true));
    assert!(!report.history_complete);

    // Closed interval entirely before the range: absent, completeness
    // unaffected.
    let report = input(
        vec![],
        vec![],
        vec![],
        vec![interval(2, SINCE - 9_000_000, Some(SINCE - 1), false)],
        WatcherEvidence::default(),
    )
    .build();
    assert!(report.entries.is_empty());
    assert!(report.history_complete);

    // Closed interval entirely after the range: absent.
    let report = input(
        vec![],
        vec![],
        vec![],
        vec![interval(3, UNTIL, Some(UNTIL + 1), false)],
        WatcherEvidence::default(),
    )
    .build();
    assert!(report.entries.is_empty());
    assert!(report.history_complete);
}

/// tier honesty — operations carry recorded confidence and
/// reversibility; passive boundaries are labeled LOW and not reversible.
#[test]
fn tiers_carry_their_recorded_evidentiary_value() {
    let report = input(
        vec![operation(1, SINCE + 1)],
        vec![],
        vec![boundary("b1", SINCE + 2, None)],
        vec![],
        WatcherEvidence::default(),
    )
    .build();
    let operation_entry = report
        .entries
        .iter()
        .find(|e| e.tier == Tier::Operation)
        .expect("operation entry");
    assert_eq!(operation_entry.confidence.as_deref(), Some("TRACKED"));
    assert_eq!(
        operation_entry.reversibility.as_deref(),
        Some("FULLY_REVERSIBLE")
    );
    let boundary_entry = report
        .entries
        .iter()
        .find(|e| e.tier == Tier::PassiveBoundary)
        .expect("boundary entry");
    assert_eq!(boundary_entry.confidence.as_deref(), Some("LOW"));
    assert_eq!(
        boundary_entry.reversibility.as_deref(),
        Some("NOT_REVERSIBLE")
    );
    assert_eq!(
        boundary_entry.end_timestamp, None,
        "unaccounted boundary stays open"
    );
    assert_eq!(boundary_entry.open, None, "only an unknown interval says whether it is open");
}

/// watcher degradations in range render as entries and break
/// completeness; the event summary bounds itself to the range.
#[test]
fn watcher_degradations_break_completeness_and_events_summarize() {
    let mut events_in_range = Table::new();
    events_in_range.insert("CREATE".to_owned(), 3);
    events_in_range.insert("MODIFY".to_owned(), 1);
    let watcher = WatcherEvidence {
        degradations: vec![degradation(SINCE + 100), degradation(UNTIL + 5)],
        events_in_range,
        first_event_in_range: Some(SINCE + 10),
        last_event_in_range: Some(UNTIL - 10),
        log_generations: 2,
        log_oldest_observation: Some(SINCE - 60_000_000),
        unparseable_log_lines: 0,
    };

    let report = input(vec![], vec![], vec![], vec![], watcher).build();
    assert_eq!(report.entries.len(), 1, "only the in-range degradation");
    assert_eq!(report.entries[0].tier, Tier::Watch);
    assert!(!report.history_complete);
    assert_eq!(
        report.watcher.events_in_range.get("CREATE"),
        Some(&3),
        "the counts by kind are kept"
    );
    assert!(!watcher_log_may_predate_range(&report.watcher, SINCE));

    // A log whose oldest observation postdates `since` may be silent
    // about the range's start — and an empty log certainly is.
    let truncated = WatcherEvidence {
        log_oldest_observation: Some(SINCE + 60_000_000),
        ..WatcherEvidence::default()
    };
    assert!(watcher_log_may_predate_range(&truncated, SINCE));
    assert!(watcher_log_may_predate_range(
        &WatcherEvidence::default(),
        SINCE
    ));
}

/// an interval that ends exactly at `since` does
/// not intersect the half-open range.
#[test]
fn interval_ending_exactly_at_since_does_not_intersect() {
    let report = input(
        vec![],
        vec![],
        vec![],
        vec![interval(1, SINCE - 100, Some(SINCE), false)],
        WatcherEvidence::default(),
    )
    .build();
    assert!(report.entries.is_empty());
    assert!(report.history_complete);
}

fn event(sequence: u64, timestamp: i64, kind: EventKind) -> Option<FsEvent> {
    Some(FsEvent {
        run_id: 1,
        sequence,
        path: format!("f{sequence}.txt"),
        kind,
        from_path: None,
        timestamp,
        source: EventSource::Fake,
    })
}

/// Events in the range are counted by kind over both generations of the log,
/// lines that cannot be read are counted too.
#[test]
fn watcher_evidence_is_summarized_with_honest_coverage() {
    let previous = LogGeneration {
        exists: true,
        lines: vec![
            event(1, SINCE - 5, EventKind::Create),
            event(2, SINCE, EventKind::Create),
            None,
        ],
    };
    let current = LogGeneration {
        exists: true,
        lines: vec![
            event(3, SINCE + 9, EventKind::Modify),
            event(4, UNTIL - 1, EventKind::Create),
            event(5, UNTIL, EventKind::Delete),
        ],
    };
    let marker = Some(Degradations::appended(
        None,
        1,
        DegradationRecord::new(DegradationReason::Overflow, "lost", SINCE + 1),
    ));
    let evidence = read_watcher_evidence(&previous, &current, &marker, SINCE, UNTIL);
    assert_eq!(evidence.log_generations, 2);
    assert_eq!(evidence.log_oldest_observation, Some(SINCE - 5));
    assert_eq!(evidence.unparseable_log_lines, 1);
    assert_eq!(evidence.events_in_range.get("CREATE"), Some(&2));
    assert_eq!(evidence.events_in_range.get("MODIFY"), Some(&1));
    assert_eq!(evidence.events_in_range.get("DELETE"), None);
    assert_eq!(evidence.first_event_in_range, Some(SINCE));
    assert_eq!(evidence.last_event_in_range, Some(UNTIL - 1));
    assert_eq!(evidence.degradations.len(), 1);

    let silent = LogGeneration {
        exists: false,
        lines: Vec::new(),
    };
    let other = LogGeneration {
        exists: false,
        lines: Vec::new(),
    };
    let evidence = read_watcher_evidence(&silent, &other, &None, SINCE, UNTIL);
    assert_eq!(evidence.log_generations, 0);
    assert!(watcher_log_may_predate_range(&evidence, SINCE));
}

#[test]
fn empty_history_produces_a_complete_empty_timeline() {
    let report = input(vec![], vec![], vec![], vec![], WatcherEvidence::default()).build();
    assert_eq!(report.schema_version, TIMELINE_SCHEMA_VERSION);
    assert_eq!(report.entries.len(), 0);
    assert!(report.history_complete);
    assert!(report.since_text.ends_with('Z'));
}

/// A record is in a range that begins with it, and not in one that ends with
/// it; both bounds are read from their texts.
#[test]
fn captured_operations_respect_the_half_open_range() {
    let created_at = parse_rfc3339("2026-06-01T12:34:56.789012Z").expect("time");
    let range = |since: i64, until: i64| TimelineInput {
        since: parse_rfc3339(&format_rfc3339(since)).expect("since"),
        until: parse_rfc3339(&format_rfc3339(until)).expect("until"),
        now: NOW,
        operations: vec![operation(1, created_at)],
        snapshots: vec![],
        boundaries: vec![],
        unknown_intervals: vec![],
        watcher: WatcherEvidence::default(),
    };
    let report = range(created_at, created_at + 1).build();
    assert_eq!(report.entries.len(), 1);
    assert_eq!(report.entries[0].tier.as_str(), "OPERATION");
    assert!(report.entries[0].identifier.starts_with("operation "));
    let report = range(created_at - 1, created_at).build();
    assert_eq!(
        report.entries.len(),
        0,
        "until is exclusive: the record at `until` must not appear"
    );
}

#[test]
fn uncertainty_is_exposed_and_the_view_is_read_only() {
    let recorded_at = parse_rfc3339("2026-06-01T00:00:00Z").expect("degradation time");
    let marker = Degradations::appended(
        None,
        7,
        DegradationRecord {
            reason: DegradationReason::Overflow,
            detail: "platform watcher queue overflow; events may have been lost".to_owned(),
            recorded_at,
            gap_from: None,
            gap_to: None,
        },
    );
    let opened_at = parse_rfc3339("2026-07-01T00:00:00Z").expect("interval time");
    let report = |since: &str, until: &str| {
        let since = parse_rfc3339(since).expect("since");
        let until = parse_rfc3339(until).expect("until");
        let log = || LogGeneration {
            exists: false,
            lines: Vec::new(),
        };
        TimelineInput {
            since,
            until,
            now: opened_at + 1,
            operations: vec![],
            snapshots: vec![],
            boundaries: vec![],
            unknown_intervals: vec![interval(1, opened_at, None, true)],
            watcher: read_watcher_evidence(&log(), &log(), &Some(marker.clone()), since, until),
        }
        .build()
    };
    let uncertain = report("2026-05-31T00:00:00Z", "2027-01-01T00:00:00Z");
    assert!(!uncertain.history_complete);
    let tiers: Vec<&str> = uncertain.entries.iter().map(|e| e.tier.as_str()).collect();
    assert!(tiers.contains(&"UNKNOWN_INTERVAL"), "{tiers:?}");
    assert!(tiers.contains(&"WATCH"), "{tiers:?}");
    assert_eq!(marker.records.len(), 1, "the marker must not be consumed");

    let certain = report("2020-01-01T00:00:00Z", "2020-06-01T00:00:00Z");
    assert!(certain.history_complete);
    assert_eq!(certain.entries.len(), 0);
}

/// The oldest observation is the oldest that is there, whatever its time.
#[test]
fn the_oldest_observation_is_the_oldest_in_the_log() {
    let at = |sequence: u64, timestamp: i64| event(sequence, timestamp, EventKind::Create);
    let oldest = |lines: Vec<Option<FsEvent>>| {
        let current = LogGeneration { exists: true, lines };
        let previous = LogGeneration { exists: false, lines: Vec::new() };
        read_watcher_evidence(&previous, &current, &None, SINCE, UNTIL).log_oldest_observation
    };
    assert_eq!(oldest(vec![None]), None);
    assert_eq!(oldest(vec![at(1, i64::MAX)]), Some(i64::MAX));
    assert_eq!(oldest(vec![at(1, i64::MAX), None, at(2, 7), at(3, 9)]), Some(7));
    assert_eq!(oldest(vec![at(1, i64::MIN), at(2, i64::MAX)]), Some(i64::MIN));
}

#[test]
fn invalid_ranges_are_usage_errors_that_mutate_nothing() {
    let range = |since: Option<&str>, until: Option<&str>| requested_range(since, until, 5, NOW);
    let cases = [
        (Some("2026-06-02T00:00:00Z"), Some("2026-06-01T00:00:00Z")),
        (Some("2026-06-01T00:00:00Z"), Some("2026-06-01T00:00:00Z")),
        (Some("not-a-time"), None),
        (None, Some("2026-13-01T00:00:00Z")),
        (Some("2026-02-29T00:00:00Z"), None),
    ];
    for (since, until) in cases {
        let message = range(since, until).expect_err("usage error");
        assert!(!message.is_empty(), "a diagnostic is required");
    }
    assert_eq!(
        range(cases[1].0, cases[1].1).expect_err("empty"),
        "--since must be earlier than --until"
    );
    assert!(range(Some("not-a-time"), Some("nor-this")).expect_err("first").contains("not-a-time"));
    assert_eq!(range(None, None), Ok((5, NOW)));
    assert_eq!(
        range(Some("1970-01-01T00:00:01Z"), Some("1970-01-01T00:00:02.5Z")),
        Ok((1_000_000, 2_500_000))
    );
}
