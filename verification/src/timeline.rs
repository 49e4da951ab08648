//! The history of a time range: the recorded evidence of five sources, merged
//! in one order and labelled with what it is worth.
//!
//! The range is half-open. What is not known is shown as not known: an unknown
//! interval or a watcher degradation makes the range incomplete.

use vstd::prelude::*;
use vstd::string::*;

use crate::db::{BoundaryRow, SnapshotRow, UnknownIntervalRow};
use crate::error::{Fault, Result};
use crate::humantime;
use crate::model::{OperationKind, OperationRecord};
use crate::order;
use crate::order::kept;
use crate::order::views;
use crate::order::Ranked;
use crate::table::Table;
use crate::text;
use crate::text::decimal_int;
use crate::text::optional;
use crate::text::Rank;
use crate::watch::model::{DegradationReason, DegradationRecord, Degradations, FsEvent};

verus! {

pub const TIMELINE_SCHEMA_VERSION: u64 = 1;

/// What kind of evidence an entry is.
#[derive(Clone, Copy, Debug, PartialEq, Eq, Structural)]
pub enum Tier {
    Operation,
    Snapshot,
    UnknownInterval,
    PassiveBoundary,
    Watch,
}

impl Tier {
    pub open spec fn text(self) -> Seq<char> {
        match self {
            Tier::Operation => "OPERATION"@,
            Tier::Snapshot => "SNAPSHOT"@,
            Tier::UnknownInterval => "UNKNOWN_INTERVAL"@,
            Tier::PassiveBoundary => "PASSIVE_BOUNDARY"@,
            Tier::Watch => "WATCH"@,
        }
    }

    pub fn as_str(&self) -> (r: &'static str)
        ensures
            r@ == self.text(),
    {
        match self {
            Tier::Operation => "OPERATION",
            Tier::Snapshot => "SNAPSHOT",
            Tier::UnknownInterval => "UNKNOWN_INTERVAL",
            Tier::PassiveBoundary => "PASSIVE_BOUNDARY",
            Tier::Watch => "WATCH",
        }
    }
}

/// Different values have different texts.
pub proof fn tier_texts_distinct(a: Tier, b: Tier)
    requires
        a.text() == b.text(),
    ensures
        a == b,
{
    reveal_strlit("OPERATION");
    reveal_strlit("SNAPSHOT");
    reveal_strlit("UNKNOWN_INTERVAL");
    reveal_strlit("PASSIVE_BOUNDARY");
    reveal_strlit("WATCH");
    assert("OPERATION"@.len() == 9);
    assert("SNAPSHOT"@.len() == 8);
    assert("UNKNOWN_INTERVAL"@.len() == 16);
    assert("PASSIVE_BOUNDARY"@.len() == 16);
    assert("WATCH"@.len() == 5);
    assert("UNKNOWN_INTERVAL"@[0] != "PASSIVE_BOUNDARY"@[0]);
}

impl Tier {
    /// The place among entries of the same time.
    pub open spec fn order(self) -> int {
        match self {
            Tier::Operation => 0,
            Tier::Snapshot => 1,
            Tier::UnknownInterval => 2,
            Tier::PassiveBoundary => 3,
            Tier::Watch => 4,
        }
    }

    fn rank(&self) -> (r: u8)
        ensures
            r == self.order(),
    {
        match self {
            Tier::Operation => 0,
            Tier::Snapshot => 1,
            Tier::UnknownInterval => 2,
            Tier::PassiveBoundary => 3,
            Tier::Watch => 4,
        }
    }
}

/// One entry. A record that spans time is shown whole, whatever the range.
#[derive(Clone, Debug)]
pub struct TimelineEntry {
    pub tier: Tier,
    pub timestamp: i64,
    /// The recorded end of a span; none while it is open.
    pub end_timestamp: Option<i64>,
    pub identifier: String,
    pub summary: String,
    pub confidence: Option<String>,
    pub reversibility: Option<String>,
    pub open: Option<bool>,
}

/// What an entry says.
pub struct Item {
    pub tier: Tier,
    pub timestamp: i64,
    pub end_timestamp: Option<i64>,
    pub identifier: Seq<char>,
    pub summary: Seq<char>,
    pub confidence: Option<Seq<char>>,
    pub reversibility: Option<Seq<char>>,
    pub open: Option<bool>,
}

impl View for TimelineEntry {
    type V = Item;

    open spec fn view(&self) -> Item {
        Item {
            tier: self.tier,
            timestamp: self.timestamp,
            end_timestamp: self.end_timestamp,
            identifier: self.identifier@,
            summary: self.summary@,
            confidence: optional(self.confidence),
            reversibility: optional(self.reversibility),
            open: self.open,
        }
    }
}

/// By time, then by tier, then by identifier.
impl Ranked for TimelineEntry {
    open spec fn before(a: Item, b: Item) -> bool {
        if a.timestamp != b.timestamp {
            a.timestamp < b.timestamp
        } else if a.tier.order() != b.tier.order() {
            a.tier.order() < b.tier.order()
        } else {
            text::before(a.identifier, b.identifier)
        }
    }

    fn is_before(&self, other: &Self) -> (r: bool) {
        if self.timestamp != other.timestamp {
            return self.timestamp < other.timestamp;
        }
        let (mine, theirs) = (self.tier.rank(), other.tier.rank());
        if mine != theirs {
            return mine < theirs;
        }
        match text::compare(self.identifier.as_str(), other.identifier.as_str()) {
            Rank::Less => true,
            Rank::Same => {
                proof {
                    text::before_irreflexive(self.identifier@);
                }
                false
            },
            Rank::Greater => {
                proof {
                    if text::before(self.identifier@, other.identifier@) {
                        text::before_transitive(self.identifier@, other.identifier@, self.identifier@);
                        text::before_irreflexive(self.identifier@);
                    }
                }
                false
            },
        }
    }

    proof fn irreflexive(a: Item) {
        text::before_irreflexive(a.identifier);
    }

    proof fn transitive(a: Item, b: Item, c: Item) {
        if text::before(a.identifier, b.identifier) && text::before(b.identifier, c.identifier) {
            text::before_transitive(a.identifier, b.identifier, c.identifier);
        }
    }

    proof fn negatively_transitive(a: Item, b: Item, c: Item) {
        if !text::before(a.identifier, b.identifier) && !text::before(b.identifier, c.identifier) {
            String::negatively_transitive(a.identifier, b.identifier, c.identifier);
        }
    }
}

/// A degradation as the report shows it.
#[derive(Clone, Debug)]
pub struct DegradationSummary {
    pub reason: DegradationReason,
    pub detail: String,
    pub recorded_at: i64,
}

/// What the watcher's files say of the range. The log is rotated, so that it
/// says nothing of what lies before its oldest event.
pub struct WatcherEvidence {
    /// The degradations recorded in the range.
    pub degradations: Vec<DegradationSummary>,
    /// How many generations of the event log there are.
    pub log_generations: u8,
    /// The oldest time in the log.
    pub log_oldest_observation: Option<i64>,
    /// The events in the range, counted by kind.
    pub events_in_range: Table<u64>,
    pub first_event_in_range: Option<i64>,
    pub last_event_in_range: Option<i64>,
    /// The lines that are no events.
    pub unparseable_log_lines: u64,
}

impl Default for WatcherEvidence {
    fn default() -> (r: Self)
        ensures
            r.degradations@ == Seq::<DegradationSummary>::empty(),
            r.log_generations == 0,
            r.log_oldest_observation is None,
            r.events_in_range@ == Map::<Seq<char>, u64>::empty(),
            r.first_event_in_range is None,
            r.last_event_in_range is None,
            r.unparseable_log_lines == 0,
    {
        WatcherEvidence {
            degradations: Vec::new(),
            log_generations: 0,
            log_oldest_observation: None,
            events_in_range: Table::new(),
            first_event_in_range: None,
            last_event_in_range: None,
            unparseable_log_lines: 0,
        }
    }
}

pub struct TimelineReport {
    pub schema_version: u64,
    /// The range, as times and as texts.
    pub since: i64,
    pub until: i64,
    pub since_text: String,
    pub until_text: String,
    /// Whether nothing unknown touches the range.
    pub history_complete: bool,
    pub entries: Vec<TimelineEntry>,
    pub watcher: WatcherEvidence,
}

/// Everything that a report is made of.
pub struct TimelineInput {
    pub since: i64,
    pub until: i64,
    /// Where an open unknown interval ends for now.
    pub now: i64,
    pub operations: Vec<OperationRecord>,
    pub snapshots: Vec<SnapshotRow>,
    pub boundaries: Vec<BoundaryRow>,
    pub unknown_intervals: Vec<UnknownIntervalRow>,
    pub watcher: WatcherEvidence,
}

/// A bound of the range that was asked for, or its default.
pub open spec fn bound_of(value: Option<&str>, default: i64) -> std::result::Result<int, Fault> {
    match value {
        None => Ok(default as int),
        Some(input) => match humantime::instant(input.spec_bytes()) {
            Ok(t) => Ok(t),
            Err(detail) => Err(humantime::timestamp_fault(input@, detail)),
        },
    }
}

/// The range that a report is asked for. A bound that is no timestamp refuses
/// it, the first one before the second, and so does a range that is empty.
pub open spec fn range_of(since: Option<&str>, until: Option<&str>, created_at: i64, now: i64) -> std::result::Result<
    (int, int),
    Seq<char>,
> {
    match (bound_of(since, created_at), bound_of(until, now)) {
        (Err(fault), _) => Err(fault.message()),
        (_, Err(fault)) => Err(fault.message()),
        (Ok(from), Ok(to)) => if from < to {
            Ok((from, to))
        } else {
            Err("--since must be earlier than --until"@)
        },
    }
}

fn bound(value: Option<&str>, default: i64) -> (r: Result<i64>)
    ensures
        match bound_of(value, default) {
            Ok(t) => r is Ok && r->Ok_0 == t,
            Err(fault) => r is Err && r->Err_0@ == fault,
        },
{
    match value {
        None => Ok(default),
        Some(input) => humantime::parse_rfc3339(input),
    }
}

/// The range that a report is asked for: from the making of the workspace up to
/// now, where no other bounds are given. The error is what is said of it.
pub fn requested_range(since: Option<&str>, until: Option<&str>, created_at: i64, now: i64) -> (r: std::result::Result<
    (i64, i64),
    String,
>)
    ensures
        match range_of(since, until, created_at, now) {
            Ok((from, to)) => r is Ok && r->Ok_0.0 == from && r->Ok_0.1 == to,
            Err(message) => r is Err && r->Err_0@ == message,
        },
{
    let from: i64 = match bound(since, created_at) {
        Ok(t) => t,
        Err(error) => {
            return Err(error.message());
        },
    };
    let to: i64 = match bound(until, now) {
        Ok(t) => t,
        Err(error) => {
            return Err(error.message());
        },
    };
    if from < to {
        Ok((from, to))
    } else {
        Err(text::copy("--since must be earlier than --until"))
    }
}

/// Whether a time lies in the half-open range.
pub open spec fn in_range(time: i64, since: i64, until: i64) -> bool {
    since <= time < until
}

/// Whether an unknown interval and the range have an instant in common. One
/// that is open reaches to `now`.
pub open spec fn interval_meets(row: UnknownIntervalRow, since: i64, until: i64, now: i64) -> bool {
    let end = match row.closed_at {
        Some(t) => t,
        None => now,
    };
    row.created_at < until && end > since
}

/// Whether a boundary and the range have an instant in common. One whose end
/// is not recorded is an instant.
pub open spec fn boundary_meets(row: BoundaryRow, since: i64, until: i64) -> bool {
    let end = match row.ended_at {
        Some(t) => t,
        None => row.started_at,
    };
    row.started_at < until && end >= since
}

/// The name of an operation kind.
pub open spec fn kind_label(kind: OperationKind) -> Seq<char> {
    match kind {
        OperationKind::Strong => "Strong"@,
        OperationKind::PassiveObservation => "PassiveObservation"@,
        OperationKind::Reconciliation => "Reconciliation"@,
        OperationKind::Restore => "Restore"@,
        OperationKind::CaptureFailed => "CaptureFailed"@,
        OperationKind::BoundaryOnly => "BoundaryOnly"@,
    }
}

fn kind_name(kind: &OperationKind) -> (r: &'static str)
    ensures
        r@ == kind_label(*kind),
{
    match kind {
        OperationKind::Strong => "Strong",
        OperationKind::PassiveObservation => "PassiveObservation",
        OperationKind::Reconciliation => "Reconciliation",
        OperationKind::Restore => "Restore",
        OperationKind::CaptureFailed => "CaptureFailed",
        OperationKind::BoundaryOnly => "BoundaryOnly",
    }
}

pub open spec fn operation_item(row: OperationRecord) -> Item {
    Item {
        tier: Tier::Operation,
        timestamp: row.created_at,
        end_timestamp: None,
        identifier: "operation "@ + decimal_int(row.id as int),
        summary: match row.command {
            Some(command) => command@,
            None => kind_label(row.kind) + " (no command)"@,
        },
        confidence: Some(row.confidence.text()),
        reversibility: Some(row.reversibility.text()),
        open: None,
    }
}

pub open spec fn snapshot_item(row: SnapshotRow) -> Item {
    Item {
        tier: Tier::Snapshot,
        timestamp: row.created_at,
        end_timestamp: None,
        identifier: "snapshot "@ + row.name@,
        summary: "state "@ + row.state_id@,
        confidence: None,
        reversibility: None,
        open: None,
    }
}

pub open spec fn interval_item(row: UnknownIntervalRow) -> Item {
    Item {
        tier: Tier::UnknownInterval,
        timestamp: row.created_at,
        end_timestamp: row.closed_at,
        identifier: "unknown interval "@ + decimal_int(row.id as int),
        summary: row.reason@,
        confidence: None,
        reversibility: None,
        open: Some(row.is_open),
    }
}

pub open spec fn boundary_item(row: BoundaryRow) -> Item {
    Item {
        tier: Tier::PassiveBoundary,
        timestamp: row.started_at,
        end_timestamp: row.ended_at,
        identifier: "boundary "@ + row.id@,
        summary: row.command@,
        confidence: Some("LOW"@),
        reversibility: Some("NOT_REVERSIBLE"@),
        open: None,
    }
}

pub open spec fn degradation_item(row: DegradationSummary) -> Item {
    Item {
        tier: Tier::Watch,
        timestamp: row.recorded_at,
        end_timestamp: None,
        identifier: "watcher degradation "@ + row.reason.text(),
        summary: row.detail@,
        confidence: None,
        reversibility: None,
        open: None,
    }
}

impl TimelineInput {
    pub open spec fn operation_items(self) -> Seq<Item> {
        kept(
            self.operations@,
            |row: OperationRecord| in_range(row.created_at, self.since, self.until),
            |row: OperationRecord| operation_item(row),
        )
    }

    pub open spec fn snapshot_items(self) -> Seq<Item> {
        kept(
            self.snapshots@,
            |row: SnapshotRow| in_range(row.created_at, self.since, self.until),
            |row: SnapshotRow| snapshot_item(row),
        )
    }

    pub open spec fn interval_items(self) -> Seq<Item> {
        kept(
            self.unknown_intervals@,
            |row: UnknownIntervalRow| interval_meets(row, self.since, self.until, self.now),
            |row: UnknownIntervalRow| interval_item(row),
        )
    }

    pub open spec fn boundary_items(self) -> Seq<Item> {
        kept(
            self.boundaries@,
            |row: BoundaryRow| boundary_meets(row, self.since, self.until),
            |row: BoundaryRow| boundary_item(row),
        )
    }

    pub open spec fn degradation_items(self) -> Seq<Item> {
        kept(
            self.watcher.degradations@,
            |row: DegradationSummary| in_range(row.recorded_at, self.since, self.until),
            |row: DegradationSummary| degradation_item(row),
        )
    }

    /// The evidence that touches the range, source by source.
    pub open spec fn items(self) -> Seq<Item> {
        self.operation_items() + self.snapshot_items() + self.interval_items() + self.boundary_items()
            + self.degradation_items()
    }

    /// Whether nothing unknown touches the range.
    pub open spec fn complete(self) -> bool {
        &&& forall|i: int|
            0 <= i < self.unknown_intervals@.len() ==> !interval_meets(
                #[trigger] self.unknown_intervals@[i],
                self.since,
                self.until,
                self.now,
            )
        &&& forall|i: int|
            0 <= i < self.watcher.degradations@.len() ==> !in_range(
                (#[trigger] self.watcher.degradations@[i]).recorded_at,
                self.since,
                self.until,
            )
    }

    fn collect_operations(&self, entries: &mut Vec<TimelineEntry>)
        ensures
            views(final(entries)@) == views(old(entries)@) + self.operation_items(),
    {
        let ghost keep = |row: OperationRecord| in_range(row.created_at, self.since, self.until);
        let ghost f = |row: OperationRecord| operation_item(row);
        let ghost start = views(entries@);
        for i in 0..self.operations.len()
            invariant
                keep == (|row: OperationRecord| in_range(row.created_at, self.since, self.until)),
                f == (|row: OperationRecord| operation_item(row)),
                views(entries@) == start + kept(self.operations@.take(i as int), keep, f),
        {
            proof {
                order::kept_step(self.operations@, i as int, keep, f);
            }
            let row = &self.operations[i];
            if !(row.created_at < self.since || row.created_at >= self.until) {
                let mut identifier = text::copy("operation ");
                identifier.append(text::decimal_i64(row.id).as_str());
                let summary = match &row.command {
                    Some(command) => text::copy(command.as_str()),
                    None => {
                        let mut summary = text::copy(kind_name(&row.kind));
                        summary.append(" (no command)");
                        summary
                    },
                };
                let entry = TimelineEntry {
                    tier: Tier::Operation,
                    timestamp: row.created_at,
                    end_timestamp: None,
                    identifier,
                    summary: summary,
                    confidence: Some(text::copy(row.confidence.as_str())),
                    reversibility: Some(text::copy(row.reversibility.as_str())),
                    open: None,
                };
                assert(entry@ == operation_item(*row));
                proof {
                    order::push_contains(entries@, entry);
                    assert(views(entries@).push(entry@) =~= start + kept(self.operations@.take(i as int), keep, f).push(f(*row)));
                }
                entries.push(entry);
            }
        }
        assert(self.operations@.take(self.operations@.len() as int) =~= self.operations@);
    }

    fn collect_snapshots(&self, entries: &mut Vec<TimelineEntry>)
        ensures
            views(final(entries)@) == views(old(entries)@) + self.snapshot_items(),
    {
        let ghost keep = |row: SnapshotRow| in_range(row.created_at, self.since, self.until);
        let ghost f = |row: SnapshotRow| snapshot_item(row);
        let ghost start = views(entries@);
        for i in 0..self.snapshots.len()
            invariant
                keep == (|row: SnapshotRow| in_range(row.created_at, self.since, self.until)),
                f == (|row: SnapshotRow| snapshot_item(row)),
                views(entries@) == start + kept(self.snapshots@.take(i as int), keep, f),
        {
            proof {
                order::kept_step(self.snapshots@, i as int, keep, f);
            }
            let row = &self.snapshots[i];
            if !(row.created_at < self.since || row.created_at >= self.until) {
                let mut identifier = text::copy("snapshot ");
                identifier.append(row.name.as_str());
                let mut summary = text::copy("state ");
                summary.append(row.state_id.as_str());
                let entry = TimelineEntry {
                    tier: Tier::Snapshot,
                    timestamp: row.created_at,
                    end_timestamp: None,
                    identifier,
                    summary: summary,
                    confidence: None,
                    reversibility: None,
                    open: None,
                };
                assert(entry@ == snapshot_item(*row));
                proof {
                    order::push_contains(entries@, entry);
                    assert(views(entries@).push(entry@) =~= start + kept(self.snapshots@.take(i as int), keep, f).push(f(*row)));
                }
                entries.push(entry);
            }
        }
        assert(self.snapshots@.take(self.snapshots@.len() as int) =~= self.snapshots@);
    }

    fn collect_intervals(&self, entries: &mut Vec<TimelineEntry>)
        ensures
            views(final(entries)@) == views(old(entries)@) + self.interval_items(),
    {
        let ghost keep = |row: UnknownIntervalRow| interval_meets(row, self.since, self.until, self.now);
        let ghost f = |row: UnknownIntervalRow| interval_item(row);
        let ghost start = views(entries@);
        for i in 0..self.unknown_intervals.len()
            invariant
                keep == (|row: UnknownIntervalRow| interval_meets(row, self.since, self.until, self.now)),
                f == (|row: UnknownIntervalRow| interval_item(row)),
                views(entries@) == start + kept(self.unknown_intervals@.take(i as int), keep, f),
        {
            proof {
                order::kept_step(self.unknown_intervals@, i as int, keep, f);
            }
            let row = &self.unknown_intervals[i];
            let effective_end: i64 = match row.closed_at {
                Some(t) => t,
                None => self.now,
            };
            if row.created_at < self.until && effective_end > self.since {
                let mut identifier = text::copy("unknown interval ");
                identifier.append(text::decimal_i64(row.id).as_str());
                let entry = TimelineEntry {
                    tier: Tier::UnknownInterval,
                    timestamp: row.created_at,
                    end_timestamp: row.closed_at,
                    identifier,
                    summary: text::copy(row.reason.as_str()),
                    confidence: None,
                    reversibility: None,
                    open: Some(row.is_open),
                };
                assert(entry@ == interval_item(*row));
                proof {
                    order::push_contains(entries@, entry);
                    assert(views(entries@).push(entry@) =~= start + kept(self.unknown_intervals@.take(i as int), keep, f).push(f(*row)));
                }
                entries.push(entry);
            }
        }
        assert(self.unknown_intervals@.take(self.unknown_intervals@.len() as int) =~= self.unknown_intervals@);
    }

    fn collect_boundaries(&self, entries: &mut Vec<TimelineEntry>)
        ensures
            views(final(entries)@) == views(old(entries)@) + self.boundary_items(),
    {
        let ghost keep = |row: BoundaryRow| boundary_meets(row, self.since, self.until);
        let ghost f = |row: BoundaryRow| boundary_item(row);
        let ghost start = views(entries@);
        for i in 0..self.boundaries.len()
            invariant
                keep == (|row: BoundaryRow| boundary_meets(row, self.since, self.until)),
                f == (|row: BoundaryRow| boundary_item(row)),
                views(entries@) == start + kept(self.boundaries@.take(i as int), keep, f),
        {
            proof {
                order::kept_step(self.boundaries@, i as int, keep, f);
            }
            let row = &self.boundaries[i];
            let effective_end: i64 = match row.ended_at {
                Some(t) => t,
                None => row.started_at,
            };
            if row.started_at < self.until && effective_end >= self.since {
                let mut identifier = text::copy("boundary ");
                identifier.append(row.id.as_str());
                let entry = TimelineEntry {
                    tier: Tier::PassiveBoundary,
                    timestamp: row.started_at,
                    end_timestamp: row.ended_at,
                    identifier,
                    summary: text::copy(row.command.as_str()),
                    confidence: Some(text::copy("LOW")),
                    reversibility: Some(text::copy("NOT_REVERSIBLE")),
                    open: None,
                };
                assert(entry@ == boundary_item(*row));
                proof {
                    order::push_contains(entries@, entry);
                    assert(views(entries@).push(entry@) =~= start + kept(self.boundaries@.take(i as int), keep, f).push(f(*row)));
                }
                entries.push(entry);
            }
        }
        assert(self.boundaries@.take(self.boundaries@.len() as int) =~= self.boundaries@);
    }

    fn collect_degradations(&self, entries: &mut Vec<TimelineEntry>)
        ensures
            views(final(entries)@) == views(old(entries)@) + self.degradation_items(),
    {
        let ghost keep = |row: DegradationSummary| in_range(row.recorded_at, self.since, self.until);
        let ghost f = |row: DegradationSummary| degradation_item(row);
        let ghost start = views(entries@);
        for i in 0..self.watcher.degradations.len()
            invariant
                keep == (|row: DegradationSummary| in_range(row.recorded_at, self.since, self.until)),
                f == (|row: DegradationSummary| degradation_item(row)),
                views(entries@) == start + kept(self.watcher.degradations@.take(i as int), keep, f),
        {
            proof {
                order::kept_step(self.watcher.degradations@, i as int, keep, f);
            }
            let row = &self.watcher.degradations[i];
            if !(row.recorded_at < self.since || row.recorded_at >= self.until) {
                let mut identifier = text::copy("watcher degradation ");
                identifier.append(row.reason.as_str());
                let entry = TimelineEntry {
                    tier: Tier::Watch,
                    timestamp: row.recorded_at,
                    end_timestamp: None,
                    identifier,
                    summary: text::copy(row.detail.as_str()),
                    confidence: None,
                    reversibility: None,
                    open: None,
                };
                assert(entry@ == degradation_item(*row));
                proof {
                    order::push_contains(entries@, entry);
                    assert(views(entries@).push(entry@) =~= start + kept(self.watcher.degradations@.take(i as int), keep, f).push(f(*row)));
                }
                entries.push(entry);
            }
        }
        assert(self.watcher.degradations@.take(self.watcher.degradations@.len() as int) =~= self.watcher.degradations@);
    }

    /// Whether nothing unknown touches the range.
    fn is_complete(&self) -> (r: bool)
        ensures
            r == self.complete(),
    {
        for i in 0..self.unknown_intervals.len()
            invariant
                forall|k: int|
                    0 <= k < i ==> !interval_meets(
                        #[trigger] self.unknown_intervals@[k],
                        self.since,
                        self.until,
                        self.now,
                    ),
        {
            let row = &self.unknown_intervals[i];
            let effective_end: i64 = match row.closed_at {
                Some(t) => t,
                None => self.now,
            };
            if row.created_at < self.until && effective_end > self.since {
                assert(interval_meets(self.unknown_intervals@[i as int], self.since, self.until, self.now));
                return false;
            }
        }
        for i in 0..self.watcher.degradations.len()
            invariant
                forall|k: int|
                    0 <= k < i ==> !in_range(
                        (#[trigger] self.watcher.degradations@[k]).recorded_at,
                        self.since,
                        self.until,
                    ),
        {
            let recorded_at = self.watcher.degradations[i].recorded_at;
            if recorded_at >= self.since && recorded_at < self.until {
                assert(in_range(self.watcher.degradations@[i as int].recorded_at, self.since, self.until));
                return false;
            }
        }
        true
    }

    /// Filters and merges the sources into the report.
    pub fn build(self) -> (r: TimelineReport)
        ensures
            r.schema_version == TIMELINE_SCHEMA_VERSION,
            r.since == self.since,
            r.until == self.until,
            r.since_text@ == humantime::formatted(self.since as int),
            r.until_text@ == humantime::formatted(self.until as int),
            r.history_complete == self.complete(),
            views(r.entries@) == order::arranged::<TimelineEntry>(self.items()),
            r.watcher == self.watcher,
    {
        let mut entries: Vec<TimelineEntry> = Vec::new();
        assert(views(entries@) =~= Seq::<Item>::empty());
        self.collect_operations(&mut entries);
        self.collect_snapshots(&mut entries);
        self.collect_intervals(&mut entries);
        self.collect_boundaries(&mut entries);
        self.collect_degradations(&mut entries);
        assert(views(entries@) =~= self.items());
        let history_complete = self.is_complete();
        proof {
            order::sorted_arranges(entries@);
        }
        let entries = order::sort(entries);
        TimelineReport {
            schema_version: TIMELINE_SCHEMA_VERSION,
            since: self.since,
            until: self.until,
            since_text: humantime::format_rfc3339(self.since),
            until_text: humantime::format_rfc3339(self.until),
            history_complete,
            entries,
            watcher: self.watcher,
        }
    }
}

/// True when the watcher log cannot speak for the whole range: it holds
/// nothing, or its oldest event is later than the start of the range.
pub fn watcher_log_may_predate_range(evidence: &WatcherEvidence, since: i64) -> (r: bool)
    ensures
        r == match evidence.log_oldest_observation {
            Some(oldest) => oldest > since,
            None => true,
        },
{
    match evidence.log_oldest_observation {
        Some(oldest) => oldest > since,
        None => true,
    }
}

// ---------------------------------------------------------------------------
// The evidence of the watcher's files
// ---------------------------------------------------------------------------

/// One generation of the event log: whether there is such a file, and its
/// lines, each with the event it holds. A file that cannot be read has none.
pub struct LogGeneration {
    pub exists: bool,
    pub lines: Vec<Option<FsEvent>>,
}

/// How many lines hold no event.
pub open spec fn unparsed(lines: Seq<Option<FsEvent>>) -> int
    decreases lines.len(),
{
    if lines.len() == 0 {
        0
    } else {
        unparsed(lines.drop_last()) + if lines.last() is None { 1int } else { 0 }
    }
}

/// Whether a line holds an event of the range.
pub open spec fn seen_in(line: Option<FsEvent>, since: i64, until: i64) -> bool {
    line is Some && in_range(line->0.timestamp, since, until)
}

/// How many events of one kind the range holds.
pub open spec fn counted(lines: Seq<Option<FsEvent>>, kind: Seq<char>, since: i64, until: i64) -> int
    decreases lines.len(),
{
    if lines.len() == 0 {
        0
    } else {
        counted(lines.drop_last(), kind, since, until) + if seen_in(lines.last(), since, until)
            && lines.last()->0.kind.text() == kind {
            1int
        } else {
            0
        }
    }
}

/// Whether `found` is the earliest time of the events of which `keep` holds.
pub open spec fn is_earliest(lines: Seq<Option<FsEvent>>, keep: spec_fn(Option<FsEvent>) -> bool, found: Option<i64>) -> bool {
    match found {
        Some(t) => {
            &&& exists|i: int| 0 <= i < lines.len() && keep(#[trigger] lines[i]) && lines[i]->0.timestamp == t
            &&& forall|i: int| 0 <= i < lines.len() && keep(#[trigger] lines[i]) ==> t <= lines[i]->0.timestamp
        },
        None => forall|i: int| 0 <= i < lines.len() ==> !keep(#[trigger] lines[i]),
    }
}

/// Whether `found` is the latest time of the events of which `keep` holds.
pub open spec fn is_latest(lines: Seq<Option<FsEvent>>, keep: spec_fn(Option<FsEvent>) -> bool, found: Option<i64>) -> bool {
    match found {
        Some(t) => {
            &&& exists|i: int| 0 <= i < lines.len() && keep(#[trigger] lines[i]) && lines[i]->0.timestamp == t
            &&& forall|i: int| 0 <= i < lines.len() && keep(#[trigger] lines[i]) ==> lines[i]->0.timestamp <= t
        },
        None => forall|i: int| 0 <= i < lines.len() ==> !keep(#[trigger] lines[i]),
    }
}

/// What the evidence says of the lines of the log.
pub open spec fn tells(evidence: WatcherEvidence, lines: Seq<Option<FsEvent>>, since: i64, until: i64) -> bool {
    &&& evidence.unparseable_log_lines == unparsed(lines)
    &&& is_earliest(lines, |line: Option<FsEvent>| line is Some, evidence.log_oldest_observation)
    &&& is_earliest(lines, |line: Option<FsEvent>| seen_in(line, since, until), evidence.first_event_in_range)
    &&& is_latest(lines, |line: Option<FsEvent>| seen_in(line, since, until), evidence.last_event_in_range)
    &&& forall|kind: Seq<char>|
        #![trigger evidence.events_in_range@.contains_key(kind)]
        evidence.events_in_range@.contains_key(kind) == (counted(lines, kind, since, until) > 0)
    &&& forall|kind: Seq<char>|
        #![trigger evidence.events_in_range@[kind]]
        evidence.events_in_range@.contains_key(kind) ==> evidence.events_in_range@[kind] == counted(
            lines,
            kind,
            since,
            until,
        )
}

proof fn counts_bounded(lines: Seq<Option<FsEvent>>, kind: Seq<char>, since: i64, until: i64)
    ensures
        0 <= unparsed(lines) <= lines.len(),
        0 <= counted(lines, kind, since, until) <= lines.len(),
    decreases lines.len(),
{
    if lines.len() > 0 {
        counts_bounded(lines.drop_last(), kind, since, until);
    }
}

proof fn earliest_step(
    lines: Seq<Option<FsEvent>>,
    line: Option<FsEvent>,
    keep: spec_fn(Option<FsEvent>) -> bool,
    found: Option<i64>,
)
    requires
        is_earliest(lines, keep, found),
    ensures
        !keep(line) ==> is_earliest(lines.push(line), keep, found),
        keep(line) && found is Some && found->0 <= line->0.timestamp ==> is_earliest(lines.push(line), keep, found),
        keep(line) && (found is None || line->0.timestamp < found->0) ==> is_earliest(
            lines.push(line),
            keep,
            Some(line->0.timestamp),
        ),
{
    let more = lines.push(line);
    assert(forall|i: int| 0 <= i < lines.len() ==> more[i] == #[trigger] lines[i]);
    assert(more[lines.len() as int] == line);
    if found is Some {
        let k = choose|i: int| 0 <= i < lines.len() && keep(#[trigger] lines[i]) && lines[i]->0.timestamp == found->0;
        assert(keep(more[k]));
    }
}

proof fn latest_step(
    lines: Seq<Option<FsEvent>>,
    line: Option<FsEvent>,
    keep: spec_fn(Option<FsEvent>) -> bool,
    found: Option<i64>,
)
    requires
        is_latest(lines, keep, found),
    ensures
        !keep(line) ==> is_latest(lines.push(line), keep, found),
        keep(line) && found is Some && line->0.timestamp <= found->0 ==> is_latest(lines.push(line), keep, found),
        keep(line) && (found is None || found->0 <= line->0.timestamp) ==> is_latest(
            lines.push(line),
            keep,
            Some(line->0.timestamp),
        ),
{
    let more = lines.push(line);
    assert(forall|i: int| 0 <= i < lines.len() ==> more[i] == #[trigger] lines[i]);
    assert(more[lines.len() as int] == line);
    if found is Some {
        let k = choose|i: int| 0 <= i < lines.len() && keep(#[trigger] lines[i]) && lines[i]->0.timestamp == found->0;
        assert(keep(more[k]));
    }
}

impl WatcherEvidence {
    /// Takes one more line of the log into account.
    fn note(&mut self, line: &Option<FsEvent>, since: i64, until: i64, Ghost(seen): Ghost<Seq<Option<FsEvent>>>)
        requires
            tells(*old(self), seen, since, until),
            seen.len() < u64::MAX,
        ensures
            tells(*final(self), seen.push(*line), since, until),
            final(self).degradations == old(self).degradations,
            final(self).log_generations == old(self).log_generations,
    {
        let ghost all = |l: Option<FsEvent>| l is Some;
        let ghost within = |l: Option<FsEvent>| seen_in(l, since, until);
        let ghost counts = self.events_in_range@;
        let ghost more = seen.push(*line);
        proof {
            assert(more.drop_last() =~= seen);
            assert(more.last() == *line);
            earliest_step(seen, *line, all, self.log_oldest_observation);
            earliest_step(seen, *line, within, self.first_event_in_range);
            latest_step(seen, *line, within, self.last_event_in_range);
            counts_bounded(seen, Seq::empty(), since, until);
        }
        let event = match line {
            None => {
                self.unparseable_log_lines = self.unparseable_log_lines + 1;
                return;
            },
            Some(event) => event,
        };
        let oldest = match self.log_oldest_observation {
            Some(t) => event.timestamp < t,
            None => true,
        };
        if oldest {
            self.log_oldest_observation = Some(event.timestamp);
        }
        if event.timestamp >= since && event.timestamp < until {
            let kind = event.kind.as_str();
            let count: u64 = match self.events_in_range.get(kind) {
                Some(n) => *n,
                None => 0,
            };
            proof {
                counts_bounded(seen, kind@, since, until);
                assert(count == counted(seen, kind@, since, until));
            }
            self.events_in_range.insert(text::copy(kind), count + 1);
            let first = match self.first_event_in_range {
                Some(t) => event.timestamp < t,
                None => true,
            };
            if first {
                self.first_event_in_range = Some(event.timestamp);
            }
            let last = match self.last_event_in_range {
                Some(t) => event.timestamp >= t,
                None => true,
            };
            if last {
                self.last_event_in_range = Some(event.timestamp);
            }
        }
        proof {
            assert forall|kind: Seq<char>| #![trigger self.events_in_range@.contains_key(kind)]
                self.events_in_range@.contains_key(kind) == (counted(more, kind, since, until) > 0) by {
                counts_bounded(seen, kind, since, until);
                assert(counts.contains_key(kind) == (counted(seen, kind, since, until) > 0));
            }
            assert forall|kind: Seq<char>| #![trigger self.events_in_range@[kind]]
                self.events_in_range@.contains_key(kind) implies self.events_in_range@[kind] == counted(
                more,
                kind,
                since,
                until,
            ) by {
                assert(counts.contains_key(kind) ==> counts[kind] == counted(seen, kind, since, until));
            }
        }
    }
}

/// The degradations recorded in the range, as the report shows them.
pub open spec fn summarized(records: Seq<DegradationRecord>, since: i64, until: i64) -> Seq<(DegradationReason, Seq<char>, i64)> {
    kept(
        records,
        |record: DegradationRecord| in_range(record.recorded_at, since, until),
        |record: DegradationRecord| (record.reason, record.detail@, record.recorded_at),
    )
}

pub open spec fn summaries(list: Seq<DegradationSummary>) -> Seq<(DegradationReason, Seq<char>, i64)> {
    list.map_values(|row: DegradationSummary| (row.reason, row.detail@, row.recorded_at))
}

/// Summarizes the watcher's files for a range: the two generations of the
/// event log, the older one first, and the pending degradations.
pub fn read_watcher_evidence(
    previous: &LogGeneration,
    current: &LogGeneration,
    marker: &Option<Degradations>,
    since: i64,
    until: i64,
) -> (r: WatcherEvidence)
    requires
        previous.lines@.len() + current.lines@.len() < u64::MAX,
    ensures
        tells(r, previous.lines@ + current.lines@, since, until),
        r.log_generations == (if previous.exists { 1int } else { 0 }) + (if current.exists { 1int } else { 0 }),
        summaries(r.degradations@) == match *marker {
            Some(m) => summarized(m.records@, since, until),
            None => Seq::<(DegradationReason, Seq<char>, i64)>::empty(),
        },
{
    let mut evidence = WatcherEvidence::default();
    let ghost all = previous.lines@ + current.lines@;
    if previous.exists {
        evidence.log_generations = evidence.log_generations + 1;
    }
    if current.exists {
        evidence.log_generations = evidence.log_generations + 1;
    }
    assert(all.take(0) =~= Seq::empty());
    for i in 0..previous.lines.len()
        invariant
            previous.lines@.len() + current.lines@.len() < u64::MAX,
            all == previous.lines@ + current.lines@,
            tells(evidence, all.take(i as int), since, until),
            evidence.degradations@ == Seq::<DegradationSummary>::empty(),
            evidence.log_generations == (if previous.exists { 1int } else { 0 }) + (if current.exists {
                1int
            } else {
                0
            }),
    {
        assert(all.take(i as int).push(previous.lines@[i as int]) =~= all.take(i + 1));
        evidence.note(&previous.lines[i], since, until, Ghost(all.take(i as int)));
    }
    for i in 0..current.lines.len()
        invariant
            previous.lines@.len() + current.lines@.len() < u64::MAX,
            all == previous.lines@ + current.lines@,
            tells(evidence, all.take(previous.lines@.len() + i), since, until),
            evidence.degradations@ == Seq::<DegradationSummary>::empty(),
            evidence.log_generations == (if previous.exists { 1int } else { 0 }) + (if current.exists {
                1int
            } else {
                0
            }),
    {
        assert(all.take(previous.lines@.len() + i).push(current.lines@[i as int]) =~= all.take(
            previous.lines@.len() + i + 1,
        ));
        evidence.note(&current.lines[i], since, until, Ghost(all.take(previous.lines@.len() + i)));
    }
    assert(all.take(all.len() as int) =~= all);
    let ghost read = evidence;
    let mut degradations: Vec<DegradationSummary> = Vec::new();
    assert(summaries(degradations@) =~= Seq::empty());
    if let Some(pending) = marker {
        let ghost keep = |record: DegradationRecord| in_range(record.recorded_at, since, until);
        let ghost f = |record: DegradationRecord| (record.reason, record.detail@, record.recorded_at);
        for i in 0..pending.records.len()
            invariant
                keep == (|record: DegradationRecord| in_range(record.recorded_at, since, until)),
                f == (|record: DegradationRecord| (record.reason, record.detail@, record.recorded_at)),
                summaries(degradations@) == kept(pending.records@.take(i as int), keep, f),
        {
            proof {
                order::kept_step(pending.records@, i as int, keep, f);
            }
            let record = &pending.records[i];
            if record.recorded_at >= since && record.recorded_at < until {
                let summary = DegradationSummary {
                    reason: record.reason,
                    detail: text::copy(record.detail.as_str()),
                    recorded_at: record.recorded_at,
                };
                assert(summaries(degradations@.push(summary)) =~= summaries(degradations@).push(f(*record)));
                degradations.push(summary);
            }
        }
        assert(pending.records@.take(pending.records@.len() as int) =~= pending.records@);
    }
    evidence.degradations = degradations;
    assert(tells(read, all, since, until));
    evidence
}

// ---------------------------------------------------------------------------
// Laws
// ---------------------------------------------------------------------------

/// Adjacent ranges tile: an operation, a snapshot or a degradation of the whole
/// range stands in exactly one of its two parts, and as often as before.
pub proof fn ranges_tile(whole: TimelineInput, early: TimelineInput, late: TimelineInput, middle: i64)
    requires
        whole.since <= middle <= whole.until,
        early == (TimelineInput { until: middle, ..whole }),
        late == (TimelineInput { since: middle, ..whole }),
    ensures
        whole.operation_items().to_multiset() == early.operation_items().to_multiset().add(
            late.operation_items().to_multiset(),
        ),
        whole.snapshot_items().to_multiset() == early.snapshot_items().to_multiset().add(
            late.snapshot_items().to_multiset(),
        ),
        whole.degradation_items().to_multiset() == early.degradation_items().to_multiset().add(
            late.degradation_items().to_multiset(),
        ),
{
    order::kept_parts(
        whole.operations@,
        |row: OperationRecord| in_range(row.created_at, whole.since, whole.until),
        |row: OperationRecord| in_range(row.created_at, early.since, early.until),
        |row: OperationRecord| in_range(row.created_at, late.since, late.until),
        |row: OperationRecord| operation_item(row),
    );
    order::kept_parts(
        whole.snapshots@,
        |row: SnapshotRow| in_range(row.created_at, whole.since, whole.until),
        |row: SnapshotRow| in_range(row.created_at, early.since, early.until),
        |row: SnapshotRow| in_range(row.created_at, late.since, late.until),
        |row: SnapshotRow| snapshot_item(row),
    );
    order::kept_parts(
        whole.watcher.degradations@,
        |row: DegradationSummary| in_range(row.recorded_at, whole.since, whole.until),
        |row: DegradationSummary| in_range(row.recorded_at, early.since, early.until),
        |row: DegradationSummary| in_range(row.recorded_at, late.since, late.until),
        |row: DegradationSummary| degradation_item(row),
    );
}

/// A range of which a part is incomplete is incomplete.
pub proof fn uncertainty_spreads(whole: TimelineInput, part: TimelineInput)
    requires
        whole.since <= part.since,
        part.until <= whole.until,
        part == (TimelineInput { since: part.since, until: part.until, ..whole }),
        !part.complete(),
    ensures
        !whole.complete(),
{
    if exists|i: int|
        0 <= i < part.unknown_intervals@.len() && interval_meets(
            #[trigger] part.unknown_intervals@[i],
            part.since,
            part.until,
            part.now,
        ) {
        let i = choose|i: int|
            0 <= i < part.unknown_intervals@.len() && interval_meets(
                #[trigger] part.unknown_intervals@[i],
                part.since,
                part.until,
                part.now,
            );
        assert(interval_meets(whole.unknown_intervals@[i], whole.since, whole.until, whole.now));
    } else {
        let i = choose|i: int|
            0 <= i < part.watcher.degradations@.len() && in_range(
                (#[trigger] part.watcher.degradations@[i]).recorded_at,
                part.since,
                part.until,
            );
        assert(in_range(whole.watcher.degradations@[i].recorded_at, whole.since, whole.until));
    }
}

/// The entries of a report are in order, and they are the evidence that
/// touches the range, each as often as it was recorded.
pub proof fn entries_are_ordered_evidence(input: TimelineInput)
    ensures
        ({
            let entries = order::arranged::<TimelineEntry>(input.items());
            &&& entries.to_multiset() == input.items().to_multiset()
            &&& forall|i: int, j: int|
                0 <= i < j < entries.len() ==> !TimelineEntry::before(#[trigger] entries[j], #[trigger] entries[i])
        }),
{
    order::arranged_ascends::<TimelineEntry>(input.items());
    order::arranged_keeps::<TimelineEntry>(input.items());
}

/// The report is complete exactly when no entry is an unknown interval and none
/// a watcher degradation.
pub proof fn complete_iff_nothing_uncertain(input: TimelineInput)
    ensures
        input.complete() == (input.interval_items().len() == 0 && input.degradation_items().len() == 0),
{
    let meets = |row: UnknownIntervalRow| interval_meets(row, input.since, input.until, input.now);
    let shown = |row: UnknownIntervalRow| interval_item(row);
    let within = |row: DegradationSummary| in_range(row.recorded_at, input.since, input.until);
    let told = |row: DegradationSummary| degradation_item(row);
    order::kept_are(input.unknown_intervals@, meets, shown);
    order::kept_are(input.watcher.degradations@, within, told);
    if input.interval_items().len() > 0 {
        let y = input.interval_items()[0];
        assert(kept(input.unknown_intervals@, meets, shown).contains(y));
        let i = choose|i: int|
            0 <= i < input.unknown_intervals@.len() && meets(#[trigger] input.unknown_intervals@[i]) && y == shown(
                input.unknown_intervals@[i],
            );
        assert(interval_meets(input.unknown_intervals@[i], input.since, input.until, input.now));
    }
    if input.degradation_items().len() > 0 {
        let y = input.degradation_items()[0];
        assert(kept(input.watcher.degradations@, within, told).contains(y));
        let i = choose|i: int|
            0 <= i < input.watcher.degradations@.len() && within(#[trigger] input.watcher.degradations@[i]) && y
                == told(input.watcher.degradations@[i]);
        assert(in_range(input.watcher.degradations@[i].recorded_at, input.since, input.until));
    }
    if !input.complete() {
        if exists|i: int| 0 <= i < input.unknown_intervals@.len() && meets(#[trigger] input.unknown_intervals@[i]) {
            let i = choose|i: int|
                0 <= i < input.unknown_intervals@.len() && meets(#[trigger] input.unknown_intervals@[i]);
            assert(input.interval_items().contains(shown(input.unknown_intervals@[i])));
        } else {
            assert forall|i: int| 0 <= i < input.unknown_intervals@.len() implies !interval_meets(
                #[trigger] input.unknown_intervals@[i],
                input.since,
                input.until,
                input.now,
            ) by {
                assert(!meets(input.unknown_intervals@[i]));
            }
            let i = choose|i: int|
                0 <= i < input.watcher.degradations@.len() && in_range(
                    (#[trigger] input.watcher.degradations@[i]).recorded_at,
                    input.since,
                    input.until,
                );
            assert(within(input.watcher.degradations@[i]));
            assert(input.degradation_items().contains(told(input.watcher.degradations@[i])));
        }
    }
}

// ---------------------------------------------------------------------------
// What the calls promise
// ---------------------------------------------------------------------------

/// Whether an entry shows an operation: its command exactly where one is
/// recorded, and what kind it is where none is.
pub open spec fn shows_operation(e: TimelineEntry, row: OperationRecord) -> bool {
    &&& e.tier == Tier::Operation
    &&& e.timestamp == row.created_at
    &&& e.end_timestamp is None
    &&& e.identifier@ == "operation "@ + decimal_int(row.id as int)
    &&& row.command is Some ==> e.summary@ == row.command->0@
    &&& row.command is None ==> e.summary@ == match row.kind {
        OperationKind::Strong => "Strong"@,
        OperationKind::PassiveObservation => "PassiveObservation"@,
        OperationKind::Reconciliation => "Reconciliation"@,
        OperationKind::Restore => "Restore"@,
        OperationKind::CaptureFailed => "CaptureFailed"@,
        OperationKind::BoundaryOnly => "BoundaryOnly"@,
    } + " (no command)"@
    &&& e.confidence is Some
    &&& e.confidence->0@ == row.confidence.text()
    &&& e.reversibility is Some
    &&& e.reversibility->0@ == row.reversibility.text()
    &&& e.open is None
}

/// Whether an entry shows a snapshot.
pub open spec fn shows_snapshot(e: TimelineEntry, row: SnapshotRow) -> bool {
    &&& e.tier == Tier::Snapshot
    &&& e.timestamp == row.created_at
    &&& e.end_timestamp is None
    &&& e.identifier@ == "snapshot "@ + row.name@
    &&& e.summary@ == "state "@ + row.state_id@
    &&& e.confidence is None
    &&& e.reversibility is None
    &&& e.open is None
}

/// Whether an entry shows an unknown interval, whole and with its reason.
pub open spec fn shows_interval(e: TimelineEntry, row: UnknownIntervalRow) -> bool {
    &&& e.tier == Tier::UnknownInterval
    &&& e.timestamp == row.created_at
    &&& e.end_timestamp == row.closed_at
    &&& e.identifier@ == "unknown interval "@ + decimal_int(row.id as int)
    &&& e.summary@ == row.reason@
    &&& e.confidence is None
    &&& e.reversibility is None
    &&& e.open == Some(row.is_open)
}

/// Whether an entry shows a boundary, whole and with its command. A boundary is
/// never worth much, and cannot be undone.
pub open spec fn shows_boundary(e: TimelineEntry, row: BoundaryRow) -> bool {
    &&& e.tier == Tier::PassiveBoundary
    &&& e.timestamp == row.started_at
    &&& e.end_timestamp == row.ended_at
    &&& e.identifier@ == "boundary "@ + row.id@
    &&& e.summary@ == row.command@
    &&& e.confidence is Some
    &&& e.confidence->0@ == "LOW"@
    &&& e.reversibility is Some
    &&& e.reversibility->0@ == "NOT_REVERSIBLE"@
    &&& e.open is None
}

/// Whether an entry shows a degradation of the watcher.
pub open spec fn shows_degradation(e: TimelineEntry, row: DegradationSummary) -> bool {
    &&& e.tier == Tier::Watch
    &&& e.timestamp == row.recorded_at
    &&& e.end_timestamp is None
    &&& e.identifier@ == "watcher degradation "@ + row.reason.text()
    &&& e.summary@ == row.detail@
    &&& e.confidence is None
    &&& e.reversibility is None
    &&& e.open is None
}

/// An item of a report stands in it as an entry.
proof fn item_is_shown(input: TimelineInput, report: TimelineReport, item: Item) -> (n: int)
    requires
        views(report.entries@) == order::arranged::<TimelineEntry>(input.items()),
        input.items().contains(item),
    ensures
        0 <= n < report.entries@.len(),
        report.entries@[n]@ == item,
{
    broadcast use vstd::seq_lib::group_to_multiset_ensures;

    let entries = order::arranged::<TimelineEntry>(input.items());
    order::arranged_keeps::<TimelineEntry>(input.items());
    assert(input.items().to_multiset().contains(item));
    assert(entries.contains(item));
    let n = choose|n: int| 0 <= n < entries.len() && entries[n] == item;
    assert(views(report.entries@)[n] == report.entries@[n]@);
    n
}

/// An entry of a report is one of its items.
proof fn shown_is_item(input: TimelineInput, report: TimelineReport, n: int)
    requires
        views(report.entries@) == order::arranged::<TimelineEntry>(input.items()),
        0 <= n < report.entries@.len(),
    ensures
        input.items().contains(report.entries@[n]@),
{
    broadcast use vstd::seq_lib::group_to_multiset_ensures;

    let entries = order::arranged::<TimelineEntry>(input.items());
    order::arranged_keeps::<TimelineEntry>(input.items());
    assert(views(report.entries@)[n] == report.entries@[n]@);
    assert(entries.contains(entries[n]));
    assert(entries.to_multiset().contains(entries[n]));
    assert(input.items().to_multiset().contains(entries[n]));
}

/// The items of a report are those of its five sources.
proof fn items_are_of_sources(input: TimelineInput, item: Item)
    ensures
        input.items().contains(item) == (input.operation_items().contains(item) || input.snapshot_items().contains(item)
            || input.interval_items().contains(item) || input.boundary_items().contains(item)
            || input.degradation_items().contains(item)),
{
    let a = input.operation_items();
    let b = input.snapshot_items();
    let c = input.interval_items();
    let d = input.boundary_items();
    let e = input.degradation_items();
    either_contains(a, b, item);
    either_contains(a + b, c, item);
    either_contains(a + b + c, d, item);
    either_contains(a + b + c + d, e, item);
}

proof fn either_contains(a: Seq<Item>, b: Seq<Item>, item: Item)
    ensures
        (a + b).contains(item) == (a.contains(item) || b.contains(item)),
{
    let all = a + b;
    if a.contains(item) {
        let i = choose|i: int| 0 <= i < a.len() && a[i] == item;
        assert(all[i] == item);
    }
    if b.contains(item) {
        let i = choose|i: int| 0 <= i < b.len() && b[i] == item;
        assert(all[a.len() + i] == item);
    }
    if all.contains(item) {
        let i = choose|i: int| 0 <= i < all.len() && all[i] == item;
        if i < a.len() {
            assert(a[i] == item);
        } else {
            assert(b[i - a.len()] == item);
        }
    }
}

/// Every operation recorded in the range is reported, with its time, its identifier
/// and, where it is recorded, its command exactly.
pub proof fn an_operation_in_range_is_reported(input: TimelineInput, report: TimelineReport, i: int)
    requires
        call_ensures(TimelineInput::build, (input,), report),
        0 <= i < input.operations@.len(),
        input.since <= input.operations@[i].created_at < input.until,
    ensures
        exists|n: int|
            0 <= n < report.entries@.len() && shows_operation(#[trigger] report.entries@[n], input.operations@[i]),
{
    let keep = |row: OperationRecord| in_range(row.created_at, input.since, input.until);
    let f = |row: OperationRecord| operation_item(row);
    order::kept_are(input.operations@, keep, f);
    let item = operation_item(input.operations@[i]);
    assert(keep(input.operations@[i]));
    assert(kept(input.operations@, keep, f).contains(f(input.operations@[i])));
    assert(input.operation_items().contains(item));
    items_are_of_sources(input, item);
    let n = item_is_shown(input, report, item);
    assert(shows_operation(report.entries@[n], input.operations@[i]));
}

/// Every snapshot taken in the range is reported, with its name and state.
pub proof fn a_snapshot_in_range_is_reported(input: TimelineInput, report: TimelineReport, i: int)
    requires
        call_ensures(TimelineInput::build, (input,), report),
        0 <= i < input.snapshots@.len(),
        input.since <= input.snapshots@[i].created_at < input.until,
    ensures
        exists|n: int|
            0 <= n < report.entries@.len() && shows_snapshot(#[trigger] report.entries@[n], input.snapshots@[i]),
{
    let keep = |row: SnapshotRow| in_range(row.created_at, input.since, input.until);
    let f = |row: SnapshotRow| snapshot_item(row);
    order::kept_are(input.snapshots@, keep, f);
    let item = snapshot_item(input.snapshots@[i]);
    assert(keep(input.snapshots@[i]));
    assert(kept(input.snapshots@, keep, f).contains(f(input.snapshots@[i])));
    assert(input.snapshot_items().contains(item));
    items_are_of_sources(input, item);
    let n = item_is_shown(input, report, item);
    assert(shows_snapshot(report.entries@[n], input.snapshots@[i]));
}

/// Every unknown interval that has an instant in common with the range is
/// reported. One that is open reaches to the present.
pub proof fn an_unknown_interval_is_reported(input: TimelineInput, report: TimelineReport, i: int)
    requires
        call_ensures(TimelineInput::build, (input,), report),
        0 <= i < input.unknown_intervals@.len(),
        input.unknown_intervals@[i].created_at < input.until,
        input.unknown_intervals@[i].closed_at is Some ==> input.unknown_intervals@[i].closed_at->0 > input.since,
        input.unknown_intervals@[i].closed_at is None ==> input.now > input.since,
    ensures
        exists|n: int|
            0 <= n < report.entries@.len() && shows_interval(#[trigger] report.entries@[n], input.unknown_intervals@[i]),
{
    let keep = |row: UnknownIntervalRow| interval_meets(row, input.since, input.until, input.now);
    let f = |row: UnknownIntervalRow| interval_item(row);
    order::kept_are(input.unknown_intervals@, keep, f);
    let item = interval_item(input.unknown_intervals@[i]);
    assert(keep(input.unknown_intervals@[i]));
    assert(kept(input.unknown_intervals@, keep, f).contains(f(input.unknown_intervals@[i])));
    assert(input.interval_items().contains(item));
    items_are_of_sources(input, item);
    let n = item_is_shown(input, report, item);
    assert(shows_interval(report.entries@[n], input.unknown_intervals@[i]));
}

/// Every boundary that touches the range is reported, with its command.
pub proof fn a_boundary_is_reported(input: TimelineInput, report: TimelineReport, i: int)
    requires
        call_ensures(TimelineInput::build, (input,), report),
        0 <= i < input.boundaries@.len(),
        input.boundaries@[i].started_at < input.until,
        input.boundaries@[i].ended_at is Some ==> input.boundaries@[i].ended_at->0 >= input.since,
        input.boundaries@[i].ended_at is None ==> input.boundaries@[i].started_at >= input.since,
    ensures
        exists|n: int|
            0 <= n < report.entries@.len() && shows_boundary(#[trigger] report.entries@[n], input.boundaries@[i]),
{
    let keep = |row: BoundaryRow| boundary_meets(row, input.since, input.until);
    let f = |row: BoundaryRow| boundary_item(row);
    order::kept_are(input.boundaries@, keep, f);
    let item = boundary_item(input.boundaries@[i]);
    assert(keep(input.boundaries@[i]));
    assert(kept(input.boundaries@, keep, f).contains(f(input.boundaries@[i])));
    assert(input.boundary_items().contains(item));
    items_are_of_sources(input, item);
    let n = item_is_shown(input, report, item);
    assert(shows_boundary(report.entries@[n], input.boundaries@[i]));
}

/// Every degradation of the watcher in the range is reported.
pub proof fn a_degradation_in_range_is_reported(input: TimelineInput, report: TimelineReport, i: int)
    requires
        call_ensures(TimelineInput::build, (input,), report),
        0 <= i < input.watcher.degradations@.len(),
        input.since <= input.watcher.degradations@[i].recorded_at < input.until,
    ensures
        exists|n: int|
            0 <= n < report.entries@.len() && shows_degradation(#[trigger] report.entries@[n], input.watcher.degradations@[i]),
{
    let keep = |row: DegradationSummary| in_range(row.recorded_at, input.since, input.until);
    let f = |row: DegradationSummary| degradation_item(row);
    order::kept_are(input.watcher.degradations@, keep, f);
    let item = degradation_item(input.watcher.degradations@[i]);
    assert(keep(input.watcher.degradations@[i]));
    assert(kept(input.watcher.degradations@, keep, f).contains(f(input.watcher.degradations@[i])));
    assert(input.degradation_items().contains(item));
    items_are_of_sources(input, item);
    let n = item_is_shown(input, report, item);
    assert(shows_degradation(report.entries@[n], input.watcher.degradations@[i]));
}

/// Every entry of a report stands on a record that touches the range, and shows
/// it. So "(no command)" stands only where no command is recorded.
pub proof fn every_entry_stands_on_a_record(input: TimelineInput, report: TimelineReport, n: int)
    requires
        call_ensures(TimelineInput::build, (input,), report),
        0 <= n < report.entries@.len(),
    ensures
        ({
            let e = report.entries@[n];
            match e.tier {
                Tier::Operation => exists|i: int|
                    0 <= i < input.operations@.len() && shows_operation(e, #[trigger] input.operations@[i])
                        && input.since <= input.operations@[i].created_at < input.until,
                Tier::Snapshot => exists|i: int|
                    0 <= i < input.snapshots@.len() && shows_snapshot(e, #[trigger] input.snapshots@[i]) && input.since
                        <= input.snapshots@[i].created_at < input.until,
                Tier::UnknownInterval => exists|i: int|
                    0 <= i < input.unknown_intervals@.len() && {
                        let row = #[trigger] input.unknown_intervals@[i];
                        &&& shows_interval(e, row)
                        &&& row.created_at < input.until
                        &&& row.closed_at is Some ==> row.closed_at->0 > input.since
                        &&& row.closed_at is None ==> input.now > input.since
                    },
                Tier::PassiveBoundary => exists|i: int|
                    0 <= i < input.boundaries@.len() && {
                        let row = #[trigger] input.boundaries@[i];
                        &&& shows_boundary(e, row)
                        &&& row.started_at < input.until
                        &&& row.ended_at is Some ==> row.ended_at->0 >= input.since
                        &&& row.ended_at is None ==> row.started_at >= input.since
                    },
                Tier::Watch => exists|i: int|
                    0 <= i < input.watcher.degradations@.len() && shows_degradation(
                        e,
                        #[trigger] input.watcher.degradations@[i],
                    ) && input.since <= input.watcher.degradations@[i].recorded_at < input.until,
            }
        }),
{
    let e = report.entries@[n];
    shown_is_item(input, report, n);
    items_are_of_sources(input, e@);
    if input.operation_items().contains(e@) {
        let keep = |row: OperationRecord| in_range(row.created_at, input.since, input.until);
        let f = |row: OperationRecord| operation_item(row);
        order::kept_are(input.operations@, keep, f);
        assert(kept(input.operations@, keep, f).contains(e@));
        let i = choose|i: int| 0 <= i < input.operations@.len() && keep(#[trigger] input.operations@[i]) && e@ == f(input.operations@[i]);
        assert(shows_operation(e, input.operations@[i]));
    }
    if input.snapshot_items().contains(e@) {
        let keep = |row: SnapshotRow| in_range(row.created_at, input.since, input.until);
        let f = |row: SnapshotRow| snapshot_item(row);
        order::kept_are(input.snapshots@, keep, f);
        assert(kept(input.snapshots@, keep, f).contains(e@));
        let i = choose|i: int| 0 <= i < input.snapshots@.len() && keep(#[trigger] input.snapshots@[i]) && e@ == f(input.snapshots@[i]);
        assert(shows_snapshot(e, input.snapshots@[i]));
    }
    if input.interval_items().contains(e@) {
        let keep = |row: UnknownIntervalRow| interval_meets(row, input.since, input.until, input.now);
        let f = |row: UnknownIntervalRow| interval_item(row);
        order::kept_are(input.unknown_intervals@, keep, f);
        assert(kept(input.unknown_intervals@, keep, f).contains(e@));
        let i = choose|i: int| 0 <= i < input.unknown_intervals@.len() && keep(#[trigger] input.unknown_intervals@[i]) && e@ == f(input.unknown_intervals@[i]);
        assert(shows_interval(e, input.unknown_intervals@[i]));
    }
    if input.boundary_items().contains(e@) {
        let keep = |row: BoundaryRow| boundary_meets(row, input.since, input.until);
        let f = |row: BoundaryRow| boundary_item(row);
        order::kept_are(input.boundaries@, keep, f);
        assert(kept(input.boundaries@, keep, f).contains(e@));
        let i = choose|i: int| 0 <= i < input.boundaries@.len() && keep(#[trigger] input.boundaries@[i]) && e@ == f(input.boundaries@[i]);
        assert(shows_boundary(e, input.boundaries@[i]));
    }
    if input.degradation_items().contains(e@) {
        let keep = |row: DegradationSummary| in_range(row.recorded_at, input.since, input.until);
        let f = |row: DegradationSummary| degradation_item(row);
        order::kept_are(input.watcher.degradations@, keep, f);
        assert(kept(input.watcher.degradations@, keep, f).contains(e@));
        let i = choose|i: int| 0 <= i < input.watcher.degradations@.len() && keep(#[trigger] input.watcher.degradations@[i]) && e@ == f(input.watcher.degradations@[i]);
        assert(shows_degradation(e, input.watcher.degradations@[i]));
    }
}

/// How many records are kept is how many there are to keep.
proof fn kept_counts<A, B>(s: Seq<A>, keep: spec_fn(A) -> bool, f: spec_fn(A) -> B)
    ensures
        Set::<int>::new(|i: int| 0 <= i < s.len() && keep(s[i])).finite(),
        kept(s, keep, f).len() == Set::<int>::new(|i: int| 0 <= i < s.len() && keep(s[i])).len(),
    decreases s.len(),
{
    let all = Set::<int>::new(|i: int| 0 <= i < s.len() && keep(s[i]));
    if s.len() == 0 {
        assert(all =~= Set::<int>::empty());
    } else {
        let t = s.drop_last();
        let fewer = Set::<int>::new(|i: int| 0 <= i < t.len() && keep(t[i]));
        kept_counts(t, keep, f);
        if keep(s.last()) {
            assert(all =~= fewer.insert(s.len() - 1));
        } else {
            assert(all =~= fewer);
        }
    }
}

/// A report has as many entries as there are records that touch its range: none
/// is left out, and none stands in it twice.
pub proof fn each_record_is_reported_once(input: TimelineInput, report: TimelineReport)
    requires
        call_ensures(TimelineInput::build, (input,), report),
    ensures
        report.entries@.len() == Set::<int>::new(
            |i: int|
                0 <= i < input.operations@.len() && input.since <= input.operations@[i].created_at < input.until,
        ).len() + Set::<int>::new(
            |i: int| 0 <= i < input.snapshots@.len() && input.since <= input.snapshots@[i].created_at < input.until,
        ).len() + Set::<int>::new(
            |i: int|
                0 <= i < input.unknown_intervals@.len() && input.unknown_intervals@[i].created_at < input.until && (
                if input.unknown_intervals@[i].closed_at is Some {
                    input.unknown_intervals@[i].closed_at->0
                } else {
                    input.now
                }) > input.since,
        ).len() + Set::<int>::new(
            |i: int|
                0 <= i < input.boundaries@.len() && input.boundaries@[i].started_at < input.until && (
                if input.boundaries@[i].ended_at is Some {
                    input.boundaries@[i].ended_at->0
                } else {
                    input.boundaries@[i].started_at
                }) >= input.since,
        ).len() + Set::<int>::new(
            |i: int|
                0 <= i < input.watcher.degradations@.len() && input.since
                    <= input.watcher.degradations@[i].recorded_at < input.until,
        ).len(),
{
    order::arranged_ascends::<TimelineEntry>(input.items());
    assert(views(report.entries@).len() == report.entries@.len());
    let keep = |row: OperationRecord| in_range(row.created_at, input.since, input.until);
    let f = |row: OperationRecord| operation_item(row);
    kept_counts(input.operations@, keep, f);
    assert(Set::<int>::new(|i: int| 0 <= i < input.operations@.len() && keep(input.operations@[i])) =~= Set::<int>::new(
        |i: int| 0 <= i < input.operations@.len() && input.since <= input.operations@[i].created_at < input.until,
    ));
    let keep = |row: SnapshotRow| in_range(row.created_at, input.since, input.until);
    let f = |row: SnapshotRow| snapshot_item(row);
    kept_counts(input.snapshots@, keep, f);
    assert(Set::<int>::new(|i: int| 0 <= i < input.snapshots@.len() && keep(input.snapshots@[i])) =~= Set::<int>::new(
        |i: int| 0 <= i < input.snapshots@.len() && input.since <= input.snapshots@[i].created_at < input.until,
    ));
    let keep = |row: UnknownIntervalRow| interval_meets(row, input.since, input.until, input.now);
    let f = |row: UnknownIntervalRow| interval_item(row);
    kept_counts(input.unknown_intervals@, keep, f);
    assert(Set::<int>::new(|i: int| 0 <= i < input.unknown_intervals@.len() && keep(input.unknown_intervals@[i])) =~= Set::<int>::new(
        |i: int| 0 <= i < input.unknown_intervals@.len() && input.unknown_intervals@[i].created_at < input.until && (if input.unknown_intervals@[i].closed_at is Some { input.unknown_intervals@[i].closed_at->0 } else { input.now }) > input.since,
    ));
    let keep = |row: BoundaryRow| boundary_meets(row, input.since, input.until);
    let f = |row: BoundaryRow| boundary_item(row);
    kept_counts(input.boundaries@, keep, f);
    assert(Set::<int>::new(|i: int| 0 <= i < input.boundaries@.len() && keep(input.boundaries@[i])) =~= Set::<int>::new(
        |i: int| 0 <= i < input.boundaries@.len() && input.boundaries@[i].started_at < input.until && (if input.boundaries@[i].ended_at is Some { input.boundaries@[i].ended_at->0 } else { input.boundaries@[i].started_at }) >= input.since,
    ));
    let keep = |row: DegradationSummary| in_range(row.recorded_at, input.since, input.until);
    let f = |row: DegradationSummary| degradation_item(row);
    kept_counts(input.watcher.degradations@, keep, f);
    assert(Set::<int>::new(|i: int| 0 <= i < input.watcher.degradations@.len() && keep(input.watcher.degradations@[i])) =~= Set::<int>::new(
        |i: int| 0 <= i < input.watcher.degradations@.len() && input.since <= input.watcher.degradations@[i].recorded_at < input.until,
    ));
}

/// The entries of a report come by time, those of one time by what kind of
/// evidence they are, and those of one kind by identifier.
pub proof fn a_report_is_in_order(input: TimelineInput, report: TimelineReport, n: int, m: int)
    requires
        call_ensures(TimelineInput::build, (input,), report),
        0 <= n < m < report.entries@.len(),
    ensures
        ({
            let a = report.entries@[n];
            let b = report.entries@[m];
            &&& a.timestamp <= b.timestamp
            &&& a.timestamp == b.timestamp ==> match b.tier {
                Tier::Operation => a.tier is Operation,
                Tier::Snapshot => a.tier is Operation || a.tier is Snapshot,
                Tier::UnknownInterval => a.tier is Operation || a.tier is Snapshot || a.tier is UnknownInterval,
                Tier::PassiveBoundary => !(a.tier is Watch),
                Tier::Watch => true,
            }
            &&& a.timestamp == b.timestamp && a.tier == b.tier ==> !text::before(b.identifier@, a.identifier@)
        }),
{
    let entries = order::arranged::<TimelineEntry>(input.items());
    order::arranged_ascends::<TimelineEntry>(input.items());
    assert(views(report.entries@).len() == report.entries@.len());
    assert(views(report.entries@)[n] == report.entries@[n]@);
    assert(views(report.entries@)[m] == report.entries@[m]@);
    assert(!TimelineEntry::before(entries[m], entries[n]));
}

/// A report calls its range complete exactly when it shows no unknown interval
/// and no degradation of the watcher, and it covers the range that was asked
/// for.
pub proof fn a_complete_report_hides_nothing(input: TimelineInput, report: TimelineReport)
    requires
        call_ensures(TimelineInput::build, (input,), report),
    ensures
        report.since == input.since,
        report.until == input.until,
        report.history_complete == !(exists|n: int|
            0 <= n < report.entries@.len() && ((#[trigger] report.entries@[n]).tier is UnknownInterval
                || report.entries@[n].tier is Watch)),
{
    if exists|n: int|
        0 <= n < report.entries@.len() && ((#[trigger] report.entries@[n]).tier is UnknownInterval
            || report.entries@[n].tier is Watch) {
        let n = choose|n: int|
            0 <= n < report.entries@.len() && ((#[trigger] report.entries@[n]).tier is UnknownInterval
                || report.entries@[n].tier is Watch);
        every_entry_stands_on_a_record(input, report, n);
        if report.entries@[n].tier is UnknownInterval {
            let i = choose|i: int|
                0 <= i < input.unknown_intervals@.len() && {
                    let row = #[trigger] input.unknown_intervals@[i];
                    &&& shows_interval(report.entries@[n], row)
                    &&& row.created_at < input.until
                    &&& row.closed_at is Some ==> row.closed_at->0 > input.since
                    &&& row.closed_at is None ==> input.now > input.since
                };
            assert(interval_meets(input.unknown_intervals@[i], input.since, input.until, input.now));
        } else {
            let i = choose|i: int|
                0 <= i < input.watcher.degradations@.len() && shows_degradation(
                    report.entries@[n],
                    #[trigger] input.watcher.degradations@[i],
                ) && input.since <= input.watcher.degradations@[i].recorded_at < input.until;
            assert(in_range(input.watcher.degradations@[i].recorded_at, input.since, input.until));
        }
    }
    if !report.history_complete {
        if exists|i: int|
            0 <= i < input.unknown_intervals@.len() && interval_meets(
                #[trigger] input.unknown_intervals@[i],
                input.since,
                input.until,
                input.now,
            ) {
            let i = choose|i: int|
                0 <= i < input.unknown_intervals@.len() && interval_meets(
                    #[trigger] input.unknown_intervals@[i],
                    input.since,
                    input.until,
                    input.now,
                );
            an_unknown_interval_is_reported(input, report, i);
        } else {
            let i = choose|i: int|
                0 <= i < input.watcher.degradations@.len() && in_range(
                    (#[trigger] input.watcher.degradations@[i]).recorded_at,
                    input.since,
                    input.until,
                );
            a_degradation_in_range_is_reported(input, report, i);
        }
    }
}

/// The lines that hold no event, and the events of each kind in the range, are
/// counted one by one.
proof fn counts_are_sizes(lines: Seq<Option<FsEvent>>, kind: Seq<char>, since: i64, until: i64)
    ensures
        ({
            let bare = Set::<int>::new(|i: int| 0 <= i < lines.len() && lines[i] is None);
            let events = Set::<int>::new(
                |i: int|
                    0 <= i < lines.len() && lines[i] is Some && since <= lines[i]->0.timestamp < until
                        && lines[i]->0.kind.text() == kind,
            );
            &&& bare.finite()
            &&& unparsed(lines) == bare.len()
            &&& events.finite()
            &&& counted(lines, kind, since, until) == events.len()
        }),
    decreases lines.len(),
{
    let bare = Set::<int>::new(|i: int| 0 <= i < lines.len() && lines[i] is None);
    let events = Set::<int>::new(
        |i: int|
            0 <= i < lines.len() && lines[i] is Some && since <= lines[i]->0.timestamp < until
                && lines[i]->0.kind.text() == kind,
    );
    if lines.len() == 0 {
        assert(bare =~= Set::<int>::empty());
        assert(events =~= Set::<int>::empty());
    } else {
        let t = lines.drop_last();
        let last = lines.len() - 1;
        let fewer = Set::<int>::new(|i: int| 0 <= i < t.len() && t[i] is None);
        let before = Set::<int>::new(
            |i: int|
                0 <= i < t.len() && t[i] is Some && since <= t[i]->0.timestamp < until && t[i]->0.kind.text() == kind,
        );
        counts_are_sizes(t, kind, since, until);
        if lines.last() is None {
            assert(bare =~= fewer.insert(last));
        } else {
            assert(bare =~= fewer);
        }
        if events.contains(last) {
            assert(events =~= before.insert(last));
        } else {
            assert(events =~= before);
        }
    }
}

/// What is said of the watcher's log is so: how many of its lines hold no event,
/// how many events of a kind lie in the range, the oldest time in it, and the
/// first and the last time in the range. No event is told of twice.
pub proof fn the_log_is_told_as_it_is(
    previous: LogGeneration,
    current: LogGeneration,
    marker: Option<Degradations>,
    since: i64,
    until: i64,
    evidence: WatcherEvidence,
    kind: Seq<char>,
)
    requires
        previous.lines@.len() + current.lines@.len() < u64::MAX,
        call_ensures(read_watcher_evidence, (&previous, &current, &marker, since, until), evidence),
    ensures
        ({
            let lines = previous.lines@ + current.lines@;
            let bare = Set::<int>::new(|i: int| 0 <= i < lines.len() && lines[i] is None);
            let events = Set::<int>::new(
                |i: int|
                    0 <= i < lines.len() && lines[i] is Some && since <= lines[i]->0.timestamp < until
                        && lines[i]->0.kind.text() == kind,
            );
            &&& evidence.unparseable_log_lines == bare.len()
            &&& evidence.events_in_range@.contains_key(kind) == (events.len() > 0)
            &&& evidence.events_in_range@.contains_key(kind) ==> evidence.events_in_range@[kind] == events.len()
            &&& evidence.log_oldest_observation is Some == exists|i: int|
                0 <= i < lines.len() && (#[trigger] lines[i]) is Some
            &&& forall|i: int|
                0 <= i < lines.len() && (#[trigger] lines[i]) is Some ==> evidence.log_oldest_observation->0
                    <= lines[i]->0.timestamp
            &&& evidence.log_oldest_observation is Some ==> exists|i: int|
                0 <= i < lines.len() && (#[trigger] lines[i]) is Some && lines[i]->0.timestamp
                    == evidence.log_oldest_observation->0
            &&& forall|i: int|
                0 <= i < lines.len() && (#[trigger] lines[i]) is Some && since <= lines[i]->0.timestamp < until
                    ==> evidence.first_event_in_range is Some && evidence.last_event_in_range is Some
                    && evidence.first_event_in_range->0 <= lines[i]->0.timestamp <= evidence.last_event_in_range->0
            &&& evidence.first_event_in_range is Some ==> exists|i: int|
                0 <= i < lines.len() && (#[trigger] lines[i]) is Some && lines[i]->0.timestamp
                    == evidence.first_event_in_range->0 && since <= lines[i]->0.timestamp < until
            &&& evidence.last_event_in_range is Some ==> exists|i: int|
                0 <= i < lines.len() && (#[trigger] lines[i]) is Some && lines[i]->0.timestamp
                    == evidence.last_event_in_range->0 && since <= lines[i]->0.timestamp < until
        }),
{
    let lines = previous.lines@ + current.lines@;
    counts_are_sizes(lines, kind, since, until);
    let any = |line: Option<FsEvent>| line is Some;
    let within = |line: Option<FsEvent>| seen_in(line, since, until);
    assert(is_earliest(lines, any, evidence.log_oldest_observation));
    assert(is_earliest(lines, within, evidence.first_event_in_range));
    assert(is_latest(lines, within, evidence.last_event_in_range));
    assert forall|i: int| 0 <= i < lines.len() && (#[trigger] lines[i]) is Some implies any(lines[i]) by {}
    assert forall|i: int|
        0 <= i < lines.len() && (#[trigger] lines[i]) is Some && since <= lines[i]->0.timestamp
            < until implies within(lines[i]) by {}
}

/// The degradations that evidence tells of are those that were recorded in the
/// range, with their reasons and details.
pub proof fn recorded_degradations_are_told(
    previous: LogGeneration,
    current: LogGeneration,
    marker: Degradations,
    since: i64,
    until: i64,
    evidence: WatcherEvidence,
    i: int,
)
    requires
        previous.lines@.len() + current.lines@.len() < u64::MAX,
        call_ensures(read_watcher_evidence, (&previous, &current, &Some(marker), since, until), evidence),
    ensures
        evidence.degradations@.len() == Set::<int>::new(
            |k: int| 0 <= k < marker.records@.len() && since <= marker.records@[k].recorded_at < until,
        ).len(),
        0 <= i < marker.records@.len() && since <= marker.records@[i].recorded_at < until ==> exists|n: int|
            0 <= n < evidence.degradations@.len() && (#[trigger] evidence.degradations@[n]).reason
                == marker.records@[i].reason && evidence.degradations@[n].detail@ == marker.records@[i].detail@
                && evidence.degradations@[n].recorded_at == marker.records@[i].recorded_at,
{
    let keep = |record: DegradationRecord| in_range(record.recorded_at, since, until);
    let f = |record: DegradationRecord| (record.reason, record.detail@, record.recorded_at);
    let told = summaries(evidence.degradations@);
    assert(told == kept(marker.records@, keep, f));
    assert(told.len() == evidence.degradations@.len());
    kept_counts(marker.records@, keep, f);
    assert(Set::<int>::new(|k: int| 0 <= k < marker.records@.len() && keep(marker.records@[k])) =~= Set::<int>::new(
        |k: int| 0 <= k < marker.records@.len() && since <= marker.records@[k].recorded_at < until,
    ));
    order::kept_are(marker.records@, keep, f);
    if 0 <= i < marker.records@.len() && since <= marker.records@[i].recorded_at < until {
        assert(keep(marker.records@[i]));
        assert(told.contains(f(marker.records@[i])));
        let n = choose|n: int| 0 <= n < told.len() && told[n] == f(marker.records@[i]);
        assert(evidence.degradations@[n].reason == marker.records@[i].reason);
    }
}

/// A report covers the range that was asked for: each bound is the time that was
/// written, or else the making of the workspace and the present. A range that is
/// empty or runs backwards is refused, and so is a bound that is no time.
pub proof fn the_range_is_the_one_asked_for(
    since: Option<&str>,
    until: Option<&str>,
    created_at: i64,
    now: i64,
    from: Result<i64>,
    to: Result<i64>,
    r: std::result::Result<(i64, i64), String>,
)
    requires
        since is Some ==> call_ensures(humantime::parse_rfc3339, (since->0,), from),
        since is None ==> from == Ok::<i64, crate::error::RewindError>(created_at),
        until is Some ==> call_ensures(humantime::parse_rfc3339, (until->0,), to),
        until is None ==> to == Ok::<i64, crate::error::RewindError>(now),
        call_ensures(requested_range, (since, until, created_at, now), r),
    ensures
        r is Ok == (from is Ok && to is Ok && from->Ok_0 < to->Ok_0),
        r is Ok ==> r->Ok_0 == (from->Ok_0, to->Ok_0),
{
}

/// The watcher's log speaks for a range only where something in it is no later
/// than the start of the range.
pub proof fn a_log_speaks_for_what_it_reaches(evidence: WatcherEvidence, since: i64, r: bool)
    requires
        call_ensures(watcher_log_may_predate_range, (&evidence, since), r),
    ensures
        !r == (evidence.log_oldest_observation is Some && evidence.log_oldest_observation->0 <= since),
{
}

/// A report shows its range in the words in which any time is written, and
/// hands on what the watcher's files say as it is.
pub proof fn a_report_shows_its_range(input: TimelineInput, report: TimelineReport, since: String, until: String)
    requires
        call_ensures(TimelineInput::build, (input,), report),
        call_ensures(humantime::format_rfc3339, (input.since,), since),
        call_ensures(humantime::format_rfc3339, (input.until,), until),
    ensures
        report.since_text@ == since@,
        report.until_text@ == until@,
        report.watcher == input.watcher,
        report.schema_version == 1,
{
}

} // verus!
