//! What the watcher records: advisory events, degradations, its state and the
//! index of paths that may have changed.
//!
//! An event says that a path may have changed, never what the path now holds.

use vstd::prelude::*;
use vstd::string::*;

use crate::depgraph::copy_texts;
use crate::error::{Fault, RewindError};
use crate::humantime;
use crate::humantime::civil;
use crate::order;
use crate::order::views;
use crate::text;
use crate::text::optional;
use crate::text::padded;
use crate::text::padded_int;

verus! {

pub const WATCH_SCHEMA_VERSION: u32 = 1;

/// The time for which one poll of the adapter waits, in milliseconds, and the
/// bounds that a configured value is held to.
pub const DEFAULT_BATCH_MS: u64 = 250;

pub const MIN_BATCH_MS: u64 = 50;

pub const MAX_BATCH_MS: u64 = 5000;

/// The time between two heartbeats, in milliseconds.
pub const HEARTBEAT_MS: u64 = 2000;

/// The number of paths at which the dirty index stops growing.
pub const DEFAULT_DIRTY_CAP: usize = 100_000;

/// The size at which the event log is rotated.
pub const DEFAULT_LOG_BYTES: u64 = 8 * 1024 * 1024;

/// What an event claims.
#[derive(Clone, Copy, Debug, PartialEq, Eq, Structural)]
pub enum EventKind {
    Create,
    Modify,
    Delete,
    Rename,
    Other,
}

impl EventKind {
    pub open spec fn text(self) -> Seq<char> {
        match self {
            EventKind::Create => "CREATE"@,
            EventKind::Modify => "MODIFY"@,
            EventKind::Delete => "DELETE"@,
            EventKind::Rename => "RENAME"@,
            EventKind::Other => "OTHER"@,
        }
    }

    pub fn as_str(&self) -> (r: &'static str)
        ensures
            r@ == self.text(),
    {
        match self {
            EventKind::Create => "CREATE",
            EventKind::Modify => "MODIFY",
            EventKind::Delete => "DELETE",
            EventKind::Rename => "RENAME",
            EventKind::Other => "OTHER",
        }
    }
}

/// Different values have different texts.
pub proof fn event_kind_texts_distinct(a: EventKind, b: EventKind)
    requires
        a.text() == b.text(),
    ensures
        a == b,
{
    reveal_strlit("CREATE");
    reveal_strlit("MODIFY");
    reveal_strlit("DELETE");
    reveal_strlit("RENAME");
    reveal_strlit("OTHER");
    assert("CREATE"@.len() == 6);
    assert("MODIFY"@.len() == 6);
    assert("DELETE"@.len() == 6);
    assert("RENAME"@.len() == 6);
    assert("OTHER"@.len() == 5);
    assert("CREATE"@[0] != "MODIFY"@[0]);
    assert("CREATE"@[0] != "DELETE"@[0]);
    assert("CREATE"@[0] != "RENAME"@[0]);
    assert("MODIFY"@[0] != "DELETE"@[0]);
    assert("MODIFY"@[0] != "RENAME"@[0]);
    assert("DELETE"@[0] != "RENAME"@[0]);
}

/// The mechanism that saw an event.
#[derive(Clone, Copy, Debug, PartialEq, Eq, Structural)]
pub enum EventSource {
    Inotify,
    FsEvents,
    Windows,
    Fake,
}

impl EventSource {
    pub open spec fn text(self) -> Seq<char> {
        match self {
            EventSource::Inotify => "INOTIFY"@,
            EventSource::FsEvents => "FSEVENTS"@,
            EventSource::Windows => "WINDOWS"@,
            EventSource::Fake => "FAKE"@,
        }
    }

    pub fn as_str(&self) -> (r: &'static str)
        ensures
            r@ == self.text(),
    {
        match self {
            EventSource::Inotify => "INOTIFY",
            EventSource::FsEvents => "FSEVENTS",
            EventSource::Windows => "WINDOWS",
            EventSource::Fake => "FAKE",
        }
    }
}

/// Different values have different texts.
pub proof fn event_source_texts_distinct(a: EventSource, b: EventSource)
    requires
        a.text() == b.text(),
    ensures
        a == b,
{
    reveal_strlit("INOTIFY");
    reveal_strlit("FSEVENTS");
    reveal_strlit("WINDOWS");
    reveal_strlit("FAKE");
    assert("INOTIFY"@.len() == 7);
    assert("FSEVENTS"@.len() == 8);
    assert("WINDOWS"@.len() == 7);
    assert("FAKE"@.len() == 4);
    assert("INOTIFY"@[0] != "WINDOWS"@[0]);
}

/// One advisory observation. The timestamp says when it was seen, and the
/// sequence in which order it arrived within its run.
#[derive(Clone, Debug)]
pub struct FsEvent {
    pub run_id: u128,
    pub sequence: u64,
    pub path: String,
    pub kind: EventKind,
    pub from_path: Option<String>,
    pub timestamp: i64,
    pub source: EventSource,
}

/// What an event says.
pub struct Sighting {
    pub run_id: u128,
    pub sequence: u64,
    pub path: Seq<char>,
    pub kind: EventKind,
    pub from_path: Option<Seq<char>>,
    pub timestamp: i64,
    pub source: EventSource,
}

impl View for FsEvent {
    type V = Sighting;

    open spec fn view(&self) -> Sighting {
        Sighting {
            run_id: self.run_id,
            sequence: self.sequence,
            path: self.path@,
            kind: self.kind,
            from_path: optional(self.from_path),
            timestamp: self.timestamp,
            source: self.source,
        }
    }
}

/// Why the watcher cannot vouch for an interval.
#[derive(Clone, Copy, Debug, PartialEq, Eq, Structural)]
pub enum DegradationReason {
    Overflow,
    WatcherGap,
    AdapterFailed,
    DirtyCap,
}

impl DegradationReason {
    pub open spec fn text(self) -> Seq<char> {
        match self {
            DegradationReason::Overflow => "OVERFLOW"@,
            DegradationReason::WatcherGap => "WATCHER_GAP"@,
            DegradationReason::AdapterFailed => "ADAPTER_FAILED"@,
            DegradationReason::DirtyCap => "DIRTY_CAP"@,
        }
    }

    pub fn as_str(&self) -> (r: &'static str)
        ensures
            r@ == self.text(),
    {
        match self {
            DegradationReason::Overflow => "OVERFLOW",
            DegradationReason::WatcherGap => "WATCHER_GAP",
            DegradationReason::AdapterFailed => "ADAPTER_FAILED",
            DegradationReason::DirtyCap => "DIRTY_CAP",
        }
    }
}

/// Different values have different texts.
pub proof fn degradation_reason_texts_distinct(a: DegradationReason, b: DegradationReason)
    requires
        a.text() == b.text(),
    ensures
        a == b,
{
    reveal_strlit("OVERFLOW");
    reveal_strlit("WATCHER_GAP");
    reveal_strlit("ADAPTER_FAILED");
    reveal_strlit("DIRTY_CAP");
    assert("OVERFLOW"@.len() == 8);
    assert("WATCHER_GAP"@.len() == 11);
    assert("ADAPTER_FAILED"@.len() == 14);
    assert("DIRTY_CAP"@.len() == 9);
}

/// One degradation that no reconciliation has accounted for yet.
#[derive(Clone, Debug)]
pub struct DegradationRecord {
    pub reason: DegradationReason,
    pub detail: String,
    pub recorded_at: i64,
    /// The interval that was not observed, where one is known.
    pub gap_from: Option<i64>,
    pub gap_to: Option<i64>,
}

/// What a degradation record says.
pub struct Lapse {
    pub reason: DegradationReason,
    pub detail: Seq<char>,
    pub recorded_at: i64,
    pub gap: (Option<i64>, Option<i64>),
}

impl View for DegradationRecord {
    type V = Lapse;

    open spec fn view(&self) -> Lapse {
        Lapse {
            reason: self.reason,
            detail: self.detail@,
            recorded_at: self.recorded_at,
            gap: (self.gap_from, self.gap_to),
        }
    }
}

impl DegradationRecord {
    /// A degradation recorded at the time `now`.
    pub fn new(reason: DegradationReason, detail: &str, now: i64) -> (r: Self)
        ensures
            r@ == (Lapse { reason, detail: detail@, recorded_at: now, gap: (None, None) }),
    {
        DegradationRecord {
            reason,
            detail: text::copy(detail),
            recorded_at: now,
            gap_from: None,
            gap_to: None,
        }
    }

    /// A degradation that knows the interval which was not observed.
    pub fn gap(reason: DegradationReason, from: i64, to: i64, detail: &str, now: i64) -> (r: Self)
        ensures
            r@ == (Lapse {
                reason,
                detail: detail@,
                recorded_at: now,
                gap: (Some(from), Some(to)),
            }),
    {
        DegradationRecord {
            reason,
            detail: text::copy(detail),
            recorded_at: now,
            gap_from: Some(from),
            gap_to: Some(to),
        }
    }
}

/// The degradations that wait for a reconciliation.
#[derive(Clone, Debug)]
pub struct Degradations {
    pub schema_version: u32,
    pub workspace_id: u128,
    pub records: Vec<DegradationRecord>,
}

impl Degradations {
    pub fn empty(workspace_id: u128) -> (r: Self)
        ensures
            r.schema_version == WATCH_SCHEMA_VERSION,
            r.workspace_id == workspace_id,
            r.records@ == Seq::<DegradationRecord>::empty(),
    {
        Degradations { schema_version: WATCH_SCHEMA_VERSION, workspace_id, records: Vec::new() }
    }

    /// Adds a record to the ones that `self`, or nothing, holds. What is
    /// already recorded is never dropped.
    pub fn appended(previous: Option<Degradations>, workspace_id: u128, record: DegradationRecord) -> (r: Self)
        ensures
            r.schema_version == WATCH_SCHEMA_VERSION,
            r.workspace_id == workspace_id,
            r.records@ == (match previous {
                Some(p) => p.records@,
                None => Seq::<DegradationRecord>::empty(),
            }).push(record),
    {
        let mut degradations = match previous {
            Some(p) => p,
            None => Degradations::empty(workspace_id),
        };
        degradations.schema_version = WATCH_SCHEMA_VERSION;
        degradations.workspace_id = workspace_id;
        degradations.records.push(record);
        degradations
    }

    /// What a marker file stands for: nothing where there is no file, what was
    /// read from it, or, where it could not be read, one pending degradation.
    /// A marker that cannot be read never vanishes.
    pub fn pending(marker: Option<Option<Degradations>>, now: i64) -> (r: Option<Degradations>)
        ensures
            match marker {
                None => r is None,
                Some(Some(read)) => r == Some(read),
                Some(None) => {
                    &&& r is Some
                    &&& r->0.schema_version == WATCH_SCHEMA_VERSION
                    &&& r->0.workspace_id == 0
                    &&& views(r->0.records@) == seq![
                        Lapse {
                            reason: DegradationReason::AdapterFailed,
                            detail: "degradation marker file unreadable; treated as pending"@,
                            recorded_at: now,
                            gap: (None, None),
                        },
                    ]
                },
            },
    {
        match marker {
            None => None,
            Some(Some(read)) => Some(read),
            Some(None) => {
                let record = DegradationRecord::new(
                    DegradationReason::AdapterFailed,
                    "degradation marker file unreadable; treated as pending",
                    now,
                );
                let r = Degradations::appended(None, 0, record);
                assert(views(r.records@) =~= seq![record@]);
                Some(r)
            },
        }
    }
}

/// The status that the watcher records of itself.
#[derive(Clone, Copy, Debug, PartialEq, Eq, Structural)]
pub enum StatusKind {
    Starting,
    Running,
    Stopping,
    Stopped,
    Failed,
}

impl StatusKind {
    pub open spec fn text(self) -> Seq<char> {
        match self {
            StatusKind::Starting => "STARTING"@,
            StatusKind::Running => "RUNNING"@,
            StatusKind::Stopping => "STOPPING"@,
            StatusKind::Stopped => "STOPPED"@,
            StatusKind::Failed => "FAILED"@,
        }
    }

    pub fn as_str(&self) -> (r: &'static str)
        ensures
            r@ == self.text(),
    {
        match self {
            StatusKind::Starting => "STARTING",
            StatusKind::Running => "RUNNING",
            StatusKind::Stopping => "STOPPING",
            StatusKind::Stopped => "STOPPED",
            StatusKind::Failed => "FAILED",
        }
    }
}

/// Different values have different texts.
pub proof fn status_kind_texts_distinct(a: StatusKind, b: StatusKind)
    requires
        a.text() == b.text(),
    ensures
        a == b,
{
    reveal_strlit("STARTING");
    reveal_strlit("RUNNING");
    reveal_strlit("STOPPING");
    reveal_strlit("STOPPED");
    reveal_strlit("FAILED");
    assert("STARTING"@.len() == 8);
    assert("RUNNING"@.len() == 7);
    assert("STOPPING"@.len() == 8);
    assert("STOPPED"@.len() == 7);
    assert("FAILED"@.len() == 6);
    assert("STARTING"@[2] != "STOPPING"@[2]);
    assert("RUNNING"@[0] != "STOPPED"@[0]);
}

/// The watcher's state file. The process identifier is diagnostic: whether the
/// watcher lives is told by the age of the heartbeat.
#[derive(Clone, Debug)]
pub struct WatcherState {
    pub schema_version: u32,
    pub workspace_id: u128,
    pub run_id: u128,
    pub pid: u32,
    pub status: StatusKind,
    pub started_at: i64,
    pub heartbeat_at: i64,
    pub stopped_at: Option<i64>,
    /// Nothing before this time is claimed to have been observed.
    pub coverage_started_at: i64,
    pub batch_ms: u64,
    pub degraded: bool,
    pub degraded_detail: Option<String>,
    pub last_sequence: u64,
}

/// The line that a cause of degradation adds to the state.
pub open spec fn degradation_line(detail: Seq<char>, now: int) -> Seq<char> {
    displayed(now) + ": "@ + detail
}

/// The recorded causes after one more: the earlier ones stay in front.
pub open spec fn degraded_text(existing: Option<Seq<char>>, detail: Seq<char>, now: int) -> Seq<char> {
    match existing {
        Some(text) => text + "; "@ + degradation_line(detail, now),
        None => degradation_line(detail, now),
    }
}

impl WatcherState {
    /// The state of a run that starts at the time `now`.
    pub fn new(workspace_id: u128, run_id: u128, status: StatusKind, batch_ms: u64, pid: u32, now: i64) -> (r: Self)
        ensures
            r == (WatcherState {
                schema_version: WATCH_SCHEMA_VERSION,
                workspace_id,
                run_id,
                pid,
                status,
                started_at: now,
                heartbeat_at: now,
                stopped_at: None,
                coverage_started_at: now,
                batch_ms,
                degraded: false,
                degraded_detail: None,
                last_sequence: 0,
            }),
    {
        WatcherState {
            schema_version: WATCH_SCHEMA_VERSION,
            workspace_id,
            run_id,
            pid,
            status,
            started_at: now,
            heartbeat_at: now,
            stopped_at: None,
            coverage_started_at: now,
            batch_ms,
            degraded: false,
            degraded_detail: None,
            last_sequence: 0,
        }
    }

    pub fn duplicate(&self) -> (r: Self)
        ensures
            r == *self,
    {
        WatcherState {
            schema_version: self.schema_version,
            workspace_id: self.workspace_id,
            run_id: self.run_id,
            pid: self.pid,
            status: self.status,
            started_at: self.started_at,
            heartbeat_at: self.heartbeat_at,
            stopped_at: self.stopped_at,
            coverage_started_at: self.coverage_started_at,
            batch_ms: self.batch_ms,
            degraded: self.degraded,
            degraded_detail: text::copy_optional(&self.degraded_detail),
            last_sequence: self.last_sequence,
        }
    }

    /// Whether `later` is this state after one more cause of degradation.
    pub open spec fn degraded_to(self, later: WatcherState, detail: Seq<char>, now: int) -> bool {
        &&& later == (WatcherState { degraded: true, degraded_detail: later.degraded_detail, ..self })
        &&& optional(later.degraded_detail) == Some(
            degraded_text(optional(self.degraded_detail), detail, now),
        )
    }

    /// Marks the state degraded, keeping the earlier causes in front.
    pub fn degrade(&mut self, detail: &str, now: i64)
        ensures
            old(self).degraded_to(*final(self), detail@, now as int),
    {
        let mut line = chrono_display(now);
        line.append(": ");
        line.append(detail);
        let mut out = match &self.degraded_detail {
            Some(existing) => {
                let mut out = text::copy(existing.as_str());
                out.append("; ");
                out
            },
            None => text::copy(""),
        };
        proof {
            reveal_strlit("");
        }
        out.append(line.as_str());
        assert(out@ =~= degraded_text(optional(self.degraded_detail), detail@, now as int));
        self.degraded = true;
        self.degraded_detail = Some(out);
    }
}

/// The paths that may have changed. It is kept across runs until a
/// reconciliation clears it.
#[derive(Clone, Debug)]
pub struct DirtyIndex {
    pub schema_version: u32,
    pub workspace_id: u128,
    pub run_id: u128,
    pub updated_at: i64,
    /// In order, and without repetition.
    pub paths: Vec<String>,
    pub anomalies: u64,
}

impl DirtyIndex {
    pub fn duplicate(&self) -> (r: Self)
        ensures
            r@ == self@,
    {
        DirtyIndex {
            schema_version: self.schema_version,
            workspace_id: self.workspace_id,
            run_id: self.run_id,
            updated_at: self.updated_at,
            paths: copy_texts(&self.paths),
            anomalies: self.anomalies,
        }
    }

    pub open spec fn well_formed(self) -> bool {
        order::strictly_ascending::<String>(views(self.paths@))
    }

    pub fn new(workspace_id: u128) -> (r: Self)
        ensures
            r.well_formed(),
            r.paths@ == Seq::<String>::empty(),
            r == (DirtyIndex {
                schema_version: WATCH_SCHEMA_VERSION,
                workspace_id,
                run_id: 0,
                updated_at: 0,
                paths: r.paths,
                anomalies: 0,
            }),
    {
        DirtyIndex {
            schema_version: WATCH_SCHEMA_VERSION,
            workspace_id,
            run_id: 0,
            updated_at: 0,
            paths: Vec::new(),
            anomalies: 0,
        }
    }
}

/// What an index says.
pub struct Dirt {
    pub schema_version: u32,
    pub workspace_id: u128,
    pub run_id: u128,
    pub updated_at: i64,
    pub paths: Seq<Seq<char>>,
    pub anomalies: u64,
}

impl View for DirtyIndex {
    type V = Dirt;

    open spec fn view(&self) -> Dirt {
        Dirt {
            schema_version: self.schema_version,
            workspace_id: self.workspace_id,
            run_id: self.run_id,
            updated_at: self.updated_at,
            paths: views(self.paths@),
            anomalies: self.anomalies,
        }
    }
}

/// Two indexes that hold the same paths list them in the same order, however
/// they were filled.
pub proof fn dirty_paths_are_ordered(a: DirtyIndex, b: DirtyIndex)
    requires
        a.well_formed(),
        b.well_formed(),
        forall|p: Seq<char>| views(a.paths@).contains(p) == views(b.paths@).contains(p),
    ensures
        views(a.paths@) == views(b.paths@),
{
    order::ascending_unique::<String>(views(a.paths@), views(b.paths@));
}

/// The whole seconds of a time in microseconds, rounded towards zero.
pub open spec fn whole_seconds(micros: int) -> int {
    if micros >= 0 {
        micros / 1_000_000
    } else {
        -((-micros) / 1_000_000)
    }
}

/// A time in microseconds as it is shown in diagnostics.
pub open spec fn displayed(micros: int) -> Seq<char> {
    let seconds = whole_seconds(micros);
    let date = civil(seconds / 86_400);
    let rest = seconds % 86_400;
    padded_int(date.0, 4) + "-"@ + padded(date.1 as nat, 2) + "-"@ + padded(date.2 as nat, 2)
        + "T"@ + padded((rest / 3600) as nat, 2) + ":"@ + padded(((rest % 3600) / 60) as nat, 2)
        + ":"@ + padded((rest % 60) as nat, 2) + "Z"@
}

/// Renders a microsecond timestamp for diagnostics.
pub fn chrono_display(micros: i64) -> (r: String)
    ensures
        r@ == displayed(micros as int),
{
    let seconds: i64 = if micros >= 0 {
        micros / 1_000_000
    } else {
        let magnitude: i128 = -(micros as i128);
        -((magnitude / 1_000_000) as i64)
    };
    assert(seconds == whole_seconds(micros as int));
    let days = humantime::floor_div(seconds, 86_400);
    let rest = humantime::floor_rem(seconds, 86_400);
    let (year, month, day) = humantime::civil_from_days(days);
    let mut out = text::padded_i64(year, 4);
    out.append("-");
    out.append(text::padded_u64(month as u64, 2).as_str());
    out.append("-");
    out.append(text::padded_u64(day as u64, 2).as_str());
    out.append("T");
    out.append(text::padded_u64((rest / 3600) as u64, 2).as_str());
    out.append(":");
    out.append(text::padded_u64(((rest % 3600) / 60) as u64, 2).as_str());
    out.append(":");
    out.append(text::padded_u64((rest % 60) as u64, 2).as_str());
    out.append("Z");
    out
}

/// The error of a watcher command outside of a workspace.
pub fn marker_missing_error(workspace_root: &str) -> (r: RewindError)
    ensures
        r@ == Fault::WorkspaceNotInitialized,
{
    let mut detail = text::copy("watcher context for ");
    detail.append(workspace_root);
    RewindError::WorkspaceNotInitialized.context(detail.as_str())
}

/// Says where an error came up. The errors that state a safety rule stay as
/// they are.
pub trait ErrorContext: View + Sized {
    spec fn with_context(fault: Self::V, detail: Seq<char>) -> Self::V;

    fn context(self, detail: &str) -> (r: Self)
        ensures
            r@ == Self::with_context(self@, detail@),
    ;
}

impl ErrorContext for RewindError {
    open spec fn with_context(fault: Fault, detail: Seq<char>) -> Fault {
        match fault {
            Fault::Storage(inner) => Fault::Storage(detail + ": "@ + inner),
            Fault::Io(inner) => Fault::Storage(detail + ": "@ + inner),
            other => other,
        }
    }

    fn context(self, detail: &str) -> (r: Self) {
        match self {
            RewindError::Storage(inner) | RewindError::Io(inner) => {
                let mut out = text::copy(detail);
                out.append(": ");
                out.append(inner.as_str());
                RewindError::Storage(out)
            },
            other => other,
        }
    }
}

// ---------------------------------------------------------------------------
// What the calls promise
// ---------------------------------------------------------------------------

/// A degradation that is recorded stays on record behind those that were there,
/// and a marker that cannot be read counts as one. Only a marker that is not
/// there says nothing.
pub proof fn a_degradation_stays_on_record(
    previous: Degradations,
    workspace_id: u128,
    record: DegradationRecord,
    r: Degradations,
    first: Degradations,
    unreadable: Option<Degradations>,
    none: Option<Degradations>,
    read: Option<Degradations>,
    now: i64,
)
    requires
        call_ensures(Degradations::appended, (Some(previous), workspace_id, record), r),
        call_ensures(Degradations::appended, (None, workspace_id, record), first),
        call_ensures(Degradations::pending, (Some(None), now), unreadable),
        call_ensures(Degradations::pending, (None, now), none),
        call_ensures(Degradations::pending, (Some(Some(previous)), now), read),
    ensures
        r.records@ == previous.records@ + seq![record],
        r.workspace_id == workspace_id,
        first.records@ == seq![record],
        unreadable is Some,
        unreadable->0.records@.len() == 1,
        none is None,
        read == Some(previous),
{
    assert(views(unreadable->0.records@).len() == unreadable->0.records@.len());
}

/// A state that is degraded once more keeps the earlier causes, says the new one
/// and changes in nothing else.
pub proof fn a_cause_of_degradation_is_kept(state: &mut WatcherState, detail: &str, now: i64)
    requires
        call_ensures(WatcherState::degrade, (state, detail, now), ()),
    ensures
        final(state).degraded,
        final(state).degraded_detail is Some,
        final(state).status == old(state).status,
        final(state).heartbeat_at == old(state).heartbeat_at,
        final(state).coverage_started_at == old(state).coverage_started_at,
        final(state).run_id == old(state).run_id,
        ({
            let text = final(state).degraded_detail->0@;
            &&& text.len() >= detail@.len()
            &&& text.skip(text.len() - detail@.len()) == detail@
            &&& old(state).degraded_detail is Some ==> text.len() >= old(state).degraded_detail->0@.len() && text.take(
                old(state).degraded_detail->0@.len() as int,
            ) == old(state).degraded_detail->0@
        }),
{
    let text = final(state).degraded_detail->0@;
    let lead = displayed(now as int) + ": "@;
    match old(state).degraded_detail {
        Some(earlier) => {
            assert(text == earlier@ + "; "@ + (lead + detail@));
            assert(text.take(earlier@.len() as int) =~= earlier@);
            assert(text.skip(text.len() - detail@.len()) =~= detail@);
        },
        None => {
            assert(text == lead + detail@);
            assert(text.skip(text.len() - detail@.len()) =~= detail@);
        },
    }
}

} // verus!
