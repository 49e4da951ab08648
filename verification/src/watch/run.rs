//! The watcher loop: what it does with each thing that it sees, step by step.
//!
//! The loop polls its adapter, observes anew where the adapter lost events or
//! failed, and then looks after its files. Each of these is a step from one
//! state to the next and to the actions that are owed, in their order.

use vstd::prelude::*;
use vstd::string::*;

use super::adapter::{AdapterOutput, Raw, RawEvent, RawKind};
use super::model::{
    DegradationReason, DegradationRecord, Dirt, DirtyIndex, EventKind, EventSource, FsEvent, Lapse, Sighting,
    StatusKind, WatcherState, DEFAULT_BATCH_MS, DEFAULT_DIRTY_CAP, DEFAULT_LOG_BYTES, HEARTBEAT_MS, MAX_BATCH_MS,
    MIN_BATCH_MS, WATCH_SCHEMA_VERSION,
};
use crate::order;
use crate::order::strictly_ascending;
use crate::order::views;
use crate::outside;
use crate::outside::json_text;
use crate::paths;
use crate::paths::begins_with;
use crate::paths::below;
use crate::paths::joined;
use crate::paths::Platform;
use crate::paths::joined_names;
use crate::paths::stays_below;
use crate::text;
use crate::text::decimal;
use crate::text::decimal_int;
use crate::text::optional;
use crate::words;

verus! {

/// How the watcher is tuned.
#[derive(Clone, Copy, Debug, PartialEq, Eq)]
pub struct WatchConfig {
    /// How long one poll waits, in milliseconds.
    pub batch_ms: u64,
    pub dirty_cap: usize,
    pub log_bytes: u64,
}

impl Default for WatchConfig {
    fn default() -> (r: Self)
        ensures
            r == (WatchConfig {
                batch_ms: DEFAULT_BATCH_MS,
                dirty_cap: DEFAULT_DIRTY_CAP,
                log_bytes: DEFAULT_LOG_BYTES,
            }),
    {
        WatchConfig { batch_ms: DEFAULT_BATCH_MS, dirty_cap: DEFAULT_DIRTY_CAP, log_bytes: DEFAULT_LOG_BYTES }
    }
}

/// A batch time held to its bounds.
pub open spec fn clamped(ms: u64) -> u64 {
    if ms < MIN_BATCH_MS {
        MIN_BATCH_MS
    } else if ms > MAX_BATCH_MS {
        MAX_BATCH_MS
    } else {
        ms
    }
}

pub fn clamp_batch(ms: u64) -> (r: u64)
    ensures
        r == clamped(ms),
        MIN_BATCH_MS <= r <= MAX_BATCH_MS,
{
    if ms < MIN_BATCH_MS {
        MIN_BATCH_MS
    } else if ms > MAX_BATCH_MS {
        MAX_BATCH_MS
    } else {
        ms
    }
}

/// The number that an environment variable holds, if it holds one.
pub open spec fn setting(value: Option<Seq<char>>) -> Option<nat> {
    match value {
        Some(text) => words::unsigned(words::trimmed(text)),
        None => None,
    }
}

fn read_setting(value: &Option<String>) -> (r: Option<u64>)
    ensures
        r is Some == setting(optional(*value)) is Some,
        r is Some ==> r->0 == setting(optional(*value))->0,
{
    match value {
        Some(text) => words::parse_u64(words::trim(text.as_str()).as_str()),
        None => None,
    }
}

impl WatchConfig {
    /// Reads the settings that the environment gives, each held to its bounds.
    /// A value that is no number leaves the default.
    pub fn from_env(batch: &Option<String>, dirty_cap: &Option<String>, log_bytes: &Option<String>) -> (r: Self)
        ensures
            r.batch_ms == match setting(optional(*batch)) {
                Some(ms) => clamped(ms as u64),
                None => DEFAULT_BATCH_MS,
            },
            r.dirty_cap == match setting(optional(*dirty_cap)) {
                Some(n) => (if n < 1 { 1u64 } else { n as u64 }) as usize,
                None => DEFAULT_DIRTY_CAP,
            },
            r.log_bytes == match setting(optional(*log_bytes)) {
                Some(n) => if n < 1024 { 1024u64 } else { n as u64 },
                None => DEFAULT_LOG_BYTES,
            },
    {
        let mut config = WatchConfig::default();
        if let Some(value) = read_setting(batch) {
            config.batch_ms = clamp_batch(value);
        }
        if let Some(value) = read_setting(dirty_cap) {
            config.dirty_cap = (if value < 1 { 1u64 } else { value }) as usize;
        }
        if let Some(value) = read_setting(log_bytes) {
            config.log_bytes = if value < 1024 { 1024 } else { value };
        }
        config
    }

    /// The same settings with another batch time, held to its bounds.
    pub fn with_batch(self, batch_ms: Option<u64>) -> (r: Self)
        ensures
            r == (WatchConfig {
                batch_ms: match batch_ms {
                    Some(ms) => clamped(ms),
                    None => self.batch_ms,
                },
                ..self
            }),
    {
        match batch_ms {
            Some(ms) => WatchConfig { batch_ms: clamp_batch(ms), ..self },
            None => self,
        }
    }
}

/// The watcher's files of one workspace.
#[derive(Clone, Debug)]
pub struct WatchPaths {
    pub dir: String,
    pub state: String,
    pub dirty: String,
    pub events: String,
    pub events_previous: String,
    pub degradations: String,
    pub stop_flag: String,
}

impl WatchPaths {
    pub fn new(platform: Platform, project_root: &str) -> (r: Self)
        ensures
            ({
                let dir = joined(platform, project_root@, "watch"@);
                &&& r.dir@ == dir
                &&& r.state@ == joined(platform, dir, "state.json"@)
                &&& r.dirty@ == joined(platform, dir, "dirty.json"@)
                &&& r.events@ == joined(platform, dir, "events.log"@)
                &&& r.events_previous@ == joined(platform, dir, "events.log.1"@)
                &&& r.degradations@ == joined(platform, dir, "degraded.json"@)
                &&& r.stop_flag@ == joined(platform, dir, "stop.flag"@)
            }),
    {
        let dir = paths::join(platform, project_root, "watch");
        WatchPaths {
            state: paths::join(platform, dir.as_str(), "state.json"),
            dirty: paths::join(platform, dir.as_str(), "dirty.json"),
            events: paths::join(platform, dir.as_str(), "events.log"),
            events_previous: paths::join(platform, dir.as_str(), "events.log.1"),
            degradations: paths::join(platform, dir.as_str(), "degraded.json"),
            stop_flag: paths::join(platform, dir.as_str(), "stop.flag"),
            dir,
        }
    }
}

/// Whether a line still fits the log, or the log is rotated before it.
pub fn rotates(log_length: u64, line_length: u64, log_bytes: u64) -> (r: bool)
    ensures
        r == (log_length + line_length + 1 > log_bytes),
{
    log_length as u128 + line_length as u128 + 1 > log_bytes as u128
}

// ---------------------------------------------------------------------------
// Confining events
// ---------------------------------------------------------------------------

/// The path relative to the root, where it lies below it.
pub open spec fn confined(platform: Platform, root: Seq<char>, path: Seq<char>) -> Option<Seq<char>> {
    if begins_with(platform, path, root) && stays_below(below(platform, path, root)) {
        Some(joined_names(below(platform, path, root)))
    } else {
        None
    }
}

fn confine_path(platform: Platform, root: &str, path: &str) -> (r: Option<String>)
    ensures
        optional(r) == confined(platform, root@, path@),
{
    match paths::normalize_relative(platform, root, path) {
        Ok(relative) => Some(relative),
        Err(_) => None,
    }
}

pub open spec fn event_kind(kind: RawKind) -> EventKind {
    match kind {
        RawKind::Create => EventKind::Create,
        RawKind::Modify => EventKind::Modify,
        RawKind::Delete | RawKind::RenameFrom => EventKind::Delete,
        RawKind::RenameTo => EventKind::Create,
        RawKind::RenameBoth => EventKind::Rename,
        RawKind::Other => EventKind::Other,
    }
}

/// Whether a relative path is the metadata directory or lies in it.
pub open spec fn is_metadata(relative: Seq<char>) -> bool {
    relative == ".rewind"@ || (relative.len() >= 8 && relative.take(8) == ".rewind/"@)
}

/// What an event comes to: the events to record, the paths that may have
/// changed, and the anomalies to report.
pub struct Confined {
    pub events: Seq<Sighting>,
    pub dirty: Seq<Seq<char>>,
    pub anomalies: Seq<Seq<char>>,
}

/// The path that an event is about: the last one of a rename.
pub open spec fn primary(raw: Raw) -> Option<Seq<char>> {
    let at: int = if raw.kind == RawKind::RenameBoth {
        1
    } else {
        0
    };
    if at < raw.paths.len() {
        Some(raw.paths[at])
    } else {
        None
    }
}

/// Where a rename came from.
pub open spec fn origin(platform: Platform, raw: Raw, root: Seq<char>) -> Option<Seq<char>> {
    if raw.kind == RawKind::RenameBoth && raw.paths.len() > 0 {
        confined(platform, root, raw.paths[0])
    } else {
        None
    }
}

/// What an event comes to. One without a path comes to nothing, one that lies
/// outside of the root is an anomaly, and one of the metadata is left out.
pub open spec fn confinement(
    platform: Platform,
    raw: Raw,
    root: Seq<char>,
    run_id: u128,
    sequence: u64,
    source: EventSource,
    timestamp: i64,
) -> Confined {
    let nothing = Confined { events: Seq::empty(), dirty: Seq::empty(), anomalies: Seq::empty() };
    match primary(raw) {
        None => nothing,
        Some(path) => match confined(platform, root, path) {
            None => Confined { anomalies: seq!["dropped unconfineable event path "@ + path], ..nothing },
            Some(relative) => if is_metadata(relative) {
                nothing
            } else {
                let from = origin(platform, raw, root);
                Confined {
                    events: seq![
                        Sighting {
                            run_id,
                            sequence,
                            path: relative,
                            kind: event_kind(raw.kind),
                            from_path: from,
                            timestamp,
                            source,
                        },
                    ],
                    dirty: match from {
                        Some(p) => seq![relative, p],
                        None => seq![relative],
                    },
                    anomalies: Seq::empty(),
                }
            },
        },
    }
}

fn in_metadata(relative: &str) -> (r: bool)
    ensures
        r == is_metadata(relative@),
{
    if text::same(relative, ".rewind") {
        return true;
    }
    let chars = text::chars_of(relative);
    if chars.len() < 8 {
        return false;
    }
    let head = text::slice_text(&chars, 0, 8);
    assert(head@ =~= relative@.take(8));
    text::same(head.as_str(), ".rewind/")
}

/// Confines an event to the workspace. What cannot be confined is dropped and
/// reported, never followed.
pub fn confine_raw(
    platform: Platform,
    raw: &RawEvent,
    root: &str,
    run_id: u128,
    sequence: u64,
    source: EventSource,
    timestamp: i64,
) -> (r: (Vec<FsEvent>, Vec<String>, Vec<String>))
    ensures
        (Confined { events: views(r.0@), dirty: views(r.1@), anomalies: views(r.2@) }) == confinement(
            platform,
            raw@,
            root@,
            run_id,
            sequence,
            source,
            timestamp,
        ),
{
    let mut events: Vec<FsEvent> = Vec::new();
    let mut dirty: Vec<String> = Vec::new();
    let mut anomalies: Vec<String> = Vec::new();
    assert(views(events@) =~= Seq::<Sighting>::empty());
    assert(views(dirty@) =~= Seq::<Seq<char>>::empty());
    assert(views(anomalies@) =~= Seq::<Seq<char>>::empty());
    let kind = match raw.kind {
        RawKind::Create => EventKind::Create,
        RawKind::Modify => EventKind::Modify,
        RawKind::Delete | RawKind::RenameFrom => EventKind::Delete,
        RawKind::RenameTo => EventKind::Create,
        RawKind::RenameBoth => EventKind::Rename,
        RawKind::Other => EventKind::Other,
    };
    let both = raw.kind == RawKind::RenameBoth;
    let at: usize = if both {
        1
    } else {
        0
    };
    if at >= raw.paths.len() {
        return (events, dirty, anomalies);
    }
    let from = if both {
        confine_path(platform, root, raw.paths[0].as_str())
    } else {
        None
    };
    assert(optional(from) == origin(platform, raw@, root@));
    let path = raw.paths[at].as_str();
    assert(primary(raw@) == Some(path@));
    let relative = match confine_path(platform, root, path) {
        Some(relative) => relative,
        None => {
            let mut message = text::copy("dropped unconfineable event path ");
            message.append(path);
            anomalies.push(message);
            assert(views(anomalies@) =~= seq!["dropped unconfineable event path "@ + path@]);
            return (events, dirty, anomalies);
        },
    };
    if in_metadata(relative.as_str()) {
        return (events, dirty, anomalies);
    }
    let event = FsEvent {
        run_id,
        sequence,
        path: text::copy(relative.as_str()),
        kind,
        from_path: text::copy_optional(&from),
        timestamp,
        source,
    };
    events.push(event);
    assert(views(events@) =~= seq![event@]);
    let ghost name = relative@;
    let ghost other = optional(from);
    dirty.push(relative);
    match from {
        Some(p) => {
            dirty.push(p);
            assert(views(dirty@) =~= seq![name, other->0]);
        },
        None => {
            assert(views(dirty@) =~= seq![name]);
        },
    }
    (events, dirty, anomalies)
}

// ---------------------------------------------------------------------------
// The loop
// ---------------------------------------------------------------------------

/// How the loop ends.
#[derive(Clone, Copy, Debug, PartialEq, Eq, Structural)]
pub enum LoopExit {
    /// It was asked to stop.
    Stopped,
    /// The adapter failed and could not observe anew.
    Failed,
}

/// What the loop wants done.
#[derive(Debug)]
pub enum Action {
    AppendEvent(FsEvent),
    AppendLine(String),
    AppendDegradation(DegradationRecord),
    WriteState(WatcherState),
    WriteDirty(DirtyIndex),
    ShutDown,
    ClearStopFlag,
}

/// What an action is.
pub enum Deed {
    Event(Sighting),
    Line(Seq<char>),
    Degradation(Lapse),
    State(WatcherState),
    Dirty(Dirt),
    ShutDown,
    ClearStopFlag,
}

impl View for Action {
    type V = Deed;

    open spec fn view(&self) -> Deed {
        match self {
            Action::AppendEvent(event) => Deed::Event(event@),
            Action::AppendLine(line) => Deed::Line(line@),
            Action::AppendDegradation(record) => Deed::Degradation(record@),
            Action::WriteState(state) => Deed::State(*state),
            Action::WriteDirty(index) => Deed::Dirty(index@),
            Action::ShutDown => Deed::ShutDown,
            Action::ClearStopFlag => Deed::ClearStopFlag,
        }
    }
}

/// What comes after the actions of a step.
#[derive(Clone, Copy, Debug, PartialEq, Eq, Structural)]
pub enum Next {
    /// Poll the adapter.
    Poll,
    /// Observe anew.
    Restart,
    /// Look after the files.
    Check,
    Exit(LoopExit),
}

/// What a step comes to.
#[derive(Debug)]
pub struct Step {
    pub actions: Vec<Action>,
    pub next: Next,
}

/// The state of the loop.
pub struct ServeLoop {
    pub platform: Platform,
    pub root: String,
    pub source: EventSource,
    pub config: WatchConfig,
    pub index: DirtyIndex,
    pub state: WatcherState,
    pub sequence: u64,
    pub dirty_changed: bool,
    pub dirty_capped: bool,
    /// The failure for which the adapter is restarted; none after an overflow.
    pub failure: Option<String>,
}

/// The paths that may have changed, whether one was added, and whether the cap
/// was met.
pub struct Marks {
    pub paths: Set<Seq<char>>,
    pub count: nat,
    pub changed: bool,
    pub capped: bool,
}

/// The marks after more paths: each is added while there is room.
pub open spec fn marked(start: Marks, cap: nat, paths: Seq<Seq<char>>) -> Marks
    decreases paths.len(),
{
    if paths.len() == 0 {
        start
    } else {
        let m = marked(start, cap, paths.drop_last());
        let p = paths.last();
        if m.count >= cap {
            Marks { capped: true, ..m }
        } else if m.paths.contains(p) {
            m
        } else {
            Marks { paths: m.paths.insert(p), count: m.count + 1, changed: true, ..m }
        }
    }
}

/// The record of a full index.
pub open spec fn cap_detail(cap: nat) -> Seq<char> {
    "dirty index cap of "@ + decimal(cap) + " reached; per-path knowledge stops here until reconciliation"@
}

pub open spec fn overflow_detail() -> Seq<char> {
    "platform watcher queue overflow; events may have been lost"@
}

pub open spec fn failure_detail(detail: Seq<char>) -> Seq<char> {
    "watcher adapter failed: "@ + detail
}

pub open spec fn final_detail(detail: Seq<char>) -> Seq<char> {
    "watcher stopped after unrecoverable adapter failure: "@ + detail
}

/// The line that reports an anomaly.
pub open spec fn anomaly_line(anomaly: Seq<char>, now: int) -> Seq<char> {
    "{\"anomaly\":"@ + json_text(anomaly) + ",\"ts\":"@ + decimal_int(now) + "}"@
}

pub open spec fn lapse(reason: DegradationReason, detail: Seq<char>, now: i64) -> Deed {
    Deed::Degradation(Lapse { reason, detail, recorded_at: now, gap: (None, None) })
}

impl ServeLoop {
    pub open spec fn well_formed(self) -> bool {
        self.index.well_formed()
    }

    /// The paths in the index.
    pub open spec fn paths(self) -> Set<Seq<char>> {
        Set::new(|p: Seq<char>| views(self.index.paths@).contains(p))
    }

    pub open spec fn marks(self) -> Marks {
        Marks {
            paths: self.paths(),
            count: self.index.paths@.len(),
            changed: self.dirty_changed,
            capped: self.dirty_capped,
        }
    }

    /// What an event comes to in this state.
    pub open spec fn confine(self, raw: Raw, now: i64) -> Confined {
        confinement(self.platform, raw, self.root@, self.state.run_id, (self.sequence + 1) as u64, self.source, now)
    }

    /// Starts a run. The paths that an earlier run recorded stay, so that a
    /// restart never erases what is known.
    pub fn begin(
        previous: Option<DirtyIndex>,
        workspace_id: u128,
        run_id: u128,
        pid: u32,
        platform: Platform,
        root: &str,
        source: EventSource,
        config: WatchConfig,
        now: i64,
    ) -> (r: ServeLoop)
        ensures
            r.well_formed(),
            r.platform == platform,
            r.root@ == root@,
            r.source == source,
            r.config == config,
            r.sequence == 0,
            !r.dirty_changed,
            !r.dirty_capped,
            r.failure is None,
            r.state == (WatcherState {
                schema_version: WATCH_SCHEMA_VERSION,
                workspace_id,
                run_id,
                pid,
                status: StatusKind::Running,
                started_at: now,
                heartbeat_at: now,
                stopped_at: None,
                coverage_started_at: now,
                batch_ms: config.batch_ms,
                degraded: false,
                degraded_detail: None,
                last_sequence: 0,
            }),
            r.index.schema_version == WATCH_SCHEMA_VERSION,
            r.index.workspace_id == workspace_id,
            r.index.run_id == run_id,
            match previous {
                Some(p) if p.schema_version == WATCH_SCHEMA_VERSION => {
                    &&& r.index.anomalies == p.anomalies
                    &&& r.index.updated_at == p.updated_at
                    &&& forall|path: Seq<char>| #[trigger]
                        r.paths().contains(path) == views(p.paths@).contains(path)
                },
                _ => {
                    &&& r.index.anomalies == 0
                    &&& r.index.updated_at == 0
                    &&& r.index.paths@.len() == 0
                },
            },
    {
        let mut index = DirtyIndex::new(workspace_id);
        if let Some(p) = previous {
            if p.schema_version == WATCH_SCHEMA_VERSION {
                index.anomalies = p.anomalies;
                index.updated_at = p.updated_at;
                let ghost all = views(p.paths@);
                for i in 0..p.paths.len()
                    invariant
                        all == views(p.paths@),
                        strictly_ascending::<String>(views(index.paths@)),
                        forall|path: Seq<char>| #[trigger]
                            views(index.paths@).contains(path) == all.take(i as int).contains(path),
                        index == (DirtyIndex { paths: index.paths, ..index }),
                        index.schema_version == WATCH_SCHEMA_VERSION,
                        index.anomalies == p.anomalies,
                        index.updated_at == p.updated_at,
                {
                    let ghost before = views(index.paths@);
                    order::insert(&mut index.paths, text::copy(p.paths[i].as_str()));
                    proof {
                        order::push_contains(p.paths@.take(i as int), p.paths@[i as int]);
                        assert(views(p.paths@.take(i as int)) =~= all.take(i as int));
                        assert(views(p.paths@.take(i as int).push(p.paths@[i as int])) =~= all.take(i + 1));
                        assert forall|path: Seq<char>| #[trigger]
                            views(index.paths@).contains(path) == all.take(i + 1).contains(path) by {
                            assert(before.contains(path) == all.take(i as int).contains(path));
                        }
                    }
                }
                assert(all.take(all.len() as int) =~= all);
            }
        }
        index.workspace_id = workspace_id;
        index.run_id = run_id;
        let state = WatcherState::new(workspace_id, run_id, StatusKind::Running, config.batch_ms, pid, now);
        ServeLoop {
            platform,
            root: text::copy(root),
            source,
            config,
            index,
            state,
            sequence: 0,
            dirty_changed: false,
            dirty_capped: false,
            failure: None,
        }
    }

    /// Adds a path to the index, or meets its cap.
    fn mark(&mut self, path: String, now: i64) -> (r: Option<DegradationRecord>)
        requires
            old(self).well_formed(),
        ensures
            final(self).well_formed(),
            final(self).marks() == marked(old(self).marks(), old(self).config.dirty_cap as nat, seq![path@]),
            *final(self) == (ServeLoop {
                index: final(self).index,
                state: final(self).state,
                dirty_changed: final(self).dirty_changed,
                dirty_capped: final(self).dirty_capped,
                ..*old(self)
            }),
            final(self).index@ == (Dirt { paths: final(self).index@.paths, ..old(self).index@ }),
            !old(self).dirty_capped && final(self).dirty_capped ==> {
                &&& r is Some
                &&& Deed::Degradation(r->0@) == lapse(
                    DegradationReason::DirtyCap,
                    cap_detail(old(self).config.dirty_cap as nat),
                    now,
                )
                &&& old(self).state.degraded_to(
                    final(self).state,
                    cap_detail(old(self).config.dirty_cap as nat),
                    now as int,
                )
            },
            old(self).dirty_capped == final(self).dirty_capped ==> r is None && final(self).state == old(self).state,
    {
        let ghost before = *self;
        let ghost p = path@;
        proof {
            reveal_with_fuel(marked, 2);
            assert(seq![p].drop_last() =~= Seq::<Seq<char>>::empty());
        }
        if self.index.paths.len() >= self.config.dirty_cap {
            if self.dirty_capped {
                assert(self.marks().paths =~= before.marks().paths);
                return None;
            }
            self.dirty_capped = true;
            let mut detail = text::copy("dirty index cap of ");
            detail.append(text::decimal_usize(self.config.dirty_cap).as_str());
            detail.append(" reached; per-path knowledge stops here until reconciliation");
            self.state.degrade(detail.as_str(), now);
            assert(self.marks().paths =~= before.marks().paths);
            return Some(DegradationRecord::new(DegradationReason::DirtyCap, detail.as_str(), now));
        }
        let added = order::insert(&mut self.index.paths, path);
        if added {
            self.dirty_changed = true;
            assert(self.marks().paths =~= before.marks().paths.insert(p));
        } else {
            assert(self.marks().paths =~= before.marks().paths);
        }
        None
    }

    /// Takes in an event of the adapter: reports what cannot be confined,
    /// records the event and marks its paths.
    pub fn observe(&mut self, raw: &RawEvent, now: i64) -> (r: Vec<Action>)
        requires
            old(self).well_formed(),
            old(self).sequence < u64::MAX,
            old(self).index.anomalies < u64::MAX,
        ensures
            final(self).well_formed(),
            ({
                let c = old(self).confine(raw@, now);
                let capped = !old(self).dirty_capped && final(self).dirty_capped;
                let cap = old(self).config.dirty_cap as nat;
                &&& final(self).marks() == marked(old(self).marks(), cap, c.dirty)
                &&& final(self).index@ == (Dirt {
                    paths: final(self).index@.paths,
                    anomalies: (old(self).index.anomalies + c.anomalies.len()) as u64,
                    ..old(self).index@
                })
                &&& *final(self) == (ServeLoop {
                    index: final(self).index,
                    state: final(self).state,
                    sequence: (old(self).sequence + 1) as u64,
                    dirty_changed: final(self).dirty_changed,
                    dirty_capped: final(self).dirty_capped,
                    ..*old(self)
                })
                &&& capped ==> old(self).state.degraded_to(final(self).state, cap_detail(cap), now as int)
                &&& !capped ==> final(self).state == old(self).state
                &&& views(r@) == c.anomalies.map_values(|a: Seq<char>| Deed::Line(anomaly_line(a, now as int)))
                    + c.events.map_values(|e: Sighting| Deed::Event(e)) + (if capped {
                    seq![lapse(DegradationReason::DirtyCap, cap_detail(cap), now)]
                } else {
                    Seq::empty()
                })
            }),
    {
        let ghost start = *self;
        self.sequence = self.sequence + 1;
        let (events, dirty, anomalies) = confine_raw(
            self.platform,
            raw,
            self.root.as_str(),
            self.state.run_id,
            self.sequence,
            self.source,
            now,
        );
        let ghost c = start.confine(raw@, now);
        assert(c.events.len() <= 1 && c.anomalies.len() <= 1 && c.dirty.len() <= 2);
        let mut events = events;
        let mut dirty = dirty;
        let mut actions: Vec<Action> = Vec::new();
        let ghost lines = c.anomalies.map_values(|a: Seq<char>| Deed::Line(anomaly_line(a, now as int)));
        let ghost seen = c.events.map_values(|e: Sighting| Deed::Event(e));
        if anomalies.len() > 0 {
            self.index.anomalies = self.index.anomalies + 1;
            let mut line = text::copy("{\"anomaly\":");
            if let Ok(json) = outside::json_string(anomalies[0].as_str()) {
                line.append(json.as_str());
            }
            line.append(",\"ts\":");
            line.append(text::decimal_i64(now).as_str());
            line.append("}");
            assert(c.anomalies[0] == anomalies@[0]@);
            actions.push(Action::AppendLine(line));
        }
        assert(views(actions@) =~= lines);
        if events.len() > 0 {
            let ghost first = events@[0];
            assert(c.events[0] == first@);
            let event = events.remove(0);
            actions.push(Action::AppendEvent(event));
        }
        assert(views(actions@) =~= lines + seen);
        let ghost cap = start.config.dirty_cap as nat;
        let ghost initial = start.marks();
        assert(self.marks().paths =~= initial.paths);
        let count = dirty.len();
        let ghost all = dirty@;
        assert(views(all) == c.dirty);
        for i in 0..count
            invariant
                count == all.len(),
                c.dirty == views(all),
                dirty@ == all.skip(i as int),
                self.well_formed(),
                cap == start.config.dirty_cap,
                initial == start.marks(),
                self.marks() == marked(initial, cap, c.dirty.take(i as int)),
                *self == (ServeLoop {
                    index: self.index,
                    state: self.state,
                    sequence: (start.sequence + 1) as u64,
                    dirty_changed: self.dirty_changed,
                    dirty_capped: self.dirty_capped,
                    ..start
                }),
                self.index@ == (Dirt {
                    paths: self.index@.paths,
                    anomalies: (start.index.anomalies + c.anomalies.len()) as u64,
                    ..start.index@
                }),
                start.dirty_capped ==> self.dirty_capped,
                ({
                    let capped = !start.dirty_capped && self.dirty_capped;
                    &&& capped ==> start.state.degraded_to(self.state, cap_detail(cap), now as int)
                    &&& !capped ==> self.state == start.state
                    &&& views(actions@) == lines + seen + (if capped {
                        seq![lapse(DegradationReason::DirtyCap, cap_detail(cap), now)]
                    } else {
                        Seq::empty()
                    })
                }),
        {
            let path = dirty.remove(0);
            assert(dirty@ =~= all.skip(i + 1));
            assert(path == all[i as int]);
            proof {
                let taken = c.dirty.take(i + 1);
                assert(taken.drop_last() =~= c.dirty.take(i as int));
                assert(taken.last() == path@);
                reveal_with_fuel(marked, 2);
                assert(seq![path@].drop_last() =~= Seq::<Seq<char>>::empty());
                assert(marked(self.marks(), cap, seq![path@]) == marked(initial, cap, taken));
            }
            let ghost so_far = views(actions@);
            match self.mark(path, now) {
                Some(record) => {
                    let action = Action::AppendDegradation(record);
                    proof {
                        order::push_contains(actions@, action);
                    }
                    actions.push(action);
                    assert(so_far =~= lines + seen);
                    assert(views(actions@) =~= lines + seen + seq![
                        lapse(DegradationReason::DirtyCap, cap_detail(cap), now),
                    ]);
                },
                None => {},
            }
        }
        assert(c.dirty.take(c.dirty.len() as int) =~= c.dirty);
        actions
    }

    /// Takes in an outcome of the adapter. Where events were lost or the adapter
    /// failed, that is recorded before anything else, and the adapter is
    /// restarted.
    pub fn polled(&mut self, output: AdapterOutput, now: i64) -> (r: Step)
        requires
            old(self).well_formed(),
            old(self).sequence < u64::MAX,
            old(self).index.anomalies < u64::MAX,
        ensures
            final(self).well_formed(),
            match output {
                AdapterOutput::Idle => {
                    &&& *final(self) == *old(self)
                    &&& r.next == Next::Check
                    &&& views(r.actions@) == Seq::<Deed>::empty()
                },
                AdapterOutput::Event(raw) => {
                    let c = old(self).confine(raw@, now);
                    let capped = !old(self).dirty_capped && final(self).dirty_capped;
                    let cap = old(self).config.dirty_cap as nat;
                    &&& r.next == Next::Check
                    &&& final(self).marks() == marked(old(self).marks(), cap, c.dirty)
                    &&& final(self).index@ == (Dirt {
                        paths: final(self).index@.paths,
                        anomalies: (old(self).index.anomalies + c.anomalies.len()) as u64,
                        ..old(self).index@
                    })
                    &&& *final(self) == (ServeLoop {
                        index: final(self).index,
                        state: final(self).state,
                        sequence: (old(self).sequence + 1) as u64,
                        dirty_changed: final(self).dirty_changed,
                        dirty_capped: final(self).dirty_capped,
                        ..*old(self)
                    })
                    &&& capped ==> old(self).state.degraded_to(final(self).state, cap_detail(cap), now as int)
                    &&& !capped ==> final(self).state == old(self).state
                    &&& views(r.actions@) == c.anomalies.map_values(
                        |a: Seq<char>| Deed::Line(anomaly_line(a, now as int)),
                    ) + c.events.map_values(|e: Sighting| Deed::Event(e)) + (if capped {
                        seq![lapse(DegradationReason::DirtyCap, cap_detail(cap), now)]
                    } else {
                        Seq::empty()
                    })
                },
                AdapterOutput::Overflow => {
                    &&& r.next == Next::Restart
                    &&& views(r.actions@) == seq![lapse(DegradationReason::Overflow, overflow_detail(), now)]
                    &&& old(self).state.degraded_to(final(self).state, overflow_detail(), now as int)
                    &&& *final(self) == (ServeLoop { state: final(self).state, failure: None, ..*old(self) })
                },
                AdapterOutput::Failed(detail) => {
                    &&& r.next == Next::Restart
                    &&& views(r.actions@) == seq![
                        lapse(DegradationReason::AdapterFailed, failure_detail(detail@), now),
                    ]
                    &&& old(self).state.degraded_to(final(self).state, failure_detail(detail@), now as int)
                    &&& optional(final(self).failure) == Some(failure_detail(detail@))
                    &&& *final(self) == (ServeLoop {
                        state: final(self).state,
                        failure: final(self).failure,
                        ..*old(self)
                    })
                },
            },
    {
        match output {
            AdapterOutput::Idle => {
                let actions: Vec<Action> = Vec::new();
                assert(views(actions@) =~= Seq::<Deed>::empty());
                Step { actions, next: Next::Check }
            },
            AdapterOutput::Event(raw) => {
                let actions = self.observe(&raw, now);
                Step { actions, next: Next::Check }
            },
            AdapterOutput::Overflow => {
                let detail = "platform watcher queue overflow; events may have been lost";
                let mut actions: Vec<Action> = Vec::new();
                actions.push(
                    Action::AppendDegradation(DegradationRecord::new(DegradationReason::Overflow, detail, now)),
                );
                self.state.degrade(detail, now);
                self.failure = None;
                assert(views(actions@) =~= seq![lapse(DegradationReason::Overflow, overflow_detail(), now)]);
                Step { actions, next: Next::Restart }
            },
            AdapterOutput::Failed(inner) => {
                let mut detail = text::copy("watcher adapter failed: ");
                detail.append(inner.as_str());
                let mut actions: Vec<Action> = Vec::new();
                actions.push(
                    Action::AppendDegradation(
                        DegradationRecord::new(DegradationReason::AdapterFailed, detail.as_str(), now),
                    ),
                );
                self.state.degrade(detail.as_str(), now);
                assert(views(actions@) =~= seq![
                    lapse(DegradationReason::AdapterFailed, failure_detail(inner@), now),
                ]);
                self.failure = Some(detail);
                Step { actions, next: Next::Restart }
            },
        }
    }

    /// Goes on after the adapter was restarted, or ends where it could not be.
    /// `error` is what the restart failed with.
    pub fn restarted(&mut self, error: &Option<String>, now: i64) -> (r: Step)
        requires
            old(self).well_formed(),
        ensures
            final(self).well_formed(),
            match *error {
                None => {
                    &&& *final(self) == *old(self)
                    &&& r.next == Next::Check
                    &&& views(r.actions@) == seq![Deed::State(old(self).state)]
                },
                Some(e) => {
                    let detail = match old(self).failure {
                        Some(f) => f@,
                        None => e@,
                    };
                    let last = WatcherState { status: StatusKind::Failed, heartbeat_at: now, ..old(self).state };
                    &&& *final(self) == (ServeLoop { state: last, ..*old(self) })
                    &&& r.next == Next::Exit(LoopExit::Failed)
                    &&& views(r.actions@) == seq![
                        Deed::ShutDown,
                        lapse(DegradationReason::AdapterFailed, final_detail(detail), now),
                        Deed::State(last),
                    ]
                },
            },
    {
        let mut actions: Vec<Action> = Vec::new();
        match error {
            None => {
                actions.push(Action::WriteState(self.state.duplicate()));
                assert(views(actions@) =~= seq![Deed::State(self.state)]);
                Step { actions, next: Next::Check }
            },
            Some(e) => {
                let mut detail = text::copy("watcher stopped after unrecoverable adapter failure: ");
                match &self.failure {
                    Some(f) => {
                        detail.append(f.as_str());
                    },
                    None => {
                        detail.append(e.as_str());
                    },
                }
                actions.push(Action::ShutDown);
                actions.push(
                    Action::AppendDegradation(
                        DegradationRecord::new(DegradationReason::AdapterFailed, detail.as_str(), now),
                    ),
                );
                self.state.status = StatusKind::Failed;
                self.state.heartbeat_at = now;
                actions.push(Action::WriteState(self.state.duplicate()));
                assert(views(actions@) =~= seq![
                    Deed::ShutDown,
                    lapse(DegradationReason::AdapterFailed, detail@, now),
                    Deed::State(self.state),
                ]);
                Step { actions, next: Next::Exit(LoopExit::Failed) }
            },
        }
    }

    /// Looks after the files: ends where that is asked for, writes the index
    /// where it changed, and gives a sign of life where the last one is old.
    pub fn checked(&mut self, stop: bool, since_state_write_ms: u64, now: i64) -> (r: Step)
        requires
            old(self).well_formed(),
        ensures
            final(self).well_formed(),
            stop ==> {
                let stopping = WatcherState { status: StatusKind::Stopping, heartbeat_at: now, ..old(self).state };
                let stopped = WatcherState {
                    status: StatusKind::Stopped,
                    heartbeat_at: now,
                    stopped_at: Some(now),
                    last_sequence: old(self).sequence,
                    ..old(self).state
                };
                &&& r.next == Next::Exit(LoopExit::Stopped)
                &&& *final(self) == (ServeLoop { state: stopped, index: final(self).index, ..*old(self) })
                &&& final(self).index@ == (Dirt { updated_at: now, ..old(self).index@ })
                &&& views(r.actions@) == seq![
                    Deed::State(stopping),
                    Deed::ShutDown,
                    Deed::State(stopped),
                    Deed::Dirty(final(self).index@),
                    Deed::ClearStopFlag,
                ]
            },
            !stop ==> {
                let beats = since_state_write_ms >= HEARTBEAT_MS;
                let alive = WatcherState { heartbeat_at: now, last_sequence: old(self).sequence, ..old(self).state };
                let written = Dirt { updated_at: now, ..old(self).index@ };
                &&& r.next == Next::Poll
                &&& *final(self) == (ServeLoop {
                    state: final(self).state,
                    index: final(self).index,
                    dirty_changed: false,
                    ..*old(self)
                })
                &&& final(self).state == if beats {
                    alive
                } else {
                    old(self).state
                }
                &&& final(self).index@ == if old(self).dirty_changed {
                    written
                } else {
                    old(self).index@
                }
                &&& views(r.actions@) == (if old(self).dirty_changed {
                    seq![Deed::Dirty(written)]
                } else {
                    Seq::empty()
                }) + (if beats {
                    seq![Deed::State(alive)]
                } else {
                    Seq::empty()
                })
            },
    {
        let ghost start = *self;
        let mut actions: Vec<Action> = Vec::new();
        if stop {
            self.state.status = StatusKind::Stopping;
            self.state.heartbeat_at = now;
            actions.push(Action::WriteState(self.state.duplicate()));
            let ghost stopping = self.state;
            actions.push(Action::ShutDown);
            self.state.status = StatusKind::Stopped;
            self.state.stopped_at = Some(now);
            self.state.last_sequence = self.sequence;
            actions.push(Action::WriteState(self.state.duplicate()));
            self.index.updated_at = now;
            actions.push(Action::WriteDirty(self.index.duplicate()));
            actions.push(Action::ClearStopFlag);
            assert(views(actions@) =~= seq![
                Deed::State(stopping),
                Deed::ShutDown,
                Deed::State(self.state),
                Deed::Dirty(self.index@),
                Deed::ClearStopFlag,
            ]);
            return Step { actions, next: Next::Exit(LoopExit::Stopped) };
        }
        if self.dirty_changed {
            self.index.updated_at = now;
            actions.push(Action::WriteDirty(self.index.duplicate()));
            self.dirty_changed = false;
        }
        let ghost first: Seq<Deed> = if start.dirty_changed {
            seq![Deed::Dirty(Dirt { updated_at: now, ..start.index@ })]
        } else {
            Seq::empty()
        };
        assert(views(actions@) =~= first);
        if since_state_write_ms >= HEARTBEAT_MS {
            self.state.heartbeat_at = now;
            self.state.last_sequence = self.sequence;
            let action = Action::WriteState(self.state.duplicate());
            proof {
                order::push_contains(actions@, action);
            }
            actions.push(action);
            assert(views(actions@) =~= first + seq![Deed::State(self.state)]);
        } else {
            assert(views(actions@) =~= first + Seq::<Deed>::empty());
        }
        Step { actions, next: Next::Poll }
    }
}

// ---------------------------------------------------------------------------
// Laws
// ---------------------------------------------------------------------------

/// Marking never loses a path, and never goes beyond the cap.
pub proof fn marking_keeps_paths(start: Marks, cap: nat, paths: Seq<Seq<char>>)
    ensures
        start.paths.subset_of(marked(start, cap, paths).paths),
        start.count <= marked(start, cap, paths).count,
        start.count <= cap ==> marked(start, cap, paths).count <= cap,
        start.capped ==> marked(start, cap, paths).capped,
        start.changed ==> marked(start, cap, paths).changed,
    decreases paths.len(),
{
    if paths.len() > 0 {
        marking_keeps_paths(start, cap, paths.drop_last());
    }
}

/// The count of the marks of a run is the number of its paths.
pub proof fn marks_count_their_paths(run: ServeLoop)
    requires
        run.well_formed(),
    ensures
        run.marks().paths.finite(),
        run.marks().count == run.marks().paths.len(),
{
    let list = views(run.index.paths@);
    assert forall|i: int, j: int| 0 <= i < list.len() && 0 <= j < list.len() && i != j implies list[i] != list[j] by {
        text::before_irreflexive(list[i]);
        if i < j {
            assert(text::before(list[i], list[j]));
        } else {
            assert(text::before(list[j], list[i]));
        }
    }
    list.unique_seq_to_set();
    assert(run.marks().paths =~= list.to_set());
    vstd::seq_lib::seq_to_set_is_finite(list);
}

/// What is marked afterwards was marked before or is one of the new paths; where
/// all of them fit under the cap, all of them are marked.
pub proof fn marking_adds_only_the_paths(start: Marks, cap: nat, paths: Seq<Seq<char>>)
    requires
        start.paths.finite(),
        start.count == start.paths.len(),
    ensures
        marked(start, cap, paths).paths.subset_of(start.paths.union(paths.to_set())),
        start.paths.union(paths.to_set()).len() <= cap ==> marked(start, cap, paths).paths == start.paths.union(
            paths.to_set(),
        ),
        marked(start, cap, paths).paths.finite(),
        marked(start, cap, paths).count == marked(start, cap, paths).paths.len(),
    decreases paths.len(),
{
    if paths.len() == 0 {
        assert(start.paths.union(paths.to_set()) =~= start.paths);
    } else {
        let less = paths.drop_last();
        let p = paths.last();
        marking_adds_only_the_paths(start, cap, less);
        let m = marked(start, cap, less);
        let part = start.paths.union(less.to_set());
        let whole = start.paths.union(paths.to_set());
        assert(paths =~= less.push(p));
        assert forall|x: Seq<char>| #[trigger] paths.to_set().contains(x) == (less.to_set().contains(x) || x == p) by {
            if paths.contains(x) && x != p {
                let k = choose|k: int| 0 <= k < paths.len() && paths[k] == x;
                assert(less[k] == x);
            }
            if less.contains(x) {
                let k = choose|k: int| 0 <= k < less.len() && less[k] == x;
                assert(paths[k] == x);
            }
            assert(paths[paths.len() - 1] == p);
        }
        assert(whole =~= part.insert(p));
        vstd::seq_lib::seq_to_set_is_finite(less);
        assert(part.finite());
        if whole.len() <= cap {
            if !part.contains(p) {
                assert(part.len() < cap);
            } else {
                assert(part.insert(p) =~= part);
            }
            assert(m.paths == part);
            if m.count >= cap {
                assert(part.contains(p));
            }
        }
    }
}

/// A path that is not in the index afterwards was kept out by the cap, and
/// that is on record.
pub proof fn unmarked_means_capped(start: Marks, cap: nat, paths: Seq<Seq<char>>, k: int)
    requires
        0 <= k < paths.len(),
        !marked(start, cap, paths).paths.contains(paths[k]),
    ensures
        marked(start, cap, paths).capped,
    decreases paths.len(),
{
    let less = paths.drop_last();
    let m = marked(start, cap, less);
    if k < paths.len() - 1 {
        assert(less[k] == paths[k]);
        unmarked_means_capped(start, cap, less, k);
    }
}

/// An event is recorded only with a path below the root and outside of the
/// metadata.
pub proof fn recorded_events_are_confined(
    platform: Platform,
    raw: Raw,
    root: Seq<char>,
    run_id: u128,
    sequence: u64,
    source: EventSource,
    timestamp: i64,
)
    ensures
        ({
            let c = confinement(platform, raw, root, run_id, sequence, source, timestamp);
            &&& c.events.len() <= 1
            &&& c.events.len() == 1 ==> {
                &&& primary(raw) is Some
                &&& confined(platform, root, primary(raw)->0) == Some(c.events[0].path)
                &&& !is_metadata(c.events[0].path)
                &&& c.dirty.contains(c.events[0].path)
                &&& c.anomalies.len() == 0
            }
            &&& c.anomalies.len() == 1 ==> confined(platform, root, primary(raw)->0) is None && c.dirty.len() == 0
        }),
{
    let c = confinement(platform, raw, root, run_id, sequence, source, timestamp);
    if c.events.len() == 1 {
        assert(c.dirty[0] == c.events[0].path);
    }
}

// ---------------------------------------------------------------------------
// What the calls promise
// ---------------------------------------------------------------------------

/// A notification about a path below the root is recorded once, with the path,
/// with what it claims and with when it was seen, and the path may have changed.
/// Of a rename both ends may have. One about a path outside of the root is told,
/// and neither recorded nor followed; one about the metadata is passed over.
pub proof fn a_notification_is_recorded_as_it_came(
    platform: Platform,
    raw: RawEvent,
    root: &str,
    run_id: u128,
    sequence: u64,
    source: EventSource,
    timestamp: i64,
    r: (Vec<FsEvent>, Vec<String>, Vec<String>),
    path: Seq<char>,
)
    requires
        call_ensures(confine_raw, (platform, &raw, root, run_id, sequence, source, timestamp), r),
        raw.kind != RawKind::RenameBoth ==> raw.paths@.len() > 0 && raw.paths@[0]@ == path,
        raw.kind == RawKind::RenameBoth ==> raw.paths@.len() > 1 && raw.paths@[1]@ == path,
    ensures
        ({
            let place = confined(platform, root@, path);
            let hidden = place is Some && (place->0 == ".rewind"@ || (place->0.len() >= 8 && place->0.take(8)
                == ".rewind/"@));
            &&& place is None ==> r.0@.len() == 0 && r.1@.len() == 0 && r.2@.len() == 1
            &&& hidden ==> r.0@.len() == 0 && r.1@.len() == 0 && r.2@.len() == 0
            &&& place is Some && !hidden ==> {
                let event = r.0@[0];
                &&& r.0@.len() == 1
                &&& r.2@.len() == 0
                &&& event.path@ == place->0
                &&& event.run_id == run_id
                &&& event.sequence == sequence
                &&& event.source == source
                &&& event.timestamp == timestamp
                &&& match raw.kind {
                    RawKind::Create | RawKind::RenameTo => event.kind is Create,
                    RawKind::Modify => event.kind is Modify,
                    RawKind::Delete | RawKind::RenameFrom => event.kind is Delete,
                    RawKind::RenameBoth => event.kind is Rename,
                    RawKind::Other => event.kind is Other,
                }
                &&& r.1@.len() > 0
                &&& r.1@[0]@ == place->0
                &&& raw.kind != RawKind::RenameBoth ==> event.from_path is None && r.1@.len() == 1
                &&& raw.kind == RawKind::RenameBoth ==> {
                    let other = confined(platform, root@, raw.paths@[0]@);
                    &&& optional(event.from_path) == other
                    &&& r.1@.len() == if other is Some { 2int } else { 1 }
                    &&& other is Some ==> r.1@[1]@ == other->0
                }
            }
        }),
{
    let c = confinement(platform, raw@, root@, run_id, sequence, source, timestamp);
    assert(raw@.paths.len() == raw.paths@.len());
    assert(raw@.paths[0] == raw.paths@[0]@ || raw.paths@.len() == 0);
    if raw.kind == RawKind::RenameBoth {
        assert(raw@.paths[1] == raw.paths@[1]@);
    }
    assert(views(r.0@).len() == r.0@.len());
    assert(views(r.1@).len() == r.1@.len());
    assert(views(r.2@).len() == r.2@.len());
    if r.0@.len() > 0 {
        assert(views(r.0@)[0] == r.0@[0]@);
    }
    if r.1@.len() > 0 {
        assert(views(r.1@)[0] == r.1@[0]@);
    }
    if r.1@.len() > 1 {
        assert(views(r.1@)[1] == r.1@[1]@);
    }
}

/// What the adapter may have lost is recorded at once, and marks the watcher
/// degraded; the adapter is then restarted. Nothing that is known is dropped.
pub proof fn lost_events_are_recorded(run: &mut ServeLoop, output: AdapterOutput, now: i64, r: Step)
    requires
        old(run).well_formed(),
        old(run).sequence < u64::MAX,
        old(run).index.anomalies < u64::MAX,
        output is Overflow || output is Failed,
        call_ensures(ServeLoop::polled, (run, output, now), r),
    ensures
        r.next == Next::Restart,
        final(run).state.degraded,
        final(run).state.degraded_detail is Some,
        final(run).index == old(run).index,
        final(run).sequence == old(run).sequence,
        r.actions@.len() == 1,
        r.actions@[0] is AppendDegradation,
        r.actions@[0]->AppendDegradation_0.recorded_at == now,
        output is Overflow ==> r.actions@[0]->AppendDegradation_0.reason == DegradationReason::Overflow,
        output is Failed ==> r.actions@[0]->AppendDegradation_0.reason == DegradationReason::AdapterFailed
            && final(run).failure is Some,
{
    assert(views(r.actions@).len() == r.actions@.len());
    assert(views(r.actions@)[0] == r.actions@[0]@);
}

/// An idle poll changes nothing and asks for nothing.
pub proof fn an_idle_poll_changes_nothing(run: &mut ServeLoop, now: i64, r: Step)
    requires
        old(run).well_formed(),
        old(run).sequence < u64::MAX,
        old(run).index.anomalies < u64::MAX,
        call_ensures(ServeLoop::polled, (run, AdapterOutput::Idle, now), r),
    ensures
        *final(run) == *old(run),
        r.next == Next::Check,
        r.actions@.len() == 0,
{
    assert(views(r.actions@).len() == r.actions@.len());
}

/// An event takes the next number. Every path that was known stays known, and
/// each path of the event is known afterwards, unless the index is full, which
/// marks the watcher degraded.
pub proof fn an_observed_path_is_known(
    run: &mut ServeLoop,
    raw: RawEvent,
    now: i64,
    r: Step,
    root: &str,
    events: (Vec<FsEvent>, Vec<String>, Vec<String>),
    path: Seq<char>,
    k: int,
)
    requires
        old(run).well_formed(),
        old(run).sequence < u64::MAX,
        old(run).index.anomalies < u64::MAX,
        call_ensures(ServeLoop::polled, (run, AdapterOutput::Event(raw), now), r),
        root@ == old(run).root@,
        call_ensures(
            confine_raw,
            (
                old(run).platform,
                &raw,
                root,
                old(run).state.run_id,
                (old(run).sequence + 1) as u64,
                old(run).source,
                now,
            ),
            events,
        ),
        0 <= k < events.1@.len(),
    ensures
        final(run).sequence == old(run).sequence + 1,
        final(run).index.anomalies == old(run).index.anomalies + events.2@.len(),
        views(old(run).index.paths@).contains(path) ==> views(final(run).index.paths@).contains(path),
        views(final(run).index.paths@).contains(events.1@[k]@) || final(run).dirty_capped,
        final(run).dirty_capped && !old(run).dirty_capped ==> final(run).state.degraded,
        r.next == Next::Check,
{
    let c = old(run).confine(raw@, now);
    let cap = old(run).config.dirty_cap as nat;
    assert(views(events.1@) == c.dirty);
    assert(views(events.1@)[k] == events.1@[k]@);
    assert(views(events.1@).len() == events.1@.len());
    assert(views(events.2@).len() == events.2@.len());
    marking_keeps_paths(old(run).marks(), cap, c.dirty);
    if views(old(run).index.paths@).contains(path) {
        assert(old(run).marks().paths.contains(path));
        assert(final(run).marks().paths.contains(path));
    }
    if !final(run).marks().paths.contains(c.dirty[k]) {
        unmarked_means_capped(old(run).marks(), cap, c.dirty, k);
    }
    assert(final(run).marks().paths.contains(c.dirty[k]) == views(final(run).index.paths@).contains(c.dirty[k]));
}

/// A watcher that is asked to stop says so, shuts down and writes what it knows
/// before it ends. One that could not be restarted records that, and ends as
/// failed.
pub proof fn a_watcher_ends_in_order(run: &mut ServeLoop, since_state_write_ms: u64, now: i64, r: Step)
    requires
        old(run).well_formed(),
        call_ensures(ServeLoop::checked, (run, true, since_state_write_ms, now), r),
    ensures
        r.next == Next::Exit(LoopExit::Stopped),
        final(run).state.status == StatusKind::Stopped,
        final(run).state.stopped_at == Some(now),
        final(run).state.last_sequence == old(run).sequence,
        final(run).state.degraded == old(run).state.degraded,
        r.actions@.len() == 5,
        r.actions@[0] is WriteState,
        r.actions@[0]->WriteState_0.status == StatusKind::Stopping,
        r.actions@[1] is ShutDown,
        r.actions@[2] is WriteState,
        r.actions@[2]->WriteState_0 == final(run).state,
        r.actions@[3] is WriteDirty,
        views(r.actions@[3]->WriteDirty_0.paths@) == views(old(run).index.paths@),
        r.actions@[4] is ClearStopFlag,
{
    assert(views(r.actions@).len() == r.actions@.len());
    assert(views(r.actions@)[0] == r.actions@[0]@);
    assert(views(r.actions@)[1] == r.actions@[1]@);
    assert(views(r.actions@)[2] == r.actions@[2]@);
    assert(views(r.actions@)[3] == r.actions@[3]@);
    assert(views(r.actions@)[4] == r.actions@[4]@);
}

/// Where nobody asks it to stop, a watcher goes on. It writes the index where
/// that changed, and gives a sign of life when the last one is two seconds old.
pub proof fn a_watcher_gives_signs_of_life(run: &mut ServeLoop, since_state_write_ms: u64, now: i64, r: Step)
    requires
        old(run).well_formed(),
        call_ensures(ServeLoop::checked, (run, false, since_state_write_ms, now), r),
    ensures
        r.next == Next::Poll,
        !final(run).dirty_changed,
        views(final(run).index.paths@) == views(old(run).index.paths@),
        (exists|n: int| 0 <= n < r.actions@.len() && (#[trigger] r.actions@[n]) is WriteDirty) == old(run).dirty_changed,
        (exists|n: int| 0 <= n < r.actions@.len() && (#[trigger] r.actions@[n]) is WriteState) == (since_state_write_ms
            >= 2000),
        since_state_write_ms >= 2000 ==> final(run).state.heartbeat_at == now,
        since_state_write_ms < 2000 ==> final(run).state == old(run).state,
        final(run).state.status == old(run).state.status,
{
    let deeds = views(r.actions@);
    assert(deeds.len() == r.actions@.len());
    assert forall|n: int| 0 <= n < r.actions@.len() implies (#[trigger] r.actions@[n])@ == deeds[n] by {}
    if old(run).dirty_changed {
        assert(r.actions@[0]@ == deeds[0]);
    }
    if since_state_write_ms >= HEARTBEAT_MS {
        assert(r.actions@[deeds.len() - 1]@ == deeds[deeds.len() - 1]);
    }
}

/// An adapter that was restarted is watched on; one that was not ends the
/// watcher as failed, with a degradation on record.
pub proof fn a_failed_restart_is_recorded(run: &mut ServeLoop, error: Option<String>, now: i64, r: Step)
    requires
        old(run).well_formed(),
        call_ensures(ServeLoop::restarted, (run, &error, now), r),
    ensures
        error is None ==> r.next == Next::Check && *final(run) == *old(run),
        error is Some ==> {
            &&& r.next == Next::Exit(LoopExit::Failed)
            &&& final(run).state.status == StatusKind::Failed
            &&& final(run).index == old(run).index
            &&& r.actions@.len() == 3
            &&& r.actions@[0] is ShutDown
            &&& r.actions@[1] is AppendDegradation
            &&& r.actions@[1]->AppendDegradation_0.reason == DegradationReason::AdapterFailed
            &&& r.actions@[2] is WriteState
            &&& r.actions@[2]->WriteState_0.status == StatusKind::Failed
        },
{
    let deeds = views(r.actions@);
    assert(deeds.len() == r.actions@.len());
    if error is Some {
        assert(deeds[0] == r.actions@[0]@);
        assert(deeds[1] == r.actions@[1]@);
        assert(deeds[2] == r.actions@[2]@);
    }
}

/// Settings stay within their bounds, and what is no number leaves the default.
pub proof fn settings_stay_in_bounds(ms: u64, r: u64, config: WatchConfig, batch_ms: Option<u64>, other: WatchConfig)
    requires
        call_ensures(clamp_batch, (ms,), r),
        call_ensures(WatchConfig::with_batch, (config, batch_ms), other),
    ensures
        50 <= r <= 5000,
        50 <= ms <= 5000 ==> r == ms,
        batch_ms is None ==> other == config,
        batch_ms is Some ==> 50 <= other.batch_ms <= 5000 && (50 <= batch_ms->0 <= 5000 ==> other.batch_ms == batch_ms->0),
        other.dirty_cap == config.dirty_cap,
        other.log_bytes == config.log_bytes,
{
}

} // verus!
