//! The watcher: advisory observation of a workspace between captures.
//!
//! A watcher never changes a workspace or its catalog. What it cannot vouch
//! for becomes a degradation, a degradation becomes an unknown interval, and
//! only a reconciliation closes that.

use vstd::prelude::*;
use vstd::string::*;

pub mod adapter;
pub mod detach_windows;
pub mod lifecycle;
pub mod model;
pub mod run;

use crate::error::{Fault, Result, RewindError};
use crate::model::WorkspacePointer;
use crate::order;
use crate::order::views;
use crate::outside;
use crate::outside::uuid_text;
use crate::paths;
use crate::paths::joined;
use crate::paths::Platform;
use crate::text;
use crate::text::decimal;
use crate::text::decimal_int;
use crate::watch::lifecycle::advice;
use crate::watch::lifecycle::derived;
use crate::watch::lifecycle::fresh;
use crate::watch::lifecycle::is_pending;
use crate::watch::lifecycle::Lifecycle;
use crate::watch::model::{
    DegradationReason, DegradationRecord, Degradations, DirtyIndex, Lapse, StatusKind, WatcherState,
};
use crate::watch::run::clamped;
use crate::watch::run::{LoopExit, WatchPaths};

verus! {

/// The watcher's view of a workspace: identities and paths.
#[derive(Clone, Debug)]
pub struct WatchContext {
    pub workspace_id: u128,
    pub workspace_root: String,
    pub project_root: String,
    pub paths: WatchPaths,
}

/// Where the store keeps what belongs to a workspace.
pub open spec fn project_at(platform: Platform, store: Seq<char>, workspace: u128) -> Seq<char> {
    joined(platform, joined(platform, store, "projects"@), uuid_text(workspace))
}

/// Refuses a workspace that is not where its pointer says.
pub fn same_root(pointer: &WorkspacePointer, root: &str) -> (r: Result<()>)
    ensures
        r is Ok == (root@ == pointer.root@),
        r is Err ==> r->Err_0@ == Fault::WorkspaceIdentity(
            "canonical workspace root changed from "@ + pointer.root@ + " to "@ + root@,
        ),
{
    if text::same(root, pointer.root.as_str()) {
        return Ok(());
    }
    let mut message = text::copy("canonical workspace root changed from ");
    message.append(pointer.root.as_str());
    message.append(" to ");
    message.append(root);
    Err(RewindError::WorkspaceIdentity(message))
}

/// Refuses a store that is not where the pointer says.
pub fn same_store(pointer: &WorkspacePointer, store: &str) -> (r: Result<()>)
    ensures
        r is Ok == (store@ == pointer.store_root@),
        r is Err ==> r->Err_0@ == Fault::WorkspaceIdentity(
            "canonical external store changed from "@ + pointer.store_root@ + " to "@ + store@,
        ),
{
    if text::same(store, pointer.store_root.as_str()) {
        return Ok(());
    }
    let mut message = text::copy("canonical external store changed from ");
    message.append(pointer.store_root.as_str());
    message.append(" to ");
    message.append(store);
    Err(RewindError::WorkspaceIdentity(message))
}

impl WatchContext {
    /// The context of a workspace that was found at `root`, with its store at
    /// `store`. Both must be what the pointer recorded.
    pub fn discover(platform: Platform, pointer: &WorkspacePointer, root: &str, store: &str) -> (r: Result<Self>)
        ensures
            r is Ok == (root@ == pointer.root@ && store@ == pointer.store_root@),
            match r {
                Ok(c) => {
                    &&& c.workspace_id == pointer.workspace_id
                    &&& c.workspace_root@ == root@
                    &&& c.project_root@ == project_at(platform, store@, pointer.workspace_id)
                    &&& c.paths.dir@ == joined(platform, c.project_root@, "watch"@)
                    &&& c.paths.state@ == joined(platform, c.paths.dir@, "state.json"@)
                    &&& c.paths.dirty@ == joined(platform, c.paths.dir@, "dirty.json"@)
                    &&& c.paths.events@ == joined(platform, c.paths.dir@, "events.log"@)
                    &&& c.paths.events_previous@ == joined(platform, c.paths.dir@, "events.log.1"@)
                    &&& c.paths.degradations@ == joined(platform, c.paths.dir@, "degraded.json"@)
                    &&& c.paths.stop_flag@ == joined(platform, c.paths.dir@, "stop.flag"@)
                },
                Err(e) => e@ == Fault::WorkspaceIdentity(
                    if root@ != pointer.root@ {
                        "canonical workspace root changed from "@ + pointer.root@ + " to "@ + root@
                    } else {
                        "canonical external store changed from "@ + pointer.store_root@ + " to "@ + store@
                    },
                ),
            },
    {
        match same_root(pointer, root) {
            Ok(()) => {},
            Err(e) => {
                return Err(e);
            },
        }
        match same_store(pointer, store) {
            Ok(()) => {},
            Err(e) => {
                return Err(e);
            },
        }
        let projects = paths::join(platform, store, "projects");
        let project_root = paths::join(platform, projects.as_str(), outside::identifier(pointer.workspace_id).as_str());
        let paths = WatchPaths::new(platform, project_root.as_str());
        Ok(WatchContext { workspace_id: pointer.workspace_id, workspace_root: text::copy(root), project_root, paths })
    }
}

/// Whether a watcher can be believed to be at work.
pub open spec fn at_work(state: WatcherState, now: int) -> bool {
    (state.status is Starting || state.status is Running || state.status is Stopping) && fresh(state, now)
}

/// Whether a watcher process lives, told by its heartbeat alone.
pub fn watcher_is_running(state: &WatcherState, now: i64) -> (r: bool)
    ensures
        r == at_work(*state, now as int),
{
    match state.status {
        StatusKind::Starting | StatusKind::Running | StatusKind::Stopping => lifecycle::heartbeat_is_fresh(state, now),
        StatusKind::Stopped | StatusKind::Failed => false,
    }
}

/// What the interval before a start comes to: the time since the last run was
/// last seen is not observed. A first start breaks no claim.
pub open spec fn start_gap(state: Option<WatcherState>, now: i64) -> Option<Lapse> {
    match state {
        None => None,
        Some(s) => Some(
            Lapse {
                reason: DegradationReason::WatcherGap,
                detail: "previous watcher run (status "@ + s.status.text() + ") last observed "@ + decimal_int(
                    s.heartbeat_at as int,
                ) + "; the interval until this start is unobserved"@,
                recorded_at: now,
                gap: (
                    Some(
                        match s.stopped_at {
                            Some(t) => t,
                            None => s.heartbeat_at,
                        },
                    ),
                    Some(now),
                ),
            },
        ),
    }
}

/// The degradation that a start owes for the time since the last run.
pub fn record_start_gap(state: &Option<WatcherState>, now: i64) -> (r: Option<DegradationRecord>)
    ensures
        match r {
            Some(record) => start_gap(*state, now) == Some(record@),
            None => start_gap(*state, now) is None,
        },
{
    let state = match state {
        None => {
            return None;
        },
        Some(state) => state,
    };
    let from: i64 = match state.stopped_at {
        Some(t) => t,
        None => state.heartbeat_at,
    };
    let mut detail = text::copy("previous watcher run (status ");
    detail.append(state.status.as_str());
    detail.append(") last observed ");
    detail.append(text::decimal_i64(state.heartbeat_at).as_str());
    detail.append("; the interval until this start is unobserved");
    Some(DegradationRecord::gap(DegradationReason::WatcherGap, from, now, detail.as_str(), now))
}

/// Why a start is refused, if it is.
pub fn refuse_start(state: &Option<WatcherState>, now: i64) -> (r: Option<String>)
    ensures
        r is Some == (state is Some && at_work(state->0, now as int)),
        r is Some ==> r->0@ == "rewind: watcher already running for this workspace (pid "@ + decimal(
            state->0.pid as nat,
        ) + ", heartbeat "@ + decimal_int(state->0.heartbeat_at as int)
            + "); stop it first or run `rewind watch status`"@,
{
    let state = match state {
        None => {
            return None;
        },
        Some(state) => state,
    };
    if !watcher_is_running(state, now) {
        return None;
    }
    let mut message = text::copy("rewind: watcher already running for this workspace (pid ");
    message.append(text::decimal_u64(state.pid as u64).as_str());
    message.append(", heartbeat ");
    message.append(text::decimal_i64(state.heartbeat_at).as_str());
    message.append("); stop it first or run `rewind watch status`");
    Some(message)
}

/// How far a detached watcher has come.
#[derive(Debug)]
pub enum Startup {
    /// It reported that it runs.
    Started(String),
    /// It reported that it failed, or nothing in time.
    Failed(String),
    /// It has not reported yet.
    Pending,
}

/// Whether a state was recorded by a run that began since.
pub open spec fn is_new_run(state: Option<WatcherState>, previous_run: Option<u128>) -> bool {
    state is Some && previous_run != Some(state->0.run_id)
}

/// Judges the state that a detached watcher has recorded. Only a new run
/// counts, and only until the time is over.
pub fn startup(
    state: &Option<WatcherState>,
    previous_run: Option<u128>,
    pid: u32,
    time_over: bool,
    state_path: &str,
) -> (r: Startup)
    ensures
        ({
            let live = is_new_run(*state, previous_run) && (state->0.status is Starting || state->0.status is Running);
            let dead = is_new_run(*state, previous_run) && state->0.status is Failed;
            &&& r is Started == live
            &&& live ==> r->Started_0@ == "watcher started pid "@ + decimal(pid as nat) + " run "@ + uuid_text(
                state->0.run_id,
            ) + " (batch "@ + decimal(state->0.batch_ms as nat) + " ms)"@
            &&& r is Failed == (!live && (dead || time_over))
            &&& dead ==> r->Failed_0@ == "rewind: watcher failed during startup: "@ + match state->0.degraded_detail {
                Some(detail) => detail@,
                None => "unknown cause"@,
            }
            &&& !live && !dead && time_over ==> r->Failed_0@ == "rewind: watcher (pid "@ + decimal(pid as nat)
                + ") did not report startup within 5s; inspect "@ + state_path@
        }),
{
    if let Some(s) = state {
        let new_run = match previous_run {
            Some(id) => id != s.run_id,
            None => true,
        };
        if new_run {
            match s.status {
                StatusKind::Starting | StatusKind::Running => {
                    let mut message = text::copy("watcher started pid ");
                    message.append(text::decimal_u64(pid as u64).as_str());
                    message.append(" run ");
                    message.append(outside::identifier(s.run_id).as_str());
                    message.append(" (batch ");
                    message.append(text::decimal_u64(s.batch_ms).as_str());
                    message.append(" ms)");
                    return Startup::Started(message);
                },
                StatusKind::Failed => {
                    let mut message = text::copy("rewind: watcher failed during startup: ");
                    match &s.degraded_detail {
                        Some(detail) => {
                            message.append(detail.as_str());
                        },
                        None => {
                            message.append("unknown cause");
                        },
                    }
                    return Startup::Failed(message);
                },
                StatusKind::Stopping | StatusKind::Stopped => {},
            }
        }
    }
    if time_over {
        let mut message = text::copy("rewind: watcher (pid ");
        message.append(text::decimal_u64(pid as u64).as_str());
        message.append(") did not report startup within 5s; inspect ");
        message.append(state_path);
        return Startup::Failed(message);
    }
    Startup::Pending
}

/// The exit code of a watcher process.
pub fn loop_exit_code(exit: LoopExit) -> (r: i32)
    ensures
        r == match exit {
            LoopExit::Stopped => 0i32,
            LoopExit::Failed => 1,
        },
{
    match exit {
        LoopExit::Stopped => 0,
        LoopExit::Failed => 1,
    }
}

/// What is said of a watcher that did not stop in time.
pub fn stop_overdue(pid: u32, directory: &str) -> (r: String)
    ensures
        r@ == "rewind: watcher (pid "@ + text::decimal(pid as nat)
            + ") did not stop within the bounded wait; inspect "@ + directory@,
{
    let mut out = text::copy("rewind: watcher (pid ");
    out.append(text::decimal_u64(pid as u64).as_str());
    out.append(") did not stop within the bounded wait; inspect ");
    out.append(directory);
    out
}

/// What a request to stop comes to before anything is done.
#[derive(Debug)]
pub enum StopRequest {
    /// There is nothing to stop.
    NotRunning(String),
    /// The watcher shows no sign of life.
    Dead(String),
    /// The watcher is asked to stop, and waited for, for so many milliseconds.
    Ask(u64),
}

/// Judges a request to stop. An unresponsive watcher is reported, never
/// killed.
pub fn request_stop(state: &Option<WatcherState>, now: i64) -> (r: StopRequest)
    ensures
        match *state {
            None => r is NotRunning && r->NotRunning_0@ == "watcher is not running"@,
            Some(s) => if s.status is Stopped || s.status is Failed {
                r is NotRunning && r->NotRunning_0@ == "watcher is not running (last status "@ + s.status.text()
                    + ")"@
            } else if !fresh(s, now as int) {
                r is Dead && r->Dead_0@ == "rewind: watcher appears dead (last heartbeat "@ + decimal_int(
                    s.heartbeat_at as int,
                )
                    + "); nothing to stop. The unobserved interval will be gated when you restart with `rewind watch start`"@
            } else {
                r == StopRequest::Ask((2000 + clamped(s.batch_ms) * 2 + 1000) as u64)
            },
        },
{
    let state = match state {
        None => {
            return StopRequest::NotRunning(text::copy("watcher is not running"));
        },
        Some(state) => state,
    };
    match state.status {
        StatusKind::Stopped | StatusKind::Failed => {
            let mut message = text::copy("watcher is not running (last status ");
            message.append(state.status.as_str());
            message.append(")");
            return StopRequest::NotRunning(message);
        },
        _ => {},
    }
    if !lifecycle::heartbeat_is_fresh(state, now) {
        let mut message = text::copy("rewind: watcher appears dead (last heartbeat ");
        message.append(text::decimal_i64(state.heartbeat_at).as_str());
        message.append(
            "); nothing to stop. The unobserved interval will be gated when you restart with `rewind watch start`",
        );
        return StopRequest::Dead(message);
    }
    let batch = run::clamp_batch(state.batch_ms);
    StopRequest::Ask(2000 + batch * 2 + 1000)
}

/// Whether a watcher that was asked to stop has done so.
pub fn has_stopped(state: &Option<WatcherState>) -> (r: bool)
    ensures
        r == (state is Some && state->0.status is Stopped),
{
    match state {
        Some(s) => s.status == StatusKind::Stopped,
        None => false,
    }
}

/// What a status command reports.
#[derive(Debug)]
pub struct StatusReport {
    pub lifecycle: Lifecycle,
    pub recommendation: &'static str,
    pub dirty_paths: usize,
    pub dirty_anomalies: u64,
    pub lines: Vec<String>,
    pub exit_code: i32,
}

/// The lines on the recorded state.
pub open spec fn state_lines(state: Option<WatcherState>) -> Seq<Seq<char>> {
    match state {
        None => Seq::empty(),
        Some(s) => seq![
            "pid "@ + decimal(s.pid as nat) + " status "@ + s.status.text(),
            "coverage starts at "@ + decimal_int(s.coverage_started_at as int) + " ("@ + uuid_text(s.run_id) + ")"@,
            "heartbeat "@ + decimal_int(s.heartbeat_at as int),
        ] + match s.degraded_detail {
            Some(detail) => seq!["degraded: "@ + detail@],
            None => Seq::empty(),
        },
    }
}

/// The records that a marker holds.
pub open spec fn pending_records(marker: Option<Degradations>) -> Seq<Lapse> {
    match marker {
        Some(m) => views(m.records@),
        None => Seq::empty(),
    }
}

/// The lines of a status report.
pub open spec fn status_lines(
    workspace: u128,
    state: Option<WatcherState>,
    marker: Option<Degradations>,
    dirty: (nat, nat),
    now: int,
) -> Seq<Seq<char>> {
    let lifecycle = derived(state, is_pending(marker), now);
    seq!["workspace "@ + uuid_text(workspace), "watcher "@ + lifecycle.text()] + state_lines(state) + seq![
        "pending degradations "@ + decimal(pending_records(marker).len()),
    ] + pending_records(marker).map_values(|l: Lapse| "  "@ + l.reason.text() + " "@ + l.detail) + seq![
        "dirty paths "@ + decimal(dirty.0) + " (anomalies "@ + decimal(dirty.1) + ")"@,
        "recommendation: "@ + advice(lifecycle),
    ]
}

fn add_line(lines: &mut Vec<String>, line: String)
    ensures
        views(final(lines)@) == views(old(lines)@).push(line@),
{
    proof {
        order::push_contains(lines@, line);
    }
    lines.push(line);
}

/// Reports on the watcher of a workspace.
pub fn status(
    workspace_id: u128,
    state: &Option<WatcherState>,
    degradations: &Option<Degradations>,
    dirty: &Option<DirtyIndex>,
    now: i64,
) -> (r: StatusReport)
    ensures
        r.lifecycle == derived(*state, is_pending(*degradations), now as int),
        r.recommendation@ == advice(r.lifecycle),
        r.exit_code == if lifecycle::needs_action(r.lifecycle) {
            3i32
        } else {
            0
        },
        (r.dirty_paths as nat, r.dirty_anomalies as nat) == match *dirty {
            Some(index) => (index.paths@.len(), index.anomalies as nat),
            None => (0, 0),
        },
        views(r.lines@) == status_lines(
            workspace_id,
            *state,
            *degradations,
            (r.dirty_paths as nat, r.dirty_anomalies as nat),
            now as int,
        ),
{
    let found = lifecycle::derive(state, degradations, now);
    let recommendation = lifecycle::recommendation(found);
    let (dirty_paths, dirty_anomalies): (usize, u64) = match dirty {
        Some(index) => (index.paths.len(), index.anomalies),
        None => (0, 0),
    };
    let mut lines: Vec<String> = Vec::new();
    let mut line = text::copy("workspace ");
    line.append(outside::identifier(workspace_id).as_str());
    add_line(&mut lines, line);
    let mut line = text::copy("watcher ");
    line.append(found.as_str());
    add_line(&mut lines, line);
    let ghost head = seq!["workspace "@ + uuid_text(workspace_id), "watcher "@ + found.text()];
    assert(views(lines@) =~= head);
    if let Some(s) = state {
        let mut line = text::copy("pid ");
        line.append(text::decimal_u64(s.pid as u64).as_str());
        line.append(" status ");
        line.append(s.status.as_str());
        add_line(&mut lines, line);
        let mut line = text::copy("coverage starts at ");
        line.append(text::decimal_i64(s.coverage_started_at).as_str());
        line.append(" (");
        line.append(outside::identifier(s.run_id).as_str());
        line.append(")");
        add_line(&mut lines, line);
        let mut line = text::copy("heartbeat ");
        line.append(text::decimal_i64(s.heartbeat_at).as_str());
        add_line(&mut lines, line);
        if let Some(detail) = &s.degraded_detail {
            let mut line = text::copy("degraded: ");
            line.append(detail.as_str());
            add_line(&mut lines, line);
        }
    }
    assert(views(lines@) =~= head + state_lines(*state));
    let count: usize = match degradations {
        Some(marker) => marker.records.len(),
        None => 0,
    };
    let mut line = text::copy("pending degradations ");
    line.append(text::decimal_usize(count).as_str());
    let ghost counted = line@;
    add_line(&mut lines, line);
    let ghost start = head + state_lines(*state) + seq![counted];
    assert(views(lines@) =~= start);
    let ghost f = |l: Lapse| "  "@ + l.reason.text() + " "@ + l.detail;
    let ghost records = pending_records(*degradations);
    if let Some(marker) = degradations {
        for i in 0..marker.records.len()
            invariant
                records == views(marker.records@),
                f == (|l: Lapse| "  "@ + l.reason.text() + " "@ + l.detail),
                views(lines@) =~= start + records.take(i as int).map_values(f),
        {
            let record = &marker.records[i];
            let mut line = text::copy("  ");
            line.append(record.reason.as_str());
            line.append(" ");
            line.append(record.detail.as_str());
            assert(line@ == f(records[i as int]));
            let ghost before = views(lines@);
            add_line(&mut lines, line);
            assert(start + records.take(i + 1).map_values(f) =~= before.push(f(records[i as int])));
        }
        assert(records.take(records.len() as int) =~= records);
    } else {
        assert(start + records.map_values(f) =~= start);
    }
    let mut line = text::copy("dirty paths ");
    line.append(text::decimal_usize(dirty_paths).as_str());
    line.append(" (anomalies ");
    line.append(text::decimal_u64(dirty_anomalies).as_str());
    line.append(")");
    add_line(&mut lines, line);
    let mut line = text::copy("recommendation: ");
    line.append(recommendation);
    add_line(&mut lines, line);
    assert(views(lines@) =~= status_lines(
        workspace_id,
        *state,
        *degradations,
        (dirty_paths as nat, dirty_anomalies as nat),
        now as int,
    ));
    StatusReport {
        lifecycle: found,
        recommendation,
        dirty_paths,
        dirty_anomalies,
        lines,
        exit_code: lifecycle::exit_code(found),
    }
}

// ---------------------------------------------------------------------------
// Enforcement
// ---------------------------------------------------------------------------

/// The longest summary, in bytes, that is given up for a further entry.
pub const SUMMARY_LIMIT: usize = 512;

/// What a record adds to the summary.
pub open spec fn summary_entry(record: Lapse) -> Seq<char> {
    " "@ + record.reason.text() + " "@ + record.detail + " at "@ + decimal_int(record.recorded_at as int)
}

/// The summary of the records from `from` on, behind what is there already: as
/// many as fit the limit.
pub open spec fn summary_from(so_far: Seq<char>, records: Seq<Lapse>, from: int) -> Seq<char>
    decreases records.len() - from,
{
    if from < 0 || from >= records.len() {
        so_far
    } else if text::bytes(so_far) + text::bytes(summary_entry(records[from])) > SUMMARY_LIMIT {
        so_far + " …(truncated)"@
    } else {
        summary_from(so_far + summary_entry(records[from]), records, from + 1)
    }
}

/// The reason that a catalog records for pending degradations.
pub open spec fn summarized(records: Seq<Lapse>) -> Seq<char> {
    summary_from("watcher degradation:"@, records, 0)
}

/// Summarizes the pending degradations in a text of bounded length.
pub fn degradation_summary(degradations: &Degradations) -> (r: String)
    ensures
        r@ == summarized(views(degradations.records@)),
{
    let ghost records = views(degradations.records@);
    let mut summary = text::copy("watcher degradation:");
    let mut length: u128 = text::byte_length("watcher degradation:");
    for i in 0..degradations.records.len()
        invariant
            records == views(degradations.records@),
            length == text::bytes(summary@),
            length <= SUMMARY_LIMIT || i == 0,
            summary_from(summary@, records, i as int) == summarized(records),
    {
        let record = &degradations.records[i];
        let mut entry = text::copy(" ");
        entry.append(record.reason.as_str());
        entry.append(" ");
        entry.append(record.detail.as_str());
        entry.append(" at ");
        entry.append(text::decimal_i64(record.recorded_at).as_str());
        assert(entry@ =~= summary_entry(records[i as int]));
        let more = text::byte_length(entry.as_str());
        if length > SUMMARY_LIMIT as u128 || more > SUMMARY_LIMIT as u128 - length {
            summary.append(" …(truncated)");
            return summary;
        }
        proof {
            text::bytes_concat(summary@, entry@);
        }
        summary.append(entry.as_str());
        length = length + more;
    }
    summary
}

/// What pending degradations demand of a workspace.
#[derive(Debug)]
pub enum Enforcement {
    /// Nothing is pending.
    Nothing,
    /// The workspace is gated. An unknown interval with this reason is opened
    /// before, unless one is open.
    Gate(Option<String>),
}

/// Turns pending degradations into an unknown interval and a gate. The marker
/// is removed only after both are recorded.
pub fn enforce_watch_degradations(degradations: &Option<Degradations>, has_open_unknown: bool) -> (r: Enforcement)
    ensures
        r is Gate == is_pending(*degradations),
        r is Gate ==> {
            &&& r->Gate_0 is Some == !has_open_unknown
            &&& r->Gate_0 is Some ==> r->Gate_0->0@ == summarized(views(degradations->0.records@))
        },
{
    match degradations {
        None => Enforcement::Nothing,
        Some(marker) => {
            if marker.records.len() == 0 {
                return Enforcement::Nothing;
            }
            if has_open_unknown {
                Enforcement::Gate(None)
            } else {
                Enforcement::Gate(Some(degradation_summary(marker)))
            }
        },
    }
}

/// True when degradations wait for a reconciliation.
pub fn has_pending_degradations(marker: &Option<Degradations>) -> (r: bool)
    ensures
        r == is_pending(*marker),
{
    match marker {
        Some(m) => m.records.len() > 0,
        None => false,
    }
}

/// A summary stays within the limit and the mark of truncation.
pub proof fn summary_is_bounded(records: Seq<Lapse>)
    ensures
        text::bytes(summarized(records)) <= SUMMARY_LIMIT + text::bytes(" …(truncated)"@),
{
    reveal_strlit("watcher degradation:");
    text::bytes_at_most("watcher degradation:"@);
    summary_bounded_from("watcher degradation:"@, records, 0);
}

proof fn summary_bounded_from(so_far: Seq<char>, records: Seq<Lapse>, from: int)
    requires
        text::bytes(so_far) <= SUMMARY_LIMIT,
    ensures
        text::bytes(summary_from(so_far, records, from)) <= SUMMARY_LIMIT + text::bytes(" …(truncated)"@),
    decreases records.len() - from,
{
    text::bytes_concat(so_far, " …(truncated)"@);
    if 0 <= from < records.len() {
        text::bytes_concat(so_far, summary_entry(records[from]));
        if text::bytes(so_far) + text::bytes(summary_entry(records[from])) <= SUMMARY_LIMIT {
            summary_bounded_from(so_far + summary_entry(records[from]), records, from + 1);
        }
    }
}

/// A degradation is never passed over: whatever marker was left behind, the
/// next enforcement blocks the workspace.
pub proof fn recorded_degradations_gate(marker: Degradations)
    requires
        marker.records@.len() > 0,
    ensures
        is_pending(Some(marker)),
        forall|state: Option<WatcherState>, now: int|
            #[trigger] derived(state, is_pending(Some(marker)), now) is ReconciliationRequired,
{
}

// ---------------------------------------------------------------------------
// What the calls promise
// ---------------------------------------------------------------------------

/// Whether a watcher shows signs of life: it has not ended, and the last sign is
/// at most ten seconds old.
pub open spec fn shows_life(state: Option<WatcherState>, now: i64) -> bool {
    &&& state is Some
    &&& state->0.status is Starting || state->0.status is Running || state->0.status is Stopping
    &&& now - state->0.heartbeat_at <= 10_000_000
}

/// A watcher runs exactly while it shows signs of life. Then no other is
/// started, and anything else does not keep one from being started.
pub proof fn one_watcher_at_a_time(state: WatcherState, now: i64, runs: bool, refused: Option<String>, first: Option<String>)
    requires
        call_ensures(watcher_is_running, (&state, now), runs),
        call_ensures(refuse_start, (&Some(state), now), refused),
        call_ensures(refuse_start, (&None, now), first),
    ensures
        runs == shows_life(Some(state), now),
        refused is Some == runs,
        first is None,
{
}

/// A start owes a degradation for the whole time since the last run was seen,
/// up to the start. The first start owes none.
pub proof fn a_start_owes_its_gap(state: Option<WatcherState>, now: i64, r: Option<DegradationRecord>)
    requires
        call_ensures(record_start_gap, (&state, now), r),
    ensures
        r is Some == state is Some,
        r is Some ==> {
            &&& r->0.reason == DegradationReason::WatcherGap
            &&& r->0.recorded_at == now
            &&& r->0.gap_to == Some(now)
            &&& r->0.gap_from == if state->0.stopped_at is Some {
                state->0.stopped_at
            } else {
                Some(state->0.heartbeat_at)
            }
        },
{
}

/// A watcher has started when a new run says so, and not for the record of an
/// earlier one; it has failed when a new run says so, or none in time.
pub proof fn only_a_new_run_has_started(
    state: Option<WatcherState>,
    previous_run: Option<u128>,
    pid: u32,
    time_over: bool,
    state_path: &str,
    r: Startup,
)
    requires
        call_ensures(startup, (&state, previous_run, pid, time_over, state_path), r),
    ensures
        ({
            let fresh_run = state is Some && (previous_run is None || previous_run->0 != state->0.run_id);
            &&& r is Started == (fresh_run && (state->0.status is Starting || state->0.status is Running))
            &&& fresh_run && state->0.status is Failed ==> r is Failed
            &&& !(r is Started) && time_over ==> r is Failed
            &&& r is Failed ==> time_over || (fresh_run && state->0.status is Failed)
        }),
{
}

/// A watcher is asked to stop exactly while it shows signs of life. One that has
/// ended is left alone, and one that shows none is told as dead.
pub proof fn only_a_live_watcher_is_asked_to_stop(state: Option<WatcherState>, now: i64, r: StopRequest)
    requires
        call_ensures(request_stop, (&state, now), r),
    ensures
        r is Ask == shows_life(state, now),
        r is NotRunning == (state is None || state->0.status is Stopped || state->0.status is Failed),
        r is Ask ==> r->Ask_0 >= 3000,
{
}

/// Pending degradations always gate the workspace, and nothing else does here.
/// Unless an interval is open, one is opened.
pub proof fn pending_degradations_gate(degradations: Option<Degradations>, has_open_unknown: bool, r: Enforcement, p: bool)
    requires
        call_ensures(enforce_watch_degradations, (&degradations, has_open_unknown), r),
        call_ensures(has_pending_degradations, (&degradations,), p),
    ensures
        p == (degradations is Some && degradations->0.records@.len() > 0),
        r is Gate == p,
        r is Gate ==> r->Gate_0 is None == has_open_unknown,
{
}

/// A status report agrees with itself: its lifecycle is that of the record, its
/// exit code and its advice go with it, and it counts the paths and anomalies
/// that the index holds.
pub proof fn a_status_agrees_with_itself(
    workspace_id: u128,
    state: Option<WatcherState>,
    degradations: Option<Degradations>,
    dirty: Option<DirtyIndex>,
    now: i64,
    r: StatusReport,
    own: Lifecycle,
    code: i32,
    said: &'static str,
)
    requires
        call_ensures(status, (workspace_id, &state, &degradations, &dirty, now), r),
        call_ensures(lifecycle::derive, (&state, &degradations, now), own),
        call_ensures(lifecycle::exit_code, (own,), code),
        call_ensures(lifecycle::recommendation, (own,), said),
    ensures
        r.lifecycle == own,
        r.exit_code == code,
        r.recommendation@ == said@,
        dirty is None ==> r.dirty_paths == 0 && r.dirty_anomalies == 0,
        dirty is Some ==> r.dirty_paths == dirty->0.paths@.len() && r.dirty_anomalies == dirty->0.anomalies,
{
}

} // verus!
