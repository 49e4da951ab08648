//! Whether the watcher observes, and whether it can be trusted, derived from
//! its files and the clock.

use vstd::prelude::*;

use super::model::{Degradations, StatusKind, WatcherState, HEARTBEAT_MS};

verus! {

/// The derived lifecycle of the watcher.
#[derive(Clone, Copy, Debug, PartialEq, Eq, Structural)]
pub enum Lifecycle {
    Stopped,
    Running,
    Degraded,
    ReconciliationRequired,
    Stopping,
    Failed,
}

impl Lifecycle {
    pub open spec fn text(self) -> Seq<char> {
        match self {
            Lifecycle::Stopped => "STOPPED"@,
            Lifecycle::Running => "RUNNING"@,
            Lifecycle::Degraded => "DEGRADED"@,
            Lifecycle::ReconciliationRequired => "RECONCILIATION_REQUIRED"@,
            Lifecycle::Stopping => "STOPPING"@,
            Lifecycle::Failed => "FAILED"@,
        }
    }

    pub fn as_str(&self) -> (r: &'static str)
        ensures
            r@ == self.text(),
    {
        match self {
            Lifecycle::Stopped => "STOPPED",
            Lifecycle::Running => "RUNNING",
            Lifecycle::Degraded => "DEGRADED",
            Lifecycle::ReconciliationRequired => "RECONCILIATION_REQUIRED",
            Lifecycle::Stopping => "STOPPING",
            Lifecycle::Failed => "FAILED",
        }
    }
}

/// Different values have different texts.
pub proof fn lifecycle_texts_distinct(a: Lifecycle, b: Lifecycle)
    requires
        a.text() == b.text(),
    ensures
        a == b,
{
    reveal_strlit("STOPPED");
    reveal_strlit("RUNNING");
    reveal_strlit("DEGRADED");
    reveal_strlit("RECONCILIATION_REQUIRED");
    reveal_strlit("STOPPING");
    reveal_strlit("FAILED");
    assert("STOPPED"@.len() == 7);
    assert("RUNNING"@.len() == 7);
    assert("DEGRADED"@.len() == 8);
    assert("RECONCILIATION_REQUIRED"@.len() == 23);
    assert("STOPPING"@.len() == 8);
    assert("FAILED"@.len() == 6);
    assert("STOPPED"@[0] != "RUNNING"@[0]);
    assert("DEGRADED"@[0] != "STOPPING"@[0]);
}

/// How old a heartbeat may be to count as fresh, in milliseconds: five periods,
/// and at least ten seconds.
pub open spec fn fresh_threshold() -> int {
    if HEARTBEAT_MS * 5 > 10_000 {
        HEARTBEAT_MS * 5
    } else {
        10_000
    }
}

pub fn heartbeat_fresh_threshold() -> (r: u64)
    ensures
        r == fresh_threshold(),
{
    let periods: u64 = HEARTBEAT_MS * 5;
    if periods > 10_000 {
        periods
    } else {
        10_000
    }
}

/// Whether the heartbeat is fresh at the time `now`. One that lies in the
/// future is.
pub open spec fn fresh(state: WatcherState, now: int) -> bool {
    now - state.heartbeat_at <= fresh_threshold() * 1000
}

/// Whether a watcher process can be believed to be alive at the time `now`.
pub fn heartbeat_is_fresh(state: &WatcherState, now: i64) -> (r: bool)
    ensures
        r == fresh(*state, now as int),
{
    let age: i128 = now as i128 - state.heartbeat_at as i128;
    age <= heartbeat_fresh_threshold() as i128 * 1000
}

/// The lifecycle of a watcher. Pending degradations come first, as they gate
/// every writer.
pub open spec fn derived(state: Option<WatcherState>, pending: bool, now: int) -> Lifecycle {
    if pending {
        Lifecycle::ReconciliationRequired
    } else {
        match state {
            None => Lifecycle::Stopped,
            Some(s) => match s.status {
                StatusKind::Starting | StatusKind::Running => if !fresh(s, now) {
                    Lifecycle::Failed
                } else if s.degraded {
                    Lifecycle::Degraded
                } else {
                    Lifecycle::Running
                },
                StatusKind::Stopping => if fresh(s, now) {
                    Lifecycle::Stopping
                } else {
                    Lifecycle::Stopped
                },
                StatusKind::Stopped => Lifecycle::Stopped,
                StatusKind::Failed => Lifecycle::Failed,
            },
        }
    }
}

/// Whether a marker holds degradations.
pub open spec fn is_pending(marker: Option<Degradations>) -> bool {
    marker is Some && marker->0.records@.len() > 0
}

/// Derives the lifecycle from the recorded state, the pending degradations and
/// the clock.
pub fn derive(state: &Option<WatcherState>, degradations: &Option<Degradations>, now: i64) -> (r: Lifecycle)
    ensures
        r == derived(*state, is_pending(*degradations), now as int),
{
    if let Some(marker) = degradations {
        if marker.records.len() > 0 {
            return Lifecycle::ReconciliationRequired;
        }
    }
    let state = match state {
        None => {
            return Lifecycle::Stopped;
        },
        Some(state) => state,
    };
    let fresh = heartbeat_is_fresh(state, now);
    match state.status {
        StatusKind::Starting | StatusKind::Running => if fresh {
            if state.degraded {
                Lifecycle::Degraded
            } else {
                Lifecycle::Running
            }
        } else {
            Lifecycle::Failed
        },
        StatusKind::Stopping => if fresh {
            Lifecycle::Stopping
        } else {
            Lifecycle::Stopped
        },
        StatusKind::Stopped => Lifecycle::Stopped,
        StatusKind::Failed => Lifecycle::Failed,
    }
}

pub open spec fn advice(lifecycle: Lifecycle) -> Seq<char> {
    match lifecycle {
        Lifecycle::ReconciliationRequired => "run `rewind reconcile` to close the unknown interval and restore trust"@,
        Lifecycle::Degraded => "the watcher is running but degraded; run `rewind reconcile` before relying on workspace trust"@,
        Lifecycle::Failed => "the watcher appears dead; restart with `rewind watch start` — the unobserved interval will be gated until reconciliation"@,
        Lifecycle::Stopped | Lifecycle::Running | Lifecycle::Stopping => "ok"@,
    }
}

/// What to do next.
pub fn recommendation(lifecycle: Lifecycle) -> (r: &'static str)
    ensures
        r@ == advice(lifecycle),
{
    match lifecycle {
        Lifecycle::ReconciliationRequired => "run `rewind reconcile` to close the unknown interval and restore trust",
        Lifecycle::Degraded => "the watcher is running but degraded; run `rewind reconcile` before relying on workspace trust",
        Lifecycle::Failed => "the watcher appears dead; restart with `rewind watch start` — the unobserved interval will be gated until reconciliation",
        Lifecycle::Stopped | Lifecycle::Running | Lifecycle::Stopping => "ok",
    }
}

/// Whether an operator has to act.
pub open spec fn needs_action(lifecycle: Lifecycle) -> bool {
    lifecycle is Degraded || lifecycle is ReconciliationRequired || lifecycle is Failed
}

/// The exit code of a status command: 3 where an operator has to act.
pub fn exit_code(lifecycle: Lifecycle) -> (r: i32)
    ensures
        r == if needs_action(lifecycle) {
            3i32
        } else {
            0
        },
{
    match lifecycle {
        Lifecycle::Stopped | Lifecycle::Running | Lifecycle::Stopping => 0,
        Lifecycle::Degraded | Lifecycle::ReconciliationRequired | Lifecycle::Failed => 3,
    }
}

/// A watcher counts as running only while its heartbeat is fresh and nothing
/// is pending.
pub proof fn running_means_fresh(state: Option<WatcherState>, pending: bool, now: int)
    requires
        derived(state, pending, now) is Running,
    ensures
        !pending,
        state is Some,
        fresh(state->0, now),
        !state->0.degraded,
{
}

/// A heartbeat that is not fresh stays so.
pub proof fn staleness_is_final(state: WatcherState, now: int, later: int)
    requires
        !fresh(state, now),
        now <= later,
    ensures
        !fresh(state, later),
{
}

// ---------------------------------------------------------------------------
// What the calls promise
// ---------------------------------------------------------------------------

/// The lifecycle of a watcher is what its record, the pending degradations and
/// the clock say. Anything pending comes first. A watcher without a record has
/// stopped. One that says it runs does so only while its last sign of life is
/// at most ten seconds old, and is degraded where it says so.
pub proof fn the_lifecycle_is_what_was_recorded(
    state: Option<WatcherState>,
    degradations: Option<Degradations>,
    now: i64,
    r: Lifecycle,
)
    requires
        call_ensures(derive, (&state, &degradations, now), r),
    ensures
        ({
            let pending = degradations is Some && degradations->0.records@.len() > 0;
            let alive = state is Some && now - state->0.heartbeat_at <= 10_000_000;
            &&& r is ReconciliationRequired == pending
            &&& !pending && state is None ==> r is Stopped
            &&& !pending && state is Some ==> match state->0.status {
                StatusKind::Starting | StatusKind::Running => {
                    &&& r is Failed == !alive
                    &&& r is Degraded == (alive && state->0.degraded)
                    &&& r is Running == (alive && !state->0.degraded)
                },
                StatusKind::Stopping => r is Stopping == alive && r is Stopped == !alive,
                StatusKind::Stopped => r is Stopped,
                StatusKind::Failed => r is Failed,
            }
        }),
{
}

/// A status command fails exactly where an operator has to act, and says then
/// what to do.
pub proof fn a_status_fails_where_action_is_due(lifecycle: Lifecycle, code: i32, said: &'static str)
    requires
        call_ensures(exit_code, (lifecycle,), code),
        call_ensures(recommendation, (lifecycle,), said),
    ensures
        (code == 0) == (lifecycle is Stopped || lifecycle is Running || lifecycle is Stopping),
        code != 0 ==> code == 3,
        code == 0 ==> said@ == "ok"@,
        code != 0 ==> said@ != "ok"@,
{
    reveal_strlit("ok");
    reveal_strlit("run `rewind reconcile` to close the unknown interval and restore trust");
    reveal_strlit("the watcher is running but degraded; run `rewind reconcile` before relying on workspace trust");
    reveal_strlit(
        "the watcher appears dead; restart with `rewind watch start` — the unobserved interval will be gated until reconciliation",
    );
    assert("ok"@.len() == 2);
    assert("run `rewind reconcile` to close the unknown interval and restore trust"@.len() > 2);
    assert("the watcher is running but degraded; run `rewind reconcile` before relying on workspace trust"@.len() > 2);
    assert(
        "the watcher appears dead; restart with `rewind watch start` — the unobserved interval will be gated until reconciliation"@.len()
            > 2);
}

} // verus!
