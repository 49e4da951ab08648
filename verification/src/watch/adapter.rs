//! Platform notifications reduced to the facts that the watcher can carry.

use vstd::prelude::*;
use vstd::std_specs::vecdeque::*;
use std::collections::VecDeque;

use crate::error::{Result, RewindError};
use crate::order;
use crate::order::views;
use crate::text;

verus! {

/// What the platform says has happened.
#[derive(Clone, Copy, Debug, PartialEq, Eq, Structural)]
pub enum RawKind {
    Create,
    Modify,
    Delete,
    RenameFrom,
    RenameTo,
    RenameBoth,
    Other,
}

/// A notification of one path, or of the two paths of a rename. The paths are
/// absolute, and nothing is said of where they lie.
#[derive(Clone, Debug)]
pub struct RawEvent {
    pub paths: Vec<String>,
    pub kind: RawKind,
}

/// What a notification is about.
pub struct Raw {
    pub paths: Seq<Seq<char>>,
    pub kind: RawKind,
}

impl View for RawEvent {
    type V = Raw;

    open spec fn view(&self) -> Raw {
        Raw { paths: views(self.paths@), kind: self.kind }
    }
}

/// What a poll of the adapter gives.
#[derive(Debug)]
pub enum AdapterOutput {
    Event(RawEvent),
    Idle,
    /// Events may have been lost.
    Overflow,
    /// The adapter failed and cannot vouch for anything.
    Failed(String),
}

/// The kinds of platform notification that the mapping tells apart.
#[derive(Clone, Copy, Debug, PartialEq, Eq, Structural)]
pub enum NoticeKind {
    Create,
    Remove,
    RenameFrom,
    RenameTo,
    RenameBoth,
    /// Any other change of a name, of data or of metadata.
    Modify,
    Access,
    Other,
    Any,
}

/// A platform notification. It may be about many paths at once.
#[derive(Clone, Debug)]
pub struct Notice {
    pub kind: NoticeKind,
    pub paths: Vec<String>,
    /// Whether the platform lost events and asks for a new scan.
    pub rescan: bool,
}

pub open spec fn raw_kind(kind: NoticeKind) -> RawKind {
    match kind {
        NoticeKind::Create => RawKind::Create,
        NoticeKind::Remove => RawKind::Delete,
        NoticeKind::RenameFrom => RawKind::RenameFrom,
        NoticeKind::RenameTo => RawKind::RenameTo,
        NoticeKind::RenameBoth => RawKind::RenameBoth,
        NoticeKind::Modify => RawKind::Modify,
        NoticeKind::Access | NoticeKind::Other | NoticeKind::Any => RawKind::Other,
    }
}

/// The events of a notification: one for each path, but one for both paths of
/// a rename.
pub open spec fn mapped(notice: Notice) -> Seq<Raw> {
    let kind = raw_kind(notice.kind);
    let paths = views(notice.paths@);
    if kind == RawKind::RenameBoth && paths.len() == 2 {
        seq![Raw { paths, kind }]
    } else {
        Seq::new(paths.len(), |i: int| Raw { paths: seq![paths[i]], kind })
    }
}

/// Maps a platform notification to events.
pub fn map_notify_event(event: &Notice) -> (r: Vec<RawEvent>)
    ensures
        views(r@) == mapped(*event),
{
    let kind = match event.kind {
        NoticeKind::Create => RawKind::Create,
        NoticeKind::Remove => RawKind::Delete,
        NoticeKind::RenameFrom => RawKind::RenameFrom,
        NoticeKind::RenameTo => RawKind::RenameTo,
        NoticeKind::RenameBoth => RawKind::RenameBoth,
        NoticeKind::Modify => RawKind::Modify,
        NoticeKind::Access | NoticeKind::Other | NoticeKind::Any => RawKind::Other,
    };
    let ghost paths = views(event.paths@);
    let mut out: Vec<RawEvent> = Vec::new();
    if kind == RawKind::RenameBoth && event.paths.len() == 2 {
        let mut both: Vec<String> = Vec::new();
        both.push(text::copy(event.paths[0].as_str()));
        both.push(text::copy(event.paths[1].as_str()));
        assert(views(both@) =~= paths);
        let raw = RawEvent { paths: both, kind };
        out.push(raw);
        assert(views(out@) =~= mapped(*event));
        return out;
    }
    for i in 0..event.paths.len()
        invariant
            paths == views(event.paths@),
            kind == raw_kind(event.kind),
            !(kind == RawKind::RenameBoth && event.paths@.len() == 2),
            out@.len() == i,
            views(out@) =~= mapped(*event).take(i as int),
    {
        let mut single: Vec<String> = Vec::new();
        single.push(text::copy(event.paths[i].as_str()));
        assert(views(single@) =~= seq![paths[i as int]]);
        let raw = RawEvent { paths: single, kind };
        assert(raw@ == mapped(*event)[i as int]);
        out.push(raw);
        assert(views(out@) =~= mapped(*event).take(i + 1));
    }
    assert(views(out@) =~= mapped(*event));
    out
}

/// What waiting for a notification came to.
#[derive(Debug)]
pub enum Received {
    Notice(Notice),
    /// The platform reported an error.
    Error(String),
    /// Nothing arrived in time.
    Timeout,
    /// No notification can arrive any more.
    Disconnected,
}

/// The events that a notification held beyond the one last delivered. One
/// notification can hold many, and a poll delivers one.
pub struct NotifyAdapter {
    pub pending: VecDeque<RawEvent>,
}

impl NotifyAdapter {
    pub fn new() -> (r: Self)
        ensures
            r.pending@ == Seq::<RawEvent>::empty(),
    {
        NotifyAdapter { pending: VecDeque::new() }
    }

    /// The event that waited longest. It is delivered before any further
    /// notification is waited for.
    pub fn queued(&mut self) -> (r: Option<RawEvent>)
        ensures
            old(self).pending@.len() == 0 ==> r is None && final(self).pending@ == old(self).pending@,
            old(self).pending@.len() > 0 ==> r == Some(old(self).pending@[0]) && final(self).pending@
                == old(self).pending@.skip(1),
    {
        let r = self.pending.pop_front();
        assert(old(self).pending@.len() > 0 ==> self.pending@ =~= old(self).pending@.skip(1));
        r
    }

    /// Takes a notification in: its first event is the outcome of the poll, and
    /// the others wait in their order.
    pub fn receive(&mut self, received: Received) -> (r: AdapterOutput)
        ensures
            match received {
                Received::Notice(notice) => if notice.rescan {
                    r is Overflow && final(self).pending@ == old(self).pending@
                } else if mapped(notice).len() == 0 {
                    r is Idle && final(self).pending@ == old(self).pending@
                } else {
                    &&& r is Event
                    &&& r->Event_0@ == mapped(notice)[0]
                    &&& views(final(self).pending@) == views(old(self).pending@) + mapped(notice).skip(1)
                },
                Received::Error(error) => r == AdapterOutput::Failed(error) && final(self).pending@ == old(
                    self,
                ).pending@,
                Received::Timeout => r is Idle && final(self).pending@ == old(self).pending@,
                Received::Disconnected => {
                    &&& r is Failed
                    &&& r->Failed_0@ == "watcher channel disconnected"@
                    &&& final(self).pending@ == old(self).pending@
                },
            },
    {
        match received {
            Received::Notice(notice) => {
                if notice.rescan {
                    return AdapterOutput::Overflow;
                }
                let mut events = map_notify_event(&notice);
                if events.len() == 0 {
                    return AdapterOutput::Idle;
                }
                let ghost all = events@;
                let first = events.remove(0);
                let ghost start = views(self.pending@);
                assert(events@ =~= all.skip(1));
                let ghost rest = events@;
                let count = events.len();
                for i in 0..count
                    invariant
                        count == rest.len(),
                        events@ == rest.skip(i as int),
                        views(self.pending@) == start + views(rest).take(i as int),
                {
                    let event = events.remove(0);
                    assert(events@ =~= rest.skip(i + 1));
                    assert(event == rest[i as int]);
                    proof {
                        order::push_contains(self.pending@, event);
                        assert(views(rest)[i as int] == event@);
                        assert(views(self.pending@).push(event@) =~= start + views(rest).take(i + 1));
                    }
                    self.pending.push_back(event);
                    assert(views(self.pending@) == start + views(rest).take(i + 1));
                }
                assert(views(rest).take(count as int) =~= views(all).skip(1));
                AdapterOutput::Event(first)
            },
            Received::Error(error) => AdapterOutput::Failed(error),
            Received::Timeout => AdapterOutput::Idle,
            Received::Disconnected => AdapterOutput::Failed(text::copy("watcher channel disconnected")),
        }
    }
}

/// What the watcher loop asks of a source of notifications.
pub trait EventAdapter {
    /// Waits for the next outcome, at most for so many milliseconds.
    fn poll(&mut self, timeout_ms: u64) -> AdapterOutput;

    /// Observes anew, after events were lost or the adapter failed.
    fn restart(&mut self) -> Result<()>;

    /// Ends the observation.
    fn shutdown(&mut self);
}

/// An adapter that plays a script, and is idle after it.
pub struct FakeAdapter {
    script: VecDeque<AdapterOutput>,
    restart_fails: bool,
}

impl FakeAdapter {
    /// What is left of the script.
    pub closed spec fn rest(self) -> Seq<AdapterOutput> {
        self.script@
    }

    pub closed spec fn refuses_restart(self) -> bool {
        self.restart_fails
    }

    pub fn new(script: Vec<AdapterOutput>) -> (r: Self)
        ensures
            r.rest() == script@,
            !r.refuses_restart(),
    {
        let mut script = script;
        let mut queue: VecDeque<AdapterOutput> = VecDeque::new();
        let ghost all = script@;
        let count = script.len();
        for i in 0..count
            invariant
                count == all.len(),
                script@ == all.skip(i as int),
                queue@ == all.take(i as int),
        {
            let output = script.remove(0);
            assert(script@ =~= all.skip(i + 1));
            queue.push_back(output);
            assert(queue@ =~= all.take(i + 1));
        }
        assert(all.take(count as int) =~= all);
        FakeAdapter { script: queue, restart_fails: false }
    }

    /// Makes every restart fail.
    pub fn with_failing_restarts(self) -> (r: Self)
        ensures
            r.rest() == self.rest(),
            r.refuses_restart(),
    {
        FakeAdapter { script: self.script, restart_fails: true }
    }
}

impl EventAdapter for FakeAdapter {
    fn poll(&mut self, timeout_ms: u64) -> (r: AdapterOutput)
        ensures
            final(self).refuses_restart() == old(self).refuses_restart(),
            old(self).rest().len() == 0 ==> r is Idle && final(self).rest() == old(self).rest(),
            old(self).rest().len() > 0 ==> r == old(self).rest()[0] && final(self).rest() == old(self).rest().skip(1),
    {
        let ghost before = self.script@;
        match self.script.pop_front() {
            Some(output) => {
                assert(self.script@ =~= before.skip(1));
                output
            },
            None => AdapterOutput::Idle,
        }
    }

    fn restart(&mut self) -> (r: Result<()>)
        ensures
            *final(self) == *old(self),
            r is Err == old(self).refuses_restart(),
            r is Err ==> r->Err_0@ == crate::error::Fault::Storage("scripted restart failure"@),
    {
        if self.restart_fails {
            Err(RewindError::Storage(text::copy("scripted restart failure")))
        } else {
            Ok(())
        }
    }

    fn shutdown(&mut self)
        ensures
            *final(self) == *old(self),
    {
    }
}

/// Every path of a notification is delivered, once, and in the order of the
/// notification, after whatever waited before it.
pub proof fn every_path_is_delivered(waiting: Seq<Raw>, notice: Notice, k: int)
    requires
        raw_kind(notice.kind) != RawKind::RenameBoth,
        0 <= k < notice.paths@.len(),
    ensures
        mapped(notice).len() == notice.paths@.len(),
        (waiting + mapped(notice))[waiting.len() + k] == (Raw {
            paths: seq![notice.paths@[k]@],
            kind: raw_kind(notice.kind),
        }),
{
}

// ---------------------------------------------------------------------------
// What the calls promise
// ---------------------------------------------------------------------------

/// A notification is told path by path, each with what the platform says of it,
/// and the two paths of a rename together. None is left out and none is told
/// twice.
pub proof fn a_notification_is_told_path_by_path(notice: Notice, r: Vec<RawEvent>, k: int)
    requires
        call_ensures(map_notify_event, (&notice,), r),
    ensures
        ({
            let both = notice.kind is RenameBoth && notice.paths@.len() == 2;
            &&& both ==> r@.len() == 1 && r@[0].kind == RawKind::RenameBoth && r@[0].paths@.len() == 2
                && r@[0].paths@[0]@ == notice.paths@[0]@ && r@[0].paths@[1]@ == notice.paths@[1]@
            &&& !both ==> r@.len() == notice.paths@.len()
            &&& !both && 0 <= k < r@.len() ==> r@[k].paths@.len() == 1 && r@[k].paths@[0]@ == notice.paths@[k]@
                && match notice.kind {
                NoticeKind::Create => r@[k].kind is Create,
                NoticeKind::Remove => r@[k].kind is Delete,
                NoticeKind::Modify => r@[k].kind is Modify,
                NoticeKind::RenameFrom => r@[k].kind is RenameFrom,
                NoticeKind::RenameTo => r@[k].kind is RenameTo,
                NoticeKind::RenameBoth => r@[k].kind is RenameBoth,
                NoticeKind::Access | NoticeKind::Other | NoticeKind::Any => r@[k].kind is Other,
            }
        }),
{
    let all = views(r@);
    assert(all.len() == r@.len());
    assert(views(notice.paths@).len() == notice.paths@.len());
    if notice.kind is RenameBoth && notice.paths@.len() == 2 {
        assert(all[0] == r@[0]@);
        assert(r@[0]@.paths == views(r@[0].paths@));
        assert(views(r@[0].paths@).len() == r@[0].paths@.len());
        assert(views(r@[0].paths@)[0] == r@[0].paths@[0]@);
        assert(views(r@[0].paths@)[1] == r@[0].paths@[1]@);
        assert(views(notice.paths@)[0] == notice.paths@[0]@);
        assert(views(notice.paths@)[1] == notice.paths@[1]@);
    } else if 0 <= k < r@.len() {
        assert(all[k] == r@[k]@);
        assert(views(r@[k].paths@).len() == r@[k].paths@.len());
        assert(views(r@[k].paths@)[0] == r@[k].paths@[0]@);
        assert(views(notice.paths@)[k] == notice.paths@[k]@);
    }
}

} // verus!
