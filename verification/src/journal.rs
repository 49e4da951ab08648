//! The journals of transactions: where they stand, and which of them are still
//! of concern.

use vstd::prelude::*;
use vstd::string::*;

use crate::error::{Fault, Result, RewindError};
use crate::model::{Journal, JournalStatus};
use crate::order;
use crate::outside;
use crate::outside::uuid_text;
use crate::paths;
use crate::paths::joined;
use crate::paths::Platform;
use crate::rollback;
use crate::rollback::JournalRecord;
use crate::rollback::StepRecord;
use crate::scan;
use crate::text;

verus! {

/// The place of the journals.
#[derive(Clone, Debug)]
pub struct JournalStore {
    platform: Platform,
    root: String,
}

/// Whether a transaction is committed and has artifacts to archive.
pub open spec fn awaits_archive(journal: JournalRecord) -> bool {
    rollback::wants_archive(journal) && journal.status is Committed
}

impl JournalStore {
    pub closed spec fn at(self) -> Seq<char> {
        self.root@
    }

    pub closed spec fn platform(self) -> Platform {
        self.platform
    }

    pub fn new(platform: Platform, root: &str) -> (r: Self)
        ensures
            r.at() == root@,
            r.platform() == platform,
    {
        JournalStore { platform, root: text::copy(root) }
    }

    /// Where the journal of a transaction stands.
    pub fn path_for(&self, transaction_id: u128) -> (r: String)
        ensures
            r@ == joined(self.platform(), self.at(), uuid_text(transaction_id) + ".json"@),
    {
        let mut name = outside::identifier(transaction_id);
        name.append(".json");
        paths::join(self.platform, self.root.as_str(), name.as_str())
    }

    /// Refuses a path that is not directly in the store.
    pub fn validate_path(&self, path: &str) -> (r: Result<()>)
        ensures
            r is Ok == match scan::directory_of(paths::components_of(self.platform(), path@)) {
                Some(directory) => paths::same_parts(directory, paths::components_of(self.platform(), self.at())),
                None => false,
            },
            r is Err ==> r->Err_0@ == Fault::Journal("journal path is outside journal store: "@ + path@),
    {
        if paths::is_directly_in(self.platform, path, self.root.as_str()) {
            return Ok(());
        }
        let mut message = text::copy("journal path is outside journal store: ");
        message.append(path);
        Err(RewindError::Journal(message))
    }

    /// The journals of transactions that are not over.
    pub fn unfinished(&self, journals: Vec<Journal>) -> (r: Vec<Journal>)
        ensures
            r@ == order::kept(journals@, |j: Journal| !j.status.terminal(), |j: Journal| j),
    {
        let ghost all = journals@;
        let ghost keep = |j: Journal| !j.status.terminal();
        let ghost f = |j: Journal| j;
        let mut rest = journals;
        let mut out: Vec<Journal> = Vec::new();
        let count = rest.len();
        assert(all.skip(0) =~= all);
        for i in 0..count
            invariant
                count == all.len(),
                rest@ == all.skip(i as int),
                keep == (|j: Journal| !j.status.terminal()),
                f == (|j: Journal| j),
                out@ == order::kept(all.take(i as int), keep, f),
        {
            proof {
                order::kept_step(all, i as int, keep, f);
            }
            let journal = rest.remove(0);
            assert(rest@ =~= all.skip(i + 1));
            if !journal.status.is_terminal() {
                out.push(journal);
            }
        }
        assert(all.take(all.len() as int) =~= all);
        out
    }

    /// The journals of committed transactions whose artifacts are not archived
    /// yet.
    pub fn pending_archives(&self, journals: Vec<Journal>) -> (r: Vec<Journal>)
        ensures
            r@ == order::kept(journals@, |j: Journal| awaits_archive(j@), |j: Journal| j),
    {
        let ghost all = journals@;
        let ghost keep = |j: Journal| awaits_archive(j@);
        let ghost f = |j: Journal| j;
        let mut rest = journals;
        let mut out: Vec<Journal> = Vec::new();
        let count = rest.len();
        assert(all.skip(0) =~= all);
        for i in 0..count
            invariant
                count == all.len(),
                rest@ == all.skip(i as int),
                keep == (|j: Journal| awaits_archive(j@)),
                f == (|j: Journal| j),
                out@ == order::kept(all.take(i as int), keep, f),
        {
            proof {
                order::kept_step(all, i as int, keep, f);
            }
            let journal = rest.remove(0);
            assert(rest@ =~= all.skip(i + 1));
            if rollback::needs_archive(&journal) && journal.status == JournalStatus::Committed {
                out.push(journal);
            }
        }
        assert(all.take(all.len() as int) =~= all);
        out
    }

    /// Marks a journal and all of its steps as done.
    pub fn mark_committed(&self, journal: &mut Journal)
        ensures
            final(journal)@ == (JournalRecord {
                status: JournalStatus::Committed,
                steps: old(journal)@.steps.map_values(
                    |s: StepRecord| StepRecord { status: JournalStatus::Durable, ..s },
                ),
                ..old(journal)@
            }),
    {
        journal.status = JournalStatus::Committed;
        rollback::settle_steps(journal);
    }
}

/// Whether a file name is that of a journal.
pub fn is_journal_name(name: &str) -> (r: bool)
    ensures
        r == (paths::extension_of(name@) == Some("json"@)),
{
    match paths::extension(name) {
        Some(extension) => text::same(extension.as_str(), "json"),
        None => false,
    }
}

// ---------------------------------------------------------------------------
// What the calls promise
// ---------------------------------------------------------------------------

/// The journals that are told as unfinished are those of transactions that were
/// neither committed nor given up.
pub proof fn unfinished_journals_are_found(store: JournalStore, journals: Vec<Journal>, r: Vec<Journal>, j: Journal)
    requires
        call_ensures(JournalStore::unfinished, (&store, journals), r),
    ensures
        r@.contains(j) == (journals@.contains(j) && j.status != JournalStatus::Committed && j.status
            != JournalStatus::Abandoned),
{
    let keep = |j: Journal| !j.status.terminal();
    let f = |j: Journal| j;
    order::kept_are(journals@, keep, f);
    if r@.contains(j) {
        assert(order::kept(journals@, keep, f).contains(j));
        let k = choose|k: int| 0 <= k < journals@.len() && keep(#[trigger] journals@[k]) && j == f(journals@[k]);
        assert(journals@.contains(journals@[k]));
    }
    if journals@.contains(j) && j.status != JournalStatus::Committed && j.status != JournalStatus::Abandoned {
        let k = choose|k: int| 0 <= k < journals@.len() && journals@[k] == j;
        assert(keep(journals@[k]));
        assert(order::kept(journals@, keep, f).contains(f(journals@[k])));
    }
}

/// The journals whose artifacts are archived next are those of committed
/// transactions with an archive that waits or failed.
pub proof fn waiting_archives_are_found(store: JournalStore, journals: Vec<Journal>, r: Vec<Journal>, j: Journal)
    requires
        call_ensures(JournalStore::pending_archives, (&store, journals), r),
    ensures
        r@.contains(j) == (journals@.contains(j) && j.status == JournalStatus::Committed && (j.archive_status
            == crate::model::ArchiveStatus::Pending || j.archive_status == crate::model::ArchiveStatus::Failed)),
{
    let keep = |j: Journal| awaits_archive(j@);
    let f = |j: Journal| j;
    order::kept_are(journals@, keep, f);
    if r@.contains(j) {
        assert(order::kept(journals@, keep, f).contains(j));
        let k = choose|k: int| 0 <= k < journals@.len() && keep(#[trigger] journals@[k]) && j == f(journals@[k]);
        assert(journals@.contains(journals@[k]));
    }
    if journals@.contains(j) && awaits_archive(j@) {
        let k = choose|k: int| 0 <= k < journals@.len() && journals@[k] == j;
        assert(keep(journals@[k]));
        assert(order::kept(journals@, keep, f).contains(f(journals@[k])));
    }
}

/// A journal that is marked as committed is so with each of its steps, and its
/// plan stays.
pub proof fn a_committed_journal_is_done(store: JournalStore, journal: &mut Journal)
    requires
        call_ensures(JournalStore::mark_committed, (&store, journal), ()),
    ensures
        final(journal).status == JournalStatus::Committed,
        rollback::same_plan(*old(journal), *final(journal)),
        forall|k: int|
            0 <= k < final(journal).steps@.len() ==> (#[trigger] final(journal).steps@[k]).status
                == JournalStatus::Durable,
        final(journal).archive_status == old(journal).archive_status,
{
    rollback::same_records_same_plan(*old(journal), *final(journal));
}

} // verus!
