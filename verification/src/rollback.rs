//! Rollback: the plan of a transaction, the judgement of each of its steps,
//! and how an interrupted transaction is finished or given up.
//!
//! A transaction is written down before it touches anything. Whatever is
//! replaced is first moved aside. A state that the plan does not know stops it.

use vstd::prelude::*;
use vstd::string::*;

use crate::db::can_redo;
use crate::db::can_undo;
use crate::db::{is_redoable, is_undoable, OperationDraft};
use crate::error::{Fault, Result, RewindError};
use crate::model::{
    at, directory_print, ArchiveStatus, Effect, Fingerprint, Journal, JournalStatus, JournalStep, Manifest,
    MetadataFingerprint, OperationKind, OperationRecord, OperationStatus, Print, Reversibility, SymlinkTargetKind,
    TrackingConfidence, WorkspaceCondition,
};
use crate::order;
use crate::order::views;
use crate::order::Ranked;
use crate::outside;
use crate::outside::uuid_text;
use crate::paths;
use crate::paths::joined;
use crate::paths::Platform;
use crate::scan;
use crate::scan::no_slash;
use crate::scan::union_paths;
use crate::table::{Duplicate, Table};
use crate::text;
use crate::text::decimal;
use crate::text::decimal_int;
use crate::text::optional;
use crate::text::Rank;

verus! {

// ---------------------------------------------------------------------------
// The journal
// ---------------------------------------------------------------------------

/// What a step of a journal says.
pub struct StepRecord {
    pub id: nat,
    pub paths: Seq<Seq<char>>,
    pub before: Map<Seq<char>, Print>,
    pub after: Map<Seq<char>, Print>,
    pub backup_path: Option<Seq<char>>,
    pub staging_path: Option<Seq<char>>,
    pub status: JournalStatus,
}

impl View for JournalStep {
    type V = StepRecord;

    open spec fn view(&self) -> StepRecord {
        StepRecord {
            id: self.id as nat,
            paths: views(self.paths@),
            before: self.before@,
            after: self.after@,
            backup_path: optional(self.backup_path),
            staging_path: optional(self.staging_path),
            status: self.status,
        }
    }
}

/// What a journal says.
pub struct JournalRecord {
    pub transaction_id: u128,
    pub workspace_id: u128,
    pub operation_id: Option<i64>,
    pub anchor: Seq<char>,
    pub target: Seq<char>,
    pub direction: Seq<char>,
    pub status: JournalStatus,
    pub steps: Seq<StepRecord>,
    pub archive_status: ArchiveStatus,
    pub archive_error: Option<Seq<char>>,
}

impl View for Journal {
    type V = JournalRecord;

    open spec fn view(&self) -> JournalRecord {
        JournalRecord {
            transaction_id: self.transaction_id,
            workspace_id: self.workspace_id,
            operation_id: self.operation_id,
            anchor: self.anchor_state_id@,
            target: self.target_state_id@,
            direction: self.direction@,
            status: self.status,
            steps: views(self.steps@),
            archive_status: self.archive_status,
            archive_error: optional(self.archive_error),
        }
    }
}

impl JournalRecord {
    /// The journal with another status of a step.
    pub open spec fn with_step(self, index: int, status: JournalStatus) -> JournalRecord {
        JournalRecord {
            steps: self.steps.update(index, StepRecord { status, ..self.steps[index] }),
            ..self
        }
    }

    pub open spec fn with_status(self, status: JournalStatus) -> JournalRecord {
        JournalRecord { status, ..self }
    }

    /// Whether a step moves something aside.
    pub open spec fn has_backup(self) -> bool {
        exists|i: int| 0 <= i < self.steps.len() && (#[trigger] self.steps[i]).backup_path is Some
    }
}

fn set_step_status(journal: &mut Journal, index: usize, status: JournalStatus)
    requires
        index < old(journal).steps@.len(),
    ensures
        final(journal)@ == old(journal)@.with_step(index as int, status),
{
    let ghost start = journal@;
    journal.steps[index].status = status;
    assert(journal@.steps =~= start.with_step(index as int, status).steps);
}

// ---------------------------------------------------------------------------
// The plan
// ---------------------------------------------------------------------------

/// How many slashes a path holds.
pub open spec fn depth(path: Seq<char>) -> nat
    decreases path.len(),
{
    if path.len() == 0 {
        0
    } else {
        depth(path.drop_last()) + if path.last() == '/' {
            1nat
        } else {
            0
        }
    }
}

fn count_slashes(path: &str) -> (r: usize)
    ensures
        r == depth(path@),
{
    let chars = text::chars_of(path);
    let mut count: usize = 0;
    for i in 0..chars.len()
        invariant
            chars@ == path@,
            count <= i,
            count == depth(chars@.take(i as int)),
    {
        assert(chars@.take(i + 1).drop_last() =~= chars@.take(i as int));
        assert(chars@.take(i + 1).last() == chars@[i as int]);
        if chars[i] == '/' {
            count = count + 1;
        }
    }
    assert(chars@.take(chars@.len() as int) =~= path@);
    count
}

/// A path that changes, and what decides when its turn comes.
pub struct StepKey {
    pub path: String,
    pub removal: bool,
    pub directory: bool,
    pub depth: usize,
}

/// What decides when the turn of a path comes.
pub struct Turn {
    pub path: Seq<char>,
    pub removal: bool,
    pub directory: bool,
    pub depth: nat,
}

impl View for StepKey {
    type V = Turn;

    open spec fn view(&self) -> Turn {
        Turn { path: self.path@, removal: self.removal, directory: self.directory, depth: self.depth as nat }
    }
}

/// Which turn comes first: removals come before installations, deeper removals
/// before shallower ones, directories before what is put into them, and
/// shallower installations before deeper ones.
pub open spec fn turn_before(a: Turn, b: Turn) -> bool {
    if a.removal != b.removal {
        a.removal
    } else if a.removal {
        if a.depth != b.depth {
            a.depth > b.depth
        } else {
            text::before(a.path, b.path)
        }
    } else if a.directory != b.directory {
        a.directory
    } else if a.depth != b.depth {
        a.depth < b.depth
    } else {
        text::before(a.path, b.path)
    }
}

impl Ranked for StepKey {
    open spec fn before(a: Turn, b: Turn) -> bool {
        turn_before(a, b)
    }

    fn is_before(&self, other: &Self) -> (r: bool) {
        if self.removal != other.removal {
            return self.removal;
        }
        if !self.removal && self.directory != other.directory {
            return self.directory;
        }
        if self.depth != other.depth {
            return if self.removal {
                self.depth > other.depth
            } else {
                self.depth < other.depth
            };
        }
        match text::compare(self.path.as_str(), other.path.as_str()) {
            Rank::Less => true,
            Rank::Same => {
                proof {
                    text::before_irreflexive(self.path@);
                }
                false
            },
            Rank::Greater => {
                proof {
                    if text::before(self.path@, other.path@) {
                        text::before_transitive(self.path@, other.path@, self.path@);
                        text::before_irreflexive(self.path@);
                    }
                }
                false
            },
        }
    }

    proof fn irreflexive(a: Turn) {
        text::before_irreflexive(a.path);
    }

    proof fn transitive(a: Turn, b: Turn, c: Turn) {
        if text::before(a.path, b.path) && text::before(b.path, c.path) {
            text::before_transitive(a.path, b.path, c.path);
        }
    }

    proof fn negatively_transitive(a: Turn, b: Turn, c: Turn) {
        if !text::before(a.path, b.path) && !text::before(b.path, c.path) {
            String::negatively_transitive(a.path, b.path, c.path);
        }
    }
}

pub open spec fn turn_of(after: Map<Seq<char>, Print>, path: Seq<char>) -> Turn {
    Turn {
        path,
        removal: at(after, path) is Absent,
        directory: at(after, path) is Directory,
        depth: depth(path),
    }
}

/// The turns of the paths that change, in the order of the paths.
pub open spec fn turns(before: Map<Seq<char>, Print>, after: Map<Seq<char>, Print>) -> Seq<Turn> {
    order::kept(
        union_paths(before, after),
        |path: Seq<char>| at(before, path) != at(after, path),
        |path: Seq<char>| turn_of(after, path),
    )
}

/// The turns of the paths that change, as they come.
pub open spec fn plan_order(before: Map<Seq<char>, Print>, after: Map<Seq<char>, Print>) -> Seq<Turn> {
    order::arranged::<StepKey>(turns(before, after))
}

/// Whether an entry of a directory stays when a transaction has removed what
/// its target does not hold.
pub open spec fn survives(
    before: Map<Seq<char>, Print>,
    after: Map<Seq<char>, Print>,
    path: Seq<char>,
    name: Seq<char>,
) -> bool {
    no_slash(name) && before.contains_key(path + seq!['/'] + name) && !(at(after, path + seq!['/'] + name) is Absent)
}

/// What a path holds when a transaction has removed what its target does not
/// hold and changed nothing else: a directory has lost the entries that go,
/// and so have the directories in it, as many levels down as are asked for.
pub open spec fn thinned(
    before: Map<Seq<char>, Print>,
    after: Map<Seq<char>, Print>,
    path: Seq<char>,
    levels: nat,
) -> Print
    decreases levels, 0nat,
{
    match at(before, path) {
        Print::Directory { manifest_hash, entry_count, metadata } => if levels == 0 {
            at(before, path)
        } else {
            directory_print(thinned_entries(before, after, path, (levels - 1) as nat), metadata)
        },
        other => other,
    }
}

/// The entries of a directory that stay, each as it is by then.
pub open spec fn thinned_entries(
    before: Map<Seq<char>, Print>,
    after: Map<Seq<char>, Print>,
    path: Seq<char>,
    levels: nat,
) -> Map<Seq<char>, Print>
    decreases levels, 1nat,
{
    Map::new(
        |name: Seq<char>| survives(before, after, path, name),
        |name: Seq<char>| thinned(before, after, path + seq!['/'] + name, levels),
    )
}

/// What a path is expected to hold when its turn comes: everything that the
/// target does not hold is gone by then, and nothing else has changed at the
/// path or below it. No path has more levels below it than there are entries.
pub open spec fn expected_before(before: Map<Seq<char>, Print>, after: Map<Seq<char>, Print>, path: Seq<char>) -> Print {
    thinned(before, after, path, crate::table::listed(before).len())
}

/// Whether a directory stays in its place while its entries change.
pub open spec fn keeps_directory(pre: Print, post: Print) -> bool {
    pre is Directory && post is Directory
}

/// The step of a path. What it replaces is moved aside, unless there is nothing
/// or a directory stays. A file is prepared before.
pub open spec fn planned_step(
    platform: Platform,
    before: Map<Seq<char>, Print>,
    after: Map<Seq<char>, Print>,
    quarantine: Seq<char>,
    prepared: Seq<char>,
    index: nat,
    path: Seq<char>,
) -> StepRecord {
    let pre = at(before, path);
    let post = at(after, path);
    StepRecord {
        id: index,
        paths: seq![path],
        before: map![path => expected_before(before, after, path)],
        after: map![path => post],
        backup_path: if !(pre is Absent) && !keeps_directory(pre, post) {
            Some(joined(platform, quarantine, decimal(index) + ".backup"@))
        } else {
            None
        },
        staging_path: if post is RegularFile {
            Some(joined(platform, prepared, decimal(index) + ".file"@))
        } else {
            None
        },
        status: JournalStatus::Planned,
    }
}

/// The steps of a transaction.
pub open spec fn planned_steps(
    platform: Platform,
    before: Map<Seq<char>, Print>,
    after: Map<Seq<char>, Print>,
    quarantine: Seq<char>,
    prepared: Seq<char>,
) -> Seq<StepRecord> {
    let list = plan_order(before, after);
    Seq::new(
        list.len(),
        |i: int| planned_step(platform, before, after, quarantine, prepared, i as nat, list[i].path),
    )
}

/// Whether the path at a turn is the first that cannot be restored.
pub open spec fn first_refused(list: Seq<Turn>, after: Map<Seq<char>, Print>, i: int) -> bool {
    &&& 0 <= i < list.len()
    &&& !at(after, list[i].path).supported()
    &&& forall|j: int| 0 <= j < i ==> at(after, (#[trigger] list[j]).path).supported()
}

fn ends_after_prefix(whole: &Vec<char>, prefix: &Vec<char>) -> (r: Option<String>)
    ensures
        match r {
            Some(rest) => whole@ == prefix@ + rest@ && no_slash(rest@),
            None => !exists|rest: Seq<char>| #[trigger] no_slash(rest) && whole@ == prefix@ + rest,
        },
{
    if whole.len() < prefix.len() {
        assert forall|rest: Seq<char>| #[trigger] no_slash(rest) implies whole@ != prefix@ + rest by {
            assert((prefix@ + rest).len() >= prefix@.len());
        }
        return None;
    }
    for i in 0..prefix.len()
        invariant
            prefix@.len() <= whole@.len(),
            forall|k: int| 0 <= k < i ==> whole@[k] == prefix@[k],
    {
        if whole[i] != prefix[i] {
            assert forall|rest: Seq<char>| #[trigger] no_slash(rest) implies whole@ != prefix@ + rest by {
                assert((prefix@ + rest)[i as int] == prefix@[i as int]);
            }
            return None;
        }
    }
    for i in prefix.len()..whole.len()
        invariant
            prefix@.len() <= whole@.len(),
            forall|k: int| 0 <= k < prefix@.len() ==> whole@[k] == prefix@[k],
            forall|k: int| prefix@.len() <= k < i ==> whole@[k] != '/',
    {
        if whole[i] == '/' {
            assert forall|rest: Seq<char>| #[trigger] no_slash(rest) implies whole@ != prefix@ + rest by {
                if whole@ == prefix@ + rest {
                    assert(rest[i - prefix@.len()] == whole@[i as int]);
                }
            }
            return None;
        }
    }
    let rest = text::slice_text(whole, prefix.len(), whole.len());
    assert(whole@ =~= prefix@ + rest@);
    Some(rest)
}

/// Derives what a path holds when everything is removed that goes, down to a
/// level.
fn thin(before: &Manifest, after: &Manifest, path: &str, levels: usize) -> (r: Result<Fingerprint>)
    ensures
        r is Ok,
        r->Ok_0@ == thinned(before@, after@, path@, levels as nat),
    decreases levels,
{
    let pre = before.get(path);
    if levels == 0 {
        return Ok(pre);
    }
    let metadata: MetadataFingerprint = match &pre {
        Fingerprint::Directory { metadata, .. } => *metadata,
        _ => {
            return Ok(pre);
        },
    };
    let mut prefix = text::chars_of(path);
    prefix.push('/');
    let ghost start = path@ + seq!['/'];
    assert(prefix@ =~= start);
    let mut children: Table<Fingerprint> = Table::new();
    let count = before.entries.len();
    let ghost keys = before.entries.keys();
    let ghost b = before@;
    let ghost a = after@;
    let ghost fewer = (levels - 1) as nat;
    proof {
        assert(keys.take(0) =~= Seq::empty());
    }
    for i in 0..count
        invariant
            levels > 0,
            fewer == levels - 1,
            count == before.entries.rows().len(),
            before.entries.ordered(),
            keys == before.entries.keys(),
            b == before@,
            a == after@,
            start == path@ + seq!['/'],
            prefix@ == start,
            forall|name: Seq<char>|
                #![trigger children@.contains_key(name)]
                children@.contains_key(name) == (no_slash(name) && keys.take(i as int).contains(start + name) && !(at(
                    a,
                    start + name,
                ) is Absent)),
            forall|name: Seq<char>|
                #![trigger children@[name]]
                children@.contains_key(name) ==> children@[name] == thinned(b, a, start + name, fewer),
    {
        let key = before.entries.key(i);
        let ghost k = keys[i as int];
        let chars = text::chars_of(key.as_str());
        proof {
            crate::table::row_value(before.entries, i as int);
            assert(keys.take(i + 1) =~= keys.take(i as int).push(k));
            assert forall|x: Seq<char>| #[trigger] keys.take(i + 1).contains(x) == (keys.take(i as int).contains(x) || x
                == k) by {
                if x == k {
                    assert(keys.take(i + 1)[i as int] == x);
                }
                if keys.take(i as int).contains(x) {
                    let j = choose|j: int| 0 <= j < i && keys.take(i as int)[j] == x;
                    assert(keys.take(i + 1)[j] == x);
                }
                if keys.take(i + 1).contains(x) && x != k {
                    let more = keys.take(i + 1);
                    let j = choose|j: int| 0 <= j < more.len() && more[j] == x;
                    assert(keys.take(i as int)[j] == x);
                }
            }
        }
        match ends_after_prefix(&chars, &prefix) {
            None => {
                assert forall|name: Seq<char>|
                    #![trigger children@.contains_key(name)]
                    children@.contains_key(name) == (no_slash(name) && keys.take(i + 1).contains(start + name) && !(at(
                        a,
                        start + name,
                    ) is Absent)) by {
                    if no_slash(name) {
                        assert(k != start + name);
                    }
                }
            },
            Some(rest) => {
                let ghost name_here = rest@;
                let gone = match after.get(key.as_str()) {
                    Fingerprint::Absent => true,
                    _ => false,
                };
                assert forall|name: Seq<char>| start + name == k implies name == name_here by {
                    assert(name =~= (start + name).skip(start.len() as int));
                    assert(name_here =~= (start + name_here).skip(start.len() as int));
                }
                if !gone {
                    let child = match thin(before, after, key.as_str(), levels - 1) {
                        Ok(child) => child,
                        Err(error) => {
                            return Err(error);
                        },
                    };
                    children.insert(rest, child);
                }
            },
        }
    }
    assert(keys.take(keys.len() as int) =~= keys);
    let ghost kept = thinned_entries(b, a, path@, fewer);
    assert(children@ =~= kept) by {
        assert forall|name: Seq<char>| #[trigger] children@.contains_key(name) == kept.contains_key(name) by {
            crate::table::domain_is_keys(before.entries, start + name);
        }
    }
    Fingerprint::directory_from_children(&children, metadata)
}

/// Derives what a path is expected to hold when its turn comes.
pub fn effective_expected_before(before: &Manifest, after: &Manifest, path: &str) -> (r: Result<Fingerprint>)
    ensures
        r is Ok,
        r->Ok_0@ == expected_before(before@, after@, path@),
{
    let levels = before.entries.len();
    proof {
        crate::table::table_listed(before.entries);
    }
    thin(before, after, path, levels)
}

/// The paths that change, as their turns come.
fn ordered_paths(before: &Manifest, after: &Manifest) -> (r: Vec<StepKey>)
    ensures
        views(r@) == plan_order(before@, after@),
{
    let list = scan::changed_paths(before, after);
    let ghost all = union_paths(before@, after@);
    let ghost keep = |path: Seq<char>| at(before@, path) != at(after@, path);
    let ghost f = |path: Seq<char>| turn_of(after@, path);
    let ghost same = |path: Seq<char>| path;
    let mut keys: Vec<StepKey> = Vec::new();
    for i in 0..list.len()
        invariant
            views(list@) == order::kept(all, keep, same),
            f == (|path: Seq<char>| turn_of(after@, path)),
            views(keys@) == Seq::new(i as nat, |k: int| f(views(list@)[k])),
    {
        let path = list[i].as_str();
        let post = after.get(path);
        let key = StepKey {
            path: text::copy(path),
            removal: match &post {
                Fingerprint::Absent => true,
                _ => false,
            },
            directory: match &post {
                Fingerprint::Directory { .. } => true,
                _ => false,
            },
            depth: count_slashes(path),
        };
        assert(key@ == f(views(list@)[i as int]));
        proof {
            order::push_contains(keys@, key);
            assert(views(keys@).push(key@) =~= Seq::new((i + 1) as nat, |k: int| f(views(list@)[k])));
        }
        keys.push(key);
    }
    proof {
        kept_maps(all, keep, f);
        assert(views(keys@) =~= turns(before@, after@));
        order::sorted_arranges(keys@);
    }
    order::sort(keys)
}

proof fn kept_maps<B>(s: Seq<Seq<char>>, keep: spec_fn(Seq<char>) -> bool, f: spec_fn(Seq<char>) -> B)
    ensures
        order::kept(s, keep, f) == Seq::new(
            order::kept(s, keep, |p: Seq<char>| p).len(),
            |k: int| f(order::kept(s, keep, |p: Seq<char>| p)[k]),
        ),
    decreases s.len(),
{
    let same = |p: Seq<char>| p;
    if s.len() > 0 {
        kept_maps(s.drop_last(), keep, f);
    }
    assert(order::kept(s, keep, f) =~= Seq::new(
        order::kept(s, keep, same).len(),
        |k: int| f(order::kept(s, keep, same)[k]),
    ));
}

/// Writes down the plan of a transaction from one state to another: a step for
/// each path that changes. A path that cannot be restored refuses it.
pub fn build_journal(
    platform: Platform,
    workspace_id: u128,
    transaction_id: u128,
    operation_id: Option<i64>,
    anchor_id: String,
    target_state_id: String,
    direction: String,
    before: &Manifest,
    after: &Manifest,
    quarantine: &str,
    prepared: &str,
) -> (r: Result<Journal>)
    ensures
        r is Err == exists|i: int| #[trigger] first_refused(plan_order(before@, after@), after@, i),
        match r {
            Ok(journal) => {
                let steps = planned_steps(platform, before@, after@, quarantine@, prepared@);
                &&& journal@.steps == steps
                &&& journal@ == (JournalRecord {
                    transaction_id,
                    workspace_id,
                    operation_id,
                    anchor: anchor_id@,
                    target: target_state_id@,
                    direction: direction@,
                    status: JournalStatus::Planned,
                    steps,
                    archive_status: if journal@.has_backup() {
                        ArchiveStatus::Pending
                    } else {
                        ArchiveStatus::NotRequired
                    },
                    archive_error: None,
                })
            },
            Err(e) => forall|i: int| #[trigger]
                first_refused(plan_order(before@, after@), after@, i) ==> e@ == Fault::Unsupported(
                    "cannot restore "@ + plan_order(before@, after@)[i].path + " as "@ + at(
                        after@,
                        plan_order(before@, after@)[i].path,
                    ).kind_name(),
                ),
        },
{
    let list = ordered_paths(before, after);
    let ghost turns = plan_order(before@, after@);
    let mut steps: Vec<JournalStep> = Vec::new();
    let mut any_backup = false;
    for index in 0..list.len()
        invariant
            views(list@) == turns,
            turns == plan_order(before@, after@),
            views(steps@) == Seq::new(
                index as nat,
                |i: int| planned_step(platform, before@, after@, quarantine@, prepared@, i as nat, turns[i].path),
            ),
            forall|j: int| 0 <= j < index ==> at(after@, (#[trigger] turns[j]).path).supported(),
            any_backup == exists|i: int| 0 <= i < index && (#[trigger] views(steps@)[i]).backup_path is Some,
    {
        let path = list[index].path.as_str();
        assert(turns[index as int] == list@[index as int]@);
        let pre = before.get(path);
        let post = after.get(path);
        if !post.is_supported_for_restore() {
            let mut message = text::copy("cannot restore ");
            message.append(path);
            message.append(" as ");
            message.append(post.kind_name());
            assert(first_refused(turns, after@, index as int));
            assert forall|i: int| #[trigger] first_refused(turns, after@, i) implies i == index by {
                if i < index {
                    assert(at(after@, turns[i].path).supported());
                }
                if index < i {
                    assert(at(after@, turns[index as int].path).supported());
                }
            }
            return Err(RewindError::Unsupported(message));
        }
        let effective = match effective_expected_before(before, after, path) {
            Ok(f) => f,
            Err(e) => {
                return Err(e);
            },
        };
        let preserves = match (&pre, &post) {
            (Fingerprint::Directory { .. }, Fingerprint::Directory { .. }) => true,
            _ => false,
        };
        let absent = match &pre {
            Fingerprint::Absent => true,
            _ => false,
        };
        let backup_path = if !absent && !preserves {
            let mut name = text::decimal_usize(index);
            name.append(".backup");
            Some(paths::join(platform, quarantine, name.as_str()))
        } else {
            None
        };
        let staging_path = match &post {
            Fingerprint::RegularFile { .. } => {
                let mut name = text::decimal_usize(index);
                name.append(".file");
                Some(paths::join(platform, prepared, name.as_str()))
            },
            _ => None,
        };
        if backup_path.is_some() {
            any_backup = true;
        }
        let mut before_map: Table<Fingerprint> = Table::new();
        before_map.insert(text::copy(path), effective);
        let mut after_map: Table<Fingerprint> = Table::new();
        after_map.insert(text::copy(path), post);
        let mut own: Vec<String> = Vec::new();
        own.push(text::copy(path));
        assert(views(own@) =~= seq![path@]);
        let step = JournalStep {
            id: index,
            paths: own,
            before: before_map,
            after: after_map,
            backup_path,
            staging_path,
            status: JournalStatus::Planned,
        };
        let ghost shown = planned_step(platform, before@, after@, quarantine@, prepared@, index as nat, path@);
        assert(step@.before =~= shown.before);
        assert(step@.after =~= shown.after);
        assert(step@ == shown);
        let ghost so_far = views(steps@);
        proof {
            order::push_contains(steps@, step);
        }
        steps.push(step);
        proof {
            let now = views(steps@);
            assert(now =~= Seq::new(
                (index + 1) as nat,
                |i: int| planned_step(platform, before@, after@, quarantine@, prepared@, i as nat, turns[i].path),
            ));
            assert(forall|i: int| 0 <= i < index ==> now[i] == #[trigger] so_far[i]);
            if any_backup {
                if step@.backup_path is Some {
                    assert(now[index as int].backup_path is Some);
                } else {
                    let i = choose|i: int| 0 <= i < index && (#[trigger] so_far[i]).backup_path is Some;
                    assert(now[i].backup_path is Some);
                }
            } else {
                assert forall|i: int| 0 <= i < index + 1 implies !((#[trigger] now[i]).backup_path is Some) by {
                    if i < index {
                        assert(!(so_far[i].backup_path is Some));
                    }
                }
            }
        }
    }
    let archive_status = if any_backup {
        ArchiveStatus::Pending
    } else {
        ArchiveStatus::NotRequired
    };
    let journal = Journal {
        transaction_id,
        workspace_id,
        operation_id,
        anchor_state_id: anchor_id,
        target_state_id,
        direction,
        status: JournalStatus::Planned,
        steps,
        archive_status,
        archive_error: None,
    };
    assert(journal@.steps =~= planned_steps(platform, before@, after@, quarantine@, prepared@));
    assert forall|i: int| !(#[trigger] first_refused(turns, after@, i)) by {
        if 0 <= i < turns.len() {
            assert(at(after@, turns[i].path).supported());
        }
    }
    Ok(journal)
}

proof fn depth_concat(a: Seq<char>, b: Seq<char>)
    ensures
        depth(a + b) == depth(a) + depth(b),
    decreases b.len(),
{
    if b.len() == 0 {
        assert(a + b =~= a);
    } else {
        assert((a + b).drop_last() =~= a + b.drop_last());
        depth_concat(a, b.drop_last());
    }
}

/// What lies below a path lies deeper.
proof fn deeper_below(path: Seq<char>, top: Seq<char>)
    requires
        scan::within(path, top),
        path != top,
    ensures
        depth(path) > depth(top),
{
    let rest = path.skip(top.len() as int + 1);
    assert(path =~= top + (seq!['/'] + rest));
    depth_concat(top, seq!['/'] + rest);
    depth_concat(seq!['/'], rest);
    assert(seq!['/'].drop_last() =~= Seq::<char>::empty());
    assert(depth(seq!['/']) == 1) by {
        assert(seq!['/'].last() == '/');
        assert(depth(seq!['/'].drop_last()) == 0);
    }
}

/// The order of a plan keeps every step possible: nothing is installed before
/// everything is removed that goes, what lies in a directory is removed before
/// it, and a directory is installed before what is put into it.
pub proof fn plan_order_is_safe(before: Map<Seq<char>, Print>, after: Map<Seq<char>, Print>, i: int, j: int)
    requires
        0 <= i < plan_order(before, after).len(),
        0 <= j < plan_order(before, after).len(),
    ensures
        ({
            let list = plan_order(before, after);
            &&& list[i].removal && !list[j].removal ==> i < j
            &&& list[i].removal && list[j].removal && scan::within(list[i].path, list[j].path) && list[i].path
                != list[j].path ==> i < j
            &&& !list[i].removal && !list[j].removal && list[i].directory && scan::within(list[j].path, list[i].path)
                && list[i].path != list[j].path ==> i < j
        }),
{
    let list = plan_order(before, after);
    order::arranged_ascends::<StepKey>(turns(before, after));
    turns_are(before, after);
    assert(list[i].depth == depth(list[i].path) && list[j].depth == depth(list[j].path));
    if scan::within(list[i].path, list[j].path) && list[i].path != list[j].path {
        deeper_below(list[i].path, list[j].path);
    }
    if scan::within(list[j].path, list[i].path) && list[i].path != list[j].path {
        deeper_below(list[j].path, list[i].path);
    }
    if j < i {
        assert(!StepKey::before(list[i], list[j]));
    }
}

/// Each turn of a plan is that of its path, and belongs to a path that changes.
proof fn turns_are(before: Map<Seq<char>, Print>, after: Map<Seq<char>, Print>)
    ensures
        forall|i: int|
            0 <= i < plan_order(before, after).len() ==> {
                let t = #[trigger] plan_order(before, after)[i];
                t == turn_of(after, t.path) && at(before, t.path) != at(after, t.path)
            },
{
    let list = plan_order(before, after);
    let source = turns(before, after);
    let all = union_paths(before, after);
    let keep = |path: Seq<char>| at(before, path) != at(after, path);
    let f = |path: Seq<char>| turn_of(after, path);
    order::kept_are(all, keep, f);
    order::arranged_keeps::<StepKey>(source);
    assert forall|i: int| 0 <= i < list.len() implies {
        let t = #[trigger] list[i];
        t == turn_of(after, t.path) && at(before, t.path) != at(after, t.path)
    } by {
        broadcast use vstd::seq_lib::group_to_multiset_ensures;

        assert(list.contains(list[i]));
        assert(list.to_multiset().contains(list[i]));
        assert(source.contains(list[i]));
        let k = choose|k: int| 0 <= k < all.len() && keep(#[trigger] all[k]) && list[i] == f(all[k]);
    }
}

/// A plan has a step for a path exactly when the path changes, and one step for
/// it.
pub proof fn plan_covers_changes(before: Manifest, after: Manifest, path: Seq<char>)
    requires
        before.entries.ordered(),
        after.entries.ordered(),
    ensures
        ({
            let list = plan_order(before@, after@);
            &&& (at(before@, path) != at(after@, path)) == exists|i: int|
                0 <= i < list.len() && (#[trigger] list[i]).path == path
            &&& forall|i: int, j: int|
                0 <= i < list.len() && 0 <= j < list.len() && (#[trigger] list[i]).path == path && (
                #[trigger] list[j]).path == path ==> i == j
        }),
{
    broadcast use vstd::seq_lib::group_to_multiset_ensures;

    let b = before@;
    let a = after@;
    let list = plan_order(b, a);
    let source = turns(b, a);
    let all = union_paths(b, a);
    let keep = |p: Seq<char>| at(b, p) != at(a, p);
    let f = |p: Seq<char>| turn_of(a, p);
    turns_are(b, a);
    order::arranged_keeps::<StepKey>(source);
    order::kept_are(all, keep, f);
    scan::union_exists(before, after);
    if at(b, path) != at(a, path) {
        assert(all.contains(path));
        let k = choose|k: int| 0 <= k < all.len() && all[k] == path;
        assert(keep(all[k]));
        assert(source.contains(f(all[k])));
        assert(list.to_multiset().contains(turn_of(a, path)));
        assert(list.contains(turn_of(a, path)));
        let i = choose|i: int| 0 <= i < list.len() && list[i] == turn_of(a, path);
        assert(list[i].path == path);
    }
    assert forall|i: int, j: int|
        0 <= i < list.len() && 0 <= j < list.len() && (#[trigger] list[i]).path == path && (#[trigger] list[j]).path
            == path implies i == j by {
        assert(list[i] == turn_of(a, path) && list[j] == turn_of(a, path));
        if i != j {
            let t = turn_of(a, path);
            twice_counts(list, t, i, j);
            assert(source.to_multiset().count(t) >= 2);
            kept_once(all, keep, f, t);
        }
    }
}

proof fn twice_counts(s: Seq<Turn>, t: Turn, i: int, j: int)
    requires
        0 <= i < s.len(),
        0 <= j < s.len(),
        i != j,
        s[i] == t,
        s[j] == t,
    ensures
        s.to_multiset().count(t) >= 2,
{
    broadcast use vstd::seq_lib::group_to_multiset_ensures;

    let high = if i < j {
        j
    } else {
        i
    };
    let low = if i < j {
        i
    } else {
        j
    };
    let head = s.take(high);
    let tail = s.skip(high);
    assert(s =~= head + tail);
    vstd::seq_lib::lemma_multiset_commutative(head, tail);
    assert(head[low] == t);
    assert(head.contains(t));
    assert(tail[0] == t);
    assert(tail.contains(t));
    assert(head.to_multiset().count(t) >= 1);
    assert(tail.to_multiset().count(t) >= 1);
}

/// Among distinct paths, the turn of a path comes once.
proof fn kept_once(
    all: Seq<Seq<char>>,
    keep: spec_fn(Seq<char>) -> bool,
    f: spec_fn(Seq<char>) -> Turn,
    t: Turn,
)
    requires
        order::strictly_ascending::<String>(all),
        forall|p: Seq<char>| #[trigger] f(p).path == p,
    ensures
        order::kept(all, keep, f).to_multiset().count(t) <= 1,
        order::kept(all, keep, f).to_multiset().count(t) == 1 ==> all.contains(t.path),
    decreases all.len(),
{
    broadcast use vstd::seq_lib::group_to_multiset_ensures;

    if all.len() > 0 {
        let less = all.drop_last();
        let last = all.last();
        assert(order::strictly_ascending::<String>(less));
        kept_once(less, keep, f, t);
        if less.contains(t.path) {
            let i = choose|i: int| 0 <= i < less.len() && less[i] == t.path;
            assert(all[i] == t.path);
            assert(String::before(all[i], all[all.len() - 1]));
            text::before_irreflexive(last);
        }
        if t.path == last {
            assert(all[all.len() - 1] == t.path);
        }
    }
}


/// Whether a path holds what it should when everything is removed that the
/// target does not hold and nothing else has changed. Of a directory this says
/// that it stands there with its own metadata; what it holds is told by the
/// paths below it.
pub open spec fn holds_what_stays(
    before: Map<Seq<char>, Print>,
    after: Map<Seq<char>, Print>,
    now: Map<Seq<char>, Print>,
    path: Seq<char>,
) -> bool {
    if at(after, path) is Absent {
        at(now, path) is Absent
    } else {
        match at(before, path) {
            Print::Directory { manifest_hash, entry_count, metadata } => at(now, path) is Directory && at(
                now,
                path,
            )->Directory_metadata == metadata,
            other => at(now, path) == other,
        }
    }
}

/// The recorded paths below a path.
pub open spec fn recorded_below(m: Map<Seq<char>, Print>, path: Seq<char>) -> Set<Seq<char>> {
    Set::new(|p: Seq<char>| m.contains_key(p) && scan::within(p, path) && p != path)
}

proof fn fewer_below(m: Map<Seq<char>, Print>, path: Seq<char>, name: Seq<char>)
    requires
        m.dom().finite(),
        m.contains_key(path + seq!['/'] + name),
    ensures
        recorded_below(m, path + seq!['/'] + name).len() < recorded_below(m, path).len(),
        recorded_below(m, path).len() <= m.dom().len(),
        m.contains_key(path) ==> recorded_below(m, path).len() < m.dom().len(),
{
    let child = path + seq!['/'] + name;
    let all = recorded_below(m, path);
    let less = recorded_below(m, child);
    assert(child.take(path.len() as int) =~= path);
    assert(child[path.len() as int] == '/');
    assert(all.contains(child));
    assert forall|p: Seq<char>| less.contains(p) implies #[trigger] all.remove(child).contains(p) by {
        assert(p.take(path.len() as int) =~= p.take(child.len() as int).take(path.len() as int));
        assert(p[path.len() as int] == p.take(child.len() as int)[path.len() as int]);
    }
    vstd::set_lib::lemma_len_subset(all, m.dom());
    vstd::set_lib::lemma_len_subset(less, all.remove(child));
    if m.contains_key(path) {
        assert forall|p: Seq<char>| all.contains(p) implies #[trigger] m.dom().remove(path).contains(p) by {}
        vstd::set_lib::lemma_len_subset(all, m.dom().remove(path));
    }
}

proof fn nothing_deeper_is_missed(
    before: Map<Seq<char>, Print>,
    after: Map<Seq<char>, Print>,
    root: Seq<char>,
    tree: scan::Directory,
    fold: scan::Filesystem,
    names: Seq<Seq<char>>,
    levels: nat,
)
    requires
        before.dom().finite(),
        levels > recorded_below(before, scan::path_of(names)).len(),
        scan::well_named_directory(tree),
        scan::scan_of(root, tree, fold) is Ok,
        names.len() > 0,
        forall|i: int| 0 <= i < names.len() ==> no_slash(#[trigger] names[i]),
        forall|p: Seq<char>| #[trigger] before.contains_key(p) ==> !(before[p] is Absent),
        at(before, scan::path_of(names)) is Directory,
        at(scan::scan_of(root, tree, fold)->Ok_0.1.entries, scan::path_of(names)) is Directory,
        at(scan::scan_of(root, tree, fold)->Ok_0.1.entries, scan::path_of(names))->Directory_metadata == at(
            before,
            scan::path_of(names),
        )->Directory_metadata,
        forall|p: Seq<char>|
            scan::within(p, scan::path_of(names)) && p != scan::path_of(names) ==> #[trigger] holds_what_stays(
                before,
                after,
                scan::scan_of(root, tree, fold)->Ok_0.1.entries,
                p,
            ),
    ensures
        at(scan::scan_of(root, tree, fold)->Ok_0.1.entries, scan::path_of(names)) == thinned(
            before,
            after,
            scan::path_of(names),
            levels,
        ),
    decreases levels,
{
    let path = scan::path_of(names);
    let now = scan::scan_of(root, tree, fold)->Ok_0.1.entries;
    let spot = scan::spot_at(scan::top(fold.platform, root), names);
    let fewer = (levels - 1) as nat;
    scan::scan_records_directories(root, tree, fold, names);
    scan::manifest_is_consistent(root, tree, fold, names);
    scan::spot_of_path(fold.platform, root, names);
    let left = thinned_entries(before, after, path, fewer);
    let seen = scan::children_of(now, spot);
    assert forall|name: Seq<char>| #[trigger] seen.contains_key(name) == left.contains_key(name) && (seen.contains_key(
        name,
    ) ==> seen[name] == left[name]) by {
        let child = path + seq!['/'] + name;
        assert(spot.child(name).relative == child);
        assert(child.take(path.len() as int) =~= path);
        assert(child[path.len() as int] == '/');
        assert(holds_what_stays(before, after, now, child));
        if now.contains_key(child) {
            scan::scan_records_presence(root, tree, fold, child);
        }
        if no_slash(name) && left.contains_key(name) && before[child] is Directory {
            let more = names.push(name);
            scan::path_of_entry(names, name);
            fewer_below(before, path, name);
            assert forall|i: int| 0 <= i < more.len() implies no_slash(#[trigger] more[i]) by {
                if i < names.len() {
                    assert(more[i] == names[i]);
                }
            }
            assert forall|p: Seq<char>| scan::within(p, child) && p != child implies #[trigger] holds_what_stays(
                before,
                after,
                now,
                p,
            ) by {
                assert(p.take(path.len() as int) =~= p.take(child.len() as int).take(path.len() as int));
                assert(p[path.len() as int] == p.take(child.len() as int)[path.len() as int]);
                assert(scan::within(p, path));
            }
            nothing_deeper_is_missed(before, after, root, tree, fold, more, fewer);
        }
    }
    assert(seen =~= left);
}

/// A transaction does not take its own work for a conflict: where everything
/// below a directory is gone that the target does not hold, and nothing else has
/// changed, a scan finds at the directory exactly what its step expects there.
pub proof fn own_removals_are_expected(
    before: Manifest,
    after: Map<Seq<char>, Print>,
    root: Seq<char>,
    tree: scan::Directory,
    fold: scan::Filesystem,
    names: Seq<Seq<char>>,
)
    requires
        before.entries.ordered(),
        forall|p: Seq<char>| #[trigger] before@.contains_key(p) ==> !(before@[p] is Absent),
        scan::well_named_directory(tree),
        scan::scan_of(root, tree, fold) is Ok,
        names.len() > 0,
        forall|i: int| 0 <= i < names.len() ==> no_slash(#[trigger] names[i]),
        at(before@, scan::path_of(names)) is Directory,
        at(scan::scan_of(root, tree, fold)->Ok_0.1.entries, scan::path_of(names)) is Directory,
        at(scan::scan_of(root, tree, fold)->Ok_0.1.entries, scan::path_of(names))->Directory_metadata == at(
            before@,
            scan::path_of(names),
        )->Directory_metadata,
        forall|p: Seq<char>|
            scan::within(p, scan::path_of(names)) && p != scan::path_of(names) ==> #[trigger] holds_what_stays(
                before@,
                after,
                scan::scan_of(root, tree, fold)->Ok_0.1.entries,
                p,
            ),
    ensures
        at(scan::scan_of(root, tree, fold)->Ok_0.1.entries, scan::path_of(names)) == expected_before(
            before@,
            after,
            scan::path_of(names),
        ),
{
    let path = scan::path_of(names);
    let m = before@;
    let keys = before.entries.keys();
    crate::table::table_listed(before.entries);
    assert(m.dom() =~= keys.to_set()) by {
        assert forall|k: Seq<char>| #[trigger] m.dom().contains(k) == keys.to_set().contains(k) by {
            crate::table::domain_is_keys(before.entries, k);
        }
    }
    assert(keys.no_duplicates()) by {
        assert forall|i: int, j: int| 0 <= i < keys.len() && 0 <= j < keys.len() && i != j implies keys[i]
            != keys[j] by {
            text::before_irreflexive(keys[i]);
            assert(i < j ==> String::before(keys[i], keys[j]));
            assert(j < i ==> String::before(keys[j], keys[i]));
        }
    }
    keys.unique_seq_to_set();
    let all = recorded_below(m, path);
    assert forall|p: Seq<char>| all.contains(p) implies #[trigger] m.dom().remove(path).contains(p) by {}
    vstd::set_lib::lemma_len_subset(all, m.dom().remove(path));
    nothing_deeper_is_missed(m, after, root, tree, fold, names, crate::table::listed(m).len());
}

// ---------------------------------------------------------------------------
// The gates of a transaction
// ---------------------------------------------------------------------------

/// Refuses a rollback of a workspace that is not healthy.
pub fn require_healthy(condition: WorkspaceCondition) -> (r: Result<()>)
    ensures
        r is Ok == (condition is Healthy),
        r is Err ==> r->Err_0@ == Fault::ConditionBlocked(
            if condition is RecoveryRequired {
                "RECOVERY_REQUIRED; run `rewind recover` to classify the unfinished transaction, or `rewind recover --reconcile` to abandon it and reconcile"@
            } else {
                condition.text() + "; run rewind reconcile before rollback"@
            },
        ),
{
    match condition {
        WorkspaceCondition::Healthy => Ok(()),
        WorkspaceCondition::RecoveryRequired => Err(
            RewindError::ConditionBlocked(
                text::copy(
                    "RECOVERY_REQUIRED; run `rewind recover` to classify the unfinished transaction, or `rewind recover --reconcile` to abandon it and reconcile",
                ),
            ),
        ),
        other => {
            let mut message = text::copy(other.as_str());
            message.append("; run rewind reconcile before rollback");
            Err(RewindError::ConditionBlocked(message))
        },
    }
}

fn not_eligible(id: i64, verb: &str) -> (r: RewindError)
    ensures
        r@ == Fault::ConditionBlocked(
            "operation "@ + decimal_int(id as int) + " is not eligible for "@ + verb@,
        ),
{
    let mut message = text::copy("operation ");
    message.append(text::decimal_i64(id).as_str());
    message.append(" is not eligible for ");
    message.append(verb);
    RewindError::ConditionBlocked(message)
}

/// Refuses to undo an operation that is not in effect or not reversible.
pub fn check_undo(operation: &OperationRecord) -> (r: Result<()>)
    ensures
        r is Ok == can_undo(*operation),
        r is Err ==> r->Err_0@ == Fault::ConditionBlocked(
            "operation "@ + decimal_int(operation.id as int) + " is not eligible for "@ + "undo"@,
        ),
{
    if is_undoable(operation) {
        Ok(())
    } else {
        Err(not_eligible(operation.id, "undo"))
    }
}

/// Refuses to redo an operation that is not undone or not reversible.
pub fn check_redo(operation: &OperationRecord) -> (r: Result<()>)
    ensures
        r is Ok == can_redo(*operation),
        r is Err ==> r->Err_0@ == Fault::ConditionBlocked(
            "operation "@ + decimal_int(operation.id as int) + " is not eligible for "@ + "redo"@,
        ),
{
    if is_redoable(operation) {
        Ok(())
    } else {
        Err(not_eligible(operation.id, "redo"))
    }
}

/// What going from one recorded state to another comes to, with the workspace
/// in a third: it must be in the state that is left, unless that is forced.
pub open spec fn passage(
    from: Option<Seq<char>>,
    from_name: Seq<char>,
    to: Option<Seq<char>>,
    to_name: Seq<char>,
    current: Seq<char>,
    force: bool,
) -> std::result::Result<Seq<char>, Fault> {
    if from is None {
        Err(Fault::NotFound(from_name))
    } else if current != from->0 && !force {
        Err(Fault::Conflict { path: "<workspace>"@, expected: from->0, found: current })
    } else if to is None {
        Err(Fault::NotFound(to_name))
    } else {
        Ok(to->0)
    }
}

fn pass(
    from: &Option<String>,
    from_name: &str,
    to: &Option<String>,
    to_name: &str,
    current: &str,
    force: bool,
) -> (r: Result<String>)
    ensures
        match passage(optional(*from), from_name@, optional(*to), to_name@, current@, force) {
            Ok(target) => r is Ok && r->Ok_0@ == target,
            Err(fault) => r is Err && r->Err_0@ == fault,
        },
{
    let expected = match from {
        Some(s) => s,
        None => {
            return Err(RewindError::NotFound(text::copy(from_name)));
        },
    };
    if !text::same(current, expected.as_str()) && !force {
        return Err(
            RewindError::Conflict {
                path: text::copy("<workspace>"),
                expected: text::copy(expected.as_str()),
                found: text::copy(current),
            },
        );
    }
    match to {
        Some(s) => Ok(text::copy(s.as_str())),
        None => Err(RewindError::NotFound(text::copy(to_name))),
    }
}

/// The state that undoing an operation leads to. The workspace must be in the
/// state that the operation left, unless that is forced.
pub fn undo(operation: &OperationRecord, current: &str, force: bool) -> (r: Result<String>)
    ensures
        match passage(
            optional(operation.post_state_id),
            "operation post-state"@,
            optional(operation.pre_state_id),
            "operation pre-state"@,
            current@,
            force,
        ) {
            Ok(target) => r is Ok && r->Ok_0@ == target,
            Err(fault) => r is Err && r->Err_0@ == fault,
        },
{
    pass(
        &operation.post_state_id,
        "operation post-state",
        &operation.pre_state_id,
        "operation pre-state",
        current,
        force,
    )
}

/// The state that redoing an operation leads to. The workspace must be in the
/// state that the operation found.
pub fn redo(operation: &OperationRecord, current: &str) -> (r: Result<String>)
    ensures
        match passage(
            optional(operation.pre_state_id),
            "operation pre-state"@,
            optional(operation.post_state_id),
            "operation post-state"@,
            current@,
            false,
        ) {
            Ok(target) => r is Ok && r->Ok_0@ == target,
            Err(fault) => r is Err && r->Err_0@ == fault,
        },
{
    pass(
        &operation.pre_state_id,
        "operation pre-state",
        &operation.post_state_id,
        "operation post-state",
        current,
        false,
    )
}

/// The record of a restore, before it is carried out.
pub fn restore_snapshot(current: &str, target: &str, root: &str, effects: Vec<Effect>) -> (r: OperationDraft)
    ensures
        r.kind == OperationKind::Restore,
        r.status == OperationStatus::Untrusted,
        optional(r.pre_state_id) == Some(current@),
        optional(r.post_state_id) == Some(target@),
        r.command is None,
        optional(r.cwd) == Some(root@),
        r.exit_code is None,
        r.confidence == TrackingConfidence::FullyTracked,
        r.reversibility == Reversibility::FullyReversible,
        r.error is None,
        r.effects == effects,
{
    OperationDraft {
        kind: OperationKind::Restore,
        status: OperationStatus::Untrusted,
        pre_state_id: Some(text::copy(current)),
        post_state_id: Some(text::copy(target)),
        command: None,
        cwd: Some(text::copy(root)),
        exit_code: None,
        confidence: TrackingConfidence::FullyTracked,
        reversibility: Reversibility::FullyReversible,
        error: None,
        effects,
    }
}

/// A redo leads back to the state from which the undo started, and the undo to
/// the state from which the redo starts.
pub proof fn redo_reverses_undo(operation: OperationRecord, force: bool)
    requires
        operation.pre_state_id is Some,
        operation.post_state_id is Some,
    ensures
        ({
            let pre = optional(operation.pre_state_id);
            let post = optional(operation.post_state_id);
            &&& passage(post, "operation post-state"@, pre, "operation pre-state"@, post->0, force) == Ok::<
                Seq<char>,
                Fault,
            >(pre->0)
            &&& passage(pre, "operation pre-state"@, post, "operation post-state"@, pre->0, false) == Ok::<
                Seq<char>,
                Fault,
            >(post->0)
        }),
{
}

/// The digests of the files of a manifest, whose contents must be stored before
/// anything is touched.
pub open spec fn file_digests(m: Map<Seq<char>, Print>) -> Seq<Seq<char>> {
    order::kept(
        crate::table::listed(m),
        |row: (Seq<char>, Print)| row.1 is RegularFile,
        |row: (Seq<char>, Print)| row.1->RegularFile_content_hash,
    )
}

pub fn anchor_objects(manifest: &Manifest) -> (r: Vec<String>)
    ensures
        views(r@) == file_digests(manifest@),
        manifest.entries.ordered(),
{
    let table = &manifest.entries;
    let count = table.len();
    let ghost rows = table.shown();
    proof {
        crate::table::table_listed(*table);
    }
    let ghost keep = |row: (Seq<char>, Print)| row.1 is RegularFile;
    let ghost f = |row: (Seq<char>, Print)| row.1->RegularFile_content_hash;
    let mut out: Vec<String> = Vec::new();
    assert(views(out@) =~= order::kept(rows.take(0), keep, f));
    for i in 0..count
        invariant
            count == table.rows().len(),
            table.ordered(),
            rows == table.shown(),
            keep == (|row: (Seq<char>, Print)| row.1 is RegularFile),
            f == (|row: (Seq<char>, Print)| row.1->RegularFile_content_hash),
            views(out@) == order::kept(rows.take(i as int), keep, f),
    {
        proof {
            order::kept_step(rows, i as int, keep, f);
        }
        assert(rows[i as int].1 == table.rows()[i as int].1@);
        match table.value(i) {
            Fingerprint::RegularFile { content_hash, .. } => {
                let hash = text::copy(content_hash.as_str());
                proof {
                    order::push_contains(out@, hash);
                }
                out.push(hash);
            },
            _ => {},
        }
    }
    assert(rows.take(rows.len() as int) =~= rows);
    out
}

// ---------------------------------------------------------------------------
// One step
// ---------------------------------------------------------------------------

/// What a step is about: its path, and what that holds before and after.
pub struct Facts {
    pub path: Seq<char>,
    pub before: Print,
    pub after: Print,
}

pub open spec fn journal_fault(head: Seq<char>, index: nat, tail: Seq<char>) -> Fault {
    Fault::Journal(head + decimal(index) + tail)
}

/// What the step at an index is about, or what is missing in it.
pub open spec fn facts_of(steps: Seq<StepRecord>, index: nat) -> std::result::Result<Facts, Fault> {
    if index >= steps.len() {
        Err(Fault::Journal("missing step "@ + decimal(index)))
    } else {
        let step = steps[index as int];
        if step.paths.len() == 0 {
            Err(journal_fault("step "@, index, " has no path"@))
        } else if !step.before.contains_key(step.paths[0]) {
            Err(journal_fault("step "@, index, " has no before state"@))
        } else if !step.after.contains_key(step.paths[0]) {
            Err(journal_fault("step "@, index, " has no after state"@))
        } else {
            Ok(Facts { path: step.paths[0], before: step.before[step.paths[0]], after: step.after[step.paths[0]] })
        }
    }
}

/// What a step is about.
pub struct StepFacts {
    pub path: String,
    pub before: Fingerprint,
    pub after: Fingerprint,
}

impl View for StepFacts {
    type V = Facts;

    open spec fn view(&self) -> Facts {
        Facts { path: self.path@, before: self.before@, after: self.after@ }
    }
}

fn step_error(head: &str, index: usize, tail: &str) -> (r: RewindError)
    ensures
        r@ == journal_fault(head@, index as nat, tail@),
{
    let mut message = text::copy(head);
    message.append(text::decimal_usize(index).as_str());
    message.append(tail);
    RewindError::Journal(message)
}

/// Reads what the step at an index is about.
pub fn step_facts(journal: &Journal, index: usize) -> (r: Result<StepFacts>)
    ensures
        match facts_of(journal@.steps, index as nat) {
            Ok(facts) => r is Ok && r->Ok_0@ == facts,
            Err(fault) => r is Err && r->Err_0@ == fault,
        },
{
    if index >= journal.steps.len() {
        let mut message = text::copy("missing step ");
        message.append(text::decimal_usize(index).as_str());
        return Err(RewindError::Journal(message));
    }
    let step = &journal.steps[index];
    assert(journal@.steps[index as int] == step@);
    if step.paths.len() == 0 {
        return Err(step_error("step ", index, " has no path"));
    }
    let path = step.paths[0].as_str();
    let before = match step.before.get(path) {
        Some(f) => f.duplicate(),
        None => {
            return Err(step_error("step ", index, " has no before state"));
        },
    };
    let after = match step.after.get(path) {
        Some(f) => f.duplicate(),
        None => {
            return Err(step_error("step ", index, " has no after state"));
        },
    };
    Ok(StepFacts { path: text::copy(path), before, after })
}

/// Whether what a step replaces is safe: there was nothing, a directory stays,
/// or it was moved aside.
pub open spec fn backup_sufficient(step: StepRecord, before: Print, backup_exists: bool) -> bool {
    ||| before is Absent
    ||| before is Directory && crate::table::listed(step.after).len() > 0 && crate::table::listed(step.after)[0].1 is Directory
    ||| step.backup_path is Some && backup_exists
}

/// Whether what a step replaces is safe. `backup_exists` says whether anything
/// stands where it is moved to.
pub fn backup_is_sufficient(step: &JournalStep, before: &Fingerprint, backup_exists: bool) -> (r: bool)
    ensures
        r == backup_sufficient(step@, before@, backup_exists),
{
    let count = step.after.len();
    proof {
        crate::table::table_listed(step.after);
    }
    let stays = match before {
        Fingerprint::Directory { .. } => if count > 0 {
            match step.after.value(0) {
                Fingerprint::Directory { .. } => true,
                _ => false,
            }
        } else {
            false
        },
        _ => false,
    };
    let absent = match before {
        Fingerprint::Absent => true,
        _ => false,
    };
    absent || stays || (step.backup_path.is_some() && backup_exists)
}

/// How a step begins.
#[derive(Debug)]
pub enum StepStart {
    /// It is done already.
    Done,
    /// The path holds something that the plan does not know. It is left alone.
    Conflict(RewindError),
    /// It is to be carried out.
    Apply,
}

/// How a step begins, given what its path holds, and what becomes of the
/// journal.
pub open spec fn start_of(
    journal: JournalRecord,
    index: int,
    facts: Facts,
    actual: Print,
    backup_exists: bool,
    force: bool,
) -> (Option<Fault>, JournalRecord) {
    if actual == facts.after && backup_sufficient(journal.steps[index], facts.before, backup_exists) {
        (None, journal.with_step(index, JournalStatus::Durable))
    } else if actual != facts.before && !force {
        (
            Some(Fault::Conflict { path: facts.path, expected: facts.before.describe(), found: actual.describe() }),
            journal.with_status(JournalStatus::RecoveryRequired).with_step(index, JournalStatus::RecoveryRequired),
        )
    } else {
        (None, journal.with_status(JournalStatus::Applying).with_step(index, JournalStatus::Applying))
    }
}

/// Judges what the path of a step holds, and marks the step accordingly. The
/// journal is written before anything is touched.
pub fn begin_step(
    journal: &mut Journal,
    index: usize,
    facts: &StepFacts,
    actual: &Fingerprint,
    backup_exists: bool,
    force: bool,
) -> (r: StepStart)
    requires
        facts_of(old(journal)@.steps, index as nat) == Ok::<Facts, Fault>(facts@),
    ensures
        final(journal)@ == start_of(old(journal)@, index as int, facts@, actual@, backup_exists, force).1,
        r is Conflict == start_of(old(journal)@, index as int, facts@, actual@, backup_exists, force).0 is Some,
        r is Conflict ==> Some(r->Conflict_0@) == start_of(
            old(journal)@,
            index as int,
            facts@,
            actual@,
            backup_exists,
            force,
        ).0,
        r is Done == (actual@ == facts@.after && backup_sufficient(
            old(journal)@.steps[index as int],
            facts@.before,
            backup_exists,
        )),
{
    assert(journal@.steps[index as int] == journal.steps@[index as int]@);
    if actual.same(&facts.after) && backup_is_sufficient(&journal.steps[index], &facts.before, backup_exists) {
        set_step_status(journal, index, JournalStatus::Durable);
        return StepStart::Done;
    }
    if !actual.same(&facts.before) && !force {
        journal.status = JournalStatus::RecoveryRequired;
        set_step_status(journal, index, JournalStatus::RecoveryRequired);
        return StepStart::Conflict(
            RewindError::Conflict {
                path: text::copy(facts.path.as_str()),
                expected: facts.before.describe(),
                found: actual.describe(),
            },
        );
    }
    journal.status = JournalStatus::Applying;
    set_step_status(journal, index, JournalStatus::Applying);
    StepStart::Apply
}

/// Where a step moves what stands at its path: nowhere, if there is nothing or
/// if a directory stays.
pub fn quarantine_of(step: &JournalStep, facts: &StepFacts, actual: &Fingerprint) -> (r: Result<Option<String>>)
    ensures
        ({
            let moves = !(actual@ is Absent) && !keeps_directory(facts@.before, facts@.after);
            &&& r is Err == (moves && step@.backup_path is None)
            &&& r is Err ==> r->Err_0@ == Fault::Journal("existing source has no backup path"@)
            &&& r is Ok ==> optional(r->Ok_0) == if moves {
                step@.backup_path
            } else {
                None
            }
        }),
{
    let stays = match (&facts.before, &facts.after) {
        (Fingerprint::Directory { .. }, Fingerprint::Directory { .. }) => true,
        _ => false,
    };
    let absent = match actual {
        Fingerprint::Absent => true,
        _ => false,
    };
    if absent || stays {
        return Ok(None);
    }
    match &step.backup_path {
        Some(path) => Ok(Some(text::copy(path.as_str()))),
        None => Err(RewindError::Journal(text::copy("existing source has no backup path"))),
    }
}

/// What a step puts in place.
#[derive(Debug)]
pub enum Install {
    Nothing,
    File { stage: String, metadata: MetadataFingerprint },
    Directory { metadata: MetadataFingerprint },
    Symlink { target: String, target_kind: SymlinkTargetKind },
    NamedPipe { metadata: MetadataFingerprint },
}

/// What a step puts in place.
pub fn installation(step: &JournalStep, facts: &StepFacts) -> (r: Result<Install>)
    ensures
        match facts@.after {
            Print::Absent => r == Ok::<Install, RewindError>(Install::Nothing),
            Print::RegularFile { content_hash, size, metadata } => match step@.staging_path {
                Some(stage) => {
                    &&& r is Ok
                    &&& r->Ok_0 is File
                    &&& r->Ok_0->stage@ == stage
                    &&& r->Ok_0->File_metadata == metadata
                },
                None => r is Err && r->Err_0@ == Fault::Journal("regular file has no stage"@),
            },
            Print::Directory { manifest_hash, entry_count, metadata } => r == Ok::<Install, RewindError>(
                Install::Directory { metadata },
            ),
            Print::Symlink { target, target_kind, target_hash, metadata } => {
                &&& r is Ok
                &&& r->Ok_0 is Symlink
                &&& r->Ok_0->target@ == target
                &&& r->Ok_0->target_kind == target_kind
            },
            Print::NamedPipe { metadata } => r == Ok::<Install, RewindError>(Install::NamedPipe { metadata }),
            Print::Unsupported { object_kind, descriptor } => r is Err && r->Err_0@ == Fault::Unsupported(
                "cannot install unsupported object at "@ + facts@.path,
            ),
        },
{
    match &facts.after {
        Fingerprint::Absent => Ok(Install::Nothing),
        Fingerprint::RegularFile { metadata, .. } => match &step.staging_path {
            Some(stage) => Ok(Install::File { stage: text::copy(stage.as_str()), metadata: *metadata }),
            None => Err(RewindError::Journal(text::copy("regular file has no stage"))),
        },
        Fingerprint::Directory { metadata, .. } => Ok(Install::Directory { metadata: *metadata }),
        Fingerprint::Symlink { target, target_kind, .. } => Ok(
            Install::Symlink { target: text::copy(target.as_str()), target_kind: *target_kind },
        ),
        Fingerprint::NamedPipe { metadata } => Ok(Install::NamedPipe { metadata: *metadata }),
        Fingerprint::Unsupported { .. } => {
            let mut message = text::copy("cannot install unsupported object at ");
            message.append(facts.path.as_str());
            Err(RewindError::Unsupported(message))
        },
    }
}

/// Whether a link is made as one to a directory. Where the platform tells links
/// to files and to directories apart, a link of which that is not known is
/// refused, never guessed.
pub fn link_is_directory(kind: SymlinkTargetKind, told_apart: bool, path: &str) -> (r: Result<bool>)
    ensures
        if told_apart && kind is Unknown {
            r is Err && r->Err_0@ == Fault::Unsupported("cannot install link of unknown kind at "@ + path@)
        } else {
            r == Ok::<bool, RewindError>(kind is Directory)
        },
{
    if told_apart && !kind.is_creatable() {
        let mut message = text::copy("cannot install link of unknown kind at ");
        message.append(path);
        return Err(RewindError::Unsupported(message));
    }
    Ok(kind == SymlinkTargetKind::Directory)
}

/// Marks a step as carried out. It is not durable before it was looked at.
pub fn step_applied(journal: &mut Journal, index: usize)
    requires
        index < old(journal).steps@.len(),
    ensures
        final(journal)@ == old(journal)@.with_step(index as int, JournalStatus::Applied),
{
    set_step_status(journal, index, JournalStatus::Applied);
}

/// Whether a path holds what a step was to put there. A directory may still
/// lack its entries.
pub open spec fn compatible(actual: Print, desired: Print) -> bool {
    actual == desired || keeps_directory(actual, desired)
}

pub fn compatible_after(actual: &Fingerprint, desired: &Fingerprint) -> (r: bool)
    ensures
        r == compatible(actual@, desired@),
{
    match (actual, desired) {
        (Fingerprint::Directory { .. }, Fingerprint::Directory { .. }) => true,
        _ => actual.same(desired),
    }
}

/// Looks at what a step left, and marks it durable or the transaction stuck.
pub fn finish_step(journal: &mut Journal, index: usize, facts: &StepFacts, actual_after: &Fingerprint) -> (r: Result<()>)
    requires
        index < old(journal).steps@.len(),
    ensures
        r is Ok == compatible(actual_after@, facts@.after),
        r is Ok ==> final(journal)@ == old(journal)@.with_status(JournalStatus::Durable).with_step(
            index as int,
            JournalStatus::Durable,
        ),
        r is Err ==> {
            &&& final(journal)@ == old(journal)@.with_status(JournalStatus::RecoveryRequired).with_step(
                index as int,
                JournalStatus::RecoveryRequired,
            )
            &&& r->Err_0@ == Fault::RecoveryRequired(
                "step "@ + decimal(index as nat) + " did not reach expected after state at "@ + facts@.path,
            )
        },
{
    if !compatible_after(actual_after, &facts.after) {
        journal.status = JournalStatus::RecoveryRequired;
        set_step_status(journal, index, JournalStatus::RecoveryRequired);
        let mut message = text::copy("step ");
        message.append(text::decimal_usize(index).as_str());
        message.append(" did not reach expected after state at ");
        message.append(facts.path.as_str());
        return Err(RewindError::RecoveryRequired(message));
    }
    journal.status = JournalStatus::Durable;
    set_step_status(journal, index, JournalStatus::Durable);
    Ok(())
}

/// A step that finds its path changed by someone else does not go on, unless
/// that is forced: the path is neither moved nor replaced.
pub proof fn conflict_stops_a_step(
    journal: JournalRecord,
    index: int,
    facts: Facts,
    actual: Print,
    backup_exists: bool,
)
    requires
        actual != facts.before,
        actual != facts.after,
        0 <= index < journal.steps.len(),
    ensures
        ({
            let (fault, after) = start_of(journal, index, facts, actual, backup_exists, false);
            &&& fault is Some
            &&& after.status == JournalStatus::RecoveryRequired
            &&& after.steps[index].status == JournalStatus::RecoveryRequired
        }),
{
}

// ---------------------------------------------------------------------------
// Artifacts that were moved aside
// ---------------------------------------------------------------------------

/// What stands where something was moved or copied to.
#[derive(Debug)]
pub enum Artifact {
    /// Nothing that can be looked at, for the reason given.
    Missing(String),
    /// A file, and its content or why that cannot be read.
    File { size: u64, content: std::result::Result<Vec<u8>, String> },
    Directory(Folder),
    /// A link, and its target or why that cannot be read.
    Symlink { target: std::result::Result<String, String> },
    NamedPipe,
    Other,
}

/// What a directory holds.
#[derive(Debug)]
pub struct Folder {
    /// Why it could not be listed, if it could not.
    pub problem: Option<String>,
    pub items: Vec<Item>,
}

#[derive(Debug)]
pub struct Item {
    pub name: String,
    pub artifact: Artifact,
}

impl Folder {
    /// The names in a directory, as they were listed.
    pub open spec fn names(self) -> Seq<Seq<char>> {
        self.items@.map_values(|item: Item| item.name@)
    }
}

/// Whether an artifact is the object that a fingerprint describes. Of a
/// directory only its kind is compared.
pub open spec fn artifact_is(artifact: Artifact, expected: Print) -> bool {
    match expected {
        Print::Absent => artifact is Missing,
        Print::RegularFile { content_hash, size, metadata } => match artifact {
            Artifact::File { size: found, content: Ok(bytes) } => found == size && outside::blake3_hex(bytes@)
                == content_hash,
            _ => false,
        },
        Print::Directory { .. } => artifact is Directory,
        Print::Symlink { target, target_kind, target_hash, metadata } => match artifact {
            Artifact::Symlink { target: Ok(found) } => found@ == target,
            _ => false,
        },
        Print::NamedPipe { .. } => artifact is NamedPipe,
        Print::Unsupported { .. } => false,
    }
}

pub fn artifact_matches_fingerprint(artifact: &Artifact, expected: &Fingerprint) -> (r: bool)
    ensures
        r == artifact_is(*artifact, expected@),
{
    match expected {
        Fingerprint::Absent => match artifact {
            Artifact::Missing(_) => true,
            _ => false,
        },
        Fingerprint::RegularFile { content_hash, size, .. } => match artifact {
            Artifact::File { size: found, content: Ok(bytes) } => {
                *found == *size && text::same(outside::hash_hex(bytes.as_slice()).as_str(), content_hash.as_str())
            },
            _ => false,
        },
        Fingerprint::Directory { .. } => match artifact {
            Artifact::Directory(_) => true,
            _ => false,
        },
        Fingerprint::Symlink { target, .. } => match artifact {
            Artifact::Symlink { target: Ok(found) } => text::same(found.as_str(), target.as_str()),
            _ => false,
        },
        Fingerprint::NamedPipe { .. } => match artifact {
            Artifact::NamedPipe => true,
            _ => false,
        },
        Fingerprint::Unsupported { .. } => false,
    }
}

/// Whether what a step moved aside is what it found.
pub open spec fn backup_is(step: StepRecord, artifact: Artifact, expected: Print) -> bool {
    if step.backup_path is None {
        expected is Absent
    } else {
        artifact_is(artifact, expected)
    }
}

pub fn backup_matches_fingerprint(step: &JournalStep, artifact: &Artifact, expected: &Fingerprint) -> (r: bool)
    ensures
        r == backup_is(step@, *artifact, expected@),
{
    if step.backup_path.is_none() {
        match expected {
            Fingerprint::Absent => true,
            _ => false,
        }
    } else {
        artifact_matches_fingerprint(artifact, expected)
    }
}

/// Whether what a step puts in place can be had.
pub open spec fn ready(step: StepRecord, desired: Print, staged: bool) -> bool {
    match desired {
        Print::RegularFile { .. } => step.staging_path is Some && staged,
        Print::Directory { .. } | Print::Symlink { .. } | Print::NamedPipe { .. } => true,
        Print::Absent | Print::Unsupported { .. } => false,
    }
}

/// Whether what a step puts in place can be had. `staged` says whether anything
/// stands where it was prepared.
pub fn desired_artifact_is_ready(step: &JournalStep, desired: &Fingerprint, staged: bool) -> (r: bool)
    ensures
        r == ready(step@, desired@, staged),
{
    match desired {
        Fingerprint::RegularFile { .. } => step.staging_path.is_some() && staged,
        Fingerprint::Directory { .. } | Fingerprint::Symlink { .. } | Fingerprint::NamedPipe { .. } => true,
        Fingerprint::Absent | Fingerprint::Unsupported { .. } => false,
    }
}

/// Whether two lists hold the same names.
pub open spec fn same_names(a: Seq<Seq<char>>, b: Seq<Seq<char>>) -> bool {
    forall|n: Seq<char>| #[trigger] a.contains(n) == b.contains(n)
}

fn have_same_names(a: &Folder, b: &Folder) -> (r: bool)
    ensures
        r == same_names(a.names(), b.names()),
{
    let left = name_set(a);
    let right = name_set(b);
    proof {
        if same_names(a.names(), b.names()) {
            assert forall|n: Seq<char>| views(left@).contains(n) == views(right@).contains(n) by {
                assert(a.names().contains(n) == b.names().contains(n));
            }
            order::ascending_unique::<String>(views(left@), views(right@));
        }
        if views(left@) == views(right@) {
            assert forall|n: Seq<char>| #[trigger] a.names().contains(n) == b.names().contains(n) by {
                assert(views(left@).contains(n) == views(right@).contains(n));
            }
        }
    }
    crate::depgraph::same_texts(&left, &right)
}

fn name_set(a: &Folder) -> (r: Vec<String>)
    ensures
        order::strictly_ascending::<String>(views(r@)),
        forall|n: Seq<char>| #[trigger] views(r@).contains(n) == a.names().contains(n),
{
    let mut out: Vec<String> = Vec::new();
    let ghost all = a.names();
    for i in 0..a.items.len()
        invariant
            all == a.names(),
            order::strictly_ascending::<String>(views(out@)),
            forall|n: Seq<char>| #[trigger] views(out@).contains(n) == all.take(i as int).contains(n),
    {
        let ghost before = views(out@);
        order::insert(&mut out, text::copy(a.items[i].name.as_str()));
        proof {
            let next = all.take(i + 1);
            assert(next =~= all.take(i as int).push(all[i as int]));
            assert forall|n: Seq<char>| #[trigger] views(out@).contains(n) == next.contains(n) by {
                assert(before.contains(n) == all.take(i as int).contains(n));
                if all.take(i as int).contains(n) {
                    let k = choose|k: int| 0 <= k < i && all.take(i as int)[k] == n;
                    assert(next[k] == n);
                }
                if n == all[i as int] {
                    assert(next[i as int] == n);
                }
                if next.contains(n) && n != all[i as int] {
                    let k = choose|k: int| 0 <= k < next.len() && next[k] == n;
                    assert(all.take(i as int)[k] == n);
                }
            }
        }
    }
    assert(all.take(all.len() as int) =~= all);
    out
}

/// Whether two artifacts are of the same kind.
pub open spec fn alike(a: Artifact, b: Artifact) -> bool {
    &&& (a is Symlink) == (b is Symlink)
    &&& (a is Directory) == (b is Directory)
    &&& (a is File) == (b is File)
    &&& (a is NamedPipe) == (b is NamedPipe)
}

/// What is wrong with a copy of an artifact by itself, if anything is. Both must
/// be there, be of one kind and be readable, the source before the copy; then
/// their contents, targets or the names in them must not differ.
pub open spec fn pair_fault(source: Artifact, copy: Artifact, shown: Seq<char>) -> Option<Fault> {
    match (source, copy) {
        (Artifact::Missing(error), _) => Some(Fault::Io(error@)),
        (_, Artifact::Missing(error)) => Some(Fault::Io(error@)),
        (
            Artifact::File { size: _, content: a },
            Artifact::File { size: _, content: b },
        ) => match (a, b) {
            (Err(error), _) => Some(Fault::Io(error@)),
            (_, Err(error)) => Some(Fault::Io(error@)),
            (Ok(x), Ok(y)) => if outside::blake3_hex(x@) == outside::blake3_hex(y@) {
                None
            } else {
                Some(Fault::Storage("archive content mismatch for "@ + shown))
            },
        },
        (Artifact::Symlink { target: a }, Artifact::Symlink { target: b }) => match (a, b) {
            (Err(error), _) => Some(Fault::Io(error@)),
            (_, Err(error)) => Some(Fault::Io(error@)),
            (Ok(x), Ok(y)) => if x@ == y@ {
                None
            } else {
                Some(Fault::Storage("archive link mismatch for "@ + shown))
            },
        },
        (Artifact::Directory(a), Artifact::Directory(b)) => match (a.problem, b.problem) {
            (Some(error), _) => Some(Fault::Io(error@)),
            (_, Some(error)) => Some(Fault::Io(error@)),
            (None, None) => if same_names(a.names(), b.names()) {
                None
            } else {
                Some(Fault::Storage("archive directory mismatch for "@ + shown))
            },
        },
        _ => if alike(source, copy) {
            None
        } else {
            Some(Fault::Storage("archive type mismatch for "@ + shown))
        },
    }
}

fn unreadable(error: &String) -> (r: RewindError)
    ensures
        r@ == Fault::Io(error@),
{
    RewindError::Io(text::copy(error.as_str()))
}

fn storage_error(prefix: &str, shown: &str) -> (r: RewindError)
    ensures
        r@ == Fault::Storage(prefix@ + shown@),
{
    let mut message = text::copy(prefix);
    message.append(shown);
    RewindError::Storage(message)
}

/// Compares an artifact with its copy, but not what a directory holds.
pub fn verify_artifact_pair(source: &Artifact, destination: &Artifact, shown: &str) -> (r: Result<()>)
    ensures
        match pair_fault(*source, *destination, shown@) {
            Some(fault) => r is Err && r->Err_0@ == fault,
            None => r is Ok,
        },
{
    match (source, destination) {
        (Artifact::Missing(error), _) => Err(unreadable(error)),
        (_, Artifact::Missing(error)) => Err(unreadable(error)),
        (Artifact::File { content: a, .. }, Artifact::File { content: b, .. }) => match (a, b) {
            (Err(error), _) => Err(unreadable(error)),
            (_, Err(error)) => Err(unreadable(error)),
            (Ok(x), Ok(y)) => {
                let equal = text::same(
                    outside::hash_hex(x.as_slice()).as_str(),
                    outside::hash_hex(y.as_slice()).as_str(),
                );
                if equal {
                    Ok(())
                } else {
                    Err(storage_error("archive content mismatch for ", shown))
                }
            },
        },
        (Artifact::Symlink { target: a }, Artifact::Symlink { target: b }) => match (a, b) {
            (Err(error), _) => Err(unreadable(error)),
            (_, Err(error)) => Err(unreadable(error)),
            (Ok(x), Ok(y)) => {
                if text::same(x.as_str(), y.as_str()) {
                    Ok(())
                } else {
                    Err(storage_error("archive link mismatch for ", shown))
                }
            },
        },
        (Artifact::Directory(a), Artifact::Directory(b)) => match (&a.problem, &b.problem) {
            (Some(error), _) => Err(unreadable(error)),
            (_, Some(error)) => Err(unreadable(error)),
            (None, None) => {
                if have_same_names(a, b) {
                    Ok(())
                } else {
                    Err(storage_error("archive directory mismatch for ", shown))
                }
            },
        },
        (Artifact::NamedPipe, Artifact::NamedPipe) => Ok(()),
        (Artifact::Other, Artifact::Other) => Ok(()),
        _ => Err(storage_error("archive type mismatch for ", shown)),
    }
}

/// The first item with a name, from an index on: the number of items where
/// there is none.
pub open spec fn first_named(items: Seq<Item>, name: Seq<char>, from: int) -> int
    decreases items.len() - from,
{
    if from < 0 || from >= items.len() {
        items.len() as int
    } else if items[from].name@ == name {
        from
    } else {
        first_named(items, name, from + 1)
    }
}

proof fn first_named_is(items: Seq<Item>, name: Seq<char>, from: int)
    requires
        0 <= from <= items.len(),
    ensures
        from <= first_named(items, name, from) <= items.len(),
        first_named(items, name, from) < items.len() ==> items[first_named(items, name, from)].name@ == name,
        forall|k: int| from <= k < first_named(items, name, from) ==> (#[trigger] items[k]).name@ != name,
    decreases items.len() - from,
{
    if from < items.len() && items[from].name@ != name {
        first_named_is(items, name, from + 1);
    }
}

fn find_item(folder: &Folder, name: &str) -> (r: usize)
    ensures
        r == first_named(folder.items@, name@, 0),
{
    let count = folder.items.len();
    let mut i: usize = 0;
    while i < count
        invariant
            i <= count == folder.items@.len(),
            first_named(folder.items@, name@, 0) == first_named(folder.items@, name@, i as int),
        decreases count - i,
    {
        if text::same(folder.items[i].name.as_str(), name) {
            return i;
        }
        i = i + 1;
    }
    count
}

/// What is wrong with a copy of an artifact and of everything in it, if anything
/// is. A directory is compared before its items, and these in their order.
pub open spec fn copy_fault(platform: Platform, source: Artifact, copy: Artifact, shown: Seq<char>) -> Option<Fault>
    decreases source, 0int,
{
    match pair_fault(source, copy, shown) {
        Some(fault) => Some(fault),
        None => match (source, copy) {
            (Artifact::Directory(a), Artifact::Directory(b)) => folder_fault(platform, a, a.items@.len() as int, b, shown),
            _ => None,
        },
    }
}

/// What is wrong with the copies of the first items of a directory.
pub open spec fn folder_fault(platform: Platform, source: Folder, n: int, copy: Folder, shown: Seq<char>) -> Option<Fault>
    decreases source, n,
{
    if n <= 0 || n > source.items@.len() {
        None
    } else {
        match folder_fault(platform, source, n - 1, copy, shown) {
            Some(fault) => Some(fault),
            None => {
                let item = source.items@[n - 1];
                let at = first_named(copy.items@, item.name@, 0);
                copy_fault(platform, item.artifact, copy.items@[at].artifact, joined(platform, shown, item.name@))
            },
        }
    }
}

/// Compares an artifact with its copy, down to the last item.
pub fn verify_archive_pair(platform: Platform, source: &Artifact, destination: &Artifact, shown: &str) -> (r: Result<()>)
    ensures
        match copy_fault(platform, *source, *destination, shown@) {
            Some(fault) => r is Err && r->Err_0@ == fault,
            None => r is Ok,
        },
    decreases source, 0int,
{
    match verify_artifact_pair(source, destination, shown) {
        Ok(()) => {},
        Err(error) => {
            return Err(error);
        },
    }
    match (source, destination) {
        (Artifact::Directory(a), Artifact::Directory(b)) => verify_folder(platform, a, b, shown),
        _ => Ok(()),
    }
}

fn verify_folder(platform: Platform, source: &Folder, copy: &Folder, shown: &str) -> (r: Result<()>)
    requires
        same_names(source.names(), copy.names()),
    ensures
        match folder_fault(platform, *source, source.items@.len() as int, *copy, shown@) {
            Some(fault) => r is Err && r->Err_0@ == fault,
            None => r is Ok,
        },
    decreases source, source.items@.len() + 1,
{
    let count = source.items.len();
    let mut i: usize = 0;
    while i < count
        invariant
            i <= count == source.items@.len(),
            same_names(source.names(), copy.names()),
            folder_fault(platform, *source, i as int, *copy, shown@) is None,
        decreases count - i,
    {
        let item = &source.items[i];
        let at = find_item(copy, item.name.as_str());
        proof {
            let name = item.name@;
            assert(source.names()[i as int] == name);
            assert(copy.names().contains(name) == source.names().contains(name));
            let k = choose|k: int| 0 <= k < copy.names().len() && copy.names()[k] == name;
            assert(copy.items@[k].name@ == name);
            first_named_is(copy.items@, name, 0);
        }
        let below = paths::join(platform, shown, item.name.as_str());
        match verify_archive_pair(platform, &item.artifact, &copy.items[at].artifact, below.as_str()) {
            Ok(()) => {},
            Err(error) => {
                proof {
                    folder_fails(platform, *source, i + 1, *copy, shown@);
                }
                return Err(error);
            },
        }
        i = i + 1;
    }
    Ok(())
}

/// The first fault of the items is the fault of them all.
proof fn folder_fails(platform: Platform, source: Folder, n: int, copy: Folder, shown: Seq<char>)
    requires
        0 < n <= source.items@.len(),
        folder_fault(platform, source, n, copy, shown) is Some,
    ensures
        folder_fault(platform, source, source.items@.len() as int, copy, shown) == folder_fault(platform, source, n, copy, shown),
    decreases source.items@.len() - n,
{
    if n < source.items@.len() {
        folder_fails(platform, source, n + 1, copy, shown);
    }
}

/// What stands in an artifact at a path of names.
pub open spec fn artifact_at(artifact: Artifact, names: Seq<Seq<char>>) -> Option<Artifact>
    decreases names.len(),
{
    if names.len() == 0 {
        Some(artifact)
    } else {
        match artifact {
            Artifact::Directory(folder) => {
                let at = first_named(folder.items@, names[0], 0);
                if at < folder.items@.len() {
                    artifact_at(folder.items@[at].artifact, names.skip(1))
                } else {
                    None
                }
            },
            _ => None,
        }
    }
}

proof fn folder_holds(platform: Platform, source: Folder, n: int, copy: Folder, shown: Seq<char>, i: int)
    requires
        0 <= i < n <= source.items@.len(),
        folder_fault(platform, source, n, copy, shown) is None,
    ensures
        copy_fault(platform, 
            source.items@[i].artifact,
            copy.items@[first_named(copy.items@, source.items@[i].name@, 0)].artifact,
            joined(platform, shown, source.items@[i].name@),
        ) is None,
    decreases n,
{
    if i < n - 1 {
        folder_holds(platform, source, n - 1, copy, shown, i);
    }
}

/// A copy that passes is a copy through and through: at every path something
/// stands in it exactly where something stands in the source, both can be looked
/// at, and they are of the same kind, with the same content, target or names.
pub proof fn verified_copies_agree(platform: Platform, source: Artifact, copy: Artifact, shown: Seq<char>, names: Seq<Seq<char>>)
    requires
        copy_fault(platform, source, copy, shown) is None,
    ensures
        match (artifact_at(source, names), artifact_at(copy, names)) {
            (Some(a), Some(b)) => {
                &&& pair_fault(a, b, shown) is None
                &&& alike(a, b)
                &&& !(a is Missing) && !(b is Missing)
            },
            (None, None) => true,
            _ => false,
        },
    decreases names.len(),
{
    if names.len() > 0 {
        match (source, copy) {
            (Artifact::Directory(a), Artifact::Directory(b)) => {
                let name = names[0];
                let i = first_named(a.items@, name, 0);
                let j = first_named(b.items@, name, 0);
                first_named_is(a.items@, name, 0);
                first_named_is(b.items@, name, 0);
                assert(a.names().contains(name) == b.names().contains(name));
                if i < a.items@.len() {
                    assert(a.names()[i] == name);
                    let k = choose|k: int| 0 <= k < b.names().len() && b.names()[k] == name;
                    assert(b.items@[k].name@ == name);
                    folder_holds(platform, a, a.items@.len() as int, b, shown, i);
                    let x = a.items@[i].artifact;
                    let y = b.items@[j].artifact;
                    let below = joined(platform, shown, name);
                    verified_copies_agree(platform, x, y, below, names.skip(1));
                } else if j < b.items@.len() {
                    assert(b.names()[j] == name);
                    let k = choose|k: int| 0 <= k < a.names().len() && a.names()[k] == name;
                    assert(a.items@[k].name@ == name);
                }
            },
            _ => {},
        }
    }
}

/// Refuses to archive what is no file, no directory, no link and no pipe.
pub fn check_archivable(source: &Artifact, shown: &str) -> (r: Result<()>)
    ensures
        r is Ok == !(source is Missing || source is Other),
        r is Err ==> r->Err_0@ == if source is Missing {
            Fault::Storage("local quarantine artifact is missing: "@ + shown@)
        } else {
            Fault::Unsupported("cannot archive unsupported quarantine object "@ + shown@)
        },
{
    match source {
        Artifact::File { .. } | Artifact::Directory(_) | Artifact::Symlink { .. } | Artifact::NamedPipe => Ok(()),
        Artifact::Missing(_) => Err(storage_error("local quarantine artifact is missing: ", shown)),
        Artifact::Other => {
            let mut message = text::copy("cannot archive unsupported quarantine object ");
            message.append(shown);
            Err(RewindError::Unsupported(message))
        },
    }
}

// ---------------------------------------------------------------------------
// A transaction, step by step
// ---------------------------------------------------------------------------

/// What is recorded after a step, in this order, behind the journal itself.
#[derive(Debug)]
pub struct Records {
    pub transaction: Option<JournalStatus>,
    pub workspace: Option<(WorkspaceCondition, String)>,
    pub operation: Option<(i64, OperationStatus)>,
}

/// What is recorded after a step.
pub struct Noted {
    pub transaction: Option<JournalStatus>,
    pub workspace: Option<(WorkspaceCondition, Seq<char>)>,
    pub operation: Option<(i64, OperationStatus)>,
}

impl View for Records {
    type V = Noted;

    open spec fn view(&self) -> Noted {
        Noted {
            transaction: self.transaction,
            workspace: match self.workspace {
                Some((condition, baseline)) => Some((condition, baseline@)),
                None => None,
            },
            operation: self.operation,
        }
    }
}

/// What comes next in a transaction.
#[derive(Debug)]
pub enum Next {
    /// Look how far the step of an interrupted transaction came.
    Classify,
    /// Look at the path of the step, and carry the step out from there.
    Look,
    /// Change the path.
    Change,
    /// Look at the path again.
    Verify,
    /// Scan the workspace.
    Scan,
    Committed,
    /// The transaction cannot go on by itself.
    Stuck(RewindError),
    /// The journal does not say enough. Nothing is recorded.
    Broken(RewindError),
}

/// What comes next in a transaction.
pub enum After {
    Classify,
    Look,
    Change,
    Verify,
    Scan,
    Committed,
    Stuck(Fault),
    Broken(Fault),
}

impl View for Next {
    type V = After;

    open spec fn view(&self) -> After {
        match self {
            Next::Classify => After::Classify,
            Next::Look => After::Look,
            Next::Change => After::Change,
            Next::Verify => After::Verify,
            Next::Scan => After::Scan,
            Next::Committed => After::Committed,
            Next::Stuck(error) => After::Stuck(error@),
            Next::Broken(error) => After::Broken(error@),
        }
    }
}

/// What a step of a transaction comes to. The journal is written first, then
/// the records.
#[derive(Debug)]
pub struct Outcome {
    pub records: Records,
    pub next: Next,
}

/// A transaction under way.
pub struct Transaction {
    pub journal: Journal,
    /// The step that it has come to.
    pub index: usize,
    /// Whether the step replaces whatever stands at its path.
    pub force: bool,
    /// Whether it was interrupted and is taken up again.
    pub recovering: bool,
    /// The status that its operation gets.
    pub operation_status: OperationStatus,
}

/// Where a transaction stands.
pub struct Progress {
    pub journal: JournalRecord,
    pub index: nat,
    pub force: bool,
    pub recovering: bool,
    pub operation_status: OperationStatus,
}

impl View for Transaction {
    type V = Progress;

    open spec fn view(&self) -> Progress {
        Progress {
            journal: self.journal@,
            index: self.index as nat,
            force: self.force,
            recovering: self.recovering,
            operation_status: self.operation_status,
        }
    }
}

pub open spec fn no_records() -> Noted {
    Noted { transaction: None, workspace: None, operation: None }
}

impl Progress {
    /// What comes when the transaction has come to a step.
    pub open spec fn arrival(self) -> After {
        if self.index >= self.journal.steps.len() {
            After::Scan
        } else if self.recovering {
            After::Classify
        } else {
            After::Look
        }
    }

    /// The transaction at the next step. A step taken up again does not force
    /// the next one.
    pub open spec fn advanced(self) -> Progress {
        Progress {
            index: self.index + 1,
            force: if self.recovering {
                false
            } else {
                self.force
            },
            ..self
        }
    }

    /// The transaction when it is stuck: it waits for a recovery.
    pub open spec fn stuck(self) -> Progress {
        let journal = self.journal.with_status(JournalStatus::RecoveryRequired);
        Progress {
            journal: if self.recovering && self.force && self.index < self.journal.steps.len() {
                journal.with_step(self.index as int, JournalStatus::RecoveryRequired)
            } else {
                journal
            },
            ..self
        }
    }

    /// What is recorded of a stuck transaction: the workspace is gated, and the
    /// state before the transaction stays its baseline.
    pub open spec fn stuck_records(self) -> Noted {
        Noted {
            transaction: Some(JournalStatus::RecoveryRequired),
            workspace: Some((WorkspaceCondition::RecoveryRequired, self.journal.anchor)),
            operation: None,
        }
    }

    /// The transaction when it is committed.
    pub open spec fn committed(self) -> Progress {
        let journal = self.journal.with_status(JournalStatus::Committed);
        Progress {
            journal: if self.recovering {
                journal
            } else {
                JournalRecord {
                    steps: self.journal.steps.map_values(
                        |s: StepRecord| StepRecord { status: JournalStatus::Durable, ..s },
                    ),
                    archive_status: if self.journal.has_backup() {
                        ArchiveStatus::Pending
                    } else {
                        self.journal.archive_status
                    },
                    ..journal
                }
            },
            ..self
        }
    }

    /// What is recorded of a committed transaction.
    pub open spec fn committed_records(self) -> Noted {
        Noted {
            transaction: Some(JournalStatus::Committed),
            workspace: Some((WorkspaceCondition::Healthy, self.journal.target)),
            operation: match self.journal.operation_id {
                Some(id) => Some((id, self.operation_status)),
                None => None,
            },
        }
    }
}

/// What a step of a transaction comes to: where it stands then, what is
/// recorded, and what comes next.
pub struct Advance {
    pub progress: Progress,
    pub records: Noted,
    pub next: After,
}

pub open spec fn gets_stuck(p: Progress, fault: Fault) -> Advance {
    Advance { progress: p.stuck(), records: p.stuck_records(), next: After::Stuck(fault) }
}

pub open spec fn goes_on(p: Progress) -> Advance {
    Advance { progress: p.advanced(), records: no_records(), next: p.advanced().arrival() }
}

/// How a transaction starts to be carried out, when it is prepared.
pub open spec fn on_prepared(p: Progress) -> Advance {
    let q = Progress { journal: p.journal.with_status(JournalStatus::Prepared), ..p };
    Advance {
        progress: q,
        records: Noted {
            transaction: if p.recovering {
                None
            } else {
                Some(JournalStatus::Prepared)
            },
            ..no_records()
        },
        next: q.arrival(),
    }
}

/// What looking at the path of a step comes to.
pub open spec fn on_looked(p: Progress, actual: std::result::Result<Print, Fault>, backup_exists: bool) -> Advance {
    match facts_of(p.journal.steps, p.index) {
        Err(fault) => gets_stuck(p, fault),
        Ok(facts) => match actual {
            Err(fault) => gets_stuck(p, fault),
            Ok(print) => {
                let (fault, journal) = start_of(p.journal, p.index as int, facts, print, backup_exists, p.force);
                let q = Progress { journal, ..p };
                if fault is Some {
                    gets_stuck(q, fault->0)
                } else if print == facts.after && backup_sufficient(
                    p.journal.steps[p.index as int],
                    facts.before,
                    backup_exists,
                ) {
                    goes_on(q)
                } else {
                    Advance { progress: q, records: no_records(), next: After::Change }
                }
            },
        },
    }
}

/// What changing the path of a step comes to.
pub open spec fn on_changed(p: Progress, error: Option<Fault>) -> Advance {
    match error {
        Some(fault) => gets_stuck(p, fault),
        None => Advance {
            progress: Progress { journal: p.journal.with_step(p.index as int, JournalStatus::Applied), ..p },
            records: no_records(),
            next: After::Verify,
        },
    }
}

/// What looking at the path after its change comes to.
pub open spec fn on_verified(p: Progress, facts: Facts, actual: std::result::Result<Print, Fault>) -> Advance {
    match actual {
        Err(fault) => gets_stuck(p, fault),
        Ok(print) => if compatible(print, facts.after) {
            goes_on(
                Progress {
                    journal: p.journal.with_status(JournalStatus::Durable).with_step(
                        p.index as int,
                        JournalStatus::Durable,
                    ),
                    ..p
                },
            )
        } else {
            gets_stuck(
                Progress {
                    journal: p.journal.with_status(JournalStatus::RecoveryRequired).with_step(
                        p.index as int,
                        JournalStatus::RecoveryRequired,
                    ),
                    ..p
                },
                Fault::RecoveryRequired(
                    "step "@ + decimal(p.index) + " did not reach expected after state at "@ + facts.path,
                ),
            )
        },
    }
}

/// What the last scan comes to. `matches` says whether the whole manifest is
/// the one of the target.
pub open spec fn on_scanned(p: Progress, state: std::result::Result<Seq<char>, Fault>, matches: bool) -> Advance {
    match state {
        Err(fault) => gets_stuck(p, fault),
        Ok(id) => if id != p.journal.target || (p.recovering && !matches) {
            gets_stuck(
                p,
                Fault::RecoveryRequired(
                    if p.recovering {
                        "recovered steps do not match target state"@
                    } else {
                        "final state "@ + id + " differs from target "@ + p.journal.target
                    },
                ),
            )
        } else {
            Advance { progress: p.committed(), records: p.committed_records(), next: After::Committed }
        },
    }
}

/// What is known of the artifacts of a step.
#[derive(Debug)]
pub struct Traces {
    /// Whether anything stands where the step moves what it replaces.
    pub backup_exists: bool,
    pub backup: Artifact,
    /// Whether anything stands where the step was prepared.
    pub staged: bool,
}

/// How far an interrupted step came.
pub open spec fn on_classified(p: Progress, actual: Print, traces: Traces) -> Advance {
    let step = p.journal.steps[p.index as int];
    let path = step.paths[0];
    if step.paths.len() == 0 {
        goes_on(p)
    } else if !step.after.contains_key(path) {
        Advance {
            progress: p,
            records: no_records(),
            next: After::Broken(journal_fault("recovery step "@, p.index, " has no after state"@)),
        }
    } else if !step.before.contains_key(path) {
        Advance {
            progress: p,
            records: no_records(),
            next: After::Broken(journal_fault("recovery step "@, p.index, " has no before state"@)),
        }
    } else if compatible(actual, step.after[path]) && backup_sufficient(
        step,
        step.before[path],
        traces.backup_exists,
    ) {
        goes_on(Progress { journal: p.journal.with_step(p.index as int, JournalStatus::Durable), ..p })
    } else if actual == step.before[path] {
        Advance { progress: Progress { force: false, ..p }, records: no_records(), next: After::Look }
    } else if actual is Absent && backup_is(step, traces.backup, step.before[path]) && ready(
        step,
        step.after[path],
        traces.staged,
    ) {
        Advance { progress: Progress { force: true, ..p }, records: no_records(), next: After::Look }
    } else {
        let q = Progress {
            journal: p.journal.with_status(JournalStatus::RecoveryRequired).with_step(
                p.index as int,
                JournalStatus::RecoveryRequired,
            ),
            force: false,
            ..p
        };
        gets_stuck(q, Fault::RecoveryRequired("cannot classify recovery state at "@ + path))
    }
}

pub open spec fn outcome_view(r: std::result::Result<Fingerprint, RewindError>) -> std::result::Result<Print, Fault> {
    match r {
        Ok(f) => Ok(f@),
        Err(e) => Err(e@),
    }
}

impl Transaction {
    /// A transaction that is about to be carried out.
    pub fn new(journal: Journal, force: bool, operation_status: OperationStatus) -> (r: Self)
        ensures
            r@ == (Progress { journal: journal@, index: 0, force, recovering: false, operation_status }),
    {
        Transaction { journal, index: 0, force, recovering: false, operation_status }
    }

    /// A transaction that was interrupted. Its operation ends up undone or in
    /// effect, by its direction.
    pub fn resume(journal: Journal) -> (r: Self)
        ensures
            r@ == (Progress {
                journal: journal@,
                index: 0,
                force: false,
                recovering: true,
                operation_status: if journal@.direction == "UNDO"@ {
                    OperationStatus::Undone
                } else {
                    OperationStatus::Completed
                },
            }),
    {
        let operation_status = if text::same(journal.direction.as_str(), "UNDO") {
            OperationStatus::Undone
        } else {
            OperationStatus::Completed
        };
        Transaction { journal, index: 0, force: false, recovering: true, operation_status }
    }

    fn arrive(&self) -> (r: Next)
        ensures
            r@ == self@.arrival(),
    {
        if self.index >= self.journal.steps.len() {
            Next::Scan
        } else if self.recovering {
            Next::Classify
        } else {
            Next::Look
        }
    }

    fn go_on(&mut self) -> (r: Outcome)
        requires
            old(self).index < old(self).journal.steps@.len(),
        ensures
            (Advance { progress: final(self)@, records: r.records@, next: r.next@ }) == goes_on(old(self)@),
    {
        if self.index < self.journal.steps.len() {
            self.index = self.index + 1;
        }
        if self.recovering {
            self.force = false;
        }
        let next = self.arrive();
        Outcome { records: Records { transaction: None, workspace: None, operation: None }, next }
    }

    fn get_stuck(&mut self, error: RewindError) -> (r: Outcome)
        ensures
            (Advance { progress: final(self)@, records: r.records@, next: r.next@ }) == gets_stuck(
                old(self)@,
                error@,
            ),
    {
        self.journal.status = JournalStatus::RecoveryRequired;
        if self.recovering && self.force && self.index < self.journal.steps.len() {
            set_step_status(&mut self.journal, self.index, JournalStatus::RecoveryRequired);
        }
        let anchor = text::copy(self.journal.anchor_state_id.as_str());
        Outcome {
            records: Records {
                transaction: Some(JournalStatus::RecoveryRequired),
                workspace: Some((WorkspaceCondition::RecoveryRequired, anchor)),
                operation: None,
            },
            next: Next::Stuck(error),
        }
    }

    /// Goes on when what the steps put in place is prepared.
    pub fn prepared(&mut self) -> (r: Outcome)
        ensures
            (Advance { progress: final(self)@, records: r.records@, next: r.next@ }) == on_prepared(old(self)@),
    {
        self.journal.status = JournalStatus::Prepared;
        let transaction = if self.recovering {
            None
        } else {
            Some(JournalStatus::Prepared)
        };
        let next = self.arrive();
        Outcome { records: Records { transaction, workspace: None, operation: None }, next }
    }

    /// Takes up an interrupted transaction whose steps are prepared. Its journal
    /// stays as it is.
    pub fn taken_up(&self) -> (r: Outcome)
        ensures
            r.records@ == no_records(),
            r.next@ == self@.arrival(),
    {
        Outcome {
            records: Records { transaction: None, workspace: None, operation: None },
            next: self.arrive(),
        }
    }

    /// Goes on when the path of the step was looked at.
    pub fn looked(&mut self, actual: std::result::Result<Fingerprint, RewindError>, backup_exists: bool) -> (r: Outcome)
        ensures
            (Advance { progress: final(self)@, records: r.records@, next: r.next@ }) == on_looked(
                old(self)@,
                outcome_view(actual),
                backup_exists,
            ),
    {
        let facts = match step_facts(&self.journal, self.index) {
            Ok(facts) => facts,
            Err(error) => {
                return self.get_stuck(error);
            },
        };
        let actual = match actual {
            Ok(actual) => actual,
            Err(error) => {
                return self.get_stuck(error);
            },
        };
        match begin_step(&mut self.journal, self.index, &facts, &actual, backup_exists, self.force) {
            StepStart::Done => self.go_on(),
            StepStart::Conflict(error) => self.get_stuck(error),
            StepStart::Apply => Outcome {
                records: Records { transaction: None, workspace: None, operation: None },
                next: Next::Change,
            },
        }
    }

    /// Goes on when the path of the step was changed, or could not be.
    pub fn changed(&mut self, error: Option<RewindError>) -> (r: Outcome)
        requires
            old(self).index < old(self).journal.steps@.len(),
        ensures
            (Advance { progress: final(self)@, records: r.records@, next: r.next@ }) == on_changed(
                old(self)@,
                match error {
                    Some(e) => Some(e@),
                    None => None,
                },
            ),
    {
        match error {
            Some(error) => self.get_stuck(error),
            None => {
                step_applied(&mut self.journal, self.index);
                Outcome {
                    records: Records { transaction: None, workspace: None, operation: None },
                    next: Next::Verify,
                }
            },
        }
    }

    /// Goes on when the path was looked at after its change.
    pub fn verified(&mut self, facts: &StepFacts, actual: std::result::Result<Fingerprint, RewindError>) -> (r: Outcome)
        requires
            old(self).index < old(self).journal.steps@.len(),
        ensures
            (Advance { progress: final(self)@, records: r.records@, next: r.next@ }) == on_verified(
                old(self)@,
                facts@,
                outcome_view(actual),
            ),
    {
        let actual = match actual {
            Ok(actual) => actual,
            Err(error) => {
                return self.get_stuck(error);
            },
        };
        match finish_step(&mut self.journal, self.index, facts, &actual) {
            Ok(()) => self.go_on(),
            Err(error) => self.get_stuck(error),
        }
    }

    /// Judges how far a step of an interrupted transaction came.
    pub fn classified(&mut self, actual: &Fingerprint, traces: &Traces) -> (r: Outcome)
        requires
            old(self).index < old(self).journal.steps@.len(),
            old(self).recovering,
        ensures
            (Advance { progress: final(self)@, records: r.records@, next: r.next@ }) == on_classified(
                old(self)@,
                actual@,
                *traces,
            ),
    {
        let index = self.index;
        let quiet = Records { transaction: None, workspace: None, operation: None };
        assert(self@.journal.steps[index as int] == self.journal.steps@[index as int]@);
        if self.journal.steps[index].paths.len() == 0 {
            return self.go_on();
        }
        let path = text::copy(self.journal.steps[index].paths[0].as_str());
        let after = match self.journal.steps[index].after.get(path.as_str()) {
            Some(f) => f.duplicate(),
            None => {
                return Outcome {
                    records: quiet,
                    next: Next::Broken(step_error("recovery step ", index, " has no after state")),
                };
            },
        };
        let before = match self.journal.steps[index].before.get(path.as_str()) {
            Some(f) => f.duplicate(),
            None => {
                return Outcome {
                    records: quiet,
                    next: Next::Broken(step_error("recovery step ", index, " has no before state")),
                };
            },
        };
        if compatible_after(actual, &after) && backup_is_sufficient(
            &self.journal.steps[index],
            &before,
            traces.backup_exists,
        ) {
            set_step_status(&mut self.journal, index, JournalStatus::Durable);
            return self.go_on();
        }
        if actual.same(&before) {
            self.force = false;
            return Outcome { records: quiet, next: Next::Look };
        }
        let absent = match actual {
            Fingerprint::Absent => true,
            _ => false,
        };
        if absent && backup_matches_fingerprint(&self.journal.steps[index], &traces.backup, &before)
            && desired_artifact_is_ready(&self.journal.steps[index], &after, traces.staged) {
            self.force = true;
            return Outcome { records: quiet, next: Next::Look };
        }
        self.force = false;
        self.journal.status = JournalStatus::RecoveryRequired;
        set_step_status(&mut self.journal, index, JournalStatus::RecoveryRequired);
        let mut message = text::copy("cannot classify recovery state at ");
        message.append(path.as_str());
        self.get_stuck(RewindError::RecoveryRequired(message))
    }

    /// Ends when the workspace was scanned: commits where it is in the target
    /// state, and waits for a recovery anywhere else.
    pub fn scanned(&mut self, state: std::result::Result<String, RewindError>, matches: bool) -> (r: Outcome)
        ensures
            (Advance { progress: final(self)@, records: r.records@, next: r.next@ }) == on_scanned(
                old(self)@,
                match state {
                    Ok(id) => Ok(id@),
                    Err(e) => Err(e@),
                },
                matches,
            ),
    {
        let state = match state {
            Ok(state) => state,
            Err(error) => {
                return self.get_stuck(error);
            },
        };
        if !text::same(state.as_str(), self.journal.target_state_id.as_str()) || (self.recovering && !matches) {
            let message = if self.recovering {
                text::copy("recovered steps do not match target state")
            } else {
                let mut message = text::copy("final state ");
                message.append(state.as_str());
                message.append(" differs from target ");
                message.append(self.journal.target_state_id.as_str());
                message
            };
            return self.get_stuck(RewindError::RecoveryRequired(message));
        }
        let ghost start = self@;
        self.journal.status = JournalStatus::Committed;
        if !self.recovering {
            if settle_steps(&mut self.journal) {
                self.journal.archive_status = ArchiveStatus::Pending;
            }
        }
        assert(self@ == start.committed());
        let target = text::copy(self.journal.target_state_id.as_str());
        let operation = match self.journal.operation_id {
            Some(id) => Some((id, self.operation_status)),
            None => None,
        };
        Outcome {
            records: Records {
                transaction: Some(JournalStatus::Committed),
                workspace: Some((WorkspaceCondition::Healthy, target)),
                operation,
            },
            next: Next::Committed,
        }
    }
}

/// Marks every step durable.
pub fn settle_steps(journal: &mut Journal) -> (any_backup: bool)
    ensures
        any_backup == old(journal)@.has_backup(),
        final(journal)@ == (JournalRecord {
            steps: old(journal)@.steps.map_values(
                |s: StepRecord| StepRecord { status: JournalStatus::Durable, ..s },
            ),
            ..old(journal)@
        }),
{
    let ghost start = journal@;
    let ghost f = |s: StepRecord| StepRecord { status: JournalStatus::Durable, ..s };
    let count = journal.steps.len();
    let mut any = false;
    for i in 0..count
        invariant
            count == start.steps.len(),
            f == (|s: StepRecord| StepRecord { status: JournalStatus::Durable, ..s }),
            journal@ == (JournalRecord { steps: journal@.steps, ..start }),
            journal@.steps.len() == start.steps.len(),
            forall|k: int| 0 <= k < i ==> (#[trigger] journal@.steps[k]) == f(start.steps[k]),
            forall|k: int| i <= k < count ==> (#[trigger] journal@.steps[k]) == start.steps[k],
            any == exists|k: int| 0 <= k < i && (#[trigger] start.steps[k]).backup_path is Some,
    {
        assert(journal@.steps[i as int] == journal.steps@[i as int]@);
        let has = journal.steps[i].backup_path.is_some();
        assert(has == start.steps[i as int].backup_path is Some);
        set_step_status(journal, i, JournalStatus::Durable);
        if has {
            any = true;
        }
    }
    assert(journal@.steps =~= start.steps.map_values(f));
    any
}

// ---------------------------------------------------------------------------
// Preparing, recovering and giving up
// ---------------------------------------------------------------------------

/// What has to be prepared for a step: the content of a file, and the directory
/// that the step moves things to.
#[derive(Debug)]
pub struct Preparation {
    pub content: Option<(String, String)>,
    pub backup_path: Option<String>,
}

/// What has to be prepared for a step: the digest of a file's content and where
/// the content is put, and where the step moves things to.
pub struct Need {
    pub content: Option<(Seq<char>, Seq<char>)>,
    pub backup_path: Option<Seq<char>>,
}

impl View for Preparation {
    type V = Need;

    open spec fn view(&self) -> Need {
        Need {
            content: match self.content {
                Some((hash, stage)) => Some((hash@, stage@)),
                None => None,
            },
            backup_path: optional(self.backup_path),
        }
    }
}

/// What a step needs, or what is missing in it.
pub open spec fn need_of(step: StepRecord) -> std::result::Result<Option<Need>, Fault> {
    if step.paths.len() == 0 {
        Ok(None)
    } else if !step.after.contains_key(step.paths[0]) {
        Err(journal_fault("step "@, step.id, " has no destination state"@))
    } else {
        match step.after[step.paths[0]] {
            Print::RegularFile { content_hash, size, metadata } => match step.staging_path {
                Some(stage) => Ok(
                    Some(Need { content: Some((content_hash, stage)), backup_path: step.backup_path }),
                ),
                None => Err(Fault::Journal("regular file has no staging path"@)),
            },
            _ => Ok(Some(Need { content: None, backup_path: step.backup_path })),
        }
    }
}

/// What the first steps need, up to the first in which something is missing.
pub open spec fn needs(steps: Seq<StepRecord>, n: int) -> (Seq<Need>, Option<Fault>)
    decreases n,
{
    if n <= 0 || n > steps.len() {
        (Seq::empty(), None)
    } else {
        let (list, fault) = needs(steps, n - 1);
        if fault is Some {
            (list, fault)
        } else {
            match need_of(steps[n - 1]) {
                Err(f) => (list, Some(f)),
                Ok(None) => (list, None),
                Ok(Some(need)) => (list.push(need), None),
            }
        }
    }
}

proof fn needs_stop(steps: Seq<StepRecord>, n: int)
    requires
        0 <= n <= steps.len(),
        needs(steps, n).1 is Some,
    ensures
        needs(steps, steps.len() as int) == needs(steps, n),
    decreases steps.len() - n,
{
    if n < steps.len() {
        needs_stop(steps, n + 1);
    }
}

/// Lists what the steps of a journal need, in order, and the error at which the
/// list ends, if it does.
pub fn prepare_steps(journal: &Journal) -> (r: (Vec<Preparation>, Option<RewindError>))
    ensures
        ({
            let (list, fault) = needs(journal@.steps, journal@.steps.len() as int);
            &&& views(r.0@) == list
            &&& r.1 is Some == fault is Some
            &&& r.1 is Some ==> Some(r.1->0@) == fault
        }),
{
    let mut out: Vec<Preparation> = Vec::new();
    let ghost steps = journal@.steps;
    assert(views(out@) =~= Seq::<Need>::empty());
    for i in 0..journal.steps.len()
        invariant
            steps == journal@.steps,
            (views(out@), None::<Fault>) == needs(steps, i as int),
    {
        let step = &journal.steps[i];
        assert(steps[i as int] == step@);
        if step.paths.len() > 0 {
            let path = step.paths[0].as_str();
            let content = match step.after.get(path) {
                None => {
                    proof {
                        needs_stop(steps, i + 1);
                    }
                    return (out, Some(step_error("step ", step.id, " has no destination state")));
                },
                Some(desired) => match desired {
                    Fingerprint::RegularFile { content_hash, .. } => match &step.staging_path {
                        Some(stage) => Some((text::copy(content_hash.as_str()), text::copy(stage.as_str()))),
                        None => {
                            proof {
                                needs_stop(steps, i + 1);
                            }
                            return (
                                out,
                                Some(RewindError::Journal(text::copy("regular file has no staging path"))),
                            );
                        },
                    },
                    _ => None,
                },
            };
            let preparation = Preparation { content, backup_path: text::copy_optional(&step.backup_path) };
            proof {
                order::push_contains(out@, preparation);
                assert(need_of(step@) == Ok::<Option<Need>, Fault>(Some(preparation@)));
            }
            out.push(preparation);
        }
    }
    (out, None)
}

/// Whether an unfinished transaction has to be prepared anew.
pub fn needs_preparation(journal: &Journal) -> (r: bool)
    ensures
        r == (journal@.status is Planned || journal@.status is Prepared),
{
    journal.status == JournalStatus::Planned || journal.status == JournalStatus::Prepared
}

/// Refuses the journal of another workspace.
pub fn check_owner(journal: &Journal, workspace_id: u128) -> (r: Result<()>)
    ensures
        r is Ok == (journal@.workspace_id == workspace_id),
        r is Err ==> r->Err_0@ == Fault::RecoveryRequired("journal belongs to another workspace"@),
{
    if journal.workspace_id == workspace_id {
        Ok(())
    } else {
        Err(RewindError::RecoveryRequired(text::copy("journal belongs to another workspace")))
    }
}

/// The fault of a transaction whose journal is gone.
pub open spec fn lost_journal(path: Seq<char>) -> Fault {
    Fault::RecoveryRequired("transaction journal is missing: "@ + path)
}

pub fn missing_journal(path: &str) -> (r: RewindError)
    ensures
        r@ == lost_journal(path@),
{
    let mut message = text::copy("transaction journal is missing: ");
    message.append(path);
    RewindError::RecoveryRequired(message)
}

/// A transaction that the catalog holds for unfinished, and whether its journal
/// is there.
#[derive(Debug)]
pub struct Unfinished {
    pub journal_path: String,
    pub present: bool,
}

/// What stops a recovery before it begins: what the workspace is set to, and the
/// error.
#[derive(Debug)]
pub struct Halt {
    pub condition: WorkspaceCondition,
    pub baseline: Option<String>,
    pub error: RewindError,
}

/// Looks for a transaction whose journal is gone. The first one stops the
/// recovery, and the workspace needs recovery from then on.
pub fn check_journals(list: &Vec<Unfinished>) -> (r: Option<Halt>)
    ensures
        r is None == forall|i: int| 0 <= i < list@.len() ==> (#[trigger] list@[i]).present,
        r is Some ==> exists|i: int|
            0 <= i < list@.len() && !(#[trigger] list@[i]).present && (forall|j: int|
                0 <= j < i ==> (#[trigger] list@[j]).present) && r->0.condition == WorkspaceCondition::RecoveryRequired
                && r->0.baseline is None && r->0.error@ == lost_journal(list@[i].journal_path@),
{
    for i in 0..list.len()
        invariant
            forall|j: int| 0 <= j < i ==> (#[trigger] list@[j]).present,
    {
        if !list[i].present {
            return Some(
                Halt {
                    condition: WorkspaceCondition::RecoveryRequired,
                    baseline: None,
                    error: missing_journal(list[i].journal_path.as_str()),
                },
            );
        }
    }
    None
}

/// Whether a recovery that failed lets its transactions be given up: only one
/// that could not tell how far they came. An error that may pass does not.
pub fn justifies_abandonment(error: &RewindError) -> (r: bool)
    ensures
        r == (error@ is RecoveryRequired || error@ is Conflict),
{
    match error {
        RewindError::RecoveryRequired(_) => true,
        RewindError::Conflict { .. } => true,
        _ => false,
    }
}

/// A journal that is about to be given up: what was never moved aside is not
/// looked for, and what was waits for its archive.
pub open spec fn abandoning(journal: JournalRecord, present: Seq<bool>) -> JournalRecord {
    JournalRecord {
        archive_status: if journal.has_backup() && journal.archive_status == ArchiveStatus::NotRequired {
            ArchiveStatus::Pending
        } else {
            journal.archive_status
        },
        steps: Seq::new(
            journal.steps.len(),
            |i: int|
                StepRecord {
                    backup_path: if present[i] {
                        journal.steps[i].backup_path
                    } else {
                        None
                    },
                    ..journal.steps[i]
                },
        ),
        ..journal
    }
}

/// Gets a journal ready to be given up. `present` says for each step whether a
/// file or a directory stands where the step moves things to.
pub fn prepare_abandonment(journal: &mut Journal, present: &Vec<bool>)
    requires
        present@.len() == old(journal).steps@.len(),
    ensures
        final(journal)@ == abandoning(old(journal)@, present@),
{
    let ghost start = journal@;
    let count = journal.steps.len();
    let mut any = false;
    for i in 0..count
        invariant
            count == start.steps.len(),
            present@.len() == count,
            journal@ == (JournalRecord { steps: journal@.steps, ..start }),
            journal@.steps.len() == start.steps.len(),
            forall|k: int|
                0 <= k < i ==> (#[trigger] journal@.steps[k]) == abandoning(start, present@).steps[k],
            forall|k: int| i <= k < count ==> (#[trigger] journal@.steps[k]) == start.steps[k],
            any == exists|k: int| 0 <= k < i && (#[trigger] start.steps[k]).backup_path is Some,
    {
        assert(journal@.steps[i as int] == journal.steps@[i as int]@);
        let has = journal.steps[i].backup_path.is_some();
        assert(has == start.steps[i as int].backup_path is Some);
        if has {
            any = true;
        }
        let ghost before = journal@;
        if !present[i] {
            journal.steps[i].backup_path = None;
            assert(journal@.steps =~= before.steps.update(
                i as int,
                StepRecord { backup_path: None, ..before.steps[i as int] },
            ));
        }
    }
    assert(journal@.steps =~= abandoning(start, present@).steps);
    if any && journal.archive_status == ArchiveStatus::NotRequired {
        journal.archive_status = ArchiveStatus::Pending;
    }
}

/// Marks a journal as given up.
pub fn abandon(journal: &mut Journal)
    ensures
        final(journal)@ == old(journal)@.with_status(JournalStatus::Abandoned),
{
    journal.status = JournalStatus::Abandoned;
}

/// The error of giving up where there is nothing to give up.
pub fn check_abandoned(count: usize) -> (r: Result<()>)
    ensures
        r is Ok == (count > 0),
        r is Err ==> r->Err_0@ == Fault::RecoveryRequired("no unfinished transaction was present to abandon"@),
{
    if count == 0 {
        Err(RewindError::RecoveryRequired(text::copy("no unfinished transaction was present to abandon")))
    } else {
        Ok(())
    }
}

/// Whether artifacts wait for their archive.
pub open spec fn wants_archive(journal: JournalRecord) -> bool {
    journal.archive_status == ArchiveStatus::Pending || journal.archive_status == ArchiveStatus::Failed
}

pub fn needs_archive(journal: &Journal) -> (r: bool)
    ensures
        r == wants_archive(journal@),
{
    journal.archive_status == ArchiveStatus::Pending || journal.archive_status == ArchiveStatus::Failed
}

/// Notes whether the artifacts were archived, or why they were not.
pub fn archived(journal: &mut Journal, error: Option<String>)
    ensures
        final(journal)@ == (JournalRecord {
            archive_status: if error is None {
                ArchiveStatus::Archived
            } else {
                ArchiveStatus::Failed
            },
            archive_error: optional(error),
            ..old(journal)@
        }),
{
    journal.archive_status = if error.is_none() {
        ArchiveStatus::Archived
    } else {
        ArchiveStatus::Failed
    };
    journal.archive_error = error;
}

/// Whether the staging area of a transaction can go: the transaction is over,
/// and nothing in the area is the only copy of what it moved aside.
pub open spec fn disposable(journal: JournalRecord) -> bool {
    journal.status.terminal() && (journal.archive_status == ArchiveStatus::Archived || journal.archive_status
        == ArchiveStatus::NotRequired)
}

pub fn staging_is_disposable(journal: &Journal) -> (r: bool)
    ensures
        r == disposable(journal@),
{
    journal.status.is_terminal() && (journal.archive_status == ArchiveStatus::Archived || journal.archive_status
        == ArchiveStatus::NotRequired)
}

// ---------------------------------------------------------------------------
// Diagnosis
// ---------------------------------------------------------------------------

pub open spec fn or_dash(path: Option<Seq<char>>) -> Seq<char> {
    match path {
        Some(p) => p,
        None => "-"@,
    }
}

pub open spec fn described_at(m: Map<Seq<char>, Print>, path: Seq<char>) -> Seq<char> {
    if m.contains_key(path) {
        m[path].describe()
    } else {
        "missing"@
    }
}

pub open spec fn header_line(j: JournalRecord) -> Seq<char> {
    "transaction "@ + uuid_text(j.transaction_id) + " direction="@ + j.direction + " status="@ + j.status.text()
        + " anchor="@ + j.anchor + " target="@ + j.target
}

pub open spec fn step_line(s: StepRecord, scan: Option<Map<Seq<char>, Print>>) -> Seq<char> {
    let path = s.paths[0];
    "  step "@ + decimal(s.id) + " "@ + path + ": expected_before="@ + described_at(s.before, path)
        + " planned_after="@ + described_at(s.after, path) + " actual="@ + (match scan {
        Some(m) => at(m, path).describe(),
        None => "workspace could not be scanned"@,
    }) + " backup="@ + or_dash(s.backup_path) + " staging="@ + or_dash(s.staging_path)
}

/// The lines that explain an unfinished transaction.
pub open spec fn diagnosis(j: JournalRecord, scan: Option<Map<Seq<char>, Print>>) -> Seq<Seq<char>> {
    seq![header_line(j)] + order::kept(
        j.steps,
        |s: StepRecord| s.paths.len() > 0,
        |s: StepRecord| step_line(s, scan),
    )
}

pub open spec fn manifest_view(m: Option<Manifest>) -> Option<Map<Seq<char>, Print>> {
    match m {
        Some(m) => Some(m@),
        None => None,
    }
}

fn description(table: &Table<Fingerprint>, path: &str) -> (r: String)
    ensures
        r@ == described_at(table@, path@),
{
    match table.get(path) {
        Some(f) => f.describe(),
        None => text::copy("missing"),
    }
}

fn explain_step(step: &JournalStep, scan: &Option<Manifest>) -> (r: String)
    requires
        step@.paths.len() > 0,
    ensures
        r@ == step_line(step@, manifest_view(*scan)),
{
    let path = step.paths[0].as_str();
    assert(step@.paths[0] == path@);
    let mut line = text::copy("  step ");
    line.append(text::decimal_usize(step.id).as_str());
    line.append(" ");
    line.append(path);
    line.append(": expected_before=");
    line.append(description(&step.before, path).as_str());
    line.append(" planned_after=");
    line.append(description(&step.after, path).as_str());
    line.append(" actual=");
    match scan {
        Some(manifest) => {
            line.append(manifest.get(path).describe().as_str());
        },
        None => {
            line.append("workspace could not be scanned");
        },
    }
    line.append(" backup=");
    match &step.backup_path {
        Some(p) => {
            line.append(p.as_str());
        },
        None => {
            line.append("-");
        },
    }
    line.append(" staging=");
    match &step.staging_path {
        Some(p) => {
            line.append(p.as_str());
        },
        None => {
            line.append("-");
        },
    }
    assert(line@ =~= step_line(step@, manifest_view(*scan)));
    line
}

/// Explains an unfinished transaction, step by step, against what the
/// workspace holds.
pub fn diagnose_recoverable(journal: &Journal, scan: &Option<Manifest>) -> (r: Vec<String>)
    ensures
        views(r@) == diagnosis(journal@, manifest_view(*scan)),
{
    let mut header = text::copy("transaction ");
    header.append(outside::identifier(journal.transaction_id).as_str());
    header.append(" direction=");
    header.append(journal.direction.as_str());
    header.append(" status=");
    header.append(journal.status.as_str());
    header.append(" anchor=");
    header.append(journal.anchor_state_id.as_str());
    header.append(" target=");
    header.append(journal.target_state_id.as_str());
    assert(header@ =~= header_line(journal@));
    let mut lines: Vec<String> = Vec::new();
    lines.push(header);
    let ghost start = seq![header_line(journal@)];
    let ghost steps = journal@.steps;
    let ghost seen = manifest_view(*scan);
    let ghost keep = |s: StepRecord| s.paths.len() > 0;
    let ghost f = |s: StepRecord| step_line(s, seen);
    assert(views(lines@) =~= start + order::kept(steps.take(0), keep, f));
    for i in 0..journal.steps.len()
        invariant
            steps == journal@.steps,
            seen == manifest_view(*scan),
            keep == (|s: StepRecord| s.paths.len() > 0),
            f == (|s: StepRecord| step_line(s, seen)),
            views(lines@) == start + order::kept(steps.take(i as int), keep, f),
    {
        proof {
            order::kept_step(steps, i as int, keep, f);
        }
        let step = &journal.steps[i];
        assert(steps[i as int] == step@);
        if step.paths.len() > 0 {
            let line = explain_step(step, scan);
            proof {
                order::push_contains(lines@, line);
                assert(views(lines@).push(line@) =~= start + order::kept(steps.take(i as int), keep, f).push(line@));
            }
            lines.push(line);
        }
    }
    assert(steps.take(steps.len() as int) =~= steps);
    lines
}

// ---------------------------------------------------------------------------
// Laws on transactions
// ---------------------------------------------------------------------------

/// A transaction commits only in its target state.
pub proof fn commit_means_target(p: Progress, state: std::result::Result<Seq<char>, Fault>, matches: bool)
    requires
        on_scanned(p, state, matches).next is Committed,
    ensures
        state == Ok::<Seq<char>, Fault>(p.journal.target),
        p.recovering ==> matches,
        on_scanned(p, state, matches).records.workspace == Some((WorkspaceCondition::Healthy, p.journal.target)),
{
}

/// Whatever goes wrong gates the workspace, and leaves the state before the
/// transaction as its baseline. The journal waits for a recovery.
pub proof fn failure_gates(p: Progress, fault: Fault)
    ensures
        gets_stuck(p, fault).records.workspace == Some((WorkspaceCondition::RecoveryRequired, p.journal.anchor)),
        gets_stuck(p, fault).records.transaction == Some(JournalStatus::RecoveryRequired),
        gets_stuck(p, fault).progress.journal.status == JournalStatus::RecoveryRequired,
        !gets_stuck(p, fault).progress.journal.status.terminal(),
        gets_stuck(p, fault).progress.journal.steps.len() == p.journal.steps.len(),
{
}

/// A path is changed only when the journal says so: the step is marked as under
/// way, its path holds what the plan expects or the change is forced.
pub proof fn change_is_announced(
    p: Progress,
    actual: std::result::Result<Print, Fault>,
    backup_exists: bool,
)
    requires
        on_looked(p, actual, backup_exists).next is Change,
    ensures
        ({
            let q = on_looked(p, actual, backup_exists).progress;
            let facts = facts_of(p.journal.steps, p.index);
            &&& facts is Ok
            &&& p.index < p.journal.steps.len()
            &&& q.journal.status == JournalStatus::Applying
            &&& q.journal.steps[p.index as int].status == JournalStatus::Applying
            &&& actual is Ok
            &&& p.force || actual->Ok_0 == facts->Ok_0.before
        }),
{
}

/// An interrupted step whose path holds something that is neither what the plan
/// found nor what it puts there, nor nothing, is never carried on.
pub proof fn unknown_state_is_not_touched(p: Progress, actual: Print, traces: Traces)
    requires
        p.index < p.journal.steps.len(),
        p.journal.steps[p.index as int].paths.len() > 0,
        facts_of(p.journal.steps, p.index) is Ok,
        !(actual is Absent),
        actual != facts_of(p.journal.steps, p.index)->Ok_0.before,
        !compatible(actual, facts_of(p.journal.steps, p.index)->Ok_0.after),
    ensures
        on_classified(p, actual, traces).next is Stuck,
{
}

/// Taking up a step that is done changes nothing but its mark: recovery can be
/// repeated.
pub proof fn recovery_repeats(p: Progress, actual: Print, traces: Traces)
    requires
        p.index < p.journal.steps.len(),
        facts_of(p.journal.steps, p.index) is Ok,
        compatible(actual, facts_of(p.journal.steps, p.index)->Ok_0.after),
        backup_sufficient(
            p.journal.steps[p.index as int],
            facts_of(p.journal.steps, p.index)->Ok_0.before,
            traces.backup_exists,
        ),
    ensures
        on_classified(p, actual, traces).progress.journal == p.journal.with_step(
            p.index as int,
            JournalStatus::Durable,
        ),
        on_classified(p, actual, traces).progress.index == p.index + 1,
{
}

/// The staging area goes only when the transaction is over and everything that
/// it moved aside is archived, or nothing was.
pub proof fn staging_outlives_its_need(p: Progress, state: std::result::Result<Seq<char>, Fault>, matches: bool)
    requires
        !p.recovering,
        p.journal.has_backup(),
        on_scanned(p, state, matches).next is Committed,
    ensures
        !disposable(on_scanned(p, state, matches).progress.journal),
        wants_archive(on_scanned(p, state, matches).progress.journal),
{
}

// ---------------------------------------------------------------------------
// What the calls promise
// ---------------------------------------------------------------------------

/// Every step of a plan is complete. It is about one path that changes, knows
/// what the target holds there, and expects there what the source holds (of a
/// directory, one with the same metadata). It has somewhere to move whatever
/// stands at the path, of whatever kind, except where nothing does or where a
/// directory stays, and it has somewhere to prepare a file that it puts in
/// place. Nothing that cannot be restored is planned.
pub proof fn a_planned_step_is_complete(
    platform: Platform,
    workspace_id: u128,
    transaction_id: u128,
    operation_id: Option<i64>,
    anchor_id: String,
    target_state_id: String,
    direction: String,
    before: Manifest,
    after: Manifest,
    quarantine: &str,
    prepared: &str,
    journal: Journal,
    i: int,
)
    requires
        call_ensures(
            build_journal,
            (
                platform,
                workspace_id,
                transaction_id,
                operation_id,
                anchor_id,
                target_state_id,
                direction,
                &before,
                &after,
                quarantine,
                prepared,
            ),
            Ok::<Journal, RewindError>(journal),
        ),
        0 <= i < journal.steps@.len(),
    ensures
        ({
            let step = journal.steps@[i];
            let path = step.paths@[0]@;
            let pre = at(before@, path);
            let post = at(after@, path);
            &&& step.id == i
            &&& step.status == JournalStatus::Planned
            &&& step.paths@.len() == 1
            &&& pre != post
            &&& step.before@.contains_key(path)
            &&& match pre {
                Print::Directory { manifest_hash, entry_count, metadata } => {
                    &&& step.before@[path] is Directory
                    &&& step.before@[path]->Directory_metadata == metadata
                },
                other => step.before@[path] == other,
            }
            &&& step.after@.contains_key(path)
            &&& step.after@[path] == post
            &&& !(post is Unsupported)
            &&& step.backup_path is Some == !(pre is Absent || (pre is Directory && post is Directory))
            &&& step.staging_path is Some == post is RegularFile
        }),
{
    let list = plan_order(before@, after@);
    steps_are_planned(platform, before@, after@, quarantine@, prepared@, journal);
    turns_are(before@, after@);
    assert(journal.steps@[i].paths@[0]@ == list[i].path);
    assert(list[i] == turn_of(after@, list[i].path));
    if at(after@, list[i].path) is Unsupported {
        refused_first(list, after@, i);
    }
}

/// The steps that a journal holds are those of the plan.
proof fn steps_are_planned(
    platform: Platform,
    before: Map<Seq<char>, Print>,
    after: Map<Seq<char>, Print>,
    quarantine: Seq<char>,
    prepared: Seq<char>,
    journal: Journal,
)
    requires
        journal@.steps == planned_steps(platform, before, after, quarantine, prepared),
    ensures
        journal.steps@.len() == plan_order(before, after).len(),
        forall|i: int|
            0 <= i < journal.steps@.len() ==> {
                let step = #[trigger] journal.steps@[i];
                let path = plan_order(before, after)[i].path;
                &&& step.paths@.len() == 1
                &&& step.paths@[0]@ == path
                &&& step@ == planned_step(platform, before, after, quarantine, prepared, i as nat, path)
            },
{
    let list = plan_order(before, after);
    assert(journal@.steps.len() == journal.steps@.len());
    assert forall|i: int| 0 <= i < journal.steps@.len() implies {
        let step = #[trigger] journal.steps@[i];
        let path = list[i].path;
        &&& step.paths@.len() == 1
        &&& step.paths@[0]@ == path
        &&& step@ == planned_step(platform, before, after, quarantine, prepared, i as nat, path)
    } by {
        let step = journal.steps@[i];
        assert(journal@.steps[i] == step@);
        assert(step@.paths.len() == step.paths@.len());
        assert(step@.paths[0] == step.paths@[0]@);
    }
}

/// Where a turn is refused, one is the first to be.
proof fn refused_first(list: Seq<Turn>, after: Map<Seq<char>, Print>, i: int)
    requires
        0 <= i < list.len(),
        !at(after, list[i].path).supported(),
    ensures
        exists|k: int| #[trigger] first_refused(list, after, k),
    decreases i,
{
    if exists|j: int| 0 <= j < i && !at(after, (#[trigger] list[j]).path).supported() {
        let j = choose|j: int| 0 <= j < i && !at(after, (#[trigger] list[j]).path).supported();
        refused_first(list, after, j);
    } else {
        assert(first_refused(list, after, i));
    }
}

/// A plan can be carried out. Where the path of a step holds what the step
/// expects, the step knows where to move it and what to put in its place, and
/// neither fails: what stands there is moved to the backup path, unless there
/// is nothing or a directory stays, and what is installed is what the target
/// holds.
pub proof fn a_plan_can_be_carried_out(
    platform: Platform,
    workspace_id: u128,
    transaction_id: u128,
    operation_id: Option<i64>,
    anchor_id: String,
    target_state_id: String,
    direction: String,
    before: Manifest,
    after: Manifest,
    quarantine: &str,
    prepared: &str,
    journal: Journal,
    index: usize,
    read: Result<StepFacts>,
    actual: Fingerprint,
    moved: Result<Option<String>>,
    installed: Result<Install>,
)
    requires
        call_ensures(
            build_journal,
            (
                platform,
                workspace_id,
                transaction_id,
                operation_id,
                anchor_id,
                target_state_id,
                direction,
                &before,
                &after,
                quarantine,
                prepared,
            ),
            Ok::<Journal, RewindError>(journal),
        ),
        index < journal.steps@.len(),
        call_ensures(step_facts, (&journal, index), read),
        read is Ok ==> actual@ == read->Ok_0.before@,
        read is Ok ==> call_ensures(quarantine_of, (&journal.steps@[index as int], &read->Ok_0, &actual), moved),
        read is Ok ==> call_ensures(installation, (&journal.steps@[index as int], &read->Ok_0), installed),
    ensures
        ({
            let step = journal.steps@[index as int];
            let path = step.paths@[0]@;
            let pre = at(before@, path);
            let post = at(after@, path);
            &&& read is Ok
            &&& read->Ok_0.path@ == path
            &&& read->Ok_0.after@ == post
            &&& moved is Ok
            &&& moved->Ok_0 is Some == !(pre is Absent || (pre is Directory && post is Directory))
            &&& moved->Ok_0 is Some ==> step.backup_path is Some && moved->Ok_0->0@ == step.backup_path->0@
            &&& installed is Ok
            &&& match post {
                Print::RegularFile { content_hash, size, metadata } => {
                    &&& installed->Ok_0 is File
                    &&& step.staging_path is Some
                    &&& installed->Ok_0->stage@ == step.staging_path->0@
                    &&& installed->Ok_0->File_metadata == metadata
                },
                Print::Directory { manifest_hash, entry_count, metadata } => {
                    &&& installed->Ok_0 is Directory
                    &&& installed->Ok_0->Directory_metadata == metadata
                },
                Print::Symlink { target, target_kind, target_hash, metadata } => {
                    &&& installed->Ok_0 is Symlink
                    &&& installed->Ok_0->target@ == target
                    &&& installed->Ok_0->target_kind == target_kind
                },
                Print::NamedPipe { metadata } => {
                    &&& installed->Ok_0 is NamedPipe
                    &&& installed->Ok_0->NamedPipe_metadata == metadata
                },
                Print::Absent => installed->Ok_0 is Nothing,
                Print::Unsupported { object_kind, descriptor } => false,
            }
        }),
{
    let i = index as int;
    a_planned_step_is_complete(
        platform,
        workspace_id,
        transaction_id,
        operation_id,
        anchor_id,
        target_state_id,
        direction,
        before,
        after,
        quarantine,
        prepared,
        journal,
        i,
    );
    let step = journal.steps@[i];
    assert(journal@.steps[i] == step@);
    assert(step@.paths[0] == step.paths@[0]@);
}

/// A plan changes exactly the paths on which the two states differ, each in one
/// step, and leads to the target on each of them. On every other path the
/// states agree, so that with all its steps done the plan has led to the
/// target.
pub proof fn a_plan_leads_to_its_target(
    platform: Platform,
    workspace_id: u128,
    transaction_id: u128,
    operation_id: Option<i64>,
    anchor_id: String,
    target_state_id: String,
    direction: String,
    before: Manifest,
    after: Manifest,
    quarantine: &str,
    prepared: &str,
    journal: Journal,
    path: Seq<char>,
)
    requires
        before.entries.ordered(),
        after.entries.ordered(),
        call_ensures(
            build_journal,
            (
                platform,
                workspace_id,
                transaction_id,
                operation_id,
                anchor_id,
                target_state_id,
                direction,
                &before,
                &after,
                quarantine,
                prepared,
            ),
            Ok::<Journal, RewindError>(journal),
        ),
    ensures
        (at(before@, path) != at(after@, path)) == exists|i: int|
            0 <= i < journal.steps@.len() && (#[trigger] journal.steps@[i]).paths@[0]@ == path,
        forall|i: int|
            0 <= i < journal.steps@.len() && (#[trigger] journal.steps@[i]).paths@[0]@ == path
                ==> journal.steps@[i].after@[path] == at(after@, path),
        forall|i: int, j: int|
            0 <= i < j < journal.steps@.len() ==> (#[trigger] journal.steps@[i]).paths@[0]@ != (
            #[trigger] journal.steps@[j]).paths@[0]@,
{
    let list = plan_order(before@, after@);
    plan_covers_changes(before, after, path);
    steps_are_planned(platform, before@, after@, quarantine@, prepared@, journal);
    if at(before@, path) != at(after@, path) {
        let i = choose|i: int| 0 <= i < list.len() && (#[trigger] list[i]).path == path;
        assert(journal.steps@[i].paths@[0]@ == path);
    }
    if exists|i: int| 0 <= i < journal.steps@.len() && (#[trigger] journal.steps@[i]).paths@[0]@ == path {
        let i = choose|i: int| 0 <= i < journal.steps@.len() && (#[trigger] journal.steps@[i]).paths@[0]@ == path;
        assert(list[i].path == path);
    }
    assert forall|i: int, j: int| 0 <= i < j < journal.steps@.len() implies (
    #[trigger] journal.steps@[i]).paths@[0]@ != (#[trigger] journal.steps@[j]).paths@[0]@ by {
        plan_covers_changes(before, after, list[i].path);
        assert(list[i].path == journal.steps@[i].paths@[0]@);
        assert(list[j].path == journal.steps@[j].paths@[0]@);
    }
}

/// The steps of a plan come in an order in which each can be done: whatever
/// goes is removed before anything is put in place, what lies below a path is
/// removed before it, and a directory is put in place before what lies below
/// it.
pub proof fn a_plan_is_in_order(
    platform: Platform,
    workspace_id: u128,
    transaction_id: u128,
    operation_id: Option<i64>,
    anchor_id: String,
    target_state_id: String,
    direction: String,
    before: Manifest,
    after: Manifest,
    quarantine: &str,
    prepared: &str,
    journal: Journal,
    i: int,
    j: int,
    rest: Seq<char>,
)
    requires
        call_ensures(
            build_journal,
            (
                platform,
                workspace_id,
                transaction_id,
                operation_id,
                anchor_id,
                target_state_id,
                direction,
                &before,
                &after,
                quarantine,
                prepared,
            ),
            Ok::<Journal, RewindError>(journal),
        ),
        0 <= i < journal.steps@.len(),
        0 <= j < journal.steps@.len(),
    ensures
        ({
            let first = journal.steps@[i].paths@[0]@;
            let second = journal.steps@[j].paths@[0]@;
            let left = at(after@, first);
            let right = at(after@, second);
            &&& left is Absent && !(right is Absent) ==> i < j
            &&& left is Absent && right is Absent && first == second + seq!['/'] + rest ==> i < j
            &&& left is Directory && !(right is Absent) && second == first + seq!['/'] + rest ==> i < j
        }),
{
    let list = plan_order(before@, after@);
    steps_are_planned(platform, before@, after@, quarantine@, prepared@, journal);
    assert(journal.steps@[i].paths@[0]@ == list[i].path);
    assert(journal.steps@[j].paths@[0]@ == list[j].path);
    turns_are(before@, after@);
    assert(list[i] == turn_of(after@, list[i].path));
    assert(list[j] == turn_of(after@, list[j].path));
    plan_order_is_safe(before@, after@, i, j);
    let a = list[i].path;
    let b = list[j].path;
    if a == b + seq!['/'] + rest {
        lies_below(b, rest);
    }
    if b == a + seq!['/'] + rest {
        lies_below(a, rest);
    }
}

proof fn lies_below(top: Seq<char>, rest: Seq<char>)
    ensures
        scan::within(top + seq!['/'] + rest, top),
        top + seq!['/'] + rest != top,
{
    let path = top + seq!['/'] + rest;
    assert(path.len() > top.len());
    assert(path[top.len() as int] == '/');
    assert(path.take(top.len() as int) =~= top);
}

/// A transaction is refused exactly when a path on which the states differ
/// holds something in the target that cannot be restored. A journal carries
/// what it was asked for, and is to be archived exactly when a step moves
/// something aside.
pub proof fn a_plan_is_refused_for_its_target_alone(
    platform: Platform,
    workspace_id: u128,
    transaction_id: u128,
    operation_id: Option<i64>,
    anchor_id: String,
    target_state_id: String,
    direction: String,
    before: Manifest,
    after: Manifest,
    quarantine: &str,
    prepared: &str,
    r: Result<Journal>,
)
    requires
        before.entries.ordered(),
        after.entries.ordered(),
        call_ensures(
            build_journal,
            (
                platform,
                workspace_id,
                transaction_id,
                operation_id,
                anchor_id,
                target_state_id,
                direction,
                &before,
                &after,
                quarantine,
                prepared,
            ),
            r,
        ),
    ensures
        r is Err == exists|path: Seq<char>|
            #![trigger at(after@, path)]
            at(before@, path) != at(after@, path) && at(after@, path) is Unsupported,
        r is Err ==> r->Err_0 is Unsupported,
        r is Ok ==> {
            let journal = r->Ok_0;
            &&& journal.workspace_id == workspace_id
            &&& journal.transaction_id == transaction_id
            &&& journal.operation_id == operation_id
            &&& journal.anchor_state_id@ == anchor_id@
            &&& journal.target_state_id@ == target_state_id@
            &&& journal.direction@ == direction@
            &&& journal.status == JournalStatus::Planned
            &&& journal.archive_error is None
            &&& journal.archive_status == if exists|i: int|
                0 <= i < journal.steps@.len() && (#[trigger] journal.steps@[i]).backup_path is Some {
                ArchiveStatus::Pending
            } else {
                ArchiveStatus::NotRequired
            }
        },
{
    let list = plan_order(before@, after@);
    turns_are(before@, after@);
    if r is Err {
        let i = choose|i: int| #[trigger] first_refused(list, after@, i);
        assert(list[i] == turn_of(after@, list[i].path));
        assert(at(after@, list[i].path) is Unsupported);
    }
    if exists|path: Seq<char>|
        #![trigger at(after@, path)]
        at(before@, path) != at(after@, path) && at(after@, path) is Unsupported {
        let path = choose|path: Seq<char>|
            #![trigger at(after@, path)]
            at(before@, path) != at(after@, path) && at(after@, path) is Unsupported;
        plan_covers_changes(before, after, path);
        let i = choose|i: int| 0 <= i < list.len() && (#[trigger] list[i]).path == path;
        refused_first(list, after@, i);
    }
    if r is Ok {
        let journal = r->Ok_0;
        assert(journal@.has_backup() == exists|i: int|
            0 <= i < journal.steps@.len() && (#[trigger] journal.steps@[i]).backup_path is Some) by {
            if journal@.has_backup() {
                let i = choose|i: int| 0 <= i < journal@.steps.len() && (#[trigger] journal@.steps[i]).backup_path is Some;
                assert(journal@.steps[i] == journal.steps@[i]@);
            }
            if exists|i: int| 0 <= i < journal.steps@.len() && (#[trigger] journal.steps@[i]).backup_path is Some {
                let i = choose|i: int| 0 <= i < journal.steps@.len() && (#[trigger] journal.steps@[i]).backup_path is Some;
                assert(journal@.steps[i] == journal.steps@[i]@);
            }
        }
    }
}

/// Whether a transaction has come to a step that takes a path from one object
/// to another.
pub open spec fn has_come_to(t: Transaction, path: Seq<char>, pre: Print, post: Print) -> bool {
    let step = t.journal.steps@[t.index as int];
    &&& t.index < t.journal.steps@.len()
    &&& step.paths@.len() == 1
    &&& step.paths@[0]@ == path
    &&& step.before@ == map![path => pre]
    &&& step.after@ == map![path => post]
}

/// Whether nothing is lost by a step that is over: there was nothing at the
/// path, a directory stayed, or what was there stands where the step moves it.
pub open spec fn nothing_lost(t: Transaction, pre: Print, post: Print, backup_exists: bool) -> bool {
    ||| pre is Absent
    ||| pre is Directory && post is Directory
    ||| t.journal.steps@[t.index as int].backup_path is Some && backup_exists
}

/// Whether two journals hold the same plan. Only how far it was carried out may
/// differ.
pub open spec fn same_plan(a: Journal, b: Journal) -> bool {
    &&& a.transaction_id == b.transaction_id
    &&& a.workspace_id == b.workspace_id
    &&& a.operation_id == b.operation_id
    &&& a.anchor_state_id@ == b.anchor_state_id@
    &&& a.target_state_id@ == b.target_state_id@
    &&& a.direction@ == b.direction@
    &&& a.steps@.len() == b.steps@.len()
    &&& forall|k: int|
        #![trigger a.steps@[k]]
        #![trigger b.steps@[k]]
        0 <= k < a.steps@.len() ==> {
            &&& views(a.steps@[k].paths@) == views(b.steps@[k].paths@)
            &&& a.steps@[k].before@ == b.steps@[k].before@
            &&& a.steps@[k].after@ == b.steps@[k].after@
            &&& optional(a.steps@[k].backup_path) == optional(b.steps@[k].backup_path)
            &&& optional(a.steps@[k].staging_path) == optional(b.steps@[k].staging_path)
        }
}

/// Whether a transaction has stopped where it was: its journal and the catalog
/// say that it has to be recovered, and the workspace is held back in the state
/// from before it.
pub open spec fn has_stopped(before: Transaction, after: Transaction, r: Outcome) -> bool {
    &&& r.next is Stuck
    &&& after.index == before.index
    &&& after.journal.status == JournalStatus::RecoveryRequired
    &&& r.records.transaction == Some(JournalStatus::RecoveryRequired)
    &&& r.records.workspace is Some
    &&& (r.records.workspace->0).0 == WorkspaceCondition::RecoveryRequired
    &&& (r.records.workspace->0).1@ == before.journal.anchor_state_id@
    &&& r.records.operation is None
    &&& same_plan(before.journal, after.journal)
}

/// Whether a transaction has gone on to its next step, or to the scan where
/// there is none, with the step behind it durable.
pub open spec fn has_gone_on(before: Transaction, after: Transaction, r: Outcome) -> bool {
    &&& after.index == before.index + 1
    &&& after.journal.steps@[before.index as int].status == JournalStatus::Durable
    &&& r.records.transaction is None
    &&& r.records.workspace is None
    &&& r.records.operation is None
    &&& r.next is Scan == (before.index + 1 >= before.journal.steps@.len())
    &&& before.index + 1 < before.journal.steps@.len() ==> if before.recovering {
        r.next is Classify
    } else {
        r.next is Look
    }
    &&& same_plan(before.journal, after.journal)
}

proof fn singly_listed(path: Seq<char>, print: Print)
    ensures
        crate::table::listed(map![path => print]) == seq![(path, print)],
{
    let m = map![path => print];
    let s = seq![(path, print)];
    assert(crate::table::firsts(s) =~= seq![path]);
    assert forall|k: Seq<char>| #[trigger] m.contains_key(k) == crate::table::firsts(s).contains(k) by {
        if k == path {
            assert(crate::table::firsts(s)[0] == k);
        }
    }
    crate::table::listing_unique(m, s);
}

/// Journals that say the same but for statuses hold the same plan.
pub proof fn same_records_same_plan(a: Journal, b: Journal)
    requires
        a@.transaction_id == b@.transaction_id,
        a@.workspace_id == b@.workspace_id,
        a@.operation_id == b@.operation_id,
        a@.anchor == b@.anchor,
        a@.target == b@.target,
        a@.direction == b@.direction,
        a@.steps.len() == b@.steps.len(),
        forall|k: int|
            0 <= k < a@.steps.len() ==> (#[trigger] b@.steps[k]) == (StepRecord {
                status: b@.steps[k].status,
                ..a@.steps[k]
            }),
    ensures
        same_plan(a, b),
        a.steps@.len() == b.steps@.len(),
        forall|k: int| 0 <= k < b.steps@.len() ==> (#[trigger] b.steps@[k]).status == b@.steps[k].status,
{
    assert(a@.steps.len() == a.steps@.len());
    assert(b@.steps.len() == b.steps@.len());
    assert forall|k: int|
        #![trigger a.steps@[k]]
        #![trigger b.steps@[k]]
        0 <= k < a.steps@.len() implies {
        &&& views(a.steps@[k].paths@) == views(b.steps@[k].paths@)
        &&& a.steps@[k].before@ == b.steps@[k].before@
        &&& a.steps@[k].after@ == b.steps@[k].after@
        &&& optional(a.steps@[k].backup_path) == optional(b.steps@[k].backup_path)
        &&& optional(a.steps@[k].staging_path) == optional(b.steps@[k].staging_path)
    } by {
        assert(a@.steps[k] == a.steps@[k]@);
        assert(b@.steps[k] == b.steps@[k]@);
    }
    assert forall|k: int| 0 <= k < b.steps@.len() implies (#[trigger] b.steps@[k]).status == b@.steps[k].status by {
        assert(b@.steps[k] == b.steps@[k]@);
    }
}

/// A step changes its path only where that holds what the plan expects, or where
/// the change is forced. One that finds its work done, with nothing lost, is
/// passed over; one that finds anything else stops the transaction before the
/// path is touched, with a conflict that names the path.
pub proof fn a_path_is_changed_only_as_planned(
    t: &mut Transaction,
    found: Fingerprint,
    backup_exists: bool,
    path: Seq<char>,
    pre: Print,
    post: Print,
    r: Outcome,
)
    requires
        has_come_to(*old(t), path, pre, post),
        call_ensures(Transaction::looked, (t, Ok::<Fingerprint, RewindError>(found), backup_exists), r),
    ensures
        ({
            let done = found@ == post && nothing_lost(*old(t), pre, post, backup_exists);
            &&& done ==> has_gone_on(*old(t), *final(t), r)
            &&& !done && (found@ == pre || old(t).force) ==> {
                &&& r.next is Change
                &&& final(t).index == old(t).index
                &&& final(t).journal.status == JournalStatus::Applying
                &&& final(t).journal.steps@[old(t).index as int].status == JournalStatus::Applying
                &&& r.records.transaction is None
                &&& r.records.workspace is None
                &&& r.records.operation is None
                &&& same_plan(old(t).journal, final(t).journal)
            }
            &&& !done && found@ != pre && !old(t).force ==> {
                &&& has_stopped(*old(t), *final(t), r)
                &&& r.next->Stuck_0 is Conflict
                &&& r.next->Stuck_0->path@ == path
            }
        }),
{
    let start = old(t)@;
    let step = old(t).journal.steps@[old(t).index as int];
    assert(start.journal.steps[start.index as int] == step@);
    assert(step@.paths[0] == path);
    assert(step@.paths.len() == 1);
    singly_listed(path, post);
    same_records_same_plan(old(t).journal, final(t).journal);
}

/// A path that cannot be looked at stops the transaction before it is touched.
pub proof fn an_unreadable_path_stops(t: &mut Transaction, error: RewindError, backup_exists: bool, path: Seq<char>, pre: Print, post: Print, r: Outcome)
    requires
        has_come_to(*old(t), path, pre, post),
        call_ensures(Transaction::looked, (t, Err::<Fingerprint, RewindError>(error), backup_exists), r),
    ensures
        has_stopped(*old(t), *final(t), r),
        r.next->Stuck_0@ == error@,
{
    let start = old(t)@;
    let step = old(t).journal.steps@[old(t).index as int];
    assert(start.journal.steps[start.index as int] == step@);
    assert(step@.paths[0] == path);
    assert(step@.paths.len() == 1);
    same_records_same_plan(old(t).journal, final(t).journal);
}

/// A change that failed stops the transaction. One that was made is looked at
/// before the step counts.
pub proof fn a_change_is_looked_at(t: &mut Transaction, error: Option<RewindError>, r: Outcome)
    requires
        old(t).index < old(t).journal.steps@.len(),
        call_ensures(Transaction::changed, (t, error), r),
    ensures
        error is Some ==> has_stopped(*old(t), *final(t), r) && r.next->Stuck_0@ == error->0@,
        error is None ==> {
            &&& r.next is Verify
            &&& final(t).index == old(t).index
            &&& final(t).journal.steps@[old(t).index as int].status == JournalStatus::Applied
            &&& r.records.transaction is None
            &&& r.records.workspace is None
            &&& r.records.operation is None
            &&& same_plan(old(t).journal, final(t).journal)
        },
{
    same_records_same_plan(old(t).journal, final(t).journal);
}

/// A step counts exactly when its path then holds what the plan says, of a
/// directory that it is one. Anything else stops the transaction.
pub proof fn a_step_counts_when_its_path_holds_the_target(
    t: &mut Transaction,
    facts: StepFacts,
    found: std::result::Result<Fingerprint, RewindError>,
    r: Outcome,
)
    requires
        old(t).index < old(t).journal.steps@.len(),
        call_ensures(Transaction::verified, (t, &facts, found), r),
    ensures
        ({
            let reached = found is Ok && (found->Ok_0@ == facts.after@ || (found->Ok_0@ is Directory
                && facts.after@ is Directory));
            &&& reached ==> has_gone_on(*old(t), *final(t), r) && final(t).journal.status == JournalStatus::Durable
            &&& !reached ==> has_stopped(*old(t), *final(t), r)
        }),
{
    same_records_same_plan(old(t).journal, final(t).journal);
}

/// A transaction is committed exactly when the scan finds its target, on a
/// recovery with the manifest of the target too. Then the workspace is healthy
/// in the target, and the operation has the status that it was to get. Anything
/// else stops the transaction.
pub proof fn a_transaction_commits_in_its_target(
    t: &mut Transaction,
    state: std::result::Result<String, RewindError>,
    matches: bool,
    r: Outcome,
)
    requires
        call_ensures(Transaction::scanned, (t, state, matches), r),
    ensures
        ({
            let reached = state is Ok && state->Ok_0@ == old(t).journal.target_state_id@ && (matches
                || !old(t).recovering);
            &&& reached ==> {
                &&& r.next is Committed
                &&& final(t).journal.status == JournalStatus::Committed
                &&& r.records.transaction == Some(JournalStatus::Committed)
                &&& r.records.workspace is Some
                &&& (r.records.workspace->0).0 == WorkspaceCondition::Healthy
                &&& (r.records.workspace->0).1@ == old(t).journal.target_state_id@
                &&& r.records.operation is Some == old(t).journal.operation_id is Some
                &&& r.records.operation is Some ==> r.records.operation->0 == (
                    old(t).journal.operation_id->0,
                    old(t).operation_status,
                )
                &&& same_plan(old(t).journal, final(t).journal)
                &&& !old(t).recovering ==> forall|k: int|
                    0 <= k < final(t).journal.steps@.len() ==> (#[trigger] final(t).journal.steps@[k]).status
                        == JournalStatus::Durable
                &&& !old(t).recovering && (exists|k: int|
                    0 <= k < old(t).journal.steps@.len() && (#[trigger] old(t).journal.steps@[k]).backup_path is Some)
                    ==> final(t).journal.archive_status == ArchiveStatus::Pending
            }
            &&& !reached ==> has_stopped(*old(t), *final(t), r)
        }),
{
    let start = old(t)@;
    assert(start.journal.steps.len() == old(t).journal.steps@.len());
    same_records_same_plan(old(t).journal, final(t).journal);
    if exists|k: int|
        0 <= k < old(t).journal.steps@.len() && (#[trigger] old(t).journal.steps@[k]).backup_path is Some {
        let k = choose|k: int|
            0 <= k < old(t).journal.steps@.len() && (#[trigger] old(t).journal.steps@[k]).backup_path is Some;
        assert(start.journal.steps[k] == old(t).journal.steps@[k]@);
        assert(start.journal.has_backup());
    }
}

/// Whether an artifact is the object that a fingerprint describes, as far as
/// what was moved aside is compared.
pub open spec fn is_kept_as(artifact: Artifact, expected: Print) -> bool {
    ||| artifact is Missing && expected is Absent
    ||| artifact is File && expected is RegularFile && artifact->size == expected->RegularFile_size
        && artifact->content is Ok && outside::blake3_hex(artifact->content->Ok_0@)
        == expected->RegularFile_content_hash
    ||| artifact is Directory && expected is Directory
    ||| artifact is Symlink && expected is Symlink && artifact->target is Ok && artifact->target->Ok_0@
        == expected->Symlink_target
    ||| artifact is NamedPipe && expected is NamedPipe
}

/// How far an interrupted step came is told by its path. It is over where the
/// path holds the target and nothing is lost. It starts again where the path
/// holds what it expects. It is forced on only where the path is empty, what
/// stood there is kept as it was, and what is to come can be had. Anything else
/// is left alone, and stops the recovery.
pub proof fn a_recovery_guesses_nothing(
    t: &mut Transaction,
    found: Fingerprint,
    traces: Traces,
    path: Seq<char>,
    pre: Print,
    post: Print,
    r: Outcome,
)
    requires
        old(t).recovering,
        has_come_to(*old(t), path, pre, post),
        call_ensures(Transaction::classified, (t, &found, &traces), r),
    ensures
        ({
            let step = old(t).journal.steps@[old(t).index as int];
            let over = (found@ == post || (found@ is Directory && post is Directory)) && nothing_lost(
                *old(t),
                pre,
                post,
                traces.backup_exists,
            );
            let emptied = found@ is Absent && (if step.backup_path is Some {
                is_kept_as(traces.backup, pre)
            } else {
                pre is Absent
            }) && ((post is RegularFile && step.staging_path is Some && traces.staged) || post is Directory
                || post is Symlink || post is NamedPipe);
            &&& over ==> has_gone_on(*old(t), *final(t), r)
            &&& !over && (found@ == pre || emptied) ==> {
                &&& r.next is Look
                &&& final(t).index == old(t).index
                &&& final(t).force == (found@ != pre)
                &&& r.records.transaction is None
                &&& r.records.workspace is None
                &&& r.records.operation is None
                &&& same_plan(old(t).journal, final(t).journal)
            }
            &&& !over && found@ != pre && !emptied ==> has_stopped(*old(t), *final(t), r)
        }),
{
    let start = old(t)@;
    let step = old(t).journal.steps@[old(t).index as int];
    assert(start.journal.steps[start.index as int] == step@);
    assert(step@.paths[0] == path);
    assert(step@.paths.len() == 1);
    singly_listed(path, post);
    assert(is_kept_as(traces.backup, pre) == artifact_is(traces.backup, pre));
    same_records_same_plan(old(t).journal, final(t).journal);
}

/// A transaction starts at its first step, or with the scan where it has none.
/// One taken up again forces nothing, and its operation ends up undone or in
/// effect by its direction.
pub proof fn a_transaction_starts_at_its_first_step(
    journal: Journal,
    force: bool,
    status: OperationStatus,
    fresh: Transaction,
    resumed: Transaction,
)
    requires
        call_ensures(Transaction::new, (journal, force, status), fresh),
        call_ensures(Transaction::resume, (journal,), resumed),
    ensures
        fresh.index == 0,
        fresh.force == force,
        !fresh.recovering,
        fresh.operation_status == status,
        same_plan(journal, fresh.journal),
        resumed.index == 0,
        !resumed.force,
        resumed.recovering,
        resumed.operation_status == if journal.direction@ == "UNDO"@ {
            OperationStatus::Undone
        } else {
            OperationStatus::Completed
        },
        same_plan(journal, resumed.journal),
{
    same_records_same_plan(journal, fresh.journal);
    same_records_same_plan(journal, resumed.journal);
}

/// A prepared transaction says so, and goes to its first step.
pub proof fn a_prepared_transaction_goes_to_its_step(t: &mut Transaction, r: Outcome)
    requires
        call_ensures(Transaction::prepared, (t,), r),
    ensures
        final(t).index == old(t).index,
        final(t).journal.status == JournalStatus::Prepared,
        r.records.transaction == if old(t).recovering {
            None
        } else {
            Some(JournalStatus::Prepared)
        },
        r.records.workspace is None,
        r.records.operation is None,
        r.next is Scan == (old(t).index >= old(t).journal.steps@.len()),
        old(t).index < old(t).journal.steps@.len() ==> if old(t).recovering {
            r.next is Classify
        } else {
            r.next is Look
        },
        same_plan(old(t).journal, final(t).journal),
{
    assert(old(t)@.journal.steps.len() == old(t).journal.steps@.len());
    same_records_same_plan(old(t).journal, final(t).journal);
}

/// Undoing an operation leads to the state that it started from, and only from
/// the state that it left, unless that is forced. Redoing it leads back, and
/// only from the state that it started from.
pub proof fn undo_and_redo_lead_back(
    operation: OperationRecord,
    current: &str,
    force: bool,
    undone: Result<String>,
    redone: Result<String>,
)
    requires
        operation.pre_state_id is Some,
        operation.post_state_id is Some,
        call_ensures(undo, (&operation, current, force), undone),
        call_ensures(redo, (&operation, current), redone),
    ensures
        undone is Ok == (force || current@ == operation.post_state_id->0@),
        undone is Ok ==> undone->Ok_0@ == operation.pre_state_id->0@,
        undone is Err ==> undone->Err_0 is Conflict,
        redone is Ok == (current@ == operation.pre_state_id->0@),
        redone is Ok ==> redone->Ok_0@ == operation.post_state_id->0@,
        redone is Err ==> redone->Err_0 is Conflict,
{
}

/// An operation whose states are not both recorded is neither undone nor
/// redone.
pub proof fn states_that_are_missing_refuse(
    operation: OperationRecord,
    current: &str,
    force: bool,
    undone: Result<String>,
    redone: Result<String>,
)
    requires
        operation.pre_state_id is None || operation.post_state_id is None,
        call_ensures(undo, (&operation, current, force), undone),
        call_ensures(redo, (&operation, current), redone),
    ensures
        undone is Err,
        redone is Err,
{
}

/// An operation is undone only where it is in effect and redone only where it is
/// undone, and either only where it is fully reversible. So none can be both.
pub proof fn only_what_is_in_effect_is_undone(operation: OperationRecord, u: Result<()>, d: Result<()>)
    requires
        call_ensures(check_undo, (&operation,), u),
        call_ensures(check_redo, (&operation,), d),
    ensures
        u is Ok == (operation.status == OperationStatus::Completed && operation.reversibility
            == Reversibility::FullyReversible),
        d is Ok == (operation.status == OperationStatus::Undone && operation.reversibility
            == Reversibility::FullyReversible),
        !(u is Ok && d is Ok),
        u is Err ==> u->Err_0 is ConditionBlocked,
        d is Err ==> d->Err_0 is ConditionBlocked,
{
}

/// A rollback starts only in a healthy workspace.
pub proof fn a_rollback_needs_a_healthy_workspace(condition: WorkspaceCondition, r: Result<()>)
    requires
        call_ensures(require_healthy, (condition,), r),
    ensures
        r is Ok == (condition == WorkspaceCondition::Healthy),
        r is Err ==> r->Err_0 is ConditionBlocked,
{
}

/// What is prepared for a plan that was built is the content of every file that
/// it puts in place, each at the staging path of its step.
pub proof fn every_planned_file_is_prepared(
    platform: Platform,
    workspace_id: u128,
    transaction_id: u128,
    operation_id: Option<i64>,
    anchor_id: String,
    target_state_id: String,
    direction: String,
    before: Manifest,
    after: Manifest,
    quarantine: &str,
    prepared: &str,
    journal: Journal,
    r: (Vec<Preparation>, Option<RewindError>),
)
    requires
        call_ensures(
            build_journal,
            (
                platform,
                workspace_id,
                transaction_id,
                operation_id,
                anchor_id,
                target_state_id,
                direction,
                &before,
                &after,
                quarantine,
                prepared,
            ),
            Ok::<Journal, RewindError>(journal),
        ),
        call_ensures(prepare_steps, (&journal,), r),
    ensures
        r.1 is None,
        r.0@.len() == journal.steps@.len(),
        forall|i: int|
            0 <= i < journal.steps@.len() ==> {
                let step = #[trigger] journal.steps@[i];
                let post = at(after@, step.paths@[0]@);
                let need = r.0@[i];
                &&& optional(need.backup_path) == optional(step.backup_path)
                &&& need.content is Some == post is RegularFile
                &&& post is RegularFile ==> (need.content->0).0@ == post->RegularFile_content_hash && step.staging_path
                    is Some && (need.content->0).1@ == step.staging_path->0@
            },
{
    let list = plan_order(before@, after@);
    steps_are_planned(platform, before@, after@, quarantine@, prepared@, journal);
    let steps = journal@.steps;
    assert(steps.len() == journal.steps@.len());
    assert forall|i: int| 0 <= i < steps.len() implies (#[trigger] need_of(steps[i])) is Ok && need_of(
        steps[i],
    )->Ok_0 is Some by {
        assert(steps[i] == journal.steps@[i]@);
    }
    needs_of_all(steps, steps.len() as int);
    assert(views(r.0@).len() == r.0@.len());
    assert forall|i: int| 0 <= i < journal.steps@.len() implies {
        let step = #[trigger] journal.steps@[i];
        let post = at(after@, step.paths@[0]@);
        let need = r.0@[i];
        &&& optional(need.backup_path) == optional(step.backup_path)
        &&& need.content is Some == post is RegularFile
        &&& post is RegularFile ==> (need.content->0).0@ == post->RegularFile_content_hash && step.staging_path is Some
            && (need.content->0).1@ == step.staging_path->0@
    } by {
        assert(steps[i] == journal.steps@[i]@);
        assert(views(r.0@)[i] == r.0@[i]@);
        assert(views(r.0@)[i] == need_of(steps[i])->Ok_0->0);
    }
}

/// Where every step needs something, the needs are listed step by step.
proof fn needs_of_all(steps: Seq<StepRecord>, n: int)
    requires
        0 <= n <= steps.len(),
        forall|i: int|
            0 <= i < steps.len() ==> (#[trigger] need_of(steps[i])) is Ok && need_of(steps[i])->Ok_0 is Some,
    ensures
        needs(steps, n).1 is None,
        needs(steps, n).0.len() == n,
        forall|i: int| 0 <= i < n ==> (#[trigger] needs(steps, n).0[i]) == need_of(steps[i])->Ok_0->0,
    decreases n,
{
    if n > 0 {
        needs_of_all(steps, n - 1);
        assert(need_of(steps[n - 1]) is Ok);
        assert forall|i: int| 0 <= i < n implies (#[trigger] needs(steps, n).0[i]) == need_of(steps[i])->Ok_0->0 by {
            if i < n - 1 {
                assert(needs(steps, n).0[i] == needs(steps, n - 1).0[i]);
            }
        }
    }
}

/// The content of every file of a manifest is among the objects that must be
/// stored, and nothing else is.
pub proof fn every_file_is_anchored(manifest: Manifest, r: Vec<String>, digest: Seq<char>)
    requires
        call_ensures(anchor_objects, (&manifest,), r),
    ensures
        (exists|i: int| 0 <= i < r@.len() && (#[trigger] r@[i])@ == digest) == exists|path: Seq<char>| #[trigger]
            manifest@.contains_key(path) && manifest@[path] is RegularFile && manifest@[path]->RegularFile_content_hash
                == digest,
{
    let rows = crate::table::listed(manifest@);
    crate::table::table_listed(manifest.entries);
    let keep = |row: (Seq<char>, Print)| row.1 is RegularFile;
    let f = |row: (Seq<char>, Print)| row.1->RegularFile_content_hash;
    order::kept_are(rows, keep, f);
    let digests = file_digests(manifest@);
    let firsts = crate::table::firsts(rows);
    if exists|i: int| 0 <= i < r@.len() && (#[trigger] r@[i])@ == digest {
        let i = choose|i: int| 0 <= i < r@.len() && (#[trigger] r@[i])@ == digest;
        assert(views(r@)[i] == digest);
        assert(order::kept(rows, keep, f).contains(digest));
        let k = choose|k: int| 0 <= k < rows.len() && keep(#[trigger] rows[k]) && digest == f(rows[k]);
        assert(firsts[k] == rows[k].0);
        assert(manifest@.contains_key(rows[k].0));
        assert(manifest@[rows[k].0] == rows[k].1);
    }
    if exists|path: Seq<char>| #[trigger]
        manifest@.contains_key(path) && manifest@[path] is RegularFile && manifest@[path]->RegularFile_content_hash
            == digest {
        let path = choose|path: Seq<char>| #[trigger]
            manifest@.contains_key(path) && manifest@[path] is RegularFile
                && manifest@[path]->RegularFile_content_hash == digest;
        assert(firsts.contains(path));
        let k = choose|k: int| 0 <= k < firsts.len() && firsts[k] == path;
        assert(rows[k].0 == path);
        assert(keep(rows[k]));
        assert(order::kept(rows, keep, f).contains(f(rows[k])));
        let i = choose|i: int| 0 <= i < digests.len() && digests[i] == digest;
        assert(views(r@)[i] == r@[i]@);
    }
}

/// What was moved aside goes only with its archive: a staging area can go when
/// its transaction is over and no artifact waits, and a transaction that is
/// given up still has whatever stands where its steps moved things.
pub proof fn nothing_moved_aside_is_dropped(journal: &mut Journal, present: Vec<bool>, i: int)
    requires
        present@.len() == old(journal).steps@.len(),
        call_ensures(prepare_abandonment, (journal, &present), ()),
        0 <= i < old(journal).steps@.len(),
    ensures
        final(journal).steps@.len() == old(journal).steps@.len(),
        optional(final(journal).steps@[i].backup_path) == if present@[i] {
            optional(old(journal).steps@[i].backup_path)
        } else {
            None
        },
        optional(final(journal).steps@[i].staging_path) == optional(old(journal).steps@[i].staging_path),
        final(journal).steps@[i].before@ == old(journal).steps@[i].before@,
        final(journal).steps@[i].after@ == old(journal).steps@[i].after@,
        old(journal).steps@[i].backup_path is Some && old(journal).archive_status == ArchiveStatus::NotRequired
            ==> final(journal).archive_status == ArchiveStatus::Pending,
        old(journal).archive_status != ArchiveStatus::NotRequired ==> final(journal).archive_status
            == old(journal).archive_status,
        final(journal).status == old(journal).status,
        final(journal).target_state_id@ == old(journal).target_state_id@,
        final(journal).anchor_state_id@ == old(journal).anchor_state_id@,
{
    assert(old(journal)@.steps.len() == old(journal).steps@.len());
    assert(final(journal)@.steps.len() == final(journal).steps@.len());
    assert(old(journal)@.steps[i] == old(journal).steps@[i]@);
    assert(final(journal)@.steps[i] == final(journal).steps@[i]@);
    if old(journal).steps@[i].backup_path is Some {
        assert(old(journal)@.steps[i].backup_path is Some);
        assert(old(journal)@.has_backup());
    }
}

/// An artifact waits for its archive until it is archived, and the staging area
/// stays until then and until the transaction is over. Archiving that failed is
/// tried again.
pub proof fn staging_waits_for_its_archive(journal: &mut Journal, error: Option<String>, wants: bool, goes: bool)
    requires
        call_ensures(archived, (journal, error), ()),
        call_ensures(needs_archive, (final(journal),), wants),
        call_ensures(staging_is_disposable, (final(journal),), goes),
    ensures
        wants == error is Some,
        goes == (error is None && (old(journal).status == JournalStatus::Committed || old(journal).status
            == JournalStatus::Abandoned)),
        optional(final(journal).archive_error) == optional(error),
        final(journal).status == old(journal).status,
        same_plan(*old(journal), *final(journal)),
{
    same_records_same_plan(*old(journal), *final(journal));
}

/// While an artifact waits, the staging area stays.
pub proof fn a_waiting_artifact_keeps_its_place(journal: Journal, wants: bool, goes: bool)
    requires
        call_ensures(needs_archive, (&journal,), wants),
        call_ensures(staging_is_disposable, (&journal,), goes),
    ensures
        wants == (journal.archive_status == ArchiveStatus::Pending || journal.archive_status == ArchiveStatus::Failed),
        wants ==> !goes,
        goes ==> journal.status == JournalStatus::Committed || journal.status == JournalStatus::Abandoned,
        goes == ((journal.status == JournalStatus::Committed || journal.status == JournalStatus::Abandoned) && (
        journal.archive_status == ArchiveStatus::Archived || journal.archive_status == ArchiveStatus::NotRequired)),
{
}

/// A restore is recorded as one from the state that is left to the state that is
/// restored, and can be undone.
pub proof fn a_restore_can_be_undone(
    current: &str,
    target: &str,
    root: &str,
    effects: Vec<Effect>,
    draft: OperationDraft,
)
    requires
        call_ensures(restore_snapshot, (current, target, root, effects), draft),
    ensures
        draft.kind == OperationKind::Restore,
        draft.pre_state_id is Some,
        draft.pre_state_id->0@ == current@,
        draft.post_state_id is Some,
        draft.post_state_id->0@ == target@,
        draft.reversibility == Reversibility::FullyReversible,
        draft.confidence == TrackingConfidence::FullyTracked,
        draft.status != OperationStatus::Completed,
        draft.effects@ == effects@,
        draft.cwd is Some,
        draft.cwd->0@ == root@,
{
}

/// A recovery takes up the journal of its own workspace only, stops where one is
/// gone, and gives up only what it cannot tell.
pub proof fn a_recovery_keeps_to_its_own(journal: Journal, workspace_id: u128, owned: Result<()>, error: RewindError, justified: bool)
    requires
        call_ensures(check_owner, (&journal, workspace_id), owned),
        call_ensures(justifies_abandonment, (&error,), justified),
    ensures
        owned is Ok == (journal.workspace_id == workspace_id),
        owned is Err ==> owned->Err_0 is RecoveryRequired,
        justified == (error is RecoveryRequired || error is Conflict),
{
}

/// A link is made as one to a directory exactly when it was one. Where the
/// platform tells the two apart, a link of which that is not known is refused.
pub proof fn a_link_is_made_as_it_was(kind: SymlinkTargetKind, told_apart: bool, path: &str, r: Result<bool>)
    requires
        call_ensures(link_is_directory, (kind, told_apart, path), r),
    ensures
        r is Err == (told_apart && kind == SymlinkTargetKind::Unknown),
        r is Ok ==> r->Ok_0 == (kind == SymlinkTargetKind::Directory),
        r is Err ==> r->Err_0 is Unsupported,
{
}

/// What was moved aside counts as what stood there only where it is: a file with
/// the size and the digest, a link with the target, a directory, a pipe, and
/// nothing where nothing was.
pub proof fn what_was_moved_aside_is_compared(artifact: Artifact, expected: Fingerprint, r: bool)
    requires
        call_ensures(artifact_matches_fingerprint, (&artifact, &expected), r),
    ensures
        r == is_kept_as(artifact, expected@),
{
}

/// An archive that was verified holds a copy of everything: at each path of
/// names both hold nothing, or both hold an object of one kind, files with the
/// same digest and links with the same target.
pub proof fn a_verified_archive_is_a_copy(
    platform: Platform,
    source: Artifact,
    copy: Artifact,
    shown: &str,
    r: Result<()>,
    names: Seq<Seq<char>>,
)
    requires
        call_ensures(verify_archive_pair, (platform, &source, &copy, shown), r),
        r is Ok,
    ensures
        match (artifact_at(source, names), artifact_at(copy, names)) {
            (Some(a), Some(b)) => {
                &&& !(a is Missing) && !(b is Missing)
                &&& a is File == b is File
                &&& a is Directory == b is Directory
                &&& a is Symlink == b is Symlink
                &&& a is NamedPipe == b is NamedPipe
                &&& a is File ==> a->content is Ok && b->content is Ok && outside::blake3_hex(a->content->Ok_0@)
                    == outside::blake3_hex(b->content->Ok_0@)
                &&& a is Symlink ==> a->target is Ok && b->target is Ok && a->target->Ok_0@ == b->target->Ok_0@
            },
            (None, None) => true,
            _ => false,
        },
{
    verified_copies_agree(platform, source, copy, shown@, names);
}

/// A recovery goes ahead exactly when the journal of every unfinished
/// transaction is there.
pub proof fn a_missing_journal_stops_a_recovery(list: Vec<Unfinished>, r: Option<Halt>)
    requires
        call_ensures(check_journals, (&list,), r),
    ensures
        r is Some ==> r->0.condition == WorkspaceCondition::RecoveryRequired,
        r is Some ==> r->0.error is RecoveryRequired,
        r is Some ==> exists|i: int| 0 <= i < list@.len() && !(#[trigger] list@[i]).present,
        r is None ==> forall|i: int| 0 <= i < list@.len() ==> (#[trigger] list@[i]).present,
{
}

/// Whether a text occurs in another.
pub open spec fn told_in(whole: Seq<char>, before: Seq<char>, part: Seq<char>, behind: Seq<char>) -> bool {
    whole == before + part + behind
}

/// An unfinished transaction is explained in full: a line for the transaction,
/// and one for each of its steps, which names the path and what stands there
/// now.
pub proof fn every_step_is_explained(journal: Journal, found: Manifest, r: Vec<String>, i: int)
    requires
        call_ensures(diagnose_recoverable, (&journal, &Some(found)), r),
        0 <= i < journal.steps@.len(),
        journal.steps@[i].paths@.len() > 0,
    ensures
        exists|n: int, a: Seq<char>, b: Seq<char>|
            1 <= n < r@.len() && #[trigger] told_in(
                r@[n]@,
                a,
                journal.steps@[i].paths@[0]@ + ": expected_before="@,
                b,
            ),
        exists|n: int, a: Seq<char>, b: Seq<char>|
            1 <= n < r@.len() && #[trigger] told_in(
                r@[n]@,
                a,
                " actual="@ + at(found@, journal.steps@[i].paths@[0]@).describe() + " backup="@,
                b,
            ),
{
    let steps = journal@.steps;
    let scan = Some(found@);
    let keep = |s: StepRecord| s.paths.len() > 0;
    let f = |s: StepRecord| step_line(s, scan);
    order::kept_are(steps, keep, f);
    let lines = order::kept(steps, keep, f);
    let step = steps[i];
    assert(step == journal.steps@[i]@);
    assert(step.paths.len() == journal.steps@[i].paths@.len());
    assert(step.paths[0] == journal.steps@[i].paths@[0]@);
    assert(keep(step));
    assert(lines.contains(f(steps[i])));
    let k = choose|k: int| 0 <= k < lines.len() && lines[k] == f(steps[i]);
    let all = views(r@);
    assert(manifest_view(Some(found)) == scan);
    assert(all == seq![header_line(journal@)] + lines);
    assert(all.len() == r@.len());
    assert(all[k + 1] == lines[k]);
    assert(all[k + 1] == r@[k + 1]@);
    let (before, behind, more, rest) = step_line_parts(step, found@);
    assert(told_in(r@[k + 1]@, before, journal.steps@[i].paths@[0]@ + ": expected_before="@, behind));
    assert(told_in(
        r@[k + 1]@,
        more,
        " actual="@ + at(found@, journal.steps@[i].paths@[0]@).describe() + " backup="@,
        rest,
    ));
}

proof fn step_line_parts(step: StepRecord, found: Map<Seq<char>, Print>) -> (parts: (
    Seq<char>,
    Seq<char>,
    Seq<char>,
    Seq<char>,
))
    ensures
        told_in(step_line(step, Some(found)), parts.0, step.paths[0] + ": expected_before="@, parts.1),
        told_in(
            step_line(step, Some(found)),
            parts.2,
            " actual="@ + at(found, step.paths[0]).describe() + " backup="@,
            parts.3,
        ),
{
    let path = step.paths[0];
    let lead = "  step "@ + decimal(step.id) + " "@;
    let told = described_at(step.before, path) + " planned_after="@ + described_at(step.after, path);
    let now = at(found, path).describe();
    let rest = or_dash(step.backup_path) + " staging="@ + or_dash(step.staging_path);
    let line = step_line(step, Some(found));
    let behind = told + " actual="@ + now + " backup="@ + rest;
    let more = lead + path + ": expected_before="@ + told;
    assert(line =~= lead + (path + ": expected_before="@) + behind);
    assert(line =~= more + (" actual="@ + now + " backup="@) + rest);
    (lead, behind, more, rest)
}

/// No two steps of a plan share a place: what one moves aside never stands where
/// another moves something, nor does what one prepares where another does.
pub proof fn no_two_steps_share_a_place(
    workspace_id: u128,
    transaction_id: u128,
    operation_id: Option<i64>,
    anchor_id: String,
    target_state_id: String,
    direction: String,
    before: Manifest,
    after: Manifest,
    quarantine: &str,
    prepared: &str,
    journal: Journal,
    i: int,
    j: int,
)
    requires
        call_ensures(
            build_journal,
            (
                Platform::Posix,
                workspace_id,
                transaction_id,
                operation_id,
                anchor_id,
                target_state_id,
                direction,
                &before,
                &after,
                quarantine,
                prepared,
            ),
            Ok::<Journal, RewindError>(journal),
        ),
        0 <= i < journal.steps@.len(),
        0 <= j < journal.steps@.len(),
        i != j,
    ensures
        journal.steps@[i].backup_path is Some && journal.steps@[j].backup_path is Some
            ==> journal.steps@[i].backup_path->0@ != journal.steps@[j].backup_path->0@,
        journal.steps@[i].staging_path is Some && journal.steps@[j].staging_path is Some
            ==> journal.steps@[i].staging_path->0@ != journal.steps@[j].staging_path->0@,
{
    steps_are_planned(Platform::Posix, before@, after@, quarantine@, prepared@, journal);
    let a = journal.steps@[i]@;
    let b = journal.steps@[j]@;
    if a.backup_path is Some && b.backup_path is Some && a.backup_path == b.backup_path {
        places_differ(quarantine@, i as nat, j as nat, ".backup"@);
    }
    if a.staging_path is Some && b.staging_path is Some && a.staging_path == b.staging_path {
        places_differ(prepared@, i as nat, j as nat, ".file"@);
    }
}

proof fn places_differ(root: Seq<char>, i: nat, j: nat, ending: Seq<char>)
    requires
        i != j,
    ensures
        joined(Platform::Posix, root, decimal(i) + ending) != joined(Platform::Posix, root, decimal(j) + ending),
{
    text::decimal_denotes(i);
    text::decimal_denotes(j);
    let x = decimal(i) + ending;
    let y = decimal(j) + ending;
    assert(text::is_digit(x[0]) && text::is_digit(y[0]));
    let p = joined(Platform::Posix, root, x);
    let q = joined(Platform::Posix, root, y);
    if p == q {
        let lead = p.len() - x.len();
        assert(p.skip(lead) =~= x);
        assert(q.skip(q.len() - y.len()) =~= y);
        assert(x.take(x.len() - ending.len()) =~= decimal(i));
        assert(y.take(y.len() - ending.len()) =~= decimal(j));
        text::decimal_injective(i, j);
    }
}

} // verus!
