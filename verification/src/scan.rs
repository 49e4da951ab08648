//! Scanning a workspace: from what was seen of a tree to the manifest that
//! describes it, and from two manifests to the changes between them.

use vstd::prelude::*;
use vstd::string::*;

use crate::error::{Fault, Result, RewindError};
use crate::model::{
    at, directory_print, state_id_of, Change, Effect, EffectType, Fingerprint, Manifest, MetadataFingerprint, Print,
    SymlinkTargetKind,
};
use crate::order;
use crate::order::views;
use crate::order::Ranked;
use crate::outside;
use crate::outside::lower_case;
use crate::paths;
use crate::paths::joined;
use crate::paths::{Component, Part, Place, Platform};
use crate::table::{Duplicate, Table};
use crate::text;
use crate::text::decimal;
use crate::text::Rank;

verus! {

/// What a scan must know of the filesystem.
#[derive(Clone, Copy, Debug, PartialEq, Eq, Structural)]
pub struct Filesystem {
    pub platform: Platform,
    /// Whether it does not tell cases apart.
    pub folds_case: bool,
}

/// How a scan is made.
#[derive(Clone, Copy, Debug)]
pub struct ScanOptions {
    /// When the scan must be done, on the clock of the caller.
    pub deadline: Option<u64>,
    /// Whether what is read is also stored.
    pub ingest: bool,
}

impl Default for ScanOptions {
    fn default() -> (r: Self)
        ensures
            r == (ScanOptions { deadline: None, ingest: true }),
    {
        ScanOptions { deadline: None, ingest: true }
    }
}

impl ScanOptions {
    /// A scan that stores what it reads.
    pub fn ingest(deadline: Option<u64>) -> (r: Self)
        ensures
            r == (ScanOptions { deadline, ingest: true }),
    {
        ScanOptions { deadline, ingest: true }
    }

    /// A scan that only reads.
    pub fn observe(deadline: Option<u64>) -> (r: Self)
        ensures
            r == (ScanOptions { deadline, ingest: false }),
    {
        ScanOptions { deadline, ingest: false }
    }

    /// Whether the deadline has passed at the time `now`.
    pub fn is_late(&self, now: u64) -> (r: bool)
        ensures
            r == (self.deadline is Some && now >= self.deadline->0),
    {
        match self.deadline {
            Some(deadline) => now >= deadline,
            None => false,
        }
    }
}

// ---------------------------------------------------------------------------
// What was seen
// ---------------------------------------------------------------------------

/// What reading a regular file came to.
#[derive(Debug)]
pub enum FileRead {
    /// Its content could not be hashed or stored.
    Failed(RewindError),
    /// It could not be looked at afterwards.
    Vanished(String),
    /// It was no regular file any more afterwards.
    Changed,
    Read { content_hash: String, size: u64 },
}

/// What reading a link came to.
#[derive(Debug)]
pub enum LinkRead {
    Unreadable(String),
    NonUnicode,
    Read { target: String, target_kind: SymlinkTargetKind },
}

/// What stands at a path.
#[derive(Debug)]
pub enum Node {
    /// It could not be looked at.
    Unreadable(String),
    /// A reparse point of Windows: whether it counts as a link, and its tag
    /// where that can be read.
    Reparse { symlink: bool, tag: Option<u32>, read: LinkRead, metadata: MetadataFingerprint },
    Directory(Directory),
    File { read: FileRead, metadata: MetadataFingerprint },
    Symlink { read: LinkRead, metadata: MetadataFingerprint },
    NamedPipe { metadata: MetadataFingerprint },
    Socket { length: u64 },
    /// Anything else, with its kind as the platform names it.
    Special { kind: String, length: u64 },
}

/// One entry of a directory.
#[derive(Debug)]
pub struct Entry {
    pub name: String,
    /// Whether the name is Unicode, or was made so for display.
    pub unicode: bool,
    /// Whether the deadline had passed when it was reached.
    pub late: bool,
    pub node: Node,
}

/// What was seen of a directory.
#[derive(Debug)]
pub struct Directory {
    pub late: bool,
    /// Why it could not be listed, if it could not.
    pub problem: Option<String>,
    pub entries: Vec<Entry>,
    pub metadata: std::result::Result<MetadataFingerprint, String>,
}

impl View for Entry {
    type V = Entry;

    open spec fn view(&self) -> Entry {
        *self
    }
}

/// By name.
impl Ranked for Entry {
    open spec fn before(a: Entry, b: Entry) -> bool {
        text::before(a.name@, b.name@)
    }

    fn is_before(&self, other: &Self) -> (r: bool) {
        match text::compare(self.name.as_str(), other.name.as_str()) {
            Rank::Less => true,
            Rank::Same => {
                proof {
                    text::before_irreflexive(self.name@);
                }
                false
            },
            Rank::Greater => {
                proof {
                    if text::before(self.name@, other.name@) {
                        text::before_transitive(self.name@, other.name@, self.name@);
                        text::before_irreflexive(self.name@);
                    }
                }
                false
            },
        }
    }

    proof fn irreflexive(a: Entry) {
        text::before_irreflexive(a.name@);
    }

    proof fn transitive(a: Entry, b: Entry, c: Entry) {
        text::before_transitive(a.name@, b.name@, c.name@);
    }

    proof fn negatively_transitive(a: Entry, b: Entry, c: Entry) {
        String::negatively_transitive(a.name@, b.name@, c.name@);
    }
}

impl Directory {
    /// A directory with its entries in the order of their names.
    pub fn new(
        late: bool,
        problem: Option<String>,
        entries: Vec<Entry>,
        metadata: std::result::Result<MetadataFingerprint, String>,
    ) -> (r: Self)
        ensures
            r.late == late,
            r.problem == problem,
            r.entries@ == order::sorted(entries@),
            r.metadata == metadata,
    {
        Directory { late, problem, entries: order::sort(entries), metadata }
    }
}

// ---------------------------------------------------------------------------
// Links and reparse points
// ---------------------------------------------------------------------------

pub const IO_REPARSE_TAG_MOUNT_POINT: u32 = 0xA000_0003;

pub const IO_REPARSE_TAG_SYMLINK: u32 = 0xA000_000C;

/// The 32-bit number that stands at a place of some bytes, lowest byte first.
pub open spec fn word_at(bytes: Seq<u8>, i: int) -> int {
    bytes[i] + bytes[i + 1] * 0x100 + bytes[i + 2] * 0x1_0000 + bytes[i + 3] * 0x100_0000
}

/// The tag of a reparse point.
pub open spec fn tag_of(buffer: Option<Seq<u8>>) -> Option<int> {
    match buffer {
        Some(b) => if b.len() < 4 {
            None
        } else {
            Some(word_at(b, 0))
        },
        None => None,
    }
}

pub open spec fn bytes_of(buffer: Option<Vec<u8>>) -> Option<Seq<u8>> {
    match buffer {
        Some(b) => Some(b@),
        None => None,
    }
}

/// The tag of a reparse point, from its data as far as they could be read.
pub fn read_tag(buffer: &Option<Vec<u8>>) -> (r: Option<u32>)
    ensures
        match r {
            Some(tag) => tag_of(bytes_of(*buffer)) == Some(tag as int),
            None => tag_of(bytes_of(*buffer)) is None,
        },
{
    match buffer {
        Some(b) => {
            if b.len() < 4 {
                return None;
            }
            Some(b[0] as u32 + b[1] as u32 * 0x100 + b[2] as u32 * 0x1_0000 + b[3] as u32 * 0x100_0000)
        },
        None => None,
    }
}

/// The flavour of a link of Windows: whether it points at a directory.
pub open spec fn flavour(buffer: Option<Seq<u8>>) -> Option<SymlinkTargetKind> {
    if tag_of(buffer) == Some(IO_REPARSE_TAG_SYMLINK as int) && buffer->0.len() >= 12 {
        Some(
            if word_at(buffer->0, 8) % 2 == 1 {
                SymlinkTargetKind::Directory
            } else {
                SymlinkTargetKind::File
            },
        )
    } else {
        None
    }
}

/// The flavour of a link of Windows, from its reparse data: the lowest bit of
/// its flags says whether it points at a directory.
pub fn symlink_kind(buffer: &Option<Vec<u8>>) -> (r: Option<SymlinkTargetKind>)
    ensures
        r == flavour(bytes_of(*buffer)),
{
    let tag = match read_tag(buffer) {
        Some(tag) => tag,
        None => {
            return None;
        },
    };
    match buffer {
        Some(b) => {
            if tag != IO_REPARSE_TAG_SYMLINK || b.len() < 12 {
                return None;
            }
            if b[8] % 2 == 1 {
                Some(SymlinkTargetKind::Directory)
            } else {
                Some(SymlinkTargetKind::File)
            }
        },
        None => None,
    }
}

/// The flavour of a link: on a platform without reparse data there is none.
pub fn reparse_symlink_kind(buffer: &Option<Vec<u8>>) -> (r: Option<SymlinkTargetKind>)
    ensures
        r == flavour(bytes_of(*buffer)),
{
    symlink_kind(buffer)
}

/// What a reparse point is recorded as, unless it is known to be a link.
pub open spec fn reparse_print(symlink: bool, tag: Option<u32>) -> Option<Print> {
    if !symlink {
        Some(
            Print::Unsupported {
                object_kind: "WINDOWS_REPARSE_POINT"@,
                descriptor: "unclassified reparse point; traversal refused"@,
            },
        )
    } else if tag == Some(IO_REPARSE_TAG_SYMLINK) {
        None
    } else if tag == Some(IO_REPARSE_TAG_MOUNT_POINT) {
        Some(
            Print::Unsupported {
                object_kind: "WINDOWS_JUNCTION"@,
                descriptor: "NTFS junction reparse point; traversal and replacement refused"@,
            },
        )
    } else {
        Some(
            Print::Unsupported {
                object_kind: "WINDOWS_REPARSE_POINT"@,
                descriptor: "reparse point tag unreadable or unrecognized; traversal refused"@,
            },
        )
    }
}

/// Classifies a reparse point. Only one that is known to be a link counts as a
/// link, and nothing else is followed or replaced.
pub fn reparse_unsupported_fingerprint(symlink: bool, tag: Option<u32>) -> (r: Option<Fingerprint>)
    ensures
        match r {
            Some(f) => reparse_print(symlink, tag) == Some(f@),
            None => reparse_print(symlink, tag) is None,
        },
{
    if !symlink {
        return Some(
            Fingerprint::Unsupported {
                object_kind: text::copy("WINDOWS_REPARSE_POINT"),
                descriptor: text::copy("unclassified reparse point; traversal refused"),
            },
        );
    }
    match tag {
        Some(t) => {
            if t == IO_REPARSE_TAG_SYMLINK {
                return None;
            }
            if t == IO_REPARSE_TAG_MOUNT_POINT {
                return Some(
                    Fingerprint::Unsupported {
                        object_kind: text::copy("WINDOWS_JUNCTION"),
                        descriptor: text::copy("NTFS junction reparse point; traversal and replacement refused"),
                    },
                );
            }
        },
        None => {},
    }
    Some(
        Fingerprint::Unsupported {
            object_kind: text::copy("WINDOWS_REPARSE_POINT"),
            descriptor: text::copy("reparse point tag unreadable or unrecognized; traversal refused"),
        },
    )
}

/// What is kept of an object's permissions: the nine mode bits and the mark
/// against writing.
pub fn metadata_fingerprint(mode: Option<u32>, readonly: bool) -> (r: MetadataFingerprint)
    ensures
        r == (MetadataFingerprint {
            mode: match mode {
                Some(m) => Some((m % 512) as u32),
                None => None,
            },
            readonly,
        }),
{
    MetadataFingerprint {
        mode: match mode {
            Some(m) => Some(m % 512),
            None => None,
        },
        readonly,
    }
}

/// Where a link leads that stands in a directory: each name goes down, and
/// each `..` up. A link to an absolute path leads nowhere that counts.
pub open spec fn led_to(from: Seq<Part>, target: Seq<Part>) -> Option<Seq<Part>>
    decreases target.len(),
{
    if target.len() == 0 {
        Some(from)
    } else {
        match led_to(from, target.drop_last()) {
            None => None,
            Some(here) => match target.last() {
                Part::Name(name) => Some(here.push(Part::Name(name))),
                Part::Parent => if here.len() == 0 || here.last() is Root || here.last() is Prefix {
                    None
                } else {
                    Some(here.drop_last())
                },
                Part::Current => Some(here),
                Part::Root | Part::Prefix(..) => None,
            },
        }
    }
}

/// The places that the way of a link goes down to, in order.
pub open spec fn steps_of(from: Seq<Part>, target: Seq<Part>) -> Seq<Seq<Part>>
    decreases target.len(),
{
    if target.len() == 0 {
        Seq::empty()
    } else {
        let before = steps_of(from, target.drop_last());
        match led_to(from, target.drop_last()) {
            Some(here) => if target.last() is Name {
                before.push(here.push(target.last()))
            } else {
                before
            },
            None => before,
        }
    }
}

/// The directory that a path stands in.
pub open spec fn directory_of(path: Seq<Part>) -> Option<Seq<Part>> {
    if path.len() == 0 || path.last() is Root || path.last() is Prefix {
        None
    } else {
        Some(path.drop_last())
    }
}

/// The way of a link: the places to look at on it, and where it leads.
pub struct LinkWay {
    pub steps: Vec<String>,
    pub end: Option<String>,
    /// Whether the end lies below the root.
    pub inside: bool,
}

/// Where a link in a workspace leads, and the places on the way.
pub open spec fn way_of(platform: Platform, link: Seq<char>, target: Seq<char>) -> (Seq<Seq<Part>>, Option<Seq<Part>>) {
    match directory_of(paths::components_of(platform, link)) {
        None => (Seq::empty(), None),
        Some(from) => (
            steps_of(from, paths::components_of(platform, target)),
            led_to(from, paths::components_of(platform, target)),
        ),
    }
}

/// Whether a place lies strictly below a root.
pub open spec fn strictly_below(place: Seq<Part>, root: Seq<Part>) -> bool {
    paths::leads(root, place) && root.len() < place.len()
}

pub open spec fn texts_of(platform: Platform, steps: Seq<Seq<Part>>) -> Seq<Seq<char>> {
    steps.map_values(|s: Seq<Part>| paths::rendered(platform, s))
}

fn is_prefix(prefix: &Vec<Component>, list: &Vec<Component>) -> (r: bool)
    ensures
        r == paths::leads(views(prefix@), views(list@)),
{
    let ghost a = views(prefix@);
    let ghost b = views(list@);
    if prefix.len() > list.len() {
        return false;
    }
    for i in 0..prefix.len()
        invariant
            a == views(prefix@),
            b == views(list@),
            prefix@.len() <= list@.len(),
            forall|k: int| 0 <= k < i ==> paths::same_part(#[trigger] a[k], b[k]),
    {
        assert(a[i as int] == prefix@[i as int]@ && b[i as int] == list@[i as int]@);
        if !paths::same_component(&prefix[i], &list[i]) {
            assert(!paths::same_part(a[i as int], b[i as int]));
            return false;
        }
    }
    true
}

/// The places that tell what a link points at, without following any link.
pub fn link_way(platform: Platform, root: &str, link_path: &str, target: &str) -> (r: LinkWay)
    ensures
        views(r.steps@) == texts_of(platform, way_of(platform, link_path@, target@).0),
        r.end is Some == way_of(platform, link_path@, target@).1 is Some,
        r.end is Some ==> r.end->0@ == paths::rendered(platform, way_of(platform, link_path@, target@).1->0),
        r.inside == (way_of(platform, link_path@, target@).1 is Some && strictly_below(
            way_of(platform, link_path@, target@).1->0,
            paths::components_of(platform, root@),
        )),
{
    let mut here = paths::components(platform, link_path);
    let mut steps: Vec<String> = Vec::new();
    assert(views(steps@) =~= texts_of(platform, Seq::<Seq<Part>>::empty()));
    let ghost whole = views(here@);
    match here.pop() {
        None => {
            return LinkWay { steps, end: None, inside: false };
        },
        Some(last) => {
            assert(whole.last() == last@);
            match last {
                Component::Root | Component::Prefix(_, _) => {
                    return LinkWay { steps, end: None, inside: false };
                },
                _ => {},
            }
        },
    }
    assert(views(here@) =~= whole.drop_last());
    let ghost from = whole.drop_last();
    let list = paths::components(platform, target);
    let ghost t = paths::components_of(platform, target@);
    for i in 0..list.len()
        invariant
            views(list@) == t,
            t == paths::components_of(platform, target@),
            directory_of(paths::components_of(platform, link_path@)) == Some(from),
            led_to(from, t.take(i as int)) == Some(views(here@)),
            views(steps@) == texts_of(platform, steps_of(from, t.take(i as int))),
    {
        let ghost now = views(here@);
        let ghost more = t.take(i + 1);
        assert(more.drop_last() =~= t.take(i as int));
        assert(more.last() == list@[i as int]@);
        let ghost seen = steps_of(from, t.take(i as int));
        match &list[i] {
            Component::Normal(name) => {
                let c = Component::Normal(text::copy(name.as_str()));
                proof {
                    order::push_contains(here@, c);
                }
                here.push(c);
                let step = paths::render(platform, &here);
                proof {
                    order::push_contains(steps@, step);
                    assert(texts_of(platform, seen.push(views(here@))) =~= texts_of(platform, seen).push(paths::rendered(platform, views(here@))));
                }
                steps.push(step);
            },
            Component::Parent => {
                match here.pop() {
                    None => {
                        proof {
                            nowhere(from, t, i + 1);
                        }
                        return LinkWay { steps, end: None, inside: false };
                    },
                    Some(last) => {
                        assert(now.last() == last@);
                        assert(views(here@) =~= now.drop_last());
                        match last {
                            Component::Root | Component::Prefix(_, _) => {
                                proof {
                                    nowhere(from, t, i + 1);
                                }
                                return LinkWay { steps, end: None, inside: false };
                            },
                            _ => {},
                        }
                    },
                }
            },
            Component::Current => {},
            Component::Root | Component::Prefix(_, _) => {
                proof {
                    nowhere(from, t, i + 1);
                }
                return LinkWay { steps, end: None, inside: false };
            },
        }
    }
    assert(t.take(t.len() as int) =~= t);
    let base = paths::components(platform, root);
    let inside = is_prefix(&base, &here) && base.len() < here.len();
    LinkWay { steps, end: Some(paths::render(platform, &here)), inside }
}

/// A way that broke off leads nowhere, and goes no further down.
proof fn nowhere(from: Seq<Part>, target: Seq<Part>, n: int)
    requires
        0 <= n <= target.len(),
        led_to(from, target.take(n)) is None,
    ensures
        led_to(from, target) is None,
        steps_of(from, target) == steps_of(from, target.take(n)),
    decreases target.len() - n,
{
    if n == target.len() {
        assert(target.take(n) =~= target);
    } else {
        assert(target.take(n + 1).drop_last() =~= target.take(n));
        nowhere(from, target, n + 1);
    }
}

/// Whether a place on the way of a link is an object of its own.
pub open spec fn solid(place: Place) -> bool {
    place is Directory || place is File || place is Other
}

/// What a link points at: its own flavour where it has one, else what stands
/// where it leads to, if no other link lies on the way and it stays below the
/// root. Anything else is unknown, never guessed.
pub open spec fn target_kind(
    flavour: Option<SymlinkTargetKind>,
    inside: bool,
    steps: Seq<Place>,
    end: Place,
) -> SymlinkTargetKind {
    if flavour is Some {
        flavour->0
    } else if !inside || exists|i: int| 0 <= i < steps.len() && !solid(#[trigger] steps[i]) {
        SymlinkTargetKind::Unknown
    } else if end is Directory {
        SymlinkTargetKind::Directory
    } else if end is File {
        SymlinkTargetKind::File
    } else {
        SymlinkTargetKind::Unknown
    }
}

/// Tells what a link points at from its flavour and from what stands on its
/// way.
pub fn classify_symlink_target_kind(
    flavour: Option<SymlinkTargetKind>,
    inside: bool,
    steps: &Vec<Place>,
    end: &Place,
) -> (r: SymlinkTargetKind)
    ensures
        r == target_kind(flavour, inside, steps@, *end),
{
    if let Some(kind) = flavour {
        return kind;
    }
    if !inside {
        return SymlinkTargetKind::Unknown;
    }
    for i in 0..steps.len()
        invariant
            flavour is None,
            inside,
            forall|k: int| 0 <= k < i ==> solid(#[trigger] steps@[k]),
    {
        match &steps[i] {
            Place::Directory | Place::File | Place::Other => {},
            _ => {
                assert(!solid(steps@[i as int]));
                return SymlinkTargetKind::Unknown;
            },
        }
    }
    match end {
        Place::Directory => SymlinkTargetKind::Directory,
        Place::File => SymlinkTargetKind::File,
        _ => SymlinkTargetKind::Unknown,
    }
}

// ---------------------------------------------------------------------------
// The walk
// ---------------------------------------------------------------------------

/// What a scan has found so far: the manifest, the paths that cannot be
/// restored, and each path under the key by which it may collide.
pub struct Found {
    pub entries: Map<Seq<char>, Print>,
    pub unsupported: Seq<Seq<char>>,
    pub seen: Map<Seq<char>, Seq<char>>,
}

/// Where the walk stands: the place as shown in messages, and its path in the
/// workspace, which is empty at the root.
pub struct Spot {
    pub platform: Platform,
    pub shown: Seq<char>,
    pub relative: Seq<char>,
    pub root: bool,
}

impl Spot {
    /// An entry of the directory at this place.
    pub open spec fn child(self, name: Seq<char>) -> Spot {
        Spot {
            platform: self.platform,
            shown: joined(self.platform, self.shown, name),
            relative: if self.root {
                name
            } else {
                self.relative + seq!['/'] + name
            },
            root: false,
        }
    }
}

pub open spec fn incomplete(shown: Seq<char>, error: Seq<char>) -> Fault {
    Fault::ScanIncomplete(shown + ": "@ + error)
}

pub open spec fn out_of_time() -> Fault {
    Fault::ScanIncomplete("scan deadline exceeded"@)
}

/// The key under which a path may collide with another: the path itself, or
/// its lower case where the filesystem does not tell cases apart.
pub open spec fn collision_key(relative: Seq<char>, fold: Filesystem) -> Seq<char> {
    if fold.folds_case {
        lower_case(relative)
    } else {
        relative
    }
}

/// Notes a path, unless another one has its key.
pub open spec fn noted(found: Found, relative: Seq<char>, fold: Filesystem) -> std::result::Result<Found, Fault> {
    let key = collision_key(relative, fold);
    if found.seen.contains_key(key) && found.seen[key] != relative {
        Err(
            Fault::Storage(
                "case-insensitive path collision between "@ + found.seen[key] + " and "@ + relative,
            ),
        )
    } else {
        Ok(Found { seen: found.seen.insert(key, relative), ..found })
    }
}

/// The fingerprint of a link.
pub open spec fn link_print(read: LinkRead, metadata: MetadataFingerprint, shown: Seq<char>) -> std::result::Result<
    Print,
    Fault,
> {
    match read {
        LinkRead::Unreadable(error) => Err(incomplete(shown, error@)),
        LinkRead::NonUnicode => Err(
            Fault::ScanIncomplete("non-Unicode symlink target is unsupported: "@ + shown),
        ),
        LinkRead::Read { target, target_kind } => Ok(
            Print::Symlink {
                target: target@,
                target_kind,
                target_hash: outside::blake3_hex(vstd::utf8::encode_utf8(target@)),
                metadata,
            },
        ),
    }
}

/// The fingerprint of a regular file.
pub open spec fn file_print(read: FileRead, metadata: MetadataFingerprint, shown: Seq<char>) -> std::result::Result<
    Print,
    Fault,
> {
    match read {
        FileRead::Failed(error) => Err(error@),
        FileRead::Vanished(error) => Err(incomplete(shown, error@)),
        FileRead::Changed => Err(
            Fault::ScanIncomplete("object changed type while scanning "@ + shown),
        ),
        FileRead::Read { content_hash, size } => Ok(
            Print::RegularFile { content_hash: content_hash@, size, metadata },
        ),
    }
}

/// What standing at a place adds, when it is an object without entries.
pub open spec fn leaf(print: std::result::Result<Print, Fault>, found: Found) -> std::result::Result<
    (Print, Found),
    Fault,
> {
    match print {
        Ok(p) => Ok((p, found)),
        Err(f) => Err(f),
    }
}

/// What an object that cannot be restored adds.
pub open spec fn unsupported(print: Print, spot: Spot, found: Found) -> std::result::Result<(Print, Found), Fault> {
    Ok((print, Found { unsupported: found.unsupported.push(spot.relative), ..found }))
}

/// What a scan finds at a place.
pub open spec fn scan_node(node: Node, spot: Spot, found: Found, fold: Filesystem) -> std::result::Result<
    (Print, Found),
    Fault,
>
    decreases node, 0int,
{
    match node {
        Node::Unreadable(error) => Err(incomplete(spot.shown, error@)),
        Node::Reparse { symlink, tag, read, metadata } => match reparse_print(symlink, tag) {
            Some(print) => unsupported(print, spot, found),
            None => leaf(link_print(read, metadata, spot.shown), found),
        },
        Node::Directory(directory) => scan_directory(directory, spot, found, fold),
        Node::File { read, metadata } => leaf(file_print(read, metadata, spot.shown), found),
        Node::Symlink { read, metadata } => leaf(link_print(read, metadata, spot.shown), found),
        Node::NamedPipe { metadata } => Ok((Print::NamedPipe { metadata }, found)),
        Node::Socket { length } => unsupported(
            Print::Unsupported { object_kind: "UNIX_SOCKET"@, descriptor: decimal(length as nat) },
            spot,
            found,
        ),
        Node::Special { kind, length } => unsupported(
            Print::Unsupported { object_kind: kind@, descriptor: decimal(length as nat) },
            spot,
            found,
        ),
    }
}

/// What a scan finds of the first entries of a directory: their fingerprints
/// by name, and everything below them.
pub open spec fn scan_entries(directory: Directory, n: int, spot: Spot, found: Found, fold: Filesystem) -> std::result::Result<
    (Map<Seq<char>, Print>, Found),
    Fault,
>
    decreases directory, n,
{
    if n <= 0 || n > directory.entries@.len() {
        Ok((Map::empty(), found))
    } else {
        match scan_entries(directory, n - 1, spot, found, fold) {
            Err(fault) => Err(fault),
            Ok((children, so_far)) => {
                let entry = directory.entries@[n - 1];
                let place = spot.child(entry.name@);
                if spot.root && entry.name@ == ".rewind"@ {
                    Ok((children, so_far))
                } else if entry.late {
                    Err(out_of_time())
                } else if !entry.unicode {
                    Err(Fault::ScanIncomplete("non-Unicode filename is unsupported: "@ + place.shown))
                } else {
                    match noted(so_far, place.relative, fold) {
                        Err(fault) => Err(fault),
                        Ok(with_note) => match scan_node(entry.node, place, with_note, fold) {
                            Err(fault) => Err(fault),
                            Ok((print, after)) => Ok(
                                (
                                    children.insert(entry.name@, print),
                                    Found { entries: after.entries.insert(place.relative, print), ..after },
                                ),
                            ),
                        },
                    }
                }
            },
        }
    }
}

/// What a scan finds of a directory: everything below it, and its own
/// fingerprint over the fingerprints of its entries.
pub open spec fn scan_directory(directory: Directory, spot: Spot, found: Found, fold: Filesystem) -> std::result::Result<
    (Print, Found),
    Fault,
>
    decreases directory, directory.entries@.len() + 1,
{
    if directory.late {
        Err(out_of_time())
    } else {
        match directory.problem {
            Some(error) => Err(incomplete(spot.shown, error@)),
            None => match scan_entries(directory, directory.entries@.len() as int, spot, found, fold) {
                Err(fault) => Err(fault),
                Ok((children, after)) => match directory.metadata {
                    Err(error) => Err(Fault::Io(error@)),
                    Ok(metadata) => {
                        let print = directory_print(children, metadata);
                        Ok(
                            (
                                print,
                                if spot.root {
                                    after
                                } else {
                                    Found { entries: after.entries.insert(spot.relative, print), ..after }
                                },
                            ),
                        )
                    },
                },
            },
        }
    }
}

struct Walk {
    entries: Table<Fingerprint>,
    unsupported: Vec<String>,
    seen: Table<String>,
}

impl Walk {
    spec fn found(self) -> Found {
        Found { entries: self.entries@, unsupported: views(self.unsupported@), seen: self.seen@ }
    }

    fn note(&mut self, relative: &str, fold: Filesystem) -> (r: Result<()>)
        ensures
            match noted(old(self).found(), relative@, fold) {
                Ok(found) => r is Ok && final(self).found() == found,
                Err(fault) => r is Err && r->Err_0@ == fault,
            },
    {
        let key = if fold.folds_case {
            outside::to_lower_case(relative)
        } else {
            text::copy(relative)
        };
        if let Some(previous) = self.seen.get(key.as_str()) {
            if !text::same(previous.as_str(), relative) {
                let mut message = text::copy("case-insensitive path collision between ");
                message.append(previous.as_str());
                message.append(" and ");
                message.append(relative);
                return Err(RewindError::Storage(message));
            }
        }
        self.seen.insert(key, text::copy(relative));
        Ok(())
    }

    fn mark_unsupported(&mut self, relative: &str)
        ensures
            final(self).found() == (Found {
                unsupported: old(self).found().unsupported.push(relative@),
                ..old(self).found()
            }),
    {
        let path = text::copy(relative);
        proof {
            order::push_contains(self.unsupported@, path);
        }
        self.unsupported.push(path);
    }
}

fn incomplete_error(shown: &str, error: &str) -> (r: RewindError)
    ensures
        r@ == incomplete(shown@, error@),
{
    let mut message = text::copy(shown);
    message.append(": ");
    message.append(error);
    RewindError::ScanIncomplete(message)
}

fn prefixed_error(prefix: &str, shown: &str) -> (r: RewindError)
    ensures
        r@ == Fault::ScanIncomplete(prefix@ + shown@),
{
    let mut message = text::copy(prefix);
    message.append(shown);
    RewindError::ScanIncomplete(message)
}

fn link_fingerprint(read: &LinkRead, metadata: MetadataFingerprint, shown: &str) -> (r: Result<Fingerprint>)
    ensures
        match link_print(*read, metadata, shown@) {
            Ok(print) => r is Ok && r->Ok_0@ == print,
            Err(fault) => r is Err && r->Err_0@ == fault,
        },
{
    match read {
        LinkRead::Unreadable(error) => Err(incomplete_error(shown, error.as_str())),
        LinkRead::NonUnicode => Err(prefixed_error("non-Unicode symlink target is unsupported: ", shown)),
        LinkRead::Read { target, target_kind } => Ok(
            Fingerprint::Symlink {
                target: text::copy(target.as_str()),
                target_kind: *target_kind,
                target_hash: outside::hash_hex(target.as_str().as_bytes()),
                metadata,
            },
        ),
    }
}

fn file_fingerprint(read: &FileRead, metadata: MetadataFingerprint, shown: &str) -> (r: Result<Fingerprint>)
    ensures
        match file_print(*read, metadata, shown@) {
            Ok(print) => r is Ok && r->Ok_0@ == print,
            Err(fault) => r is Err && r->Err_0@ == fault,
        },
{
    match read {
        FileRead::Failed(error) => Err(error.duplicate()),
        FileRead::Vanished(error) => Err(incomplete_error(shown, error.as_str())),
        FileRead::Changed => Err(prefixed_error("object changed type while scanning ", shown)),
        FileRead::Read { content_hash, size } => Ok(
            Fingerprint::RegularFile { content_hash: text::copy(content_hash.as_str()), size: *size, metadata },
        ),
    }
}

/// The fingerprint of an object that cannot be restored.
fn refused(walk: &mut Walk, relative: &str, kind: &str, length: u64) -> (r: Fingerprint)
    ensures
        r@ == (Print::Unsupported { object_kind: kind@, descriptor: decimal(length as nat) }),
        final(walk).found() == (Found {
            unsupported: old(walk).found().unsupported.push(relative@),
            ..old(walk).found()
        }),
{
    walk.mark_unsupported(relative);
    Fingerprint::Unsupported { object_kind: text::copy(kind), descriptor: text::decimal_u64(length) }
}

fn visit_node(node: &Node, shown: &str, relative: &str, walk: &mut Walk, fold: Filesystem) -> (r: Result<Fingerprint>)
    ensures
        match scan_node(*node, (Spot { platform: fold.platform, shown: shown@, relative: relative@, root: false }), old(walk).found(), fold) {
            Ok((print, found)) => r is Ok && r->Ok_0@ == print && final(walk).found() == found,
            Err(fault) => r is Err && r->Err_0@ == fault,
        },
    decreases *node, 0int,
{
    match node {
        Node::Unreadable(error) => Err(incomplete_error(shown, error.as_str())),
        Node::Reparse { symlink, tag, read, metadata } => match reparse_unsupported_fingerprint(*symlink, *tag) {
            Some(fingerprint) => {
                walk.mark_unsupported(relative);
                Ok(fingerprint)
            },
            None => link_fingerprint(read, *metadata, shown),
        },
        Node::Directory(directory) => visit_directory(directory, shown, relative, false, walk, fold),
        Node::File { read, metadata } => file_fingerprint(read, *metadata, shown),
        Node::Symlink { read, metadata } => link_fingerprint(read, *metadata, shown),
        Node::NamedPipe { metadata } => Ok(Fingerprint::NamedPipe { metadata: *metadata }),
        Node::Socket { length } => Ok(refused(walk, relative, "UNIX_SOCKET", *length)),
        Node::Special { kind, length } => Ok(refused(walk, relative, kind.as_str(), *length)),
    }
}

/// A directory: its entries in order, each with what lies below it.
fn visit_directory(
    directory: &Directory,
    shown: &str,
    relative: &str,
    is_root: bool,
    walk: &mut Walk,
    fold: Filesystem,
) -> (r: Result<Fingerprint>)
    ensures
        match scan_directory(
            *directory,
            (Spot { platform: fold.platform, shown: shown@, relative: relative@, root: is_root }),
            old(walk).found(),
            fold,
        ) {
            Ok((print, found)) => r is Ok && r->Ok_0@ == print && final(walk).found() == found,
            Err(fault) => r is Err && r->Err_0@ == fault,
        },
    decreases *directory, directory.entries@.len() + 1,
{
    let ghost start = walk.found();
    let ghost spot = Spot { platform: fold.platform, shown: shown@, relative: relative@, root: is_root };
    if directory.late {
        return Err(RewindError::ScanIncomplete(text::copy("scan deadline exceeded")));
    }
    if let Some(error) = &directory.problem {
        return Err(incomplete_error(shown, error.as_str()));
    }
    let mut children: Table<Fingerprint> = Table::new();
    let count = directory.entries.len();
    for i in 0..count
        invariant
            count == directory.entries@.len(),
            spot == (Spot { platform: fold.platform, shown: shown@, relative: relative@, root: is_root }),
            !directory.late,
            directory.problem is None,
            start == old(walk).found(),
            scan_entries(*directory, i as int, spot, start, fold) == Ok::<(Map<Seq<char>, Print>, Found), Fault>(
                (children@, walk.found()),
            ),
    {
        let entry = &directory.entries[i];
        let ghost place = spot.child(entry.name@);
        let ghost so_far = walk.found();
        proof {
            entries_step(*directory, i as int, spot, start, fold);
        }
        let skipped = is_root && text::same(entry.name.as_str(), ".rewind");
        if !skipped {
            if entry.late {
                proof {
                    entries_fail(*directory, i + 1, spot, start, fold);
                }
                return Err(RewindError::ScanIncomplete(text::copy("scan deadline exceeded")));
            }
            let path = paths::join(fold.platform, shown, entry.name.as_str());
            if !entry.unicode {
                proof {
                    entries_fail(*directory, i + 1, spot, start, fold);
                }
                return Err(prefixed_error("non-Unicode filename is unsupported: ", path.as_str()));
            }
            let below = if is_root {
                text::copy(entry.name.as_str())
            } else {
                let mut below = text::copy(relative);
                below.push('/');
                below.append(entry.name.as_str());
                assert(below@ =~= relative@ + seq!['/'] + entry.name@);
                below
            };
            match walk.note(below.as_str(), fold) {
                Ok(()) => {},
                Err(error) => {
                    proof {
                        entries_fail(*directory, i + 1, spot, start, fold);
                    }
                    return Err(error);
                },
            }
            let fingerprint = match visit_node(&entry.node, path.as_str(), below.as_str(), walk, fold) {
                Ok(fingerprint) => fingerprint,
                Err(error) => {
                    proof {
                        entries_fail(*directory, i + 1, spot, start, fold);
                    }
                    return Err(error);
                },
            };
            children.insert(text::copy(entry.name.as_str()), fingerprint.duplicate());
            walk.entries.insert(below, fingerprint);
        }
    }
    let metadata = match &directory.metadata {
        Ok(metadata) => *metadata,
        Err(error) => {
            return Err(RewindError::Io(text::copy(error.as_str())));
        },
    };
    let fingerprint = match Fingerprint::directory_from_children(&children, metadata) {
        Ok(fingerprint) => fingerprint,
        Err(error) => {
            return Err(error);
        },
    };
    if !is_root {
        walk.entries.insert(text::copy(relative), fingerprint.duplicate());
    }
    Ok(fingerprint)
}

/// One entry more.
proof fn entries_step(directory: Directory, n: int, spot: Spot, found: Found, fold: Filesystem)
    requires
        0 <= n < directory.entries@.len(),
    ensures
        scan_entries(directory, n + 1, spot, found, fold) == match scan_entries(directory, n, spot, found, fold) {
            Err(fault) => Err::<(Map<Seq<char>, Print>, Found), Fault>(fault),
            Ok((children, so_far)) => {
                let entry = directory.entries@[n];
                let place = spot.child(entry.name@);
                if spot.root && entry.name@ == ".rewind"@ {
                    Ok((children, so_far))
                } else if entry.late {
                    Err(out_of_time())
                } else if !entry.unicode {
                    Err(Fault::ScanIncomplete("non-Unicode filename is unsupported: "@ + place.shown))
                } else {
                    match noted(so_far, place.relative, fold) {
                        Err(fault) => Err(fault),
                        Ok(with_note) => match scan_node(entry.node, place, with_note, fold) {
                            Err(fault) => Err(fault),
                            Ok((print, after)) => Ok(
                                (
                                    children.insert(entry.name@, print),
                                    Found { entries: after.entries.insert(place.relative, print), ..after },
                                ),
                            ),
                        },
                    }
                }
            },
        },
{
}

/// The first fault of the entries is the fault of them all.
proof fn entries_fail(directory: Directory, n: int, spot: Spot, found: Found, fold: Filesystem)
    requires
        0 < n <= directory.entries@.len(),
        scan_entries(directory, n, spot, found, fold) is Err,
    ensures
        scan_entries(directory, directory.entries@.len() as int, spot, found, fold) == scan_entries(
            directory,
            n,
            spot,
            found,
            fold,
        ),
    decreases directory.entries@.len() - n,
{
    if n < directory.entries@.len() {
        entries_step(directory, n, spot, found, fold);
        entries_fail(directory, n + 1, spot, found, fold);
    }
}

/// What a scan gives.
pub struct ScanResult {
    pub manifest: Manifest,
    pub state_id: String,
    pub unsupported_paths: Vec<String>,
}

/// The beginning of a scan.
pub open spec fn nothing_found() -> Found {
    Found { entries: Map::empty(), unsupported: Seq::empty(), seen: Map::empty() }
}

/// What a scan of a whole workspace finds.
pub open spec fn scan_of(root: Seq<char>, tree: Directory, fold: Filesystem) -> std::result::Result<(Print, Found), Fault> {
    scan_directory(tree, Spot { platform: fold.platform, shown: root, relative: Seq::empty(), root: true }, nothing_found(), fold)
}

/// Makes the manifest of a workspace from what was seen of its tree, or gives
/// the first fault on the way.
pub fn scan_workspace(root: &str, tree: &Directory, filesystem: Filesystem) -> (r: Result<ScanResult>)
    ensures
        match scan_of(root@, *tree, filesystem) {
            Ok((print, found)) => {
                &&& r is Ok
                &&& r->Ok_0.manifest@ == found.entries
                &&& r->Ok_0.state_id@ == state_id_of(found.entries)
                &&& views(r->Ok_0.unsupported_paths@) == found.unsupported
            },
            Err(fault) => r is Err && r->Err_0@ == fault,
        },
{
    let mut walk = Walk { entries: Table::new(), unsupported: Vec::new(), seen: Table::new() };
    assert(views(walk.unsupported@) =~= Seq::<Seq<char>>::empty());
    proof {
        reveal_strlit("");
        assert(""@ =~= Seq::<char>::empty());
    }
    match visit_directory(tree, root, "", true, &mut walk, filesystem) {
        Ok(_) => {},
        Err(error) => {
            return Err(error);
        },
    }
    let manifest = Manifest { entries: walk.entries };
    let state_id = match manifest.state_id() {
        Ok(id) => id,
        Err(error) => {
            return Err(error);
        },
    };
    Ok(ScanResult { manifest, state_id, unsupported_paths: walk.unsupported })
}

/// What is found at one path: nothing, or what a scan of the object there
/// gives.
pub open spec fn scan_at(shown: Seq<char>, relative: Seq<char>, node: Option<Node>, fold: Filesystem) -> std::result::Result<
    Print,
    Fault,
> {
    match node {
        None => Ok(Print::Absent),
        Some(n) => match scan_node(n, Spot { platform: fold.platform, shown, relative, root: false }, nothing_found(), fold) {
            Ok((print, found)) => Ok(print),
            Err(fault) => Err(fault),
        },
    }
}

/// The fingerprint of the object at one path, without a scan of the rest.
pub fn scan_fingerprint_at(shown: &str, relative: &str, node: &Option<Node>, filesystem: Filesystem) -> (r: Result<Fingerprint>)
    ensures
        match scan_at(shown@, relative@, *node, filesystem) {
            Ok(print) => r is Ok && r->Ok_0@ == print,
            Err(fault) => r is Err && r->Err_0@ == fault,
        },
{
    match node {
        None => Ok(Fingerprint::Absent),
        Some(n) => {
            let mut walk = Walk { entries: Table::new(), unsupported: Vec::new(), seen: Table::new() };
            assert(views(walk.unsupported@) =~= Seq::<Seq<char>>::empty());
            visit_node(n, shown, relative, &mut walk, filesystem)
        },
    }
}

/// The fingerprint of a whole workspace as a directory.
pub fn scan_root(root: &str, tree: &Directory, filesystem: Filesystem) -> (r: Result<Fingerprint>)
    ensures
        match scan_of(root@, *tree, filesystem) {
            Ok((print, found)) => r is Ok && r->Ok_0@ == print,
            Err(fault) => r is Err && r->Err_0@ == fault,
        },
{
    let mut walk = Walk { entries: Table::new(), unsupported: Vec::new(), seen: Table::new() };
    assert(views(walk.unsupported@) =~= Seq::<Seq<char>>::empty());
    proof {
        reveal_strlit("");
        assert(""@ =~= Seq::<char>::empty());
    }
    visit_directory(tree, root, "", true, &mut walk, filesystem)
}

// ---------------------------------------------------------------------------
// A path on its own, and in the whole
// ---------------------------------------------------------------------------

pub open spec fn no_slash(name: Seq<char>) -> bool {
    forall|i: int| 0 <= i < name.len() ==> name[i] != '/'
}

/// Whether the names of a tree can be those of files: no name holds a slash,
/// and no directory holds a name twice.
pub open spec fn well_named(node: Node) -> bool
    decreases node, 0int,
{
    match node {
        Node::Directory(directory) => well_named_directory(directory),
        _ => true,
    }
}

pub open spec fn well_named_directory(directory: Directory) -> bool
    decreases directory, 1int,
{
    &&& forall|i: int, j: int|
        0 <= i < j < directory.entries@.len() ==> (#[trigger] directory.entries@[i]).name@ != (
        #[trigger] directory.entries@[j]).name@
    &&& forall|i: int|
        0 <= i < directory.entries@.len() ==> no_slash((#[trigger] directory.entries@[i]).name@) && well_named(
            directory.entries@[i].node,
        )
}

/// The entry of a directory with a name.
pub open spec fn entry_named(directory: Directory, name: Seq<char>, i: int) -> bool {
    0 <= i < directory.entries@.len() && directory.entries@[i].name@ == name
}

/// What stands below a node, a name for each step.
pub open spec fn node_at(node: Node, names: Seq<Seq<char>>) -> Option<Node>
    decreases names.len(),
{
    if names.len() == 0 {
        Some(node)
    } else {
        match node {
            Node::Directory(directory) => if exists|i: int| #[trigger] entry_named(directory, names[0], i) {
                let i = choose|i: int| #[trigger] entry_named(directory, names[0], i);
                node_at(directory.entries@[i].node, names.skip(1))
            } else {
                None
            },
            _ => None,
        }
    }
}

/// A path, extended by names.
pub open spec fn extended(path: Seq<char>, names: Seq<Seq<char>>) -> Seq<char>
    decreases names.len(),
{
    if names.len() == 0 {
        path
    } else {
        extended(path + seq!['/'] + names[0], names.skip(1))
    }
}

/// The path of names from the root on.
pub open spec fn path_of(names: Seq<Seq<char>>) -> Seq<char> {
    extended(names[0], names.skip(1))
}

/// Whether a path is another one, or lies below it.
pub open spec fn within(path: Seq<char>, top: Seq<char>) -> bool {
    path == top || (path.len() > top.len() && path.take(top.len() as int) == top && path[top.len() as int] == '/')
}

proof fn extended_within(path: Seq<char>, names: Seq<Seq<char>>)
    ensures
        within(extended(path, names), path),
        names.len() > 0 ==> extended(path, names).len() > path.len(),
    decreases names.len(),
{
    if names.len() > 0 {
        let next = path + seq!['/'] + names[0];
        extended_within(next, names.skip(1));
        let whole = extended(path, names);
        assert(whole.take(next.len() as int) == next);
        assert(whole.take(path.len() as int) =~= next.take(path.len() as int));
        assert(next.take(path.len() as int) =~= path);
        assert(whole[path.len() as int] == whole.take(next.len() as int)[path.len() as int]);
    }
}

/// What lies below one entry of a directory does not lie below another.
proof fn entries_apart(spot: Spot, a: Seq<char>, b: Seq<char>, path: Seq<char>)
    requires
        no_slash(a),
        no_slash(b),
        a != b,
        within(path, spot.child(a).relative),
    ensures
        !within(path, spot.child(b).relative),
{
    let x = spot.child(a).relative;
    let y = spot.child(b).relative;
    let base: int = if spot.root {
        0
    } else {
        spot.relative.len() as int + 1
    };
    assert(x.len() == base + a.len() && y.len() == base + b.len());
    assert(forall|i: int| 0 <= i < a.len() ==> x[base + i] == a[i]);
    assert(forall|i: int| 0 <= i < b.len() ==> y[base + i] == b[i]);
    assert(forall|i: int| 0 <= i < x.len() ==> path[i] == x[i]) by {
        if path != x {
            assert(forall|i: int| 0 <= i < x.len() ==> path.take(x.len() as int)[i] == path[i]);
        }
    }
    if within(path, y) {
        assert(forall|i: int| 0 <= i < y.len() ==> path[i] == y[i]) by {
            if path != y {
                assert(forall|i: int| 0 <= i < y.len() ==> path.take(y.len() as int)[i] == path[i]);
            }
        }
        if a.len() == b.len() {
            assert forall|i: int| 0 <= i < a.len() implies a[i] == b[i] by {
                assert(path[base + i] == x[base + i]);
                assert(path[base + i] == y[base + i]);
            }
            assert(a =~= b);
        } else if a.len() < b.len() {
            assert(path[x.len() as int] == y[base + a.len()]);
            assert(y[base + a.len()] == b[a.len() as int]);
        } else {
            assert(path[y.len() as int] == x[base + b.len()]);
            assert(x[base + b.len()] == a[b.len() as int]);
        }
    }
}

/// Whether a map says of a path what another says.
pub open spec fn agree(a: Map<Seq<char>, Print>, b: Map<Seq<char>, Print>, path: Seq<char>) -> bool {
    a.contains_key(path) == b.contains_key(path) && (a.contains_key(path) ==> a[path] == b[path])
}

/// Scanning an object touches no path but its own and those below it.
proof fn node_frame(node: Node, spot: Spot, found: Found, fold: Filesystem, path: Seq<char>)
    requires
        scan_node(node, spot, found, fold) is Ok,
        !spot.root,
        path != spot.relative,
        !within(path, spot.relative),
    ensures
        agree(found.entries, scan_node(node, spot, found, fold)->Ok_0.1.entries, path),
    decreases node, 0int,
{
    match node {
        Node::Directory(directory) => {
            directory_frame(directory, spot, found, fold, path);
        },
        _ => {},
    }
}

proof fn directory_frame(directory: Directory, spot: Spot, found: Found, fold: Filesystem, path: Seq<char>)
    requires
        scan_directory(directory, spot, found, fold) is Ok,
        !spot.root,
        !within(path, spot.relative),
    ensures
        agree(found.entries, scan_directory(directory, spot, found, fold)->Ok_0.1.entries, path),
    decreases directory, directory.entries@.len() + 1,
{
    let n = directory.entries@.len() as int;
    assert forall|i: int| 0 <= i < n implies !within(path, spot.child((#[trigger] directory.entries@[i]).name@).relative) by {
        if within(path, spot.child(directory.entries@[i].name@).relative) {
            below_child(spot, directory.entries@[i].name@, path);
        }
    }
    entries_frame(directory, n, spot, found, fold, path);
}

proof fn below_child(spot: Spot, name: Seq<char>, path: Seq<char>)
    requires
        !spot.root,
        within(path, spot.child(name).relative),
    ensures
        within(path, spot.relative),
        path != spot.relative,
{
    let x = spot.child(name).relative;
    let top = spot.relative;
    assert(x.take(top.len() as int) =~= top);
    assert(x[top.len() as int] == '/');
    if path != x {
        assert(path.take(top.len() as int) =~= path.take(x.len() as int).take(top.len() as int));
        assert(path[top.len() as int] == path.take(x.len() as int)[top.len() as int]);
    }
}

/// Scanning the first entries touches no path but theirs and those below them.
proof fn entries_frame(directory: Directory, n: int, spot: Spot, found: Found, fold: Filesystem, path: Seq<char>)
    requires
        0 <= n <= directory.entries@.len(),
        scan_entries(directory, n, spot, found, fold) is Ok,
        forall|i: int|
            0 <= i < n ==> !within(path, spot.child((#[trigger] directory.entries@[i]).name@).relative),
    ensures
        agree(found.entries, scan_entries(directory, n, spot, found, fold)->Ok_0.1.entries, path),
    decreases directory, n,
{
    if n > 0 {
        entries_step(directory, n - 1, spot, found, fold);
        entries_frame(directory, n - 1, spot, found, fold, path);
        let entry = directory.entries@[n - 1];
        let so_far = scan_entries(directory, n - 1, spot, found, fold)->Ok_0.1;
        let place = spot.child(entry.name@);
        if !(spot.root && entry.name@ == ".rewind"@) {
            let with_note = noted(so_far, place.relative, fold)->Ok_0;
            assert(!within(path, place.relative));
            node_frame(entry.node, place, with_note, fold, path);
        }
    }
}

/// Whether one map of seen paths is part of another.
pub open spec fn part_of(a: Map<Seq<char>, Seq<char>>, b: Map<Seq<char>, Seq<char>>) -> bool {
    forall|k: Seq<char>| #[trigger] a.contains_key(k) ==> b.contains_key(k) && a[k] == b[k]
}

proof fn noted_alone(some: Found, all: Found, relative: Seq<char>, fold: Filesystem)
    requires
        part_of(some.seen, all.seen),
        noted(all, relative, fold) is Ok,
    ensures
        noted(some, relative, fold) is Ok,
        part_of(noted(some, relative, fold)->Ok_0.seen, noted(all, relative, fold)->Ok_0.seen),
{
}

/// What a scan of the whole finds of an object, a scan of it alone finds too.
proof fn node_alone(node: Node, spot: Spot, some: Found, all: Found, fold: Filesystem)
    requires
        part_of(some.seen, all.seen),
        scan_node(node, spot, all, fold) is Ok,
    ensures
        scan_node(node, spot, some, fold) is Ok,
        scan_node(node, spot, some, fold)->Ok_0.0 == scan_node(node, spot, all, fold)->Ok_0.0,
        part_of(scan_node(node, spot, some, fold)->Ok_0.1.seen, scan_node(node, spot, all, fold)->Ok_0.1.seen),
    decreases node, 0int,
{
    match node {
        Node::Directory(directory) => {
            entries_alone(directory, directory.entries@.len() as int, spot, some, all, fold);
        },
        _ => {},
    }
}

proof fn entries_alone(directory: Directory, n: int, spot: Spot, some: Found, all: Found, fold: Filesystem)
    requires
        0 <= n <= directory.entries@.len(),
        part_of(some.seen, all.seen),
        scan_entries(directory, n, spot, all, fold) is Ok,
    ensures
        scan_entries(directory, n, spot, some, fold) is Ok,
        scan_entries(directory, n, spot, some, fold)->Ok_0.0 == scan_entries(directory, n, spot, all, fold)->Ok_0.0,
        part_of(
            scan_entries(directory, n, spot, some, fold)->Ok_0.1.seen,
            scan_entries(directory, n, spot, all, fold)->Ok_0.1.seen,
        ),
    decreases directory, n,
{
    if n > 0 {
        entries_step(directory, n - 1, spot, some, fold);
        entries_step(directory, n - 1, spot, all, fold);
        entries_alone(directory, n - 1, spot, some, all, fold);
        let entry = directory.entries@[n - 1];
        let place = spot.child(entry.name@);
        let a = scan_entries(directory, n - 1, spot, some, fold)->Ok_0.1;
        let b = scan_entries(directory, n - 1, spot, all, fold)->Ok_0.1;
        if !(spot.root && entry.name@ == ".rewind"@) {
            noted_alone(a, b, place.relative, fold);
            node_alone(entry.node, place, noted(a, place.relative, fold)->Ok_0, noted(b, place.relative, fold)->Ok_0, fold);
        }
    }
}

/// What is recorded below an object is what a scan of each object there alone
/// would find, and nothing is recorded where nothing stands.
proof fn recorded_below(node: Node, spot: Spot, found: Found, fold: Filesystem, names: Seq<Seq<char>>)
    requires
        spot.platform == fold.platform,
        well_named(node),
        !spot.root,
        names.len() > 0,
        forall|i: int| 0 <= i < names.len() ==> no_slash(#[trigger] names[i]),
        scan_node(node, spot, found, fold) is Ok,
        forall|p: Seq<char>| within(p, spot.relative) ==> !(#[trigger] found.entries.contains_key(p)),
    ensures
        ({
            let path = extended(spot.relative, names);
            let shown = shown_at(spot, names);
            let recorded = at(scan_node(node, spot, found, fold)->Ok_0.1.entries, path);
            scan_at(shown, path, node_at(node, names), fold) == Ok::<Print, Fault>(recorded)
        }),
    decreases node, 0int,
{
    let path = extended(spot.relative, names);
    extended_within(spot.relative, names);
    match node {
        Node::Directory(directory) => {
            let n = directory.entries@.len() as int;
            assert forall|p: Seq<char>| within(p, spot.child(names[0]).relative) implies !(
            #[trigger] found.entries.contains_key(p)) by {
                below_child(spot, names[0], p);
            }
            recorded_entries(directory, n, spot, found, fold, names);
            assert(path != spot.relative);
        },
        _ => {
            assert(!found.entries.contains_key(path));
        },
    }
}

/// The place of names below another, as shown in messages.
pub open spec fn shown_at(spot: Spot, names: Seq<Seq<char>>) -> Seq<char>
    decreases names.len(),
{
    if names.len() == 0 {
        spot.shown
    } else {
        shown_at(spot.child(names[0]), names.skip(1))
    }
}

/// What stands below the first entries of a directory.
pub open spec fn among(directory: Directory, n: int, spot: Spot, names: Seq<Seq<char>>) -> Option<Node> {
    if exists|i: int| i < n && #[trigger] entry_named(directory, names[0], i) {
        if spot.root && names[0] == ".rewind"@ {
            None
        } else {
            let i = choose|i: int| i < n && #[trigger] entry_named(directory, names[0], i);
            node_at(directory.entries@[i].node, names.skip(1))
        }
    } else {
        None
    }
}

proof fn recorded_entries(directory: Directory, n: int, spot: Spot, found: Found, fold: Filesystem, names: Seq<Seq<char>>)
    requires
        spot.platform == fold.platform,
        well_named_directory(directory),
        0 <= n <= directory.entries@.len(),
        names.len() > 0,
        forall|i: int| 0 <= i < names.len() ==> no_slash(#[trigger] names[i]),
        scan_entries(directory, n, spot, found, fold) is Ok,
        forall|p: Seq<char>| within(p, spot.child(names[0]).relative) ==> !(#[trigger] found.entries.contains_key(p)),
    ensures
        ({
            let path = extended(spot.child(names[0]).relative, names.skip(1));
            let shown = shown_at(spot.child(names[0]), names.skip(1));
            let recorded = at(scan_entries(directory, n, spot, found, fold)->Ok_0.1.entries, path);
            scan_at(shown, path, among(directory, n, spot, names), fold) == Ok::<Print, Fault>(recorded)
        }),
        !spot.root && n == directory.entries@.len() ==> among(directory, n, spot, names) == node_at(
            Node::Directory(directory),
            names,
        ),
    decreases directory, n,
{
    let name = names[0];
    let rest = names.skip(1);
    let place = spot.child(name);
    let path = extended(place.relative, rest);
    let shown = shown_at(place, rest);
    extended_within(place.relative, rest);
    assert forall|i: int| 0 <= i < rest.len() implies no_slash(#[trigger] rest[i]) by {
        assert(rest[i] == names[i + 1]);
    }
    if exists|i: int| i < n && #[trigger] entry_named(directory, name, i) {
        let k = choose|i: int| i < n && #[trigger] entry_named(directory, name, i);
        assert forall|i: int| #[trigger] entry_named(directory, name, i) implies i == k by {
            if i < k {
                assert(directory.entries@[i].name@ != directory.entries@[k].name@);
            } else if k < i {
                assert(directory.entries@[k].name@ != directory.entries@[i].name@);
            }
        }
        assert(entry_named(directory, name, k));
        if k < n - 1 {
            // A later entry: it touches nothing here.
            entries_step(directory, n - 1, spot, found, fold);
            recorded_entries(directory, n - 1, spot, found, fold, names);
            let entry = directory.entries@[n - 1];
            let other = spot.child(entry.name@);
            let so_far = scan_entries(directory, n - 1, spot, found, fold)->Ok_0.1;
            assert(directory.entries@[k].name@ != entry.name@);
            entries_apart(spot, name, entry.name@, path);
            if !(spot.root && entry.name@ == ".rewind"@) {
                node_frame(entry.node, other, noted(so_far, other.relative, fold)->Ok_0, fold, path);
            }
            assert(among(directory, n - 1, spot, names) == among(directory, n, spot, names)) by {
                assert(k < n - 1 && entry_named(directory, name, k));
            }
        } else {
            assert(k == n - 1);
            entries_step(directory, n - 1, spot, found, fold);
            let so_far = scan_entries(directory, n - 1, spot, found, fold)->Ok_0.1;
            let entry = directory.entries@[k];
            assert forall|p: Seq<char>| within(p, place.relative) implies !(#[trigger] so_far.entries.contains_key(p)) by {
                assert forall|i: int| 0 <= i < n - 1 implies !within(
                    p,
                    spot.child((#[trigger] directory.entries@[i]).name@).relative,
                ) by {
                    assert(directory.entries@[i].name@ != directory.entries@[k].name@);
                    entries_apart(spot, name, directory.entries@[i].name@, p);
                }
                entries_frame(directory, n - 1, spot, found, fold, p);
                assert(!found.entries.contains_key(p));
            }
            if spot.root && name == ".rewind"@ {
                assert(!so_far.entries.contains_key(path));
            } else {
                let with_note = noted(so_far, place.relative, fold)->Ok_0;
                let alone = nothing_found();
                if rest.len() == 0 {
                    assert(path == place.relative);
                    node_alone(entry.node, place, alone, with_note, fold);
                    assert(node_at(entry.node, rest) == Some(entry.node));
                    assert(scan_at(shown, path, Some(entry.node), fold) == Ok::<Print, Fault>(
                        scan_node(entry.node, place, with_note, fold)->Ok_0.0,
                    ));
                } else {
                    recorded_below(entry.node, place, with_note, fold, rest);
                    assert(path != place.relative);
                }
            }
        }
    } else {
        assert forall|i: int| 0 <= i < n implies !within(
            path,
            spot.child((#[trigger] directory.entries@[i]).name@).relative,
        ) by {
            assert(!entry_named(directory, name, i));
            entries_apart(spot, name, directory.entries@[i].name@, path);
        }
        entries_frame(directory, n, spot, found, fold, path);
        assert(!found.entries.contains_key(path));
    }
    if !spot.root && n == directory.entries@.len() {
        if exists|i: int| #[trigger] entry_named(directory, name, i) {
            let k = choose|i: int| #[trigger] entry_named(directory, name, i);
            assert(k < n && entry_named(directory, name, k));
            let j = choose|i: int| i < n && #[trigger] entry_named(directory, name, i);
            if j < k {
                assert(directory.entries@[j].name@ != directory.entries@[k].name@);
            } else if k < j {
                assert(directory.entries@[k].name@ != directory.entries@[j].name@);
            }
        }
    }
}

/// What stands in a workspace at a path of names. Its metadata directory is no
/// part of it.
pub open spec fn tree_at(tree: Directory, names: Seq<Seq<char>>) -> Option<Node> {
    if names[0] == ".rewind"@ {
        None
    } else {
        node_at(Node::Directory(tree), names)
    }
}

/// A scan of one path finds exactly what a scan of the whole workspace records
/// for it, for every kind of object, and for a path where nothing stands.
pub proof fn path_scan_matches_full_scan(root: Seq<char>, tree: Directory, fold: Filesystem, names: Seq<Seq<char>>)
    requires
        well_named_directory(tree),
        scan_of(root, tree, fold) is Ok,
        names.len() > 0,
        forall|i: int| 0 <= i < names.len() ==> no_slash(#[trigger] names[i]),
    ensures
        ({
            let shown = shown_at(Spot { platform: fold.platform, shown: root, relative: Seq::empty(), root: true }, names);
            let recorded = at(scan_of(root, tree, fold)->Ok_0.1.entries, path_of(names));
            scan_at(shown, path_of(names), tree_at(tree, names), fold) == Ok::<Print, Fault>(recorded)
        }),
{
    let spot = Spot { platform: fold.platform, shown: root, relative: Seq::empty(), root: true };
    let n = tree.entries@.len() as int;
    recorded_entries(tree, n, spot, nothing_found(), fold, names);
    if names[0] != ".rewind"@ {
        if exists|i: int| #[trigger] entry_named(tree, names[0], i) {
            let k = choose|i: int| #[trigger] entry_named(tree, names[0], i);
            assert(k < n && entry_named(tree, names[0], k));
            let j = choose|i: int| i < n && #[trigger] entry_named(tree, names[0], i);
            if j < k {
                assert(tree.entries@[j].name@ != tree.entries@[k].name@);
            } else if k < j {
                assert(tree.entries@[k].name@ != tree.entries@[j].name@);
            }
        }
    }
}


/// The entries of the directory at a place, as a manifest records them.
pub open spec fn children_of(m: Map<Seq<char>, Print>, spot: Spot) -> Map<Seq<char>, Print> {
    Map::new(
        |name: Seq<char>| no_slash(name) && m.contains_key(spot.child(name).relative),
        |name: Seq<char>| m[spot.child(name).relative],
    )
}

/// Whether an entry of a directory is part of the workspace.
pub open spec fn counts(directory: Directory, n: int, spot: Spot, name: Seq<char>) -> bool {
    &&& exists|i: int| i < n && #[trigger] entry_named(directory, name, i)
    &&& !(spot.root && name == ".rewind"@)
}

/// The fingerprints over which a directory's own is made are those that scans
/// of its entries alone would give.
proof fn children_are(directory: Directory, n: int, spot: Spot, found: Found, fold: Filesystem, name: Seq<char>)
    requires
        spot.platform == fold.platform,
        well_named_directory(directory),
        0 <= n <= directory.entries@.len(),
        scan_entries(directory, n, spot, found, fold) is Ok,
    ensures
        ({
            let children = scan_entries(directory, n, spot, found, fold)->Ok_0.0;
            let place = spot.child(name);
            &&& children.contains_key(name) == counts(directory, n, spot, name)
            &&& children.contains_key(name) ==> scan_at(
                place.shown,
                place.relative,
                among(directory, n, spot, seq![name]),
                fold,
            ) == Ok::<Print, Fault>(children[name])
        }),
    decreases n,
{
    let names = seq![name];
    if n > 0 {
        entries_step(directory, n - 1, spot, found, fold);
        children_are(directory, n - 1, spot, found, fold, name);
        let entry = directory.entries@[n - 1];
        let place = spot.child(entry.name@);
        let so_far = scan_entries(directory, n - 1, spot, found, fold)->Ok_0.1;
        if entry.name@ == name {
            assert(entry_named(directory, name, n - 1));
            assert forall|i: int| #[trigger] entry_named(directory, name, i) implies i == n - 1 by {
                if i < n - 1 {
                    assert(directory.entries@[i].name@ != directory.entries@[n - 1].name@);
                } else if n - 1 < i {
                    assert(directory.entries@[n - 1].name@ != directory.entries@[i].name@);
                }
            }
            if !(spot.root && name == ".rewind"@) {
                let with_note = noted(so_far, place.relative, fold)->Ok_0;
                node_alone(entry.node, place, nothing_found(), with_note, fold);
                assert(names.skip(1) =~= Seq::<Seq<char>>::empty());
                assert(n - 1 < n && entry_named(directory, name, n - 1));
                assert(among(directory, n, spot, names) == Some(entry.node));
            }
        } else {
            if counts(directory, n, spot, name) {
                let k = choose|i: int| i < n && #[trigger] entry_named(directory, name, i);
                assert(k < n - 1 && entry_named(directory, name, k));
                let j = choose|i: int| i < n - 1 && #[trigger] entry_named(directory, name, i);
                if j < k {
                    assert(directory.entries@[j].name@ != directory.entries@[k].name@);
                } else if k < j {
                    assert(directory.entries@[k].name@ != directory.entries@[j].name@);
                }
            } else if counts(directory, n - 1, spot, name) {
                let k = choose|i: int| i < n - 1 && #[trigger] entry_named(directory, name, i);
                assert(k < n && entry_named(directory, name, k));
            }
        }
    }
}

/// A scan records no path as absent.
proof fn node_records_presence(node: Node, spot: Spot, found: Found, fold: Filesystem)
    requires
        scan_node(node, spot, found, fold) is Ok,
        forall|p: Seq<char>| #[trigger] found.entries.contains_key(p) ==> !(found.entries[p] is Absent),
    ensures
        !(scan_node(node, spot, found, fold)->Ok_0.0 is Absent),
        forall|p: Seq<char>| #[trigger]
            scan_node(node, spot, found, fold)->Ok_0.1.entries.contains_key(p) ==> !(scan_node(
                node,
                spot,
                found,
                fold,
            )->Ok_0.1.entries[p] is Absent),
    decreases node, 0int,
{
    match node {
        Node::Directory(directory) => {
            entries_record_presence(directory, directory.entries@.len() as int, spot, found, fold);
        },
        _ => {},
    }
}

proof fn entries_record_presence(directory: Directory, n: int, spot: Spot, found: Found, fold: Filesystem)
    requires
        0 <= n <= directory.entries@.len(),
        scan_entries(directory, n, spot, found, fold) is Ok,
        forall|p: Seq<char>| #[trigger] found.entries.contains_key(p) ==> !(found.entries[p] is Absent),
    ensures
        forall|p: Seq<char>| #[trigger]
            scan_entries(directory, n, spot, found, fold)->Ok_0.1.entries.contains_key(p) ==> !(scan_entries(
                directory,
                n,
                spot,
                found,
                fold,
            )->Ok_0.1.entries[p] is Absent),
    decreases directory, n,
{
    if n > 0 {
        entries_step(directory, n - 1, spot, found, fold);
        entries_record_presence(directory, n - 1, spot, found, fold);
        let entry = directory.entries@[n - 1];
        let place = spot.child(entry.name@);
        let so_far = scan_entries(directory, n - 1, spot, found, fold)->Ok_0.1;
        if !(spot.root && entry.name@ == ".rewind"@) {
            node_records_presence(entry.node, place, noted(so_far, place.relative, fold)->Ok_0, fold);
        }
    }
}

/// The place of names below another.
pub open spec fn spot_at(spot: Spot, names: Seq<Seq<char>>) -> Spot
    decreases names.len(),
{
    if names.len() == 0 {
        spot
    } else {
        spot_at(spot.child(names[0]), names.skip(1))
    }
}

proof fn spot_at_push(spot: Spot, names: Seq<Seq<char>>, name: Seq<char>)
    ensures
        spot_at(spot, names.push(name)) == spot_at(spot, names).child(name),
    decreases names.len(),
{
    if names.len() == 0 {
        assert(names.push(name).skip(1) =~= Seq::<Seq<char>>::empty());
        assert(spot_at(spot.child(name), Seq::empty()) == spot.child(name));
    } else {
        assert(names.push(name).skip(1) =~= names.skip(1).push(name));
        spot_at_push(spot.child(names[0]), names.skip(1), name);
    }
}

proof fn spot_at_is(spot: Spot, names: Seq<Seq<char>>)
    requires
        !spot.root,
    ensures
        spot_at(spot, names).shown == shown_at(spot, names),
        spot_at(spot, names).relative == extended(spot.relative, names),
        !spot_at(spot, names).root,
        spot_at(spot, names).platform == spot.platform,
    decreases names.len(),
{
    if names.len() > 0 {
        spot_at_is(spot.child(names[0]), names.skip(1));
    }
}

/// The place where a scan of a workspace begins.
pub open spec fn top(platform: Platform, root: Seq<char>) -> Spot {
    Spot { platform, shown: root, relative: Seq::empty(), root: true }
}

pub proof fn spot_of_path(platform: Platform, root: Seq<char>, names: Seq<Seq<char>>)
    requires
        names.len() > 0,
    ensures
        spot_at(top(platform, root), names).shown == shown_at(top(platform, root), names),
        spot_at(top(platform, root), names).relative == path_of(names),
        !spot_at(top(platform, root), names).root,
        spot_at(top(platform, root), names).platform == platform,
{
    spot_at_is(top(platform, root).child(names[0]), names.skip(1));
}

proof fn node_at_push(node: Node, names: Seq<Seq<char>>, name: Seq<char>)
    requires
        well_named(node),
        node_at(node, names) is Some,
    ensures
        well_named(node_at(node, names)->0),
        node_at(node, names.push(name)) == node_at(node_at(node, names)->0, seq![name]),
    decreases names.len(),
{
    if names.len() == 0 {
        assert(names.push(name) =~= seq![name]);
    } else {
        assert(names.push(name).skip(1) =~= names.skip(1).push(name));
        match node {
            Node::Directory(directory) => {
                let i = choose|i: int| #[trigger] entry_named(directory, names[0], i);
                assert(entry_named(directory, names[0], i));
                assert(well_named(directory.entries@[i].node));
                node_at_push(directory.entries@[i].node, names.skip(1), name);
            },
            _ => {},
        }
    }
}

/// A single name below a directory.
proof fn node_at_one(directory: Directory, spot: Spot, name: Seq<char>)
    requires
        well_named_directory(directory),
        !(spot.root && name == ".rewind"@),
    ensures
        node_at(Node::Directory(directory), seq![name]) == among(
            directory,
            directory.entries@.len() as int,
            spot,
            seq![name],
        ),
        (node_at(Node::Directory(directory), seq![name]) is Some) == counts(
            directory,
            directory.entries@.len() as int,
            spot,
            name,
        ),
{
    let n = directory.entries@.len() as int;
    let names = seq![name];
    if exists|i: int| #[trigger] entry_named(directory, name, i) {
        let k = choose|i: int| #[trigger] entry_named(directory, name, i);
        assert(k < n && entry_named(directory, name, k));
        let j = choose|i: int| i < n && #[trigger] entry_named(directory, name, i);
        if j < k {
            assert(directory.entries@[j].name@ != directory.entries@[k].name@);
        } else if k < j {
            assert(directory.entries@[k].name@ != directory.entries@[j].name@);
        }
        assert(names.skip(1) =~= Seq::<Seq<char>>::empty());
        assert(node_at(directory.entries@[k].node, Seq::empty()) == Some(directory.entries@[k].node));
    }
}

/// The directory at a path of names: the workspace itself, for none.
pub open spec fn directory_at(tree: Directory, names: Seq<Seq<char>>) -> Option<Directory> {
    if names.len() == 0 {
        Some(tree)
    } else {
        match tree_at(tree, names) {
            Some(Node::Directory(directory)) => Some(directory),
            _ => None,
        }
    }
}

/// The fingerprint of the directory at a path of names, as a scan of the
/// workspace gives it.
pub open spec fn scanned_directory(root: Seq<char>, tree: Directory, fold: Filesystem, names: Seq<Seq<char>>) -> Print {
    if names.len() == 0 {
        scan_of(root, tree, fold)->Ok_0.0
    } else {
        at(scan_of(root, tree, fold)->Ok_0.1.entries, path_of(names))
    }
}

/// A manifest agrees with itself: the fingerprint of each directory, and of the
/// workspace, is made over exactly the entries that the manifest lists there.
#[verifier::spinoff_prover]
#[verifier::rlimit(30)]
pub proof fn manifest_is_consistent(root: Seq<char>, tree: Directory, fold: Filesystem, names: Seq<Seq<char>>)
    requires
        well_named_directory(tree),
        scan_of(root, tree, fold) is Ok,
        forall|i: int| 0 <= i < names.len() ==> no_slash(#[trigger] names[i]),
        directory_at(tree, names) is Some,
    ensures
        ({
            let directory = directory_at(tree, names)->0;
            let entries = scan_of(root, tree, fold)->Ok_0.1.entries;
            &&& directory.metadata is Ok
            &&& scanned_directory(root, tree, fold, names) == directory_print(
                children_of(entries, spot_at(top(fold.platform, root), names)),
                directory.metadata->Ok_0,
            )
        }),
{
    let directory = directory_at(tree, names)->0;
    let entries = scan_of(root, tree, fold)->Ok_0.1.entries;
    let spot = spot_at(top(fold.platform, root), names);
    let n = directory.entries@.len() as int;
    let found = nothing_found();
    if names.len() > 0 {
        path_scan_matches_full_scan(root, tree, fold, names);
        spot_of_path(fold.platform, root, names);
        node_at_push(Node::Directory(tree), names, names[0]);
        assert(well_named_directory(directory));
    }
    assert(spot.platform == fold.platform);
    assert(scan_entries(directory, n, spot, found, fold) is Ok);
    let children = scan_entries(directory, n, spot, found, fold)->Ok_0.0;
    entries_record_presence(tree, tree.entries@.len() as int, top(fold.platform, root), found, fold);
    let recorded = children_of(entries, spot);
    assert forall|name: Seq<char>| children.contains_key(name) == #[trigger] recorded.contains_key(name) && (
    children.contains_key(name) ==> children[name] == recorded[name]) by {
        children_are(directory, n, spot, found, fold, name);
        if no_slash(name) {
            let more = names.push(name);
            assert forall|i: int| 0 <= i < more.len() implies no_slash(#[trigger] more[i]) by {
                if i < names.len() {
                    assert(more[i] == names[i]);
                }
            }
            path_scan_matches_full_scan(root, tree, fold, more);
            spot_at_push(top(fold.platform, root), names, name);
            spot_of_path(fold.platform, root, more);
            let place = spot.child(name);
            if names.len() == 0 {
                assert(more =~= seq![name]);
            } else {
                assert(more[0] == names[0]);
                node_at_push(Node::Directory(tree), names, name);
            }
            if !(spot.root && name == ".rewind"@) {
                node_at_one(directory, spot, name);
                assert(scan_at(place.shown, place.relative, tree_at(tree, more), fold) == Ok::<Print, Fault>(
                    at(entries, place.relative),
                ));
                if children.contains_key(name) {
                    let node = tree_at(tree, more)->0;
                    node_records_presence(
                        node,
                        Spot { platform: fold.platform, shown: place.shown, relative: place.relative, root: false },
                        nothing_found(),
                        fold,
                    );
                }
            }
        } else if children.contains_key(name) {
            let k = choose|i: int| i < n && #[trigger] entry_named(directory, name, i);
            assert(no_slash(directory.entries@[k].name@));
        }
    }
    assert(children =~= recorded);
}

/// What a scan records as a directory is one.
pub proof fn scan_records_directories(root: Seq<char>, tree: Directory, fold: Filesystem, names: Seq<Seq<char>>)
    requires
        well_named_directory(tree),
        scan_of(root, tree, fold) is Ok,
        names.len() > 0,
        forall|i: int| 0 <= i < names.len() ==> no_slash(#[trigger] names[i]),
        at(scan_of(root, tree, fold)->Ok_0.1.entries, path_of(names)) is Directory,
    ensures
        directory_at(tree, names) is Some,
{
    path_scan_matches_full_scan(root, tree, fold, names);
}

/// The path of an entry of a directory.
pub proof fn path_of_entry(names: Seq<Seq<char>>, name: Seq<char>)
    requires
        names.len() > 0,
    ensures
        path_of(names.push(name)) == path_of(names) + seq!['/'] + name,
{
    let spot = top(Platform::Posix, Seq::empty());
    spot_at_push(spot, names, name);
    spot_of_path(Platform::Posix, Seq::empty(), names);
    spot_of_path(Platform::Posix, Seq::empty(), names.push(name));
}

/// A scan records no path as absent: what it lists is there.
pub proof fn scan_records_presence(root: Seq<char>, tree: Directory, fold: Filesystem, path: Seq<char>)
    requires
        scan_of(root, tree, fold) is Ok,
        scan_of(root, tree, fold)->Ok_0.1.entries.contains_key(path),
    ensures
        !(scan_of(root, tree, fold)->Ok_0.1.entries[path] is Absent),
{
    entries_record_presence(tree, tree.entries@.len() as int, top(fold.platform, root), nothing_found(), fold);
}

/// Whether a path is listed as one that cannot be restored exactly if it is
/// recorded so.
pub open spec fn told(found: Found, path: Seq<char>) -> bool {
    found.unsupported.contains(path) == (found.entries.contains_key(path) && found.entries[path] is Unsupported)
}

proof fn node_tells(node: Node, spot: Spot, found: Found, fold: Filesystem)
    requires
        well_named(node),
        !spot.root,
        scan_node(node, spot, found, fold) is Ok,
        forall|p: Seq<char>| within(p, spot.relative) ==> !(#[trigger] found.entries.contains_key(p)),
        forall|p: Seq<char>| #[trigger] told(found, p),
    ensures
        ({
            let (print, after) = scan_node(node, spot, found, fold)->Ok_0;
            &&& forall|p: Seq<char>| p != spot.relative ==> #[trigger] told(after, p)
            &&& after.unsupported.contains(spot.relative) == (print is Unsupported)
        }),
    decreases node, 0int,
{
    let (print, after) = scan_node(node, spot, found, fold)->Ok_0;
    assert(told(found, spot.relative));
    assert(!found.entries.contains_key(spot.relative));
    match node {
        Node::Directory(directory) => {
            let n = directory.entries@.len() as int;
            assert forall|i: int, p: Seq<char>|
                0 <= i < n && within(p, spot.child((#[trigger] directory.entries@[i]).name@).relative) implies !(
            #[trigger] found.entries.contains_key(p)) by {
                below_child(spot, directory.entries@[i].name@, p);
            }
            entries_tell(directory, n, spot, found, fold);
            assert forall|i: int| 0 <= i < n implies !within(
                spot.relative,
                spot.child((#[trigger] directory.entries@[i]).name@).relative,
            ) by {
                if within(spot.relative, spot.child(directory.entries@[i].name@).relative) {
                    below_child(spot, directory.entries@[i].name@, spot.relative);
                }
            }
            entries_frame(directory, n, spot, found, fold, spot.relative);
            let inner = scan_entries(directory, n, spot, found, fold)->Ok_0.1;
            assert(told(inner, spot.relative));
            assert forall|p: Seq<char>| p != spot.relative implies #[trigger] told(after, p) by {
                assert(told(inner, p));
            }
        },
        _ => {
            if after.unsupported == found.unsupported.push(spot.relative) {
                assert(after.unsupported[found.unsupported.len() as int] == spot.relative);
            }
            assert forall|p: Seq<char>| p != spot.relative implies #[trigger] told(after, p) by {
                assert(told(found, p));
                if after.unsupported != found.unsupported {
                    let list = found.unsupported;
                    let more = after.unsupported;
                    if list.contains(p) {
                        let k = choose|k: int| 0 <= k < list.len() && list[k] == p;
                        assert(more[k] == p);
                    }
                    if more.contains(p) {
                        let k = choose|k: int| 0 <= k < more.len() && more[k] == p;
                        assert(list[k] == p);
                    }
                }
            }
        },
    }
}

proof fn entries_tell(directory: Directory, n: int, spot: Spot, found: Found, fold: Filesystem)
    requires
        well_named_directory(directory),
        0 <= n <= directory.entries@.len(),
        scan_entries(directory, n, spot, found, fold) is Ok,
        forall|i: int, p: Seq<char>|
            0 <= i < n && within(p, spot.child((#[trigger] directory.entries@[i]).name@).relative) ==> !(
            #[trigger] found.entries.contains_key(p)),
        forall|p: Seq<char>| #[trigger] told(found, p),
    ensures
        forall|p: Seq<char>| #[trigger] told(scan_entries(directory, n, spot, found, fold)->Ok_0.1, p),
    decreases directory, n,
{
    if n > 0 {
        entries_step(directory, n - 1, spot, found, fold);
        entries_tell(directory, n - 1, spot, found, fold);
        let entry = directory.entries@[n - 1];
        let so_far = scan_entries(directory, n - 1, spot, found, fold)->Ok_0.1;
        let result = scan_entries(directory, n, spot, found, fold)->Ok_0.1;
        let place = spot.child(entry.name@);
        if !(spot.root && entry.name@ == ".rewind"@) {
            let with_note = noted(so_far, place.relative, fold)->Ok_0;
            assert forall|p: Seq<char>| within(p, place.relative) implies !(
            #[trigger] with_note.entries.contains_key(p)) by {
                assert forall|i: int| 0 <= i < n - 1 implies !within(
                    p,
                    spot.child((#[trigger] directory.entries@[i]).name@).relative,
                ) by {
                    assert(directory.entries@[i].name@ != directory.entries@[n - 1].name@);
                    entries_apart(spot, entry.name@, directory.entries@[i].name@, p);
                }
                entries_frame(directory, n - 1, spot, found, fold, p);
                assert(!found.entries.contains_key(p));
            }
            assert forall|p: Seq<char>| #[trigger] told(with_note, p) by {
                assert(told(so_far, p));
            }
            node_tells(entry.node, place, with_note, fold);
            let after = scan_node(entry.node, place, with_note, fold)->Ok_0.1;
            assert forall|p: Seq<char>| #[trigger] told(result, p) by {
                if p != place.relative {
                    assert(told(after, p));
                }
            }
        }
    }
}

/// The paths that a scan reports as unsupported are exactly those that it
/// records so.
pub proof fn unsupported_paths_are_recorded_so(root: Seq<char>, tree: Directory, fold: Filesystem, path: Seq<char>)
    requires
        well_named_directory(tree),
        scan_of(root, tree, fold) is Ok,
    ensures
        ({
            let found = scan_of(root, tree, fold)->Ok_0.1;
            found.unsupported.contains(path) == (found.entries.contains_key(path)
                && found.entries[path] is Unsupported)
        }),
{
    let nothing = nothing_found();
    assert forall|p: Seq<char>| #[trigger] told(nothing, p) by {}
    entries_tell(tree, tree.entries@.len() as int, top(fold.platform, root), nothing, fold);
    assert(told(scan_of(root, tree, fold)->Ok_0.1, path));
}

proof fn entries_spare_metadata(directory: Directory, n: int, spot: Spot, found: Found, fold: Filesystem, path: Seq<char>)
    requires
        well_named_directory(directory),
        0 <= n <= directory.entries@.len(),
        spot.root,
        within(path, ".rewind"@),
        scan_entries(directory, n, spot, found, fold) is Ok,
        !found.entries.contains_key(path),
    ensures
        !scan_entries(directory, n, spot, found, fold)->Ok_0.1.entries.contains_key(path),
    decreases n,
{
    if n > 0 {
        entries_step(directory, n - 1, spot, found, fold);
        entries_spare_metadata(directory, n - 1, spot, found, fold, path);
        let entry = directory.entries@[n - 1];
        let so_far = scan_entries(directory, n - 1, spot, found, fold)->Ok_0.1;
        let place = spot.child(entry.name@);
        if entry.name@ != ".rewind"@ {
            reveal_strlit(".rewind");
            entries_apart(spot, ".rewind"@, entry.name@, path);
            node_frame(entry.node, place, noted(so_far, place.relative, fold)->Ok_0, fold, path);
        }
    }
}

/// A scan never describes the metadata of a workspace: no path that it records
/// is `.rewind` or lies below it.
pub proof fn metadata_is_never_described(root: Seq<char>, tree: Directory, fold: Filesystem, path: Seq<char>)
    requires
        well_named_directory(tree),
        scan_of(root, tree, fold) is Ok,
        scan_of(root, tree, fold)->Ok_0.1.entries.contains_key(path),
    ensures
        !within(path, ".rewind"@),
{
    if within(path, ".rewind"@) {
        entries_spare_metadata(tree, tree.entries@.len() as int, top(fold.platform, root), nothing_found(), fold, path);
    }
}

// ---------------------------------------------------------------------------
// The store
// ---------------------------------------------------------------------------

/// The digests of the files that a manifest lists.
pub open spec fn contents(m: Map<Seq<char>, Print>) -> Set<Seq<char>> {
    Set::new(
        |digest: Seq<char>| exists|path: Seq<char>|
            #[trigger] m.contains_key(path) && m[path] is RegularFile && m[path]->RegularFile_content_hash == digest,
    )
}

/// The objects in a store after a scan: those that were there, and the contents
/// of the files that were seen where the scan stores what it reads.
pub open spec fn stored_after(
    objects: Set<Seq<char>>,
    options: ScanOptions,
    m: Map<Seq<char>, Print>,
) -> Set<Seq<char>> {
    if options.ingest {
        objects.union(contents(m))
    } else {
        objects
    }
}

/// What a scan leaves: what it describes, and the objects in the store.
pub struct Captured {
    pub scan: ScanResult,
    pub objects: Vec<String>,
}

/// What a scan leaves of a workspace and of the store.
pub open spec fn capture_of(
    root: Seq<char>,
    tree: Directory,
    options: ScanOptions,
    objects: Set<Seq<char>>,
    fold: Filesystem,
) -> std::result::Result<(Found, Set<Seq<char>>), Fault> {
    match scan_of(root, tree, fold) {
        Ok((print, found)) => Ok((found, stored_after(objects, options, found.entries))),
        Err(fault) => Err(fault),
    }
}

/// Scans a workspace, and says which objects are in the store afterwards.
pub fn capture(
    root: &str,
    tree: &Directory,
    options: &ScanOptions,
    objects: &Vec<String>,
    filesystem: Filesystem,
) -> (r: Result<Captured>)
    ensures
        match capture_of(root@, *tree, *options, views(objects@).to_set(), filesystem) {
            Ok((found, stored)) => {
                &&& r is Ok
                &&& r->Ok_0.scan.manifest@ == found.entries
                &&& r->Ok_0.scan.state_id@ == state_id_of(found.entries)
                &&& views(r->Ok_0.scan.unsupported_paths@) == found.unsupported
                &&& views(r->Ok_0.objects@).to_set() == stored
                &&& !options.ingest ==> views(r->Ok_0.objects@) == views(objects@)
            },
            Err(fault) => r is Err && r->Err_0@ == fault,
        },
{
    let scan = match scan_workspace(root, tree, filesystem) {
        Ok(scan) => scan,
        Err(error) => {
            return Err(error);
        },
    };
    let mut stored = crate::depgraph::copy_texts(objects);
    if options.ingest {
        let digests = crate::rollback::anchor_objects(&scan.manifest);
        let ghost before = views(stored@).to_set();
        let ghost all = views(digests@);
        assert(all.take(0).to_set() =~= Set::empty());
        assert(before.union(all.take(0).to_set()) =~= before);
        for i in 0..digests.len()
            invariant
                all == views(digests@),
                views(stored@).to_set() == before.union(all.take(i as int).to_set()),
        {
            let digest = digests[i].as_str();
            let ghost part = all.take(i as int);
            proof {
                pushed_set(part, all[i as int]);
                assert(all.take(i + 1) =~= part.push(all[i as int]));
            }
            if !lists_text(&stored, digest) {
                let copy = text::copy(digest);
                let ghost now = views(stored@);
                proof {
                    order::push_contains(stored@, copy);
                    pushed_set(now, copy@);
                }
                stored.push(copy);
                assert(views(stored@).to_set() =~= before.union(all.take(i + 1).to_set()));
            } else {
                assert(views(stored@).to_set() =~= before.union(all.take(i + 1).to_set()));
            }
        }
        assert(all.take(all.len() as int) =~= all);
        proof {
            digests_are_contents(scan.manifest.entries);
            assert(views(stored@).to_set() =~= before.union(contents(scan.manifest@)));
        }
    }
    Ok(Captured { scan, objects: stored })
}

fn lists_text(list: &Vec<String>, value: &str) -> (r: bool)
    ensures
        r == views(list@).contains(value@),
{
    for i in 0..list.len()
        invariant
            forall|k: int| 0 <= k < i ==> views(list@)[k] != value@,
    {
        assert(views(list@)[i as int] == list@[i as int]@);
        if text::same(list[i].as_str(), value) {
            return true;
        }
    }
    false
}

proof fn digests_are_contents(table: Table<Fingerprint>)
    requires
        table.ordered(),
    ensures
        crate::rollback::file_digests(table@).to_set() == contents(table@),
{
    let m = table@;
    let rows = table.shown();
    let keep = |row: (Seq<char>, Print)| row.1 is RegularFile;
    let f = |row: (Seq<char>, Print)| row.1->RegularFile_content_hash;
    crate::table::table_listed(table);
    order::kept_are(rows, keep, f);
    let digests = crate::rollback::file_digests(m);
    assert(digests == order::kept(rows, keep, f));
    assert forall|d: Seq<char>| digests.to_set().contains(d) == contents(m).contains(d) by {
        if digests.contains(d) {
            let i = choose|i: int| 0 <= i < rows.len() && keep(#[trigger] rows[i]) && d == f(rows[i]);
            assert(crate::table::firsts(rows)[i] == rows[i].0);
            assert(m.contains_key(rows[i].0));
        }
        if contents(m).contains(d) {
            let path = choose|path: Seq<char>|
                #[trigger] m.contains_key(path) && m[path] is RegularFile && m[path]->RegularFile_content_hash == d;
            assert(crate::table::firsts(rows).contains(path));
            let i = choose|i: int| 0 <= i < rows.len() && crate::table::firsts(rows)[i] == path;
            assert(keep(rows[i]) && f(rows[i]) == d);
        }
    }
    assert(digests.to_set() =~= contents(m));
}

proof fn pushed_set(s: Seq<Seq<char>>, x: Seq<char>)
    ensures
        s.push(x).to_set() == s.to_set().insert(x),
{
    assert forall|y: Seq<char>| #[trigger] s.push(x).to_set().contains(y) == s.to_set().insert(x).contains(y) by {
        if s.contains(y) {
            let k = choose|k: int| 0 <= k < s.len() && s[k] == y;
            assert(s.push(x)[k] == y);
        }
        if s.push(x).contains(y) && y != x {
            let k = choose|k: int| 0 <= k < s.push(x).len() && s.push(x)[k] == y;
            assert(s[k] == y);
        }
        assert(s.push(x)[s.len() as int] == x);
    }
    assert(s.push(x).to_set() =~= s.to_set().insert(x));
}

/// Observing and ingesting describe a workspace alike. Observing leaves the
/// store as it is; ingesting adds exactly the contents of the files that were
/// seen.
pub proof fn observing_stores_nothing(
    root: Seq<char>,
    tree: Directory,
    observing: ScanOptions,
    ingesting: ScanOptions,
    objects: Set<Seq<char>>,
    fold: Filesystem,
)
    requires
        !observing.ingest,
        ingesting.ingest,
    ensures
        match (
            capture_of(root, tree, observing, objects, fold),
            capture_of(root, tree, ingesting, objects, fold),
        ) {
            (Ok((seen, left)), Ok((stored, grown))) => {
                &&& seen == stored
                &&& state_id_of(seen.entries) == state_id_of(stored.entries)
                &&& left == objects
                &&& grown == objects.union(contents(seen.entries))
            },
            (Err(a), Err(b)) => a == b,
            _ => false,
        },
{
}

// ---------------------------------------------------------------------------
// Changes
// ---------------------------------------------------------------------------

/// The paths that either of two manifests lists, in order.
pub open spec fn is_union(a: Map<Seq<char>, Print>, b: Map<Seq<char>, Print>, s: Seq<Seq<char>>) -> bool {
    &&& order::strictly_ascending::<String>(s)
    &&& forall|k: Seq<char>| #[trigger] s.contains(k) == (a.contains_key(k) || b.contains_key(k))
}

pub open spec fn union_paths(a: Map<Seq<char>, Print>, b: Map<Seq<char>, Print>) -> Seq<Seq<char>> {
    choose|s: Seq<Seq<char>>| is_union(a, b, s)
}

/// What kind of change leads from one fingerprint to another.
pub open spec fn change_kind(pre: Print, post: Print) -> EffectType {
    if pre is Absent {
        EffectType::Create
    } else if post is Absent {
        EffectType::Delete
    } else if !pre.same_kind(post) {
        EffectType::TypeChange
    } else {
        EffectType::Modify
    }
}

/// The change at a path.
pub open spec fn change_at(a: Map<Seq<char>, Print>, b: Map<Seq<char>, Print>, path: Seq<char>) -> Change {
    Change {
        path,
        from_path: None,
        effect_type: change_kind(at(a, path), at(b, path)),
        pre: at(a, path),
        post: at(b, path),
    }
}

/// The changes between two manifests, path by path.
pub open spec fn plain_changes(a: Map<Seq<char>, Print>, b: Map<Seq<char>, Print>) -> Seq<Change> {
    order::kept(
        union_paths(a, b),
        |path: Seq<char>| at(a, path) != at(b, path),
        |path: Seq<char>| change_at(a, b, path),
    )
}

/// Whether a change creates what another one deleted.
pub open spec fn recreates(changes: Seq<Change>, created: int, deleted: int) -> bool {
    &&& 0 <= created < changes.len()
    &&& 0 <= deleted < changes.len()
    &&& changes[created].effect_type == EffectType::Create
    &&& changes[deleted].effect_type == EffectType::Delete
    &&& changes[deleted].pre == changes[created].post
    &&& changes[deleted].pre.supported()
}

/// The first change that creates what the change at `deleted` deletes.
pub open spec fn is_destination(changes: Seq<Change>, deleted: int, created: int) -> bool {
    recreates(changes, created, deleted) && forall|j: int|
        #![trigger recreates(changes, j, deleted)]
        j < created ==> !recreates(changes, j, deleted)
}

/// The last change that deletes what the change at `created` creates, where
/// that is the first to create it.
pub open spec fn is_source(changes: Seq<Change>, created: int, deleted: int) -> bool {
    is_destination(changes, deleted, created) && forall|j: int|
        #![trigger is_destination(changes, j, created)]
        j > deleted ==> !is_destination(changes, j, created)
}

/// A change with its other end, where it is part of a rename: a deletion goes
/// to the first creation of the same object, and a creation comes from the last
/// deletion that goes to it.
pub open spec fn with_rename(changes: Seq<Change>, i: int) -> Change {
    if exists|j: int| #[trigger] is_destination(changes, i, j) {
        let j = choose|j: int| #[trigger] is_destination(changes, i, j);
        Change { effect_type: EffectType::Rename, from_path: Some(changes[j].path), ..changes[i] }
    } else if exists|j: int| #[trigger] is_source(changes, i, j) {
        let j = choose|j: int| #[trigger] is_source(changes, i, j);
        Change { effect_type: EffectType::Rename, from_path: Some(changes[j].path), ..changes[i] }
    } else {
        changes[i]
    }
}

/// The changes between two manifests, with renames told.
pub open spec fn changes_between(a: Map<Seq<char>, Print>, b: Map<Seq<char>, Print>) -> Seq<Change> {
    let plain = plain_changes(a, b);
    Seq::new(plain.len(), |i: int| with_rename(plain, i))
}

fn add_keys(set: &mut Vec<String>, table: &Table<Fingerprint>)
    requires
        order::strictly_ascending::<String>(views(old(set)@)),
    ensures
        order::strictly_ascending::<String>(views(final(set)@)),
        forall|k: Seq<char>| #[trigger]
            views(final(set)@).contains(k) == (views(old(set)@).contains(k) || table@.contains_key(k)),
{
    let count = table.len();
    let ghost start = views(set@);
    let ghost keys = table.keys();
    for i in 0..count
        invariant
            count == table.rows().len(),
            keys == table.keys(),
            order::strictly_ascending::<String>(views(set@)),
            forall|k: Seq<char>| #[trigger]
                views(set@).contains(k) == (start.contains(k) || keys.take(i as int).contains(k)),
    {
        let ghost before = views(set@);
        order::insert(set, text::copy(table.key(i).as_str()));
        proof {
            let key = keys[i as int];
            assert(keys.take(i + 1) =~= keys.take(i as int).push(key));
            assert forall|k: Seq<char>| #[trigger]
                views(set@).contains(k) == (start.contains(k) || keys.take(i + 1).contains(k)) by {
                assert(before.contains(k) == (start.contains(k) || keys.take(i as int).contains(k)));
                if k == key {
                    assert(keys.take(i + 1)[i as int] == k);
                }
                if keys.take(i as int).contains(k) {
                    let j = choose|j: int| 0 <= j < i && keys.take(i as int)[j] == k;
                    assert(keys.take(i + 1)[j] == k);
                }
                if keys.take(i + 1).contains(k) && k != key {
                    let more = keys.take(i + 1);
                    let j = choose|j: int| 0 <= j < more.len() && more[j] == k;
                    assert(keys.take(i as int)[j] == k);
                }
            }
        }
    }
    proof {
        assert(keys.take(keys.len() as int) =~= keys);
        assert forall|k: Seq<char>| #[trigger]
            views(set@).contains(k) == (start.contains(k) || table@.contains_key(k)) by {
            crate::table::domain_is_keys(*table, k);
        }
    }
}

proof fn union_is(a: Map<Seq<char>, Print>, b: Map<Seq<char>, Print>, s: Seq<Seq<char>>)
    requires
        is_union(a, b, s),
    ensures
        union_paths(a, b) == s,
{
    let t = union_paths(a, b);
    assert(is_union(a, b, t));
    assert forall|k: Seq<char>| s.contains(k) == t.contains(k) by {
        assert(s.contains(k) == (a.contains_key(k) || b.contains_key(k)));
    }
    order::ascending_unique::<String>(s, t);
}

/// The paths on which two manifests differ, in order.
pub fn changed_paths(before: &Manifest, after: &Manifest) -> (r: Vec<String>)
    ensures
        views(r@) == order::kept(
            union_paths(before@, after@),
            |path: Seq<char>| at(before@, path) != at(after@, path),
            |path: Seq<char>| path,
        ),
{
    let ghost a = before@;
    let ghost b = after@;
    let mut list: Vec<String> = Vec::new();
    assert(views(list@) =~= Seq::<Seq<char>>::empty());
    add_keys(&mut list, &before.entries);
    add_keys(&mut list, &after.entries);
    proof {
        union_is(a, b, views(list@));
    }
    let ghost all = views(list@);
    let ghost keep = |path: Seq<char>| at(a, path) != at(b, path);
    let ghost f = |path: Seq<char>| path;
    let mut out: Vec<String> = Vec::new();
    assert(views(out@) =~= order::kept(all.take(0), keep, f));
    for i in 0..list.len()
        invariant
            a == before@,
            b == after@,
            all == views(list@),
            keep == (|path: Seq<char>| at(a, path) != at(b, path)),
            f == (|path: Seq<char>| path),
            views(out@) == order::kept(all.take(i as int), keep, f),
    {
        proof {
            order::kept_step(all, i as int, keep, f);
        }
        let path = list[i].as_str();
        if !before.get(path).same(&after.get(path)) {
            let copy = text::copy(path);
            proof {
                order::push_contains(out@, copy);
            }
            out.push(copy);
        }
    }
    assert(all.take(all.len() as int) =~= all);
    out
}

/// The changes between two manifests, without renames.
fn plain_diff(before: &Manifest, after: &Manifest) -> (r: Vec<Effect>)
    ensures
        views(r@) == plain_changes(before@, after@),
{
    let ghost a = before@;
    let ghost b = after@;
    let mut list: Vec<String> = Vec::new();
    assert(views(list@) =~= Seq::<Seq<char>>::empty());
    add_keys(&mut list, &before.entries);
    add_keys(&mut list, &after.entries);
    proof {
        union_is(a, b, views(list@));
    }
    let ghost all = views(list@);
    let ghost keep = |path: Seq<char>| at(a, path) != at(b, path);
    let ghost f = |path: Seq<char>| change_at(a, b, path);
    let mut effects: Vec<Effect> = Vec::new();
    assert(views(effects@) =~= order::kept(all.take(0), keep, f));
    for i in 0..list.len()
        invariant
            a == before@,
            b == after@,
            all == views(list@),
            keep == (|path: Seq<char>| at(a, path) != at(b, path)),
            f == (|path: Seq<char>| change_at(a, b, path)),
            views(effects@) == order::kept(all.take(i as int), keep, f),
    {
        proof {
            order::kept_step(all, i as int, keep, f);
        }
        let path = list[i].as_str();
        let pre = before.get(path);
        let post = after.get(path);
        if !pre.same(&post) {
            let effect_type = match (&pre, &post) {
                (Fingerprint::Absent, _) => EffectType::Create,
                (_, Fingerprint::Absent) => EffectType::Delete,
                _ => {
                    proof {
                        crate::model::kind_names_distinct(pre@, post@);
                    }
                    if text::same(pre.kind_name(), post.kind_name()) {
                        EffectType::Modify
                    } else {
                        EffectType::TypeChange
                    }
                },
            };
            let effect = Effect { path: text::copy(path), from_path: None, effect_type, pre, post };
            assert(effect@ == change_at(a, b, all[i as int]));
            proof {
                order::push_contains(effects@, effect);
            }
            effects.push(effect);
        }
    }
    assert(all.take(all.len() as int) =~= all);
    effects
}

fn is_rename(created: &Effect, deleted: &Effect) -> (r: bool)
    ensures
        r == (created.effect_type == EffectType::Create && deleted.effect_type == EffectType::Delete && deleted.pre@
            == created.post@ && deleted.pre@.supported()),
{
    created.effect_type == EffectType::Create && deleted.effect_type == EffectType::Delete && deleted.pre.same(
        &created.post,
    ) && deleted.pre.is_supported_for_restore()
}

/// The creation that a deletion goes to.
fn destination(effects: &Vec<Effect>, deleted: usize) -> (r: Option<usize>)
    requires
        deleted < effects@.len(),
    ensures
        match r {
            Some(j) => j < effects@.len() && is_destination(views(effects@), deleted as int, j as int),
            None => forall|j: int| !(#[trigger] recreates(views(effects@), j, deleted as int)),
        },
{
    let ghost c = views(effects@);
    for j in 0..effects.len()
        invariant
            c == views(effects@),
            deleted < effects@.len(),
            forall|k: int| k < j ==> !(#[trigger] recreates(c, k, deleted as int)),
    {
        assert(c[j as int] == effects@[j as int]@ && c[deleted as int] == effects@[deleted as int]@);
        if is_rename(&effects[j], &effects[deleted]) {
            assert(recreates(c, j as int, deleted as int));
            return Some(j);
        }
    }
    None
}

/// The deletion that a creation comes from.
fn source(effects: &Vec<Effect>, created: usize) -> (r: Option<usize>)
    requires
        created < effects@.len(),
    ensures
        match r {
            Some(j) => j < effects@.len() && is_source(views(effects@), created as int, j as int),
            None => forall|j: int| !(#[trigger] is_destination(views(effects@), j, created as int)),
        },
{
    let ghost c = views(effects@);
    let mut j: usize = effects.len();
    while j > 0
        invariant
            c == views(effects@),
            j <= effects@.len(),
            created < effects@.len(),
            forall|k: int| k >= j ==> !(#[trigger] is_destination(c, k, created as int)),
        decreases j,
    {
        j = j - 1;
        match destination(effects, j) {
            Some(d) => {
                if d == created {
                    return Some(j);
                }
                proof {
                    if is_destination(c, j as int, created as int) {
                        assert(recreates(c, d as int, j as int) && recreates(c, created as int, j as int));
                    }
                }
            },
            None => {
                proof {
                    if is_destination(c, j as int, created as int) {
                        assert(recreates(c, created as int, j as int));
                    }
                }
            },
        }
    }
    None
}

/// The changes between two manifests. A deletion and a creation of the same
/// object are told as a rename.
pub fn diff_manifests(before: &Manifest, after: &Manifest) -> (r: Vec<Effect>)
    ensures
        views(r@) == changes_between(before@, after@),
{
    let plain = plain_diff(before, after);
    let ghost c = views(plain@);
    let mut out: Vec<Effect> = Vec::new();
    for i in 0..plain.len()
        invariant
            c == views(plain@),
            c == plain_changes(before@, after@),
            views(out@) == Seq::new(i as nat, |k: int| with_rename(c, k)),
    {
        let effect = &plain[i];
        assert(c[i as int] == effect@);
        let there = destination(&plain, i);
        let other = match there {
            Some(j) => Some(j),
            None => source(&plain, i),
        };
        proof {
            match there {
                Some(j) => {
                    let k = choose|k: int| #[trigger] is_destination(c, i as int, k);
                    assert(is_destination(c, i as int, k));
                    assert(recreates(c, k, i as int) && recreates(c, j as int, i as int));
                },
                None => {
                    assert forall|k: int| !(#[trigger] is_destination(c, i as int, k)) by {
                        assert(!recreates(c, k, i as int));
                    }
                    match other {
                        Some(j) => {
                            let k = choose|k: int| #[trigger] is_source(c, i as int, k);
                            assert(is_source(c, i as int, k));
                            assert(is_destination(c, k, i as int) && is_destination(c, j as int, i as int));
                        },
                        None => {
                            assert forall|k: int| !(#[trigger] is_source(c, i as int, k)) by {
                                assert(!is_destination(c, k, i as int));
                            }
                        },
                    }
                },
            }
        }
        let next = match other {
            Some(j) => {
                assert(c[j as int] == plain@[j as int]@);
                Effect {
                    path: text::copy(effect.path.as_str()),
                    from_path: Some(text::copy(plain[j].path.as_str())),
                    effect_type: EffectType::Rename,
                    pre: effect.pre.duplicate(),
                    post: effect.post.duplicate(),
                }
            },
            None => {
                Effect {
                    path: text::copy(effect.path.as_str()),
                    from_path: text::copy_optional(&effect.from_path),
                    effect_type: effect.effect_type,
                    pre: effect.pre.duplicate(),
                    post: effect.post.duplicate(),
                }
            },
        };
        assert(next@ == with_rename(c, i as int));
        proof {
            order::push_contains(out@, next);
            assert(views(out@).push(next@) =~= Seq::new((i + 1) as nat, |k: int| with_rename(c, k)));
        }
        out.push(next);
    }
    assert(views(out@) =~= changes_between(before@, after@));
    out
}

/// What a manifest says of a path.
pub fn manifest_fingerprint(manifest: &Manifest, path: &str) -> (r: Fingerprint)
    ensures
        r@ == at(manifest@, path@),
{
    manifest.get(path)
}

// ---------------------------------------------------------------------------
// Laws on changes
// ---------------------------------------------------------------------------

/// A path is told to have changed exactly when the two manifests differ on it,
/// and then with what each of them says of it.
pub proof fn changes_are_exact(before: Manifest, after: Manifest, path: Seq<char>)
    requires
        before.entries.ordered(),
        after.entries.ordered(),
    ensures
        ({
            let told = changes_between(before@, after@);
            &&& (at(before@, path) != at(after@, path)) == exists|i: int|
                0 <= i < told.len() && (#[trigger] told[i]).path == path
            &&& forall|i: int|
                0 <= i < told.len() && (#[trigger] told[i]).path == path ==> told[i].pre == at(before@, path) && told[i].post
                    == at(after@, path)
        }),
{
    let a = before@;
    let b = after@;
    union_exists(before, after);
    let all = union_paths(a, b);
    let keep = |p: Seq<char>| at(a, p) != at(b, p);
    let f = |p: Seq<char>| change_at(a, b, p);
    let plain = plain_changes(a, b);
    let told = changes_between(a, b);
    order::kept_are(all, keep, f);
    assert(forall|i: int| 0 <= i < told.len() ==> (#[trigger] told[i]).path == plain[i].path && told[i].pre == plain[i].pre
        && told[i].post == plain[i].post);
    if at(a, path) != at(b, path) {
        assert(all.contains(path));
        let k = choose|k: int| 0 <= k < all.len() && all[k] == path;
        assert(keep(all[k]));
        assert(plain.contains(f(all[k])));
        let i = choose|i: int| 0 <= i < plain.len() && plain[i] == f(all[k]);
        assert(told[i].path == path);
    }
    assert forall|i: int| 0 <= i < told.len() && (#[trigger] told[i]).path == path implies told[i].pre == at(a, path)
        && told[i].post == at(b, path) && at(a, path) != at(b, path) by {
        assert(plain.contains(plain[i]));
        let k = choose|k: int| 0 <= k < all.len() && keep(#[trigger] all[k]) && plain[i] == f(all[k]);
        assert(all[k] == path);
    }
}

pub proof fn union_exists(before: Manifest, after: Manifest)
    requires
        before.entries.ordered(),
        after.entries.ordered(),
    ensures
        is_union(before@, after@, union_paths(before@, after@)),
{
    let s = merged(before.entries.keys(), after.entries.keys());
    merged_is(before.entries.keys(), after.entries.keys());
    assert forall|k: Seq<char>| #[trigger] s.contains(k) == (before@.contains_key(k) || after@.contains_key(k)) by {
        crate::table::domain_is_keys(before.entries, k);
        crate::table::domain_is_keys(after.entries, k);
    }
    assert(is_union(before@, after@, s));
}

/// Two ascending lists as one.
spec fn merged(a: Seq<Seq<char>>, b: Seq<Seq<char>>) -> Seq<Seq<char>>
    decreases a.len() + b.len(),
{
    if a.len() == 0 {
        b
    } else if b.len() == 0 {
        a
    } else if a.last() == b.last() {
        merged(a.drop_last(), b.drop_last()).push(a.last())
    } else if text::before(a.last(), b.last()) {
        merged(a, b.drop_last()).push(b.last())
    } else {
        merged(a.drop_last(), b).push(a.last())
    }
}

proof fn merged_is(a: Seq<Seq<char>>, b: Seq<Seq<char>>)
    requires
        order::strictly_ascending::<String>(a),
        order::strictly_ascending::<String>(b),
    ensures
        order::strictly_ascending::<String>(merged(a, b)),
        forall|k: Seq<char>| #[trigger] merged(a, b).contains(k) == (a.contains(k) || b.contains(k)),
    decreases a.len() + b.len(),
{
    if a.len() > 0 && b.len() > 0 {
        let drop_a = a.last() == b.last() || !text::before(a.last(), b.last());
        let drop_b = a.last() == b.last() || text::before(a.last(), b.last());
        let x = if drop_a {
            a.drop_last()
        } else {
            a
        };
        let y = if drop_b {
            b.drop_last()
        } else {
            b
        };
        let top = if drop_a {
            a.last()
        } else {
            b.last()
        };
        if !text::before(a.last(), b.last()) && !text::before(b.last(), a.last()) {
            text::before_separates(a.last(), b.last());
        }
        assert(order::strictly_ascending::<String>(x));
        assert(order::strictly_ascending::<String>(y));
        merged_is(x, y);
        let head = merged(x, y);
        let whole = merged(a, b);
        assert(whole == head.push(top));
        assert forall|k: Seq<char>| #[trigger] head.contains(k) implies text::before(k, top) by {
            assert(x.contains(k) || y.contains(k));
            if x.contains(k) {
                let i = choose|i: int| 0 <= i < x.len() && x[i] == k;
                assert(a[i] == k);
                if drop_a {
                    assert(text::before(a[i], a[a.len() - 1]));
                } else {
                    if i < a.len() - 1 {
                        assert(text::before(a[i], a[a.len() - 1]));
                        text::before_transitive(k, a.last(), b.last());
                    }
                }
            } else {
                let i = choose|i: int| 0 <= i < y.len() && y[i] == k;
                assert(b[i] == k);
                if drop_b {
                    assert(text::before(b[i], b[b.len() - 1]));
                } else {
                    assert(text::before(b.last(), a.last()));
                    if i < b.len() - 1 {
                        assert(text::before(b[i], b[b.len() - 1]));
                        text::before_transitive(k, b.last(), a.last());
                    }
                }
            }
        }
        assert forall|i: int, j: int| 0 <= i < j < whole.len() implies String::before(
            #[trigger] whole[i],
            #[trigger] whole[j],
        ) by {
            if j == head.len() {
                assert(head.contains(head[i]));
            }
        }
        assert forall|k: Seq<char>| #[trigger] whole.contains(k) == (a.contains(k) || b.contains(k)) by {
            assert(head.contains(k) == (x.contains(k) || y.contains(k)));
            if whole.contains(k) && k != top {
                let i = choose|i: int| 0 <= i < whole.len() && whole[i] == k;
                assert(head[i] == k);
            }
            if head.contains(k) {
                let i = choose|i: int| 0 <= i < head.len() && head[i] == k;
                assert(whole[i] == k);
            }
            if k == top {
                assert(whole[head.len() as int] == k);
            }
            if a.contains(k) && !x.contains(k) {
                let i = choose|i: int| 0 <= i < a.len() && a[i] == k;
                if i < x.len() {
                    assert(x[i] == k);
                }
            }
            if b.contains(k) && !y.contains(k) {
                let i = choose|i: int| 0 <= i < b.len() && b[i] == k;
                if i < y.len() {
                    assert(y[i] == k);
                }
            }
            if x.contains(k) {
                let i = choose|i: int| 0 <= i < x.len() && x[i] == k;
                assert(a[i] == k);
            }
            if y.contains(k) {
                let i = choose|i: int| 0 <= i < y.len() && y[i] == k;
                assert(b[i] == k);
            }
        }
    } else if a.len() == 0 {
        assert forall|k: Seq<char>| !a.contains(k) by {}
    } else {
        assert forall|k: Seq<char>| !b.contains(k) by {}
    }
}

/// Between a manifest and itself nothing changed.
pub proof fn no_changes_from_itself(manifest: Manifest)
    requires
        manifest.entries.ordered(),
    ensures
        changes_between(manifest@, manifest@).len() == 0,
{
    let told = changes_between(manifest@, manifest@);
    if told.len() > 0 {
        changes_are_exact(manifest, manifest, told[0].path);
    }
}

/// A rename is told at both ends, and both ends hold the same object.
pub proof fn renames_keep_the_object(changes: Seq<Change>, deleted: int)
    requires
        exists|j: int| #[trigger] is_destination(changes, deleted, j),
    ensures
        ({
            let told = with_rename(changes, deleted);
            &&& told.effect_type == EffectType::Rename
            &&& exists|j: int|
                0 <= j < changes.len() && #[trigger] with_rename(changes, j).effect_type == EffectType::Rename
                    && told.from_path == Some(changes[j].path) && changes[j].post == changes[deleted].pre
        }),
{
    let j = choose|j: int| #[trigger] is_destination(changes, deleted, j);
    assert(recreates(changes, j, deleted));
    assert forall|k: int| !(#[trigger] is_destination(changes, j, k)) by {
        if is_destination(changes, j, k) {
            assert(recreates(changes, k, j));
        }
    }
    let last = last_source(changes, j, changes.len() as int - 1);
    source_found(changes, j, deleted, changes.len() as int - 1);
    assert(is_source(changes, j, last));
    assert(with_rename(changes, j).effect_type == EffectType::Rename);
}

spec fn last_source(changes: Seq<Change>, created: int, from: int) -> int
    decreases from + 1,
{
    if from < 0 || is_destination(changes, from, created) {
        from
    } else {
        last_source(changes, created, from - 1)
    }
}

proof fn source_found(changes: Seq<Change>, created: int, deleted: int, from: int)
    requires
        is_destination(changes, deleted, created),
        deleted <= from,
        forall|j: int| j > from ==> !(#[trigger] is_destination(changes, j, created)),
    ensures
        is_source(changes, created, last_source(changes, created, from)),
    decreases from - deleted,
{
    assert(recreates(changes, created, deleted));
    if !is_destination(changes, from, created) {
        source_found(changes, created, deleted, from - 1);
    }
}

// ---------------------------------------------------------------------------
// What the calls promise
// ---------------------------------------------------------------------------

/// Whether a link was read, and is recorded as it was.
pub open spec fn link_kept(read: LinkRead, metadata: MetadataFingerprint, recorded: Print) -> bool {
    &&& read is Read
    &&& recorded is Symlink
    &&& recorded->Symlink_target == read->target@
    &&& recorded->Symlink_target_kind == read->target_kind
    &&& recorded->Symlink_target_hash == outside::blake3_hex(vstd::utf8::encode_utf8(read->target@))
    &&& recorded->Symlink_metadata == metadata
}

/// A scan that succeeds has seen everything, and records at each path exactly
/// what it saw there: a file with its digest, size and metadata, a link with
/// its target, kind and metadata, a pipe and a directory with their metadata,
/// and anything else as what cannot be restored. Where nothing stands, it
/// records nothing.
pub proof fn what_was_seen_is_recorded(
    root: &str,
    tree: Directory,
    filesystem: Filesystem,
    result: ScanResult,
    names: Seq<Seq<char>>,
)
    requires
        well_named_directory(tree),
        call_ensures(scan_workspace, (root, &tree, filesystem), Ok::<ScanResult, RewindError>(result)),
        names.len() > 0,
        names[0] != ".rewind"@,
        forall|i: int| 0 <= i < names.len() ==> no_slash(#[trigger] names[i]),
    ensures
        ({
            let m = result.manifest@;
            let path = path_of(names);
            match node_at(Node::Directory(tree), names) {
                None => !m.contains_key(path),
                Some(node) => m.contains_key(path) && match node {
                    Node::Unreadable(error) => false,
                    Node::File { read, metadata } => {
                        &&& read is Read
                        &&& m[path] == (Print::RegularFile {
                            content_hash: read->content_hash@,
                            size: read->size,
                            metadata,
                        })
                    },
                    Node::Symlink { read, metadata } => link_kept(read, metadata, m[path]),
                    Node::NamedPipe { metadata } => m[path] == (Print::NamedPipe { metadata }),
                    Node::Socket { length } => m[path] == (Print::Unsupported {
                        object_kind: "UNIX_SOCKET"@,
                        descriptor: decimal(length as nat),
                    }),
                    Node::Special { kind, length } => m[path] == (Print::Unsupported {
                        object_kind: kind@,
                        descriptor: decimal(length as nat),
                    }),
                    Node::Reparse { symlink, tag, read, metadata } => if symlink && tag == Some(0xA000_000Cu32) {
                        link_kept(read, metadata, m[path])
                    } else {
                        m[path] is Unsupported
                    },
                    Node::Directory(directory) => {
                        &&& !directory.late
                        &&& directory.problem is None
                        &&& directory.metadata is Ok
                        &&& m[path] is Directory
                        &&& m[path]->Directory_metadata == directory.metadata->Ok_0
                    },
                },
            }
        }),
{
    path_scan_matches_full_scan(root@, tree, filesystem, names);
    let entries = scan_of(root@, tree, filesystem)->Ok_0.1.entries;
    assert(result.manifest@ == entries);
    if entries.contains_key(path_of(names)) {
        scan_records_presence(root@, tree, filesystem, path_of(names));
    }
}

/// Two files that were seen at a path are recorded alike exactly when they have
/// the same digest, size and metadata. So a manifest tells two trees apart that
/// differ only in the mode of one file.
pub proof fn different_files_are_told_apart(
    root: &str,
    one: Directory,
    two: Directory,
    filesystem: Filesystem,
    first: ScanResult,
    second: ScanResult,
    names: Seq<Seq<char>>,
)
    requires
        well_named_directory(one),
        well_named_directory(two),
        call_ensures(scan_workspace, (root, &one, filesystem), Ok::<ScanResult, RewindError>(first)),
        call_ensures(scan_workspace, (root, &two, filesystem), Ok::<ScanResult, RewindError>(second)),
        names.len() > 0,
        names[0] != ".rewind"@,
        forall|i: int| 0 <= i < names.len() ==> no_slash(#[trigger] names[i]),
        node_at(Node::Directory(one), names) is Some,
        node_at(Node::Directory(one), names)->0 is File,
        node_at(Node::Directory(two), names) is Some,
        node_at(Node::Directory(two), names)->0 is File,
    ensures
        ({
            let left = node_at(Node::Directory(one), names)->0;
            let right = node_at(Node::Directory(two), names)->0;
            let a = left->File_read;
            let b = right->File_read;
            (first.manifest@[path_of(names)] == second.manifest@[path_of(names)]) == (a->content_hash@
                == b->content_hash@ && a->size == b->size && left->File_metadata == right->File_metadata)
        }),
{
    what_was_seen_is_recorded(root, one, filesystem, first, names);
    what_was_seen_is_recorded(root, two, filesystem, second, names);
}

/// Every path is that of some names.
proof fn every_path_has_names(path: Seq<char>) -> (names: Seq<Seq<char>>)
    ensures
        names.len() > 0,
        forall|i: int| 0 <= i < names.len() ==> no_slash(#[trigger] names[i]),
        path_of(names) == path,
    decreases path.len(),
{
    if no_slash(path) {
        let names = seq![path];
        assert(names.skip(1) =~= Seq::<Seq<char>>::empty());
        names
    } else {
        let k = last_slash(path, path.len() as int);
        let name = path.skip(k + 1);
        let head = every_path_has_names(path.take(k));
        let names = head.push(name);
        path_of_entry(head, name);
        assert(path.take(k) + seq!['/'] + name =~= path);
        assert forall|i: int| 0 <= i < names.len() implies no_slash(#[trigger] names[i]) by {
            if i < head.len() {
                assert(names[i] == head[i]);
            } else {
                assert forall|j: int| 0 <= j < name.len() implies name[j] != '/' by {
                    assert(name[j] == path[k + 1 + j]);
                }
            }
        }
        names
    }
}

proof fn last_slash(path: Seq<char>, n: int) -> (k: int)
    requires
        0 <= n <= path.len(),
        forall|i: int| n <= i < path.len() ==> path[i] != '/',
        !no_slash(path),
    ensures
        0 <= k < path.len(),
        path[k] == '/',
        forall|i: int| k < i < path.len() ==> path[i] != '/',
    decreases n,
{
    if n > 0 && path[n - 1] == '/' {
        n - 1
    } else if n > 0 {
        last_slash(path, n - 1)
    } else {
        0
    }
}

/// A manifest lists nothing that does not stand in the workspace, nor anything
/// of its metadata: each path that it lists is that of names at which something
/// stands.
pub proof fn what_is_recorded_was_seen(
    root: &str,
    tree: Directory,
    filesystem: Filesystem,
    result: ScanResult,
    path: Seq<char>,
)
    requires
        well_named_directory(tree),
        call_ensures(scan_workspace, (root, &tree, filesystem), Ok::<ScanResult, RewindError>(result)),
        result.manifest@.contains_key(path),
    ensures
        exists|names: Seq<Seq<char>>|
            #![trigger path_of(names)]
            names.len() > 0 && names[0] != ".rewind"@ && path_of(names) == path && node_at(
                Node::Directory(tree),
                names,
            ) is Some,
{
    let names = every_path_has_names(path);
    metadata_is_never_described(root@, tree, filesystem, path);
    if names[0] == ".rewind"@ {
        extended_within(names[0], names.skip(1));
    } else {
        what_was_seen_is_recorded(root, tree, filesystem, result, names);
    }
}

/// The identity that a scan gives is that of its manifest, and the paths that
/// it tells as not restorable are those that it records so.
pub proof fn a_scan_is_one_piece(
    root: &str,
    tree: Directory,
    filesystem: Filesystem,
    result: ScanResult,
    id: Result<String>,
    path: Seq<char>,
)
    requires
        well_named_directory(tree),
        call_ensures(scan_workspace, (root, &tree, filesystem), Ok::<ScanResult, RewindError>(result)),
        call_ensures(Manifest::state_id, (&result.manifest,), id),
    ensures
        id is Ok,
        id->Ok_0@ == result.state_id@,
        (exists|i: int| 0 <= i < result.unsupported_paths@.len() && (#[trigger] result.unsupported_paths@[i])@ == path)
            == (result.manifest@.contains_key(path) && result.manifest@[path] is Unsupported),
{
    unsupported_paths_are_recorded_so(root@, tree, filesystem, path);
    let list = views(result.unsupported_paths@);
    if list.contains(path) {
        let i = choose|i: int| 0 <= i < list.len() && list[i] == path;
        assert(result.unsupported_paths@[i]@ == path);
    }
    if exists|i: int| 0 <= i < result.unsupported_paths@.len() && (#[trigger] result.unsupported_paths@[i])@ == path {
        let i = choose|i: int|
            0 <= i < result.unsupported_paths@.len() && (#[trigger] result.unsupported_paths@[i])@ == path;
        assert(list[i] == path);
    }
}

/// Whether a node, and everything below it, could be looked at.
pub open spec fn legible(node: Node) -> bool
    decreases node, 0int,
{
    match node {
        Node::Unreadable(error) => false,
        Node::Reparse { symlink, tag, read, metadata } => symlink && tag == Some(0xA000_000Cu32) ==> read is Read,
        Node::Directory(directory) => legible_directory(directory, false),
        Node::File { read, metadata } => read is Read,
        Node::Symlink { read, metadata } => read is Read,
        Node::NamedPipe { metadata } => true,
        Node::Socket { length } => true,
        Node::Special { kind, length } => true,
    }
}

/// Whether a directory was listed in time, and each of its entries could be
/// looked at, but for the metadata of the workspace at its root.
pub open spec fn legible_directory(directory: Directory, root: bool) -> bool
    decreases directory, 1int,
{
    &&& !directory.late
    &&& directory.problem is None
    &&& directory.metadata is Ok
    &&& forall|i: int|
        0 <= i < directory.entries@.len() ==> {
            let entry = #[trigger] directory.entries@[i];
            (root && entry.name@ == ".rewind"@) || (!entry.late && entry.unicode && legible(entry.node))
        }
}

/// Whether each path is noted under itself.
spec fn noted_plainly(found: Found) -> bool {
    forall|k: Seq<char>| #[trigger] found.seen.contains_key(k) ==> found.seen[k] == k
}

proof fn legible_nodes_scan(node: Node, spot: Spot, found: Found, fold: Filesystem)
    requires
        !spot.root,
    ensures
        scan_node(node, spot, found, fold) is Ok ==> legible(node),
        legible(node) && !fold.folds_case && noted_plainly(found) ==> scan_node(node, spot, found, fold) is Ok
            && noted_plainly(scan_node(node, spot, found, fold)->Ok_0.1),
    decreases node, 0int,
{
    match node {
        Node::Directory(directory) => {
            legible_directories_scan(directory, spot, found, fold);
        },
        _ => {},
    }
}

proof fn legible_directories_scan(directory: Directory, spot: Spot, found: Found, fold: Filesystem)
    ensures
        scan_directory(directory, spot, found, fold) is Ok ==> legible_directory(directory, spot.root),
        legible_directory(directory, spot.root) && !fold.folds_case && noted_plainly(found) ==> scan_directory(
            directory,
            spot,
            found,
            fold,
        ) is Ok && noted_plainly(scan_directory(directory, spot, found, fold)->Ok_0.1),
    decreases directory, directory.entries@.len() + 1,
{
    legible_entries_scan(directory, directory.entries@.len() as int, spot, found, fold);
}

proof fn legible_entries_scan(directory: Directory, n: int, spot: Spot, found: Found, fold: Filesystem)
    requires
        0 <= n <= directory.entries@.len(),
    ensures
        ({
            let all = forall|i: int|
                0 <= i < n ==> {
                    let entry = #[trigger] directory.entries@[i];
                    (spot.root && entry.name@ == ".rewind"@) || (!entry.late && entry.unicode && legible(entry.node))
                };
            let r = scan_entries(directory, n, spot, found, fold);
            &&& r is Ok ==> all
            &&& all && !fold.folds_case && noted_plainly(found) ==> r is Ok && noted_plainly(r->Ok_0.1)
        }),
    decreases directory, n,
{
    if n > 0 {
        entries_step(directory, n - 1, spot, found, fold);
        legible_entries_scan(directory, n - 1, spot, found, fold);
        let entry = directory.entries@[n - 1];
        let place = spot.child(entry.name@);
        let r = scan_entries(directory, n - 1, spot, found, fold);
        if r is Ok && !(spot.root && entry.name@ == ".rewind"@) {
            let note = noted(r->Ok_0.1, place.relative, fold);
            if note is Ok {
                legible_nodes_scan(entry.node, place, note->Ok_0, fold);
            }
        }
    }
}

/// A scan succeeds only where everything could be looked at, in time and under
/// names in Unicode. Where the filesystem tells cases apart, nothing else fails
/// it: what cannot be restored is no reason to.
pub proof fn a_scan_fails_only_for_what_it_cannot_see(
    root: &str,
    tree: Directory,
    filesystem: Filesystem,
    r: Result<ScanResult>,
)
    requires
        call_ensures(scan_workspace, (root, &tree, filesystem), r),
    ensures
        r is Ok ==> legible_directory(tree, true),
        !filesystem.folds_case ==> (r is Ok == legible_directory(tree, true)),
{
    legible_directories_scan(tree, top(filesystem.platform, root@), nothing_found(), filesystem);
}

/// The changes between two manifests are exact. Each is about a path on which
/// they differ, with what each of them says of it, and each such path has one.
pub proof fn a_diff_is_exact(before: Manifest, after: Manifest, effects: Vec<Effect>, path: Seq<char>)
    requires
        before.entries.ordered(),
        after.entries.ordered(),
        call_ensures(diff_manifests, (&before, &after), effects),
    ensures
        (at(before@, path) != at(after@, path)) == exists|i: int|
            0 <= i < effects@.len() && (#[trigger] effects@[i]).path@ == path,
        forall|i: int|
            0 <= i < effects@.len() && (#[trigger] effects@[i]).path@ == path ==> effects@[i].pre@ == at(before@, path)
                && effects@[i].post@ == at(after@, path),
{
    let told = changes_between(before@, after@);
    changes_are_exact(before, after, path);
    assert(views(effects@).len() == effects@.len());
    assert forall|i: int| 0 <= i < effects@.len() implies (#[trigger] effects@[i])@ == told[i] by {
        assert(views(effects@).len() == effects@.len());
    assert(views(effects@)[i] == effects@[i]@);
    }
    if at(before@, path) != at(after@, path) {
        let i = choose|i: int| 0 <= i < told.len() && (#[trigger] told[i]).path == path;
        assert(effects@[i].path@ == path);
    }
    if exists|i: int| 0 <= i < effects@.len() && (#[trigger] effects@[i]).path@ == path {
        let i = choose|i: int| 0 <= i < effects@.len() && (#[trigger] effects@[i]).path@ == path;
        assert(told[i].path == path);
    }
}

/// What a change is called follows from what the path held and holds: nothing
/// before is a creation, nothing after a deletion, another kind of object a
/// change of type, and anything else a modification. Only a creation and a
/// deletion of one restorable object can be told as a rename instead, and then
/// each names a path at which the object stands or stood at the other end.
pub proof fn changes_are_called_what_they_are(before: Manifest, after: Manifest, effects: Vec<Effect>, i: int)
    requires
        before.entries.ordered(),
        after.entries.ordered(),
        call_ensures(diff_manifests, (&before, &after), effects),
        0 <= i < effects@.len(),
    ensures
        ({
            let e = effects@[i];
            let pre = e.pre@;
            let post = e.post@;
            match e.effect_type {
                EffectType::Create => pre is Absent && e.from_path is None,
                EffectType::Delete => post is Absent && e.from_path is None,
                EffectType::Modify => e.from_path is None && ((pre is RegularFile && post is RegularFile) || (
                pre is Directory && post is Directory) || (pre is Symlink && post is Symlink) || (pre is NamedPipe
                    && post is NamedPipe) || (pre is Unsupported && post is Unsupported)),
                EffectType::TypeChange => e.from_path is None && !(pre is Absent) && !(post is Absent) && !((
                pre is RegularFile && post is RegularFile) || (pre is Directory && post is Directory) || (
                pre is Symlink && post is Symlink) || (pre is NamedPipe && post is NamedPipe) || (pre is Unsupported
                    && post is Unsupported)),
                EffectType::Rename => e.from_path is Some && {
                    let other = e.from_path->0@;
                    ||| post is Absent && !(pre is Unsupported) && at(before@, other) is Absent && at(after@, other)
                        == pre
                    ||| pre is Absent && !(post is Unsupported) && at(after@, other) is Absent && at(before@, other)
                        == post
                },
            }
        }),
{
    let plain = plain_changes(before@, after@);
    let told = changes_between(before@, after@);
    assert(views(effects@).len() == effects@.len());
    assert(views(effects@)[i] == effects@[i]@);
    plain_changes_are(before, after);
    assert(told[i] == with_rename(plain, i));
    assert(plain[i] == change_at(before@, after@, plain[i].path));
    if exists|j: int| #[trigger] is_destination(plain, i, j) {
        let j = choose|j: int| #[trigger] is_destination(plain, i, j);
        assert(recreates(plain, j, i));
        assert(plain[j] == change_at(before@, after@, plain[j].path));
    } else if exists|j: int| #[trigger] is_source(plain, i, j) {
        let j = choose|j: int| #[trigger] is_source(plain, i, j);
        assert(recreates(plain, i, j));
        assert(plain[j] == change_at(before@, after@, plain[j].path));
    }
}

proof fn plain_changes_are(before: Manifest, after: Manifest)
    requires
        before.entries.ordered(),
        after.entries.ordered(),
    ensures
        ({
            let plain = plain_changes(before@, after@);
            forall|i: int|
                0 <= i < plain.len() ==> {
                    let c = #[trigger] plain[i];
                    c == change_at(before@, after@, c.path) && c.pre != c.post
                }
        }),
{
    let a = before@;
    let b = after@;
    let all = union_paths(a, b);
    let keep = |p: Seq<char>| at(a, p) != at(b, p);
    let f = |p: Seq<char>| change_at(a, b, p);
    let plain = plain_changes(a, b);
    order::kept_are(all, keep, f);
    assert forall|i: int| 0 <= i < plain.len() implies {
        let c = #[trigger] plain[i];
        c == change_at(a, b, c.path) && c.pre != c.post
    } by {
        assert(plain.contains(plain[i]));
        let k = choose|k: int| 0 <= k < all.len() && keep(#[trigger] all[k]) && plain[i] == f(all[k]);
    }
}

/// A file or anything else that can be restored, gone from one path and come up
/// at another, is told as a rename where it is gone.
pub proof fn what_moved_is_told_so(
    before: Manifest,
    after: Manifest,
    effects: Vec<Effect>,
    i: int,
    other: Seq<char>,
)
    requires
        before.entries.ordered(),
        after.entries.ordered(),
        call_ensures(diff_manifests, (&before, &after), effects),
        0 <= i < effects@.len(),
        effects@[i].post@ is Absent,
        !(effects@[i].pre@ is Unsupported),
        at(before@, other) is Absent,
        at(after@, other) == effects@[i].pre@,
    ensures
        effects@[i].effect_type == EffectType::Rename,
{
    let plain = plain_changes(before@, after@);
    let told = changes_between(before@, after@);
    assert(views(effects@).len() == effects@.len());
    assert(views(effects@)[i] == effects@[i]@);
    assert(told[i] == with_rename(plain, i));
    plain_changes_are(before, after);
    assert(plain[i] == change_at(before@, after@, plain[i].path));
    changes_are_exact(before, after, other);
    let j = choose|j: int| 0 <= j < told.len() && (#[trigger] told[j]).path == other;
    assert(told[j] == with_rename(plain, j));
    assert(plain[j] == change_at(before@, after@, plain[j].path));
    assert(plain[j].path == other);
    assert(recreates(plain, j, i));
    first_destination(plain, i, j);
}

proof fn first_destination(changes: Seq<Change>, deleted: int, created: int)
    requires
        recreates(changes, created, deleted),
    ensures
        exists|j: int| #[trigger] is_destination(changes, deleted, j),
    decreases created,
{
    if exists|j: int| j < created && #[trigger] recreates(changes, j, deleted) {
        let j = choose|j: int| j < created && #[trigger] recreates(changes, j, deleted);
        first_destination(changes, deleted, j);
    } else {
        assert(is_destination(changes, deleted, created));
    }
}

/// A path scanned alone gives what a scan of everything records for it, where
/// it is shown as that scan shows it.
pub proof fn a_path_alone_scans_alike(
    root: &str,
    tree: Directory,
    filesystem: Filesystem,
    result: ScanResult,
    names: Seq<Seq<char>>,
    shown: &str,
    relative: &str,
    node: Option<Node>,
    alone: Result<Fingerprint>,
)
    requires
        well_named_directory(tree),
        call_ensures(scan_workspace, (root, &tree, filesystem), Ok::<ScanResult, RewindError>(result)),
        names.len() > 0,
        names[0] != ".rewind"@,
        forall|i: int| 0 <= i < names.len() ==> no_slash(#[trigger] names[i]),
        shown@ == shown_at(top(filesystem.platform, root@), names),
        relative@ == path_of(names),
        node == node_at(Node::Directory(tree), names),
        call_ensures(scan_fingerprint_at, (shown, relative, &node, filesystem), alone),
    ensures
        alone is Ok,
        alone->Ok_0@ == at(result.manifest@, relative@),
{
    path_scan_matches_full_scan(root@, tree, filesystem, names);
}

/// A scan that ingests leaves in the store what was there and the content of
/// every file that it records, and nothing else; one that observes leaves the
/// store as it is. Both describe the workspace alike.
pub proof fn the_store_holds_what_was_recorded(
    root: &str,
    tree: Directory,
    options: ScanOptions,
    objects: Vec<String>,
    filesystem: Filesystem,
    captured: Captured,
    digest: Seq<char>,
)
    requires
        call_ensures(
            capture,
            (root, &tree, &options, &objects, filesystem),
            Ok::<Captured, RewindError>(captured),
        ),
    ensures
        (exists|i: int| 0 <= i < captured.objects@.len() && (#[trigger] captured.objects@[i])@ == digest) == ((exists|
            i: int,
        |
            0 <= i < objects@.len() && (#[trigger] objects@[i])@ == digest) || (options.ingest && exists|
            path: Seq<char>,
        | #[trigger]
            captured.scan.manifest@.contains_key(path) && captured.scan.manifest@[path] is RegularFile
                && captured.scan.manifest@[path]->RegularFile_content_hash == digest)),
{
    text_set(captured.objects@, digest);
    text_set(objects@, digest);
    assert(contents(captured.scan.manifest@).contains(digest) == exists|path: Seq<char>| #[trigger]
        captured.scan.manifest@.contains_key(path) && captured.scan.manifest@[path] is RegularFile
            && captured.scan.manifest@[path]->RegularFile_content_hash == digest);
}

proof fn text_set(list: Seq<String>, digest: Seq<char>)
    ensures
        views(list).to_set().contains(digest) == exists|i: int|
            0 <= i < list.len() && (#[trigger] list[i])@ == digest,
{
    let shown = views(list);
    if shown.contains(digest) {
        let i = choose|i: int| 0 <= i < shown.len() && shown[i] == digest;
        assert(list[i]@ == digest);
    }
    if exists|i: int| 0 <= i < list.len() && (#[trigger] list[i])@ == digest {
        let i = choose|i: int| 0 <= i < list.len() && (#[trigger] list[i])@ == digest;
        assert(shown[i] == digest);
    }
}

/// Of the permissions of an object the nine mode bits and the mark against
/// writing are kept: two objects are recorded alike exactly when they agree in
/// these.
pub proof fn permissions_are_kept(
    mode: u32,
    readonly: bool,
    other: u32,
    mark: bool,
    r: MetadataFingerprint,
    s: MetadataFingerprint,
    bare: MetadataFingerprint,
)
    requires
        call_ensures(metadata_fingerprint, (Some(mode), readonly), r),
        call_ensures(metadata_fingerprint, (Some(other), mark), s),
        call_ensures(metadata_fingerprint, (None, readonly), bare),
    ensures
        (r == s) == (mode % 512 == other % 512 && readonly == mark),
        r.mode is Some,
        r.mode->0 == mode % 512,
        r.readonly == readonly,
        bare.mode is None,
        bare.readonly == readonly,
{
}

/// What a link points at is its own flavour where it has one. Without one it is
/// what stands at its end, but only where the end lies inside and nothing on the
/// way is a link, missing or unreadable. Anything else is unknown.
pub proof fn what_a_link_points_at_is_not_guessed(
    flavour: Option<SymlinkTargetKind>,
    inside: bool,
    steps: Vec<Place>,
    end: Place,
    r: SymlinkTargetKind,
    k: int,
)
    requires
        call_ensures(classify_symlink_target_kind, (flavour, inside, &steps, &end), r),
    ensures
        flavour is Some ==> r == flavour->0,
        flavour is None && r is Directory ==> inside && end is Directory,
        flavour is None && r is File ==> inside && end is File,
        flavour is None && !(r is Unknown) && 0 <= k < steps@.len() ==> steps@[k] is Directory || steps@[k] is File
            || steps@[k] is Other,
        flavour is None && inside && steps@.len() == 0 && end is Directory ==> r is Directory,
        flavour is None && inside && steps@.len() == 0 && end is File ==> r is File,
        flavour is None && inside && steps@.len() == 1 && steps@[0] is Directory && end is Directory ==> r is Directory,
        flavour is None && inside && steps@.len() == 1 && steps@[0] is File && end is File ==> r is File,
{
    if flavour is None && 0 <= k < steps@.len() {
        assert(solid(steps@[k]) == (steps@[k] is Directory || steps@[k] is File || steps@[k] is Other));
    }
}

/// A reparse point is taken for a link only where it counts as one and its tag
/// says so; then nothing is refused. Every other one is refused.
pub proof fn only_a_known_link_is_followed(symlink: bool, tag: Option<u32>, r: Option<Fingerprint>)
    requires
        call_ensures(reparse_unsupported_fingerprint, (symlink, tag), r),
    ensures
        r is None == (symlink && tag == Some(0xA000_000Cu32)),
        r is Some ==> r->0 is Unsupported,
{
}

/// Whether every recorded path is noted under its own key.
spec fn noted_apart(found: Found, fold: Filesystem) -> bool {
    forall|p: Seq<char>| #[trigger]
        found.entries.contains_key(p) ==> found.seen.contains_key(collision_key(p, fold)) && found.seen[collision_key(
            p,
            fold,
        )] == p
}

/// Whether what was noted stays so.
spec fn notes_stay(before: Found, after: Found) -> bool {
    forall|k: Seq<char>| #[trigger]
        before.seen.contains_key(k) ==> after.seen.contains_key(k) && after.seen[k] == before.seen[k]
}

proof fn nodes_note_apart(node: Node, spot: Spot, found: Found, fold: Filesystem)
    requires
        scan_node(node, spot, found, fold) is Ok,
        noted_apart(found, fold),
        !spot.root ==> found.seen.contains_key(collision_key(spot.relative, fold)) && found.seen[collision_key(
            spot.relative,
            fold,
        )] == spot.relative,
    ensures
        noted_apart(scan_node(node, spot, found, fold)->Ok_0.1, fold),
        notes_stay(found, scan_node(node, spot, found, fold)->Ok_0.1),
    decreases node, 0int,
{
    match node {
        Node::Directory(directory) => {
            entries_note_apart(directory, directory.entries@.len() as int, spot, found, fold);
        },
        _ => {},
    }
}

proof fn entries_note_apart(directory: Directory, n: int, spot: Spot, found: Found, fold: Filesystem)
    requires
        0 <= n <= directory.entries@.len(),
        scan_entries(directory, n, spot, found, fold) is Ok,
        noted_apart(found, fold),
    ensures
        noted_apart(scan_entries(directory, n, spot, found, fold)->Ok_0.1, fold),
        notes_stay(found, scan_entries(directory, n, spot, found, fold)->Ok_0.1),
    decreases directory, n,
{
    if n > 0 {
        entries_step(directory, n - 1, spot, found, fold);
        entries_note_apart(directory, n - 1, spot, found, fold);
        let entry = directory.entries@[n - 1];
        let place = spot.child(entry.name@);
        let so_far = scan_entries(directory, n - 1, spot, found, fold)->Ok_0.1;
        if !(spot.root && entry.name@ == ".rewind"@) {
            let with_note = noted(so_far, place.relative, fold)->Ok_0;
            assert(notes_stay(so_far, with_note));
            assert(noted_apart(with_note, fold));
            nodes_note_apart(entry.node, place, with_note, fold);
        }
    }
}

/// Where the filesystem does not tell cases apart, a scan that succeeds records
/// no two paths that differ only in case.
pub proof fn no_two_paths_collide(
    root: &str,
    tree: Directory,
    filesystem: Filesystem,
    result: ScanResult,
    p: Seq<char>,
    q: Seq<char>,
)
    requires
        call_ensures(scan_workspace, (root, &tree, filesystem), Ok::<ScanResult, RewindError>(result)),
        filesystem.folds_case,
        result.manifest@.contains_key(p),
        result.manifest@.contains_key(q),
        lower_case(p) == lower_case(q),
    ensures
        p == q,
{
    entries_note_apart(tree, tree.entries@.len() as int, top(filesystem.platform, root@), nothing_found(), filesystem);
    let found = scan_of(root@, tree, filesystem)->Ok_0.1;
    assert(found.entries.contains_key(p) && found.entries.contains_key(q));
}

} // verus!
