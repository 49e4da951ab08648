//! The records the library works on: fingerprints of filesystem objects,
//! manifests of a workspace's state, operations and rollback journals.

use vstd::prelude::*;
use vstd::string::*;

use crate::error::{Fault, Result, RewindError};
use crate::order::Ranked;
use crate::outside;
use crate::outside::json_text;
use crate::table;
use crate::table::{Duplicate, Table};
use crate::table::listed;
use crate::table::table_listed;
use crate::text;
use crate::text::{decimal};

verus! {

#[derive(Clone, Copy, Debug, PartialEq, Eq, Structural)]
pub struct MetadataFingerprint {
    pub mode: Option<u32>,
    pub readonly: bool,
}

impl Default for MetadataFingerprint {
    fn default() -> (r: Self)
        ensures
            r == (MetadataFingerprint { mode: None, readonly: false }),
    {
        MetadataFingerprint { mode: None, readonly: false }
    }
}

/// The version of the manifest form. It takes part in every state's identity,
/// so that a change to what fingerprints mean gives every state a new id.
pub const STATE_SCHEMA_VERSION: u32 = 2;

/// What a symbolic link points at, as far as it is known.
#[derive(Clone, Copy, Debug, PartialEq, Eq, Structural)]
pub enum SymlinkTargetKind {
    File,
    Directory,
    Unknown,
}

impl SymlinkTargetKind {
    pub open spec fn text(self) -> Seq<char> {
        match self {
            SymlinkTargetKind::File => "file"@,
            SymlinkTargetKind::Directory => "directory"@,
            SymlinkTargetKind::Unknown => "unknown"@,
        }
    }

    pub fn as_str(&self) -> (r: &'static str)
        ensures
            r@ == self.text(),
    {
        match self {
            SymlinkTargetKind::File => "file",
            SymlinkTargetKind::Directory => "directory",
            SymlinkTargetKind::Unknown => "unknown",
        }
    }
}

/// Different values have different texts.
pub proof fn symlink_target_kind_texts_distinct(a: SymlinkTargetKind, b: SymlinkTargetKind)
    requires
        a.text() == b.text(),
    ensures
        a == b,
{
    reveal_strlit("file");
    reveal_strlit("directory");
    reveal_strlit("unknown");
    assert("file"@.len() == 4);
    assert("directory"@.len() == 9);
    assert("unknown"@.len() == 7);
}
impl Default for SymlinkTargetKind {
    fn default() -> (r: Self)
        ensures
            r == SymlinkTargetKind::Unknown,
    {
        SymlinkTargetKind::Unknown
    }
}

impl SymlinkTargetKind {
    /// True when the recorded kind is sufficient to recreate the link. Unknown
    /// kinds refuse restoration instead of guessing.
    pub fn is_creatable(&self) -> (r: bool)
        ensures
            r == (*self != SymlinkTargetKind::Unknown),
    {
        match self {
            SymlinkTargetKind::Unknown => false,
            _ => true,
        }
    }
}

/// What one path of the workspace holds.
#[derive(Clone, Debug, PartialEq, Eq)]
pub enum Fingerprint {
    Absent,
    RegularFile { content_hash: String, size: u64, metadata: MetadataFingerprint },
    Directory { manifest_hash: String, entry_count: u64, metadata: MetadataFingerprint },
    Symlink {
        target: String,
        target_kind: SymlinkTargetKind,
        target_hash: String,
        metadata: MetadataFingerprint,
    },
    NamedPipe { metadata: MetadataFingerprint },
    Unsupported { object_kind: String, descriptor: String },
}

/// A fingerprint with its texts as sequences.
pub enum Print {
    Absent,
    RegularFile { content_hash: Seq<char>, size: u64, metadata: MetadataFingerprint },
    Directory { manifest_hash: Seq<char>, entry_count: u64, metadata: MetadataFingerprint },
    Symlink {
        target: Seq<char>,
        target_kind: SymlinkTargetKind,
        target_hash: Seq<char>,
        metadata: MetadataFingerprint,
    },
    NamedPipe { metadata: MetadataFingerprint },
    Unsupported { object_kind: Seq<char>, descriptor: Seq<char> },
}

impl View for Fingerprint {
    type V = Print;

    open spec fn view(&self) -> Print {
        match self {
            Fingerprint::Absent => Print::Absent,
            Fingerprint::RegularFile { content_hash, size, metadata } => Print::RegularFile {
                content_hash: content_hash@,
                size: *size,
                metadata: *metadata,
            },
            Fingerprint::Directory { manifest_hash, entry_count, metadata } => Print::Directory {
                manifest_hash: manifest_hash@,
                entry_count: *entry_count,
                metadata: *metadata,
            },
            Fingerprint::Symlink { target, target_kind, target_hash, metadata } => Print::Symlink {
                target: target@,
                target_kind: *target_kind,
                target_hash: target_hash@,
                metadata: *metadata,
            },
            Fingerprint::NamedPipe { metadata } => Print::NamedPipe { metadata: *metadata },
            Fingerprint::Unsupported { object_kind, descriptor } => Print::Unsupported {
                object_kind: object_kind@,
                descriptor: descriptor@,
            },
        }
    }
}

impl Print {
    pub open spec fn kind_name(self) -> Seq<char> {
        match self {
            Print::Absent => "ABSENT"@,
            Print::RegularFile { .. } => "REGULAR_FILE"@,
            Print::Directory { .. } => "DIRECTORY"@,
            Print::Symlink { .. } => "SYMLINK"@,
            Print::NamedPipe { .. } => "NAMED_PIPE"@,
            Print::Unsupported { .. } => "UNSUPPORTED"@,
        }
    }

    /// Whether both are the same kind of object.
    pub open spec fn same_kind(self, other: Print) -> bool {
        ||| self is Absent && other is Absent
        ||| self is RegularFile && other is RegularFile
        ||| self is Directory && other is Directory
        ||| self is Symlink && other is Symlink
        ||| self is NamedPipe && other is NamedPipe
        ||| self is Unsupported && other is Unsupported
    }

    pub open spec fn supported(self) -> bool {
        !(self is Unsupported)
    }

    pub open spec fn describe(self) -> Seq<char> {
        match self {
            Print::Absent => "ABSENT"@,
            Print::RegularFile { content_hash, size, .. } => "REGULAR_FILE(hash="@ + content_hash
                + ",size="@ + decimal(size as nat) + ")"@,
            Print::Directory { manifest_hash, entry_count, .. } => "DIRECTORY(hash="@
                + manifest_hash + ",entries="@ + decimal(entry_count as nat) + ")"@,
            Print::Symlink { target, target_kind, target_hash, .. } => "SYMLINK(target_hash="@
                + target_hash + ",target="@ + target + ",kind="@ + target_kind.text() + ")"@,
            Print::NamedPipe { .. } => "NAMED_PIPE"@,
            Print::Unsupported { object_kind, descriptor } => "UNSUPPORTED("@ + object_kind + ":"@
                + descriptor + ")"@,
        }
    }
}

/// The names of two kinds of object are the same only for the same kind.
pub proof fn kind_names_distinct(a: Print, b: Print)
    ensures
        a.same_kind(b) == (a.kind_name() == b.kind_name()),
{
    reveal_strlit("ABSENT");
    reveal_strlit("REGULAR_FILE");
    reveal_strlit("DIRECTORY");
    reveal_strlit("SYMLINK");
    reveal_strlit("NAMED_PIPE");
    reveal_strlit("UNSUPPORTED");
    assert("ABSENT"@.len() == 6);
    assert("REGULAR_FILE"@.len() == 12);
    assert("DIRECTORY"@.len() == 9);
    assert("SYMLINK"@.len() == 7);
    assert("NAMED_PIPE"@.len() == 10);
    assert("UNSUPPORTED"@.len() == 11);
}

impl Fingerprint {
    pub fn kind_name(&self) -> (r: &'static str)
        ensures
            r@ == self@.kind_name(),
    {
        match self {
            Fingerprint::Absent => "ABSENT",
            Fingerprint::RegularFile { .. } => "REGULAR_FILE",
            Fingerprint::Directory { .. } => "DIRECTORY",
            Fingerprint::Symlink { .. } => "SYMLINK",
            Fingerprint::NamedPipe { .. } => "NAMED_PIPE",
            Fingerprint::Unsupported { .. } => "UNSUPPORTED",
        }
    }

    pub fn is_supported_for_restore(&self) -> (r: bool)
        ensures
            r == self@.supported(),
    {
        match self {
            Fingerprint::Unsupported { .. } => false,
            _ => true,
        }
    }

    pub fn content_hash(&self) -> (r: Option<&str>)
        ensures
            match (self@, r) {
                (Print::RegularFile { content_hash, .. }, Some(h)) => h@ == content_hash,
                (Print::RegularFile { .. }, None) => false,
                (_, Some(_)) => false,
                (_, None) => true,
            },
    {
        match self {
            Fingerprint::RegularFile { content_hash, .. } => Some(content_hash.as_str()),
            _ => None,
        }
    }

    /// Whether two fingerprints say the same.
    pub fn same(&self, other: &Self) -> (r: bool)
        ensures
            r == (self@ == other@),
    {
        match (self, other) {
            (Fingerprint::Absent, Fingerprint::Absent) => true,
            (
                Fingerprint::RegularFile { content_hash: h1, size: s1, metadata: m1 },
                Fingerprint::RegularFile { content_hash: h2, size: s2, metadata: m2 },
            ) => text::same(h1, h2) && *s1 == *s2 && *m1 == *m2,
            (
                Fingerprint::Directory { manifest_hash: h1, entry_count: s1, metadata: m1 },
                Fingerprint::Directory { manifest_hash: h2, entry_count: s2, metadata: m2 },
            ) => text::same(h1, h2) && *s1 == *s2 && *m1 == *m2,
            (
                Fingerprint::Symlink { target: t1, target_kind: k1, target_hash: h1, metadata: m1 },
                Fingerprint::Symlink { target: t2, target_kind: k2, target_hash: h2, metadata: m2 },
            ) => text::same(t1, t2) && *k1 == *k2 && text::same(h1, h2) && *m1 == *m2,
            (Fingerprint::NamedPipe { metadata: m1 }, Fingerprint::NamedPipe { metadata: m2 }) => {
                *m1 == *m2
            },
            (
                Fingerprint::Unsupported { object_kind: k1, descriptor: d1 },
                Fingerprint::Unsupported { object_kind: k2, descriptor: d2 },
            ) => text::same(k1, k2) && text::same(d1, d2),
            _ => false,
        }
    }

    /// A one-line description.
    pub fn describe(&self) -> (r: String)
        ensures
            r@ == self@.describe(),
    {
        match self {
            Fingerprint::Absent => text::copy("ABSENT"),
            Fingerprint::RegularFile { content_hash, size, .. } => {
                let mut out = text::copy("REGULAR_FILE(hash=");
                out.append(content_hash);
                out.append(",size=");
                out.append(text::decimal_u64(*size).as_str());
                out.append(")");
                out
            },
            Fingerprint::Directory { manifest_hash, entry_count, .. } => {
                let mut out = text::copy("DIRECTORY(hash=");
                out.append(manifest_hash);
                out.append(",entries=");
                out.append(text::decimal_u64(*entry_count).as_str());
                out.append(")");
                out
            },
            Fingerprint::Symlink { target, target_kind, target_hash, .. } => {
                let mut out = text::copy("SYMLINK(target_hash=");
                out.append(target_hash);
                out.append(",target=");
                out.append(target);
                out.append(",kind=");
                out.append(target_kind.as_str());
                out.append(")");
                out
            },
            Fingerprint::NamedPipe { .. } => text::copy("NAMED_PIPE"),
            Fingerprint::Unsupported { object_kind, descriptor } => {
                let mut out = text::copy("UNSUPPORTED(");
                out.append(object_kind);
                out.append(":");
                out.append(descriptor);
                out.append(")");
                out
            },
        }
    }
}

impl Duplicate for Fingerprint {
    fn duplicate(&self) -> (r: Self)
        ensures
            r == *self,
    {
        match self {
            Fingerprint::Absent => Fingerprint::Absent,
            Fingerprint::RegularFile { content_hash, size, metadata } => Fingerprint::RegularFile {
                content_hash: content_hash.clone(),
                size: *size,
                metadata: *metadata,
            },
            Fingerprint::Directory { manifest_hash, entry_count, metadata } => Fingerprint::Directory {
                manifest_hash: manifest_hash.clone(),
                entry_count: *entry_count,
                metadata: *metadata,
            },
            Fingerprint::Symlink { target, target_kind, target_hash, metadata } => Fingerprint::Symlink {
                target: target.clone(),
                target_kind: *target_kind,
                target_hash: target_hash.clone(),
                metadata: *metadata,
            },
            Fingerprint::NamedPipe { metadata } => Fingerprint::NamedPipe { metadata: *metadata },
            Fingerprint::Unsupported { object_kind, descriptor } => Fingerprint::Unsupported {
                object_kind: object_kind.clone(),
                descriptor: descriptor.clone(),
            },
        }
    }
}

// ---------------------------------------------------------------------------
// The canonical form
// ---------------------------------------------------------------------------

pub open spec fn metadata_json(m: MetadataFingerprint) -> Seq<char> {
    "{\"mode\":"@ + (match m.mode {
        Some(mode) => decimal(mode as nat),
        None => "null"@,
    }) + ",\"readonly\":"@ + (if m.readonly {
        "true"@
    } else {
        "false"@
    }) + "}"@
}

/// The JSON object that stands for a fingerprint.
pub open spec fn print_json(p: Print) -> Seq<char> {
    match p {
        Print::Absent => "{\"kind\":\"Absent\"}"@,
        Print::RegularFile { content_hash, size, metadata } =>
            "{\"kind\":\"RegularFile\",\"value\":{\"content_hash\":"@ + json_text(content_hash)
                + ",\"size\":"@ + decimal(size as nat) + ",\"metadata\":"@ + metadata_json(metadata)
                + "}}"@,
        Print::Directory { manifest_hash, entry_count, metadata } =>
            "{\"kind\":\"Directory\",\"value\":{\"manifest_hash\":"@ + json_text(manifest_hash)
                + ",\"entry_count\":"@ + decimal(entry_count as nat) + ",\"metadata\":"@
                + metadata_json(metadata) + "}}"@,
        Print::Symlink { target, target_kind, target_hash, metadata } =>
            "{\"kind\":\"Symlink\",\"value\":{\"target\":"@ + json_text(target)
                + ",\"target_kind\":\""@ + target_kind.text() + "\",\"target_hash\":"@ + json_text(
                target_hash,
            ) + ",\"metadata\":"@ + metadata_json(metadata) + "}}"@,
        Print::NamedPipe { metadata } => "{\"kind\":\"NamedPipe\",\"value\":{\"metadata\":"@
            + metadata_json(metadata) + "}}"@,
        Print::Unsupported { object_kind, descriptor } =>
            "{\"kind\":\"Unsupported\",\"value\":{\"object_kind\":"@ + json_text(object_kind)
                + ",\"descriptor\":"@ + json_text(descriptor) + "}}"@,
    }
}

/// One member of the object that stands for a map of fingerprints.
pub open spec fn member_json(row: (Seq<char>, Print)) -> Seq<char> {
    json_text(row.0) + ":"@ + print_json(row.1)
}

/// The members of an object, separated by commas.
pub open spec fn members_json(rows: Seq<(Seq<char>, Print)>) -> Seq<char>
    decreases rows.len(),
{
    if rows.len() == 0 {
        Seq::empty()
    } else if rows.len() == 1 {
        member_json(rows[0])
    } else {
        members_json(rows.drop_last()) + ","@ + member_json(rows.last())
    }
}

/// The JSON object that stands for a map of fingerprints: its keys ascend.
pub open spec fn table_json(m: Map<Seq<char>, Print>) -> Seq<char> {
    "{"@ + members_json(listed(m)) + "}"@
}

/// The canonical text of a manifest.
pub open spec fn canonical_text(m: Map<Seq<char>, Print>) -> Seq<char> {
    "{\"schema_version\":"@ + decimal(STATE_SCHEMA_VERSION as nat) + ",\"entries\":"@ + table_json(m)
        + "}"@
}

fn serialization(detail: String) -> (r: RewindError)
    ensures
        r@ == Fault::Serialization(detail@),
{
    RewindError::Serialization(detail)
}

fn append_json(out: &mut String, s: &str) -> (r: Result<()>)
    ensures
        r is Ok,
        final(out)@ == old(out)@ + json_text(s@),
{
    match outside::json_string(s) {
        Ok(t) => {
            out.append(t.as_str());
            Ok(())
        },
        Err(detail) => Err(serialization(detail)),
    }
}

fn append_metadata(out: &mut String, m: &MetadataFingerprint)
    ensures
        final(out)@ == old(out)@ + metadata_json(*m),
{
    let ghost start = out@;
    out.append("{\"mode\":");
    match m.mode {
        Some(mode) => {
            out.append(text::decimal_u64(mode as u64).as_str());
        },
        None => {
            out.append("null");
        },
    }
    out.append(",\"readonly\":");
    if m.readonly {
        out.append("true");
    } else {
        out.append("false");
    }
    out.append("}");
    assert(out@ =~= start + metadata_json(*m));
}

fn append_fingerprint(out: &mut String, p: &Fingerprint) -> (r: Result<()>)
    ensures
        r is Ok,
        final(out)@ == old(out)@ + print_json(p@),
{
    let ghost start = out@;
    match p {
        Fingerprint::Absent => {
            out.append("{\"kind\":\"Absent\"}");
        },
        Fingerprint::RegularFile { content_hash, size, metadata } => {
            out.append("{\"kind\":\"RegularFile\",\"value\":{\"content_hash\":");
            append_json(out, content_hash)?;
            out.append(",\"size\":");
            out.append(text::decimal_u64(*size).as_str());
            out.append(",\"metadata\":");
            append_metadata(out, metadata);
            out.append("}}");
        },
        Fingerprint::Directory { manifest_hash, entry_count, metadata } => {
            out.append("{\"kind\":\"Directory\",\"value\":{\"manifest_hash\":");
            append_json(out, manifest_hash)?;
            out.append(",\"entry_count\":");
            out.append(text::decimal_u64(*entry_count).as_str());
            out.append(",\"metadata\":");
            append_metadata(out, metadata);
            out.append("}}");
        },
        Fingerprint::Symlink { target, target_kind, target_hash, metadata } => {
            out.append("{\"kind\":\"Symlink\",\"value\":{\"target\":");
            append_json(out, target)?;
            out.append(",\"target_kind\":\"");
            out.append(target_kind.as_str());
            out.append("\",\"target_hash\":");
            append_json(out, target_hash)?;
            out.append(",\"metadata\":");
            append_metadata(out, metadata);
            out.append("}}");
        },
        Fingerprint::NamedPipe { metadata } => {
            out.append("{\"kind\":\"NamedPipe\",\"value\":{\"metadata\":");
            append_metadata(out, metadata);
            out.append("}}");
        },
        Fingerprint::Unsupported { object_kind, descriptor } => {
            out.append("{\"kind\":\"Unsupported\",\"value\":{\"object_kind\":");
            append_json(out, object_kind)?;
            out.append(",\"descriptor\":");
            append_json(out, descriptor)?;
            out.append("}}");
        },
    }
    assert(out@ =~= start + print_json(p@));
    Ok(())
}

/// The JSON text of a map of fingerprints.
pub fn table_text(t: &Table<Fingerprint>) -> (r: Result<String>)
    ensures
        r is Ok,
        r->Ok_0@ == table_json(t@),
{
    let mut out = text::copy("{");
    let ghost head = out@;
    let mut i: usize = 0;
    let count = t.len();
    let ghost shown = t.shown();
    proof {
        table_listed(*t);
    }
    assert(shown.take(0) =~= Seq::empty());
    assert(out@ =~= head + members_json(shown.take(0)));
    while i < count
        invariant
            i <= count == t.rows().len(),
            shown == t.shown(),
            out@ == head + members_json(shown.take(i as int)),
        decreases count - i,
    {
        if i > 0 {
            out.append(",");
        }
        append_json(&mut out, t.key(i))?;
        out.append(":");
        append_fingerprint(&mut out, t.value(i))?;
        proof {
            let next = shown.take(i + 1);
            assert(next.drop_last() =~= shown.take(i as int));
            assert(next.last() == (t.rows()[i as int].0@, t.rows()[i as int].1@));
            assert(out@ =~= head + members_json(next));
        }
        i = i + 1;
    }
    assert(shown.take(count as int) =~= shown);
    out.append("}");
    assert(out@ =~= table_json(t@));
    Ok(out)
}

/// The digest over a map of children that identifies a directory's contents.
pub open spec fn children_hash(children: Map<Seq<char>, Print>) -> Seq<char> {
    outside::blake3_hex(vstd::utf8::encode_utf8(table_json(children)))
}

/// The fingerprint of a directory with these children.
pub open spec fn directory_print(children: Map<Seq<char>, Print>, metadata: MetadataFingerprint) -> Print {
    Print::Directory {
        manifest_hash: children_hash(children),
        entry_count: listed(children).len() as u64,
        metadata,
    }
}

impl Fingerprint {
    /// Builds a directory fingerprint over an explicit child map. This is the
    /// form the scanner produces, so an expected intermediate directory state
    /// made here compares equal to the directory the scanner will observe.
    pub fn directory_from_children(
        children: &Table<Fingerprint>,
        metadata: MetadataFingerprint,
    ) -> (r: Result<Self>)
        ensures
            r is Ok,
            r->Ok_0@ == directory_print(children@, metadata),
    {
        let serialized = table_text(children)?;
        let count = children.len();
        proof {
            table_listed(*children);
        }
        Ok(
            Fingerprint::Directory {
                manifest_hash: outside::hash_hex(serialized.as_str().as_bytes()),
                entry_count: count as u64,
                metadata,
            },
        )
    }
}

/// The state of a workspace: what each path holds.
#[derive(Debug, PartialEq, Eq)]
pub struct Manifest {
    pub entries: Table<Fingerprint>,
}

impl View for Manifest {
    type V = Map<Seq<char>, Print>;

    open spec fn view(&self) -> Map<Seq<char>, Print> {
        self.entries@
    }
}

/// What a manifest says of a path; a path it does not list is absent.
pub open spec fn at(m: Map<Seq<char>, Print>, path: Seq<char>) -> Print {
    if m.contains_key(path) {
        m[path]
    } else {
        Print::Absent
    }
}

/// The id of the state that a manifest describes.
pub open spec fn state_id_of(m: Map<Seq<char>, Print>) -> Seq<char> {
    outside::blake3_hex(vstd::utf8::encode_utf8(canonical_text(m)))
}

impl Manifest {
    pub fn empty() -> (r: Self)
        ensures
            r@ == Map::<Seq<char>, Print>::empty(),
            r.entries.rows().len() == 0,
    {
        Manifest { entries: Table::new() }
    }

    pub fn canonical_bytes(&self) -> (r: Result<Vec<u8>>)
        ensures
            r is Ok,
            r->Ok_0@ == vstd::utf8::encode_utf8(canonical_text(self@)),
    {
        let mut out = text::copy("{\"schema_version\":");
        out.append(text::decimal_u64(STATE_SCHEMA_VERSION as u64).as_str());
        out.append(",\"entries\":");
        let entries = table_text(&self.entries)?;
        out.append(entries.as_str());
        out.append("}");
        assert(out@ =~= canonical_text(self@));
        Ok(out.as_str().as_bytes_vec())
    }

    pub fn state_id(&self) -> (r: Result<String>)
        ensures
            r is Ok,
            r->Ok_0@ == state_id_of(self@),
    {
        let bytes = self.canonical_bytes()?;
        Ok(outside::hash_hex(bytes.as_slice()))
    }

    pub fn get(&self, path: &str) -> (r: Fingerprint)
        ensures
            r@ == at(self@, path@),
    {
        match self.entries.get(path) {
            Some(f) => f.duplicate(),
            None => Fingerprint::Absent,
        }
    }
}

impl Manifest {
    /// Whether two manifests say the same.
    pub fn same(&self, other: &Self) -> (r: bool)
        ensures
            r == (self@ == other@),
    {
        let count = self.entries.len();
        let total = other.entries.len();
        let ghost a = self.entries.shown();
        let ghost b = other.entries.shown();
        proof {
            table_listed(self.entries);
            table_listed(other.entries);
            if a == b {
                assert(self@ =~= other@) by {
                    assert forall|k: Seq<char>| #[trigger] self@.contains_key(k) implies self@[k] == other@[k] by {
                        assert(table::firsts(a).contains(k));
                        let i = choose|i: int| 0 <= i < table::firsts(a).len() && table::firsts(a)[i] == k;
                        assert(a[i].0 == k && b[i].0 == k);
                    }
                }
            }
        }
        if count != total {
            return false;
        }
        for i in 0..count
            invariant
                count == self.entries.rows().len(),
                count == other.entries.rows().len(),
                a == self.entries.shown(),
                b == other.entries.shown(),
                self@ == other@ ==> a == b,
                forall|k: int| 0 <= k < i ==> a[k] == b[k],
        {
            assert(a[i as int] == (self.entries.rows()[i as int].0@, self.entries.rows()[i as int].1@));
            assert(b[i as int] == (other.entries.rows()[i as int].0@, other.entries.rows()[i as int].1@));
            if !text::same(self.entries.key(i).as_str(), other.entries.key(i).as_str()) {
                return false;
            }
            if !self.entries.value(i).same(other.entries.value(i)) {
                return false;
            }
        }
        assert(a =~= b);
        true
    }
}

impl Duplicate for Manifest {
    fn duplicate(&self) -> (r: Self)
        ensures
            r.entries.keys() == self.entries.keys(),
    {
        Manifest { entries: self.entries.duplicate() }
    }
}

#[derive(Clone, Copy, Debug, PartialEq, Eq, Structural)]
pub enum StateKind {
    Baseline,
    Observation,
    Reconciliation,
    Snapshot,
    Anchor,
}

impl StateKind {
    pub open spec fn text(self) -> Seq<char> {
        match self {
            StateKind::Baseline => "BASELINE"@,
            StateKind::Observation => "OBSERVATION"@,
            StateKind::Reconciliation => "RECONCILIATION"@,
            StateKind::Snapshot => "SNAPSHOT"@,
            StateKind::Anchor => "ANCHOR"@,
        }
    }

    pub fn as_str(&self) -> (r: &'static str)
        ensures
            r@ == self.text(),
    {
        match self {
            StateKind::Baseline => "BASELINE",
            StateKind::Observation => "OBSERVATION",
            StateKind::Reconciliation => "RECONCILIATION",
            StateKind::Snapshot => "SNAPSHOT",
            StateKind::Anchor => "ANCHOR",
        }
    }

    /// The value with the given text.
    pub fn from_str(value: &str) -> (r: Result<Self>)
        ensures
            match r {
                Ok(v) => v.text() == value@,
                Err(e) => e@ == Fault::Serialization("unknown state kind "@ + value@) && forall|v: StateKind|
                    (#[trigger] v.text()) != value@,
            },
    {
        if text::same(value, "BASELINE") {
            return Ok(StateKind::Baseline);
        }
        if text::same(value, "OBSERVATION") {
            return Ok(StateKind::Observation);
        }
        if text::same(value, "RECONCILIATION") {
            return Ok(StateKind::Reconciliation);
        }
        if text::same(value, "SNAPSHOT") {
            return Ok(StateKind::Snapshot);
        }
        if text::same(value, "ANCHOR") {
            return Ok(StateKind::Anchor);
        }
        let mut message = text::copy("unknown state kind ");
        message.append(value);
        Err(RewindError::Serialization(message))
    }
}

/// Different values have different texts.
pub proof fn state_kind_texts_distinct(a: StateKind, b: StateKind)
    requires
        a.text() == b.text(),
    ensures
        a == b,
{
    reveal_strlit("BASELINE");
    reveal_strlit("OBSERVATION");
    reveal_strlit("RECONCILIATION");
    reveal_strlit("SNAPSHOT");
    reveal_strlit("ANCHOR");
    assert("BASELINE"@.len() == 8);
    assert("OBSERVATION"@.len() == 11);
    assert("RECONCILIATION"@.len() == 14);
    assert("SNAPSHOT"@.len() == 8);
    assert("ANCHOR"@.len() == 6);
    assert("BASELINE"@[0] != "SNAPSHOT"@[0]);
}
#[derive(Debug, PartialEq, Eq)]
pub struct StateRecord {
    pub id: String,
    pub kind: StateKind,
    pub manifest: Manifest,
    pub parent_id: Option<String>,
    pub label: Option<String>,
}

#[derive(Clone, Copy, Debug, PartialEq, Eq, Structural)]
pub enum WorkspaceCondition {
    Healthy,
    Degraded,
    ReconciliationRequired,
    RecoveryRequired,
}

impl WorkspaceCondition {
    pub open spec fn text(self) -> Seq<char> {
        match self {
            WorkspaceCondition::Healthy => "HEALTHY"@,
            WorkspaceCondition::Degraded => "DEGRADED"@,
            WorkspaceCondition::ReconciliationRequired => "RECONCILIATION_REQUIRED"@,
            WorkspaceCondition::RecoveryRequired => "RECOVERY_REQUIRED"@,
        }
    }

    pub fn as_str(&self) -> (r: &'static str)
        ensures
            r@ == self.text(),
    {
        match self {
            WorkspaceCondition::Healthy => "HEALTHY",
            WorkspaceCondition::Degraded => "DEGRADED",
            WorkspaceCondition::ReconciliationRequired => "RECONCILIATION_REQUIRED",
            WorkspaceCondition::RecoveryRequired => "RECOVERY_REQUIRED",
        }
    }

    /// The value with the given text.
    pub fn from_str(value: &str) -> (r: Result<Self>)
        ensures
            match r {
                Ok(v) => v.text() == value@,
                Err(e) => e@ == Fault::Serialization("unknown workspace condition "@ + value@) && forall|v: WorkspaceCondition|
                    (#[trigger] v.text()) != value@,
            },
    {
        if text::same(value, "HEALTHY") {
            return Ok(WorkspaceCondition::Healthy);
        }
        if text::same(value, "DEGRADED") {
            return Ok(WorkspaceCondition::Degraded);
        }
        if text::same(value, "RECONCILIATION_REQUIRED") {
            return Ok(WorkspaceCondition::ReconciliationRequired);
        }
        if text::same(value, "RECOVERY_REQUIRED") {
            return Ok(WorkspaceCondition::RecoveryRequired);
        }
        let mut message = text::copy("unknown workspace condition ");
        message.append(value);
        Err(RewindError::Serialization(message))
    }
}

/// Different values have different texts.
pub proof fn workspace_condition_texts_distinct(a: WorkspaceCondition, b: WorkspaceCondition)
    requires
        a.text() == b.text(),
    ensures
        a == b,
{
    reveal_strlit("HEALTHY");
    reveal_strlit("DEGRADED");
    reveal_strlit("RECONCILIATION_REQUIRED");
    reveal_strlit("RECOVERY_REQUIRED");
    assert("HEALTHY"@.len() == 7);
    assert("DEGRADED"@.len() == 8);
    assert("RECONCILIATION_REQUIRED"@.len() == 23);
    assert("RECOVERY_REQUIRED"@.len() == 17);
}
#[derive(Clone, Copy, Debug, PartialEq, Eq, Structural)]
pub enum OperationKind {
    Strong,
    PassiveObservation,
    Reconciliation,
    Restore,
    CaptureFailed,
    BoundaryOnly,
}

impl OperationKind {
    pub open spec fn text(self) -> Seq<char> {
        match self {
            OperationKind::Strong => "STRONG"@,
            OperationKind::PassiveObservation => "PASSIVE_OBSERVATION"@,
            OperationKind::Reconciliation => "RECONCILIATION"@,
            OperationKind::Restore => "RESTORE"@,
            OperationKind::CaptureFailed => "CAPTURE_FAILED"@,
            OperationKind::BoundaryOnly => "BOUNDARY_ONLY"@,
        }
    }

    pub fn as_str(&self) -> (r: &'static str)
        ensures
            r@ == self.text(),
    {
        match self {
            OperationKind::Strong => "STRONG",
            OperationKind::PassiveObservation => "PASSIVE_OBSERVATION",
            OperationKind::Reconciliation => "RECONCILIATION",
            OperationKind::Restore => "RESTORE",
            OperationKind::CaptureFailed => "CAPTURE_FAILED",
            OperationKind::BoundaryOnly => "BOUNDARY_ONLY",
        }
    }
}

/// Different values have different texts.
pub proof fn operation_kind_texts_distinct(a: OperationKind, b: OperationKind)
    requires
        a.text() == b.text(),
    ensures
        a == b,
{
    reveal_strlit("STRONG");
    reveal_strlit("PASSIVE_OBSERVATION");
    reveal_strlit("RECONCILIATION");
    reveal_strlit("RESTORE");
    reveal_strlit("CAPTURE_FAILED");
    reveal_strlit("BOUNDARY_ONLY");
    assert("STRONG"@.len() == 6);
    assert("PASSIVE_OBSERVATION"@.len() == 19);
    assert("RECONCILIATION"@.len() == 14);
    assert("RESTORE"@.len() == 7);
    assert("CAPTURE_FAILED"@.len() == 14);
    assert("BOUNDARY_ONLY"@.len() == 13);
    assert("RECONCILIATION"@[0] != "CAPTURE_FAILED"@[0]);
}
#[derive(Clone, Copy, Debug, PartialEq, Eq, Structural)]
pub enum OperationStatus {
    Completed,
    Undone,
    Failed,
    Untrusted,
}

impl OperationStatus {
    pub open spec fn text(self) -> Seq<char> {
        match self {
            OperationStatus::Completed => "COMPLETED"@,
            OperationStatus::Undone => "UNDONE"@,
            OperationStatus::Failed => "FAILED"@,
            OperationStatus::Untrusted => "UNTRUSTED"@,
        }
    }

    pub fn as_str(&self) -> (r: &'static str)
        ensures
            r@ == self.text(),
    {
        match self {
            OperationStatus::Completed => "COMPLETED",
            OperationStatus::Undone => "UNDONE",
            OperationStatus::Failed => "FAILED",
            OperationStatus::Untrusted => "UNTRUSTED",
        }
    }
}

/// Different values have different texts.
pub proof fn operation_status_texts_distinct(a: OperationStatus, b: OperationStatus)
    requires
        a.text() == b.text(),
    ensures
        a == b,
{
    reveal_strlit("COMPLETED");
    reveal_strlit("UNDONE");
    reveal_strlit("FAILED");
    reveal_strlit("UNTRUSTED");
    assert("COMPLETED"@.len() == 9);
    assert("UNDONE"@.len() == 6);
    assert("FAILED"@.len() == 6);
    assert("UNTRUSTED"@.len() == 9);
    assert("COMPLETED"@[0] != "UNTRUSTED"@[0]);
    assert("UNDONE"@[0] != "FAILED"@[0]);
}
#[derive(Clone, Copy, Debug, PartialEq, Eq, Structural)]
pub enum TrackingConfidence {
    FullyTracked,
    LowConfidenceObservation,
    Degraded,
    Unsupported,
}

impl TrackingConfidence {
    pub open spec fn text(self) -> Seq<char> {
        match self {
            TrackingConfidence::FullyTracked => "TRACKED"@,
            TrackingConfidence::LowConfidenceObservation => "LOW_CONFIDENCE_OBSERVATION"@,
            TrackingConfidence::Degraded => "DEGRADED"@,
            TrackingConfidence::Unsupported => "UNSUPPORTED"@,
        }
    }

    pub fn as_str(&self) -> (r: &'static str)
        ensures
            r@ == self.text(),
    {
        match self {
            TrackingConfidence::FullyTracked => "TRACKED",
            TrackingConfidence::LowConfidenceObservation => "LOW_CONFIDENCE_OBSERVATION",
            TrackingConfidence::Degraded => "DEGRADED",
            TrackingConfidence::Unsupported => "UNSUPPORTED",
        }
    }
}

/// Different values have different texts.
pub proof fn tracking_confidence_texts_distinct(a: TrackingConfidence, b: TrackingConfidence)
    requires
        a.text() == b.text(),
    ensures
        a == b,
{
    reveal_strlit("TRACKED");
    reveal_strlit("LOW_CONFIDENCE_OBSERVATION");
    reveal_strlit("DEGRADED");
    reveal_strlit("UNSUPPORTED");
    assert("TRACKED"@.len() == 7);
    assert("LOW_CONFIDENCE_OBSERVATION"@.len() == 26);
    assert("DEGRADED"@.len() == 8);
    assert("UNSUPPORTED"@.len() == 11);
}
#[derive(Clone, Copy, Debug, PartialEq, Eq, Structural)]
pub enum Reversibility {
    FullyReversible,
    PartiallyReversible,
    Unavailable,
    Unsupported,
}

impl Reversibility {
    pub open spec fn text(self) -> Seq<char> {
        match self {
            Reversibility::FullyReversible => "FULLY_REVERSIBLE"@,
            Reversibility::PartiallyReversible => "PARTIALLY_REVERSIBLE"@,
            Reversibility::Unavailable => "UNAVAILABLE"@,
            Reversibility::Unsupported => "UNSUPPORTED"@,
        }
    }

    pub fn as_str(&self) -> (r: &'static str)
        ensures
            r@ == self.text(),
    {
        match self {
            Reversibility::FullyReversible => "FULLY_REVERSIBLE",
            Reversibility::PartiallyReversible => "PARTIALLY_REVERSIBLE",
            Reversibility::Unavailable => "UNAVAILABLE",
            Reversibility::Unsupported => "UNSUPPORTED",
        }
    }
}

/// Different values have different texts.
pub proof fn reversibility_texts_distinct(a: Reversibility, b: Reversibility)
    requires
        a.text() == b.text(),
    ensures
        a == b,
{
    reveal_strlit("FULLY_REVERSIBLE");
    reveal_strlit("PARTIALLY_REVERSIBLE");
    reveal_strlit("UNAVAILABLE");
    reveal_strlit("UNSUPPORTED");
    assert("FULLY_REVERSIBLE"@.len() == 16);
    assert("PARTIALLY_REVERSIBLE"@.len() == 20);
    assert("UNAVAILABLE"@.len() == 11);
    assert("UNSUPPORTED"@.len() == 11);
    assert("UNAVAILABLE"@[2] != "UNSUPPORTED"@[2]);
}
#[derive(Clone, Copy, Debug, PartialEq, Eq, Structural)]
pub enum EffectType {
    Create,
    Modify,
    Delete,
    Rename,
    TypeChange,
}

impl EffectType {
    pub open spec fn text(self) -> Seq<char> {
        match self {
            EffectType::Create => "CREATE"@,
            EffectType::Modify => "MODIFY"@,
            EffectType::Delete => "DELETE"@,
            EffectType::Rename => "RENAME"@,
            EffectType::TypeChange => "TYPE_CHANGE"@,
        }
    }

    pub fn as_str(&self) -> (r: &'static str)
        ensures
            r@ == self.text(),
    {
        match self {
            EffectType::Create => "CREATE",
            EffectType::Modify => "MODIFY",
            EffectType::Delete => "DELETE",
            EffectType::Rename => "RENAME",
            EffectType::TypeChange => "TYPE_CHANGE",
        }
    }
}

/// Different values have different texts.
pub proof fn effect_type_texts_distinct(a: EffectType, b: EffectType)
    requires
        a.text() == b.text(),
    ensures
        a == b,
{
    reveal_strlit("CREATE");
    reveal_strlit("MODIFY");
    reveal_strlit("DELETE");
    reveal_strlit("RENAME");
    reveal_strlit("TYPE_CHANGE");
    assert("CREATE"@.len() == 6);
    assert("MODIFY"@.len() == 6);
    assert("DELETE"@.len() == 6);
    assert("RENAME"@.len() == 6);
    assert("TYPE_CHANGE"@.len() == 11);
    assert("CREATE"@[0] != "MODIFY"@[0]);
    assert("CREATE"@[0] != "DELETE"@[0]);
    assert("CREATE"@[0] != "RENAME"@[0]);
    assert("MODIFY"@[0] != "DELETE"@[0]);
    assert("MODIFY"@[0] != "RENAME"@[0]);
    assert("DELETE"@[0] != "RENAME"@[0]);
}
/// One change that an operation made.
#[derive(Clone, Debug, PartialEq, Eq)]
pub struct Effect {
    pub path: String,
    pub from_path: Option<String>,
    pub effect_type: EffectType,
    pub pre: Fingerprint,
    pub post: Fingerprint,
}

/// An effect with its texts as sequences.
pub struct Change {
    pub path: Seq<char>,
    pub from_path: Option<Seq<char>>,
    pub effect_type: EffectType,
    pub pre: Print,
    pub post: Print,
}

impl View for Effect {
    type V = Change;

    open spec fn view(&self) -> Change {
        Change {
            path: self.path@,
            from_path: text::optional(self.from_path),
            effect_type: self.effect_type,
            pre: self.pre@,
            post: self.post@,
        }
    }
}

/// A recorded operation.
#[derive(Clone, Debug, PartialEq, Eq)]
pub struct OperationRecord {
    pub id: i64,
    pub workspace_id: u128,
    pub kind: OperationKind,
    pub status: OperationStatus,
    pub pre_state_id: Option<String>,
    pub post_state_id: Option<String>,
    pub command: Option<String>,
    pub cwd: Option<String>,
    pub exit_code: Option<i32>,
    pub confidence: TrackingConfidence,
    pub reversibility: Reversibility,
    pub error: Option<String>,
    pub created_at: i64,
    pub effects: Vec<Effect>,
}

impl View for OperationRecord {
    type V = OperationRecord;

    open spec fn view(&self) -> OperationRecord {
        *self
    }
}

/// Operations are ordered by the time of their record, and by id where that is
/// the same.
impl Ranked for OperationRecord {
    open spec fn before(a: OperationRecord, b: OperationRecord) -> bool {
        a.created_at < b.created_at || (a.created_at == b.created_at && a.id < b.id)
    }

    fn is_before(&self, other: &Self) -> (r: bool) {
        self.created_at < other.created_at || (self.created_at == other.created_at && self.id
            < other.id)
    }

    proof fn irreflexive(a: OperationRecord) {
    }

    proof fn transitive(a: OperationRecord, b: OperationRecord, c: OperationRecord) {
    }

    proof fn negatively_transitive(a: OperationRecord, b: OperationRecord, c: OperationRecord) {
    }
}

#[derive(Clone, Copy, Debug, PartialEq, Eq, Structural)]
pub enum JournalStatus {
    Planned,
    Prepared,
    Applying,
    Applied,
    Durable,
    Committed,
    RecoveryRequired,
    Abandoned,
}

impl JournalStatus {
    pub open spec fn text(self) -> Seq<char> {
        match self {
            JournalStatus::Planned => "PLANNED"@,
            JournalStatus::Prepared => "PREPARED"@,
            JournalStatus::Applying => "APPLYING"@,
            JournalStatus::Applied => "APPLIED"@,
            JournalStatus::Durable => "DURABLE"@,
            JournalStatus::Committed => "COMMITTED"@,
            JournalStatus::RecoveryRequired => "RECOVERY_REQUIRED"@,
            JournalStatus::Abandoned => "ABANDONED"@,
        }
    }

    pub fn as_str(&self) -> (r: &'static str)
        ensures
            r@ == self.text(),
    {
        match self {
            JournalStatus::Planned => "PLANNED",
            JournalStatus::Prepared => "PREPARED",
            JournalStatus::Applying => "APPLYING",
            JournalStatus::Applied => "APPLIED",
            JournalStatus::Durable => "DURABLE",
            JournalStatus::Committed => "COMMITTED",
            JournalStatus::RecoveryRequired => "RECOVERY_REQUIRED",
            JournalStatus::Abandoned => "ABANDONED",
        }
    }
}

/// Different values have different texts.
pub proof fn journal_status_texts_distinct(a: JournalStatus, b: JournalStatus)
    requires
        a.text() == b.text(),
    ensures
        a == b,
{
    reveal_strlit("PLANNED");
    reveal_strlit("PREPARED");
    reveal_strlit("APPLYING");
    reveal_strlit("APPLIED");
    reveal_strlit("DURABLE");
    reveal_strlit("COMMITTED");
    reveal_strlit("RECOVERY_REQUIRED");
    reveal_strlit("ABANDONED");
    assert("PLANNED"@.len() == 7);
    assert("PREPARED"@.len() == 8);
    assert("APPLYING"@.len() == 8);
    assert("APPLIED"@.len() == 7);
    assert("DURABLE"@.len() == 7);
    assert("COMMITTED"@.len() == 9);
    assert("RECOVERY_REQUIRED"@.len() == 17);
    assert("ABANDONED"@.len() == 9);
    assert("PLANNED"@[0] != "APPLIED"@[0]);
    assert("PLANNED"@[0] != "DURABLE"@[0]);
    assert("PREPARED"@[0] != "APPLYING"@[0]);
    assert("APPLIED"@[0] != "DURABLE"@[0]);
    assert("COMMITTED"@[0] != "ABANDONED"@[0]);
}
impl JournalStatus {
    pub open spec fn terminal(self) -> bool {
        self == JournalStatus::Committed || self == JournalStatus::Abandoned
    }

    /// A transaction that is committed is finished, and so is one that was
    /// given up explicitly and absorbed by a reconciliation checkpoint.
    pub fn is_terminal(&self) -> (r: bool)
        ensures
            r == self.terminal(),
    {
        match self {
            JournalStatus::Committed => true,
            JournalStatus::Abandoned => true,
            _ => false,
        }
    }
}

#[derive(Clone, Copy, Debug, PartialEq, Eq, Structural)]
pub enum ArchiveStatus {
    NotRequired,
    Pending,
    Archived,
    Failed,
}

impl Default for ArchiveStatus {
    fn default() -> (r: Self)
        ensures
            r == ArchiveStatus::NotRequired,
    {
        ArchiveStatus::NotRequired
    }
}

/// One step of a rollback: what its paths hold before it and after it.
#[derive(Debug, PartialEq, Eq)]
pub struct JournalStep {
    pub id: usize,
    pub paths: Vec<String>,
    pub before: Table<Fingerprint>,
    pub after: Table<Fingerprint>,
    pub backup_path: Option<String>,
    pub staging_path: Option<String>,
    pub status: JournalStatus,
}

/// The record of a rollback transaction.
#[derive(Debug, PartialEq, Eq)]
pub struct Journal {
    pub transaction_id: u128,
    pub workspace_id: u128,
    pub operation_id: Option<i64>,
    pub anchor_state_id: String,
    pub target_state_id: String,
    pub direction: String,
    pub status: JournalStatus,
    pub steps: Vec<JournalStep>,
    pub archive_status: ArchiveStatus,
    pub archive_error: Option<String>,
}

#[derive(Clone, Debug, PartialEq, Eq)]
pub struct WorkspacePointer {
    pub workspace_id: u128,
    pub root: String,
    pub store_root: String,
    pub schema_version: u32,
}

// ---------------------------------------------------------------------------
// What the calls promise
// ---------------------------------------------------------------------------

/// What a manifest says of a path is what it lists there, and nothing where it
/// lists none; two manifests are the same exactly when they say the same of
/// every path.
pub proof fn a_manifest_says_what_it_lists(m: Manifest, path: &str, found: Fingerprint)
    requires
        call_ensures(Manifest::get, (&m, path), found),
    ensures
        found@ == if m@.contains_key(path@) {
            m@[path@]
        } else {
            Print::Absent
        },
{
}

/// Only an object that cannot be restored is not supported: a file, a directory,
/// a link, a pipe and an empty path all are.
pub proof fn only_the_unsupported_cannot_be_restored(f: Fingerprint, r: bool)
    requires
        call_ensures(Fingerprint::is_supported_for_restore, (&f,), r),
    ensures
        r == !(f is Unsupported),
{
}

/// Manifests that say the same have the same identity.
pub proof fn one_state_has_one_identity(a: Manifest, b: Manifest, same: bool, x: Result<String>, y: Result<String>)
    requires
        call_ensures(Manifest::same, (&a, &b), same),
        call_ensures(Manifest::state_id, (&a,), x),
        call_ensures(Manifest::state_id, (&b,), y),
    ensures
        x is Ok,
        y is Ok,
        same == (a@ == b@),
        same ==> x->Ok_0@ == y->Ok_0@,
{
}

/// Two fingerprints are the same exactly when they are of one kind and agree in
/// everything that is recorded, the metadata too.
pub proof fn fingerprints_agree_in_everything(a: Fingerprint, b: Fingerprint, r: bool)
    requires
        call_ensures(Fingerprint::same, (&a, &b), r),
    ensures
        r ==> match a {
            Fingerprint::Absent => b is Absent,
            Fingerprint::RegularFile { content_hash, size, metadata } => b is RegularFile
                && b->RegularFile_content_hash@ == content_hash@ && b->RegularFile_size == size
                && b->RegularFile_metadata == metadata,
            Fingerprint::Directory { manifest_hash, entry_count, metadata } => b is Directory
                && b->Directory_manifest_hash@ == manifest_hash@ && b->Directory_entry_count == entry_count
                && b->Directory_metadata == metadata,
            Fingerprint::Symlink { target, target_kind, target_hash, metadata } => b is Symlink
                && b->Symlink_target@ == target@ && b->Symlink_target_kind == target_kind
                && b->Symlink_target_hash@ == target_hash@ && b->Symlink_metadata == metadata,
            Fingerprint::NamedPipe { metadata } => b is NamedPipe && b->NamedPipe_metadata == metadata,
            Fingerprint::Unsupported { object_kind, descriptor } => b is Unsupported
                && b->Unsupported_object_kind@ == object_kind@ && b->Unsupported_descriptor@ == descriptor@,
        },
        a == b ==> r,
{
}

}
