//! The canonical form of a manifest names it: no two manifests share a text.

use vstd::prelude::*;
use vstd::string::*;
use vstd::utf8::*;

use crate::model::{
    canonical_text, member_json, members_json, metadata_json, print_json, table_json, Fingerprint, Manifest,
    MetadataFingerprint, Print, SymlinkTargetKind, STATE_SCHEMA_VERSION,
};
use crate::outside::{json_text, json_text_prefix};
use crate::table::{firsts, listed, table_listed, Table};
use crate::text::{decimal, decimal_denotes, decimal_injective, is_digit};

verus! {

proof fn cut(head: Seq<char>, x: Seq<char>, y: Seq<char>)
    requires
        head + x == head + y,
    ensures
        x == y,
{
    assert((head + x).skip(head.len() as int) =~= x);
    assert((head + y).skip(head.len() as int) =~= y);
}

/// A text that begins with something other than a digit.
spec fn opens(s: Seq<char>) -> bool {
    s.len() > 0 && !is_digit(s[0])
}

proof fn decimal_ends(n: nat, m: nat, x: Seq<char>, y: Seq<char>)
    requires
        decimal(n) + x == decimal(m) + y,
        opens(x),
        opens(y),
    ensures
        n == m,
        x == y,
{
    decimal_denotes(n);
    decimal_denotes(m);
    let p = decimal(n) + x;
    let q = decimal(m) + y;
    let a = decimal(n).len() as int;
    let b = decimal(m).len() as int;
    if a < b {
        assert(p[a] == x[0]);
        assert(q[a] == decimal(m)[a]);
    } else if b < a {
        assert(q[b] == y[0]);
        assert(p[b] == decimal(n)[b]);
    }
    assert(p.take(a) =~= decimal(n));
    assert(q.take(b) =~= decimal(m));
    decimal_injective(n, m);
    cut(decimal(n), x, y);
}

spec fn mode_json(mode: Option<u32>) -> Seq<char> {
    match mode {
        Some(mode) => decimal(mode as nat),
        None => "null"@,
    }
}

spec fn bool_json(b: bool) -> Seq<char> {
    if b {
        "true"@
    } else {
        "false"@
    }
}

proof fn metadata_ends(a: MetadataFingerprint, b: MetadataFingerprint, x: Seq<char>, y: Seq<char>)
    requires
        metadata_json(a) + x == metadata_json(b) + y,
    ensures
        a == b,
        x == y,
{
    reveal_strlit("{\"mode\":");
    reveal_strlit("null");
    reveal_strlit(",\"readonly\":");
    reveal_strlit("true");
    reveal_strlit("false");
    reveal_strlit("}");
    let u = ",\"readonly\":"@ + (bool_json(a.readonly) + ("}"@ + x));
    let v = ",\"readonly\":"@ + (bool_json(b.readonly) + ("}"@ + y));
    assert(metadata_json(a) + x =~= "{\"mode\":"@ + (mode_json(a.mode) + u));
    assert(metadata_json(b) + y =~= "{\"mode\":"@ + (mode_json(b.mode) + v));
    cut("{\"mode\":"@, mode_json(a.mode) + u, mode_json(b.mode) + v);
    match (a.mode, b.mode) {
        (Some(m), Some(n)) => {
            decimal_ends(m as nat, n as nat, u, v);
        },
        (None, None) => {
            cut("null"@, u, v);
        },
        (Some(m), None) => {
            decimal_denotes(m as nat);
            assert((mode_json(a.mode) + u)[0] == decimal(m as nat)[0]);
            assert((mode_json(b.mode) + v)[0] == 'n');
        },
        (None, Some(n)) => {
            decimal_denotes(n as nat);
            assert((mode_json(b.mode) + v)[0] == decimal(n as nat)[0]);
            assert((mode_json(a.mode) + u)[0] == 'n');
        },
    }
    let r = bool_json(a.readonly) + ("}"@ + x);
    let s = bool_json(b.readonly) + ("}"@ + y);
    cut(",\"readonly\":"@, r, s);
    assert(r[0] == bool_json(a.readonly)[0]);
    assert(s[0] == bool_json(b.readonly)[0]);
    cut(bool_json(a.readonly), "}"@ + x, "}"@ + y);
    cut("}"@, x, y);
}

proof fn target_kind_ends(a: SymlinkTargetKind, b: SymlinkTargetKind, x: Seq<char>, y: Seq<char>)
    requires
        a.text() + x == b.text() + y,
    ensures
        a == b,
        x == y,
{
    reveal_strlit("file");
    reveal_strlit("directory");
    reveal_strlit("unknown");
    assert((a.text() + x)[0] == a.text()[0]);
    assert((b.text() + y)[0] == b.text()[0]);
    cut(a.text(), x, y);
}

/// What stands before the first value of a fingerprint's object.
spec fn head_of(p: Print) -> Seq<char> {
    match p {
        Print::Absent => "{\"kind\":\"Absent\"}"@,
        Print::RegularFile { .. } => "{\"kind\":\"RegularFile\",\"value\":{\"content_hash\":"@,
        Print::Directory { .. } => "{\"kind\":\"Directory\",\"value\":{\"manifest_hash\":"@,
        Print::Symlink { .. } => "{\"kind\":\"Symlink\",\"value\":{\"target\":"@,
        Print::NamedPipe { .. } => "{\"kind\":\"NamedPipe\",\"value\":{\"metadata\":"@,
        Print::Unsupported { .. } => "{\"kind\":\"Unsupported\",\"value\":{\"object_kind\":"@,
    }
}

/// What stands after it, up to the end and on.
spec fn tail_of(p: Print, x: Seq<char>) -> Seq<char> {
    match p {
        Print::Absent => x,
        Print::RegularFile { content_hash, size, metadata } => sized_tail(
            ",\"size\":"@,
            content_hash,
            size,
            metadata,
            x,
        ),
        Print::Directory { manifest_hash, entry_count, metadata } => sized_tail(
            ",\"entry_count\":"@,
            manifest_hash,
            entry_count,
            metadata,
            x,
        ),
        Print::Symlink { target, target_kind, target_hash, metadata } => json_text(target) + (
        ",\"target_kind\":\""@ + (target_kind.text() + ("\",\"target_hash\":"@ + (json_text(target_hash) + (
        ",\"metadata\":"@ + (metadata_json(metadata) + ("}}"@ + x))))))),
        Print::NamedPipe { metadata } => metadata_json(metadata) + ("}}"@ + x),
        Print::Unsupported { object_kind, descriptor } => json_text(object_kind) + (",\"descriptor\":"@ + (
        json_text(descriptor) + ("}}"@ + x))),
    }
}

spec fn sized_tail(label: Seq<char>, hash: Seq<char>, n: u64, m: MetadataFingerprint, x: Seq<char>) -> Seq<char> {
    json_text(hash) + (label + (decimal(n as nat) + (",\"metadata\":"@ + (metadata_json(m) + ("}}"@ + x)))))
}

/// Grouping does not matter.
proof fn assoc(a: Seq<char>, b: Seq<char>, c: Seq<char>)
    ensures
        (a + b) + c == a + (b + c),
{
    assert((a + b) + c =~= a + (b + c));
}

/// A text of seven parts, grouped from the right.
proof fn regroup(
    a: Seq<char>,
    b: Seq<char>,
    c: Seq<char>,
    d: Seq<char>,
    e: Seq<char>,
    f: Seq<char>,
    g: Seq<char>,
    x: Seq<char>,
)
    ensures
        a + b + c + d + e + f + g + x == a + (b + (c + (d + (e + (f + (g + x)))))),
{
    assoc(a + b + c + d + e + f, g, x);
    assoc(a + b + c + d + e, f, g + x);
    assoc(a + b + c + d, e, f + (g + x));
    assoc(a + b + c, d, e + (f + (g + x)));
    assoc(a + b, c, d + (e + (f + (g + x))));
    assoc(a, b, c + (d + (e + (f + (g + x)))));
}

proof fn print_unfolds(p: Print, x: Seq<char>)
    ensures
        print_json(p) + x == head_of(p) + tail_of(p, x),
{
    let close = "}}"@;
    let meta = ",\"metadata\":"@;
    match p {
        Print::Absent => {},
        Print::RegularFile { content_hash, size, metadata } => {
            regroup(
                head_of(p),
                json_text(content_hash),
                ",\"size\":"@,
                decimal(size as nat),
                meta,
                metadata_json(metadata),
                close,
                x,
            );
        },
        Print::Directory { manifest_hash, entry_count, metadata } => {
            regroup(
                head_of(p),
                json_text(manifest_hash),
                ",\"entry_count\":"@,
                decimal(entry_count as nat),
                meta,
                metadata_json(metadata),
                close,
                x,
            );
        },
        Print::Symlink { target, target_kind, target_hash, metadata } => {
            let m = metadata_json(metadata);
            let start = head_of(p) + json_text(target) + ",\"target_kind\":\""@ + target_kind.text()
                + "\",\"target_hash\":"@ + json_text(target_hash) + meta;
            assoc(start + m, close, x);
            assoc(start, m, close + x);
            regroup(
                head_of(p),
                json_text(target),
                ",\"target_kind\":\""@,
                target_kind.text(),
                "\",\"target_hash\":"@,
                json_text(target_hash),
                meta,
                m + (close + x),
            );
        },
        Print::NamedPipe { metadata } => {
            assoc(head_of(p) + metadata_json(metadata), close, x);
            assoc(head_of(p), metadata_json(metadata), close + x);
        },
        Print::Unsupported { object_kind, descriptor } => {
            let k = json_text(object_kind);
            let d = json_text(descriptor);
            let label = ",\"descriptor\":"@;
            assoc(head_of(p) + k + label + d, close, x);
            assoc(head_of(p) + k + label, d, close + x);
            assoc(head_of(p) + k, label, d + (close + x));
            assoc(head_of(p), k, label + (d + (close + x)));
        },
    }
}

/// The letter that tells the kinds apart.
spec fn mark_of(p: Print) -> char {
    match p {
        Print::Absent => 'A',
        Print::RegularFile { .. } => 'R',
        Print::Directory { .. } => 'D',
        Print::Symlink { .. } => 'S',
        Print::NamedPipe { .. } => 'N',
        Print::Unsupported { .. } => 'U',
    }
}

proof fn head_marks(p: Print)
    ensures
        head_of(p).len() > 9,
        head_of(p)[9] == mark_of(p),
{
    match p {
        Print::Absent => reveal_strlit("{\"kind\":\"Absent\"}"),
        Print::RegularFile { .. } => reveal_strlit("{\"kind\":\"RegularFile\",\"value\":{\"content_hash\":"),
        Print::Directory { .. } => reveal_strlit("{\"kind\":\"Directory\",\"value\":{\"manifest_hash\":"),
        Print::Symlink { .. } => reveal_strlit("{\"kind\":\"Symlink\",\"value\":{\"target\":"),
        Print::NamedPipe { .. } => reveal_strlit("{\"kind\":\"NamedPipe\",\"value\":{\"metadata\":"),
        Print::Unsupported { .. } => reveal_strlit("{\"kind\":\"Unsupported\",\"value\":{\"object_kind\":"),
    }
}

proof fn heads_differ(a: Print, b: Print, x: Seq<char>, y: Seq<char>)
    requires
        print_json(a) + x == print_json(b) + y,
    ensures
        mark_of(a) == mark_of(b),
        tail_of(a, x) == tail_of(b, y),
{
    print_unfolds(a, x);
    print_unfolds(b, y);
    head_marks(a);
    head_marks(b);
    let p = head_of(a) + tail_of(a, x);
    assert(p[9] == head_of(a)[9]);
    assert((head_of(b) + tail_of(b, y))[9] == head_of(b)[9]);
    assert(head_of(a) == head_of(b));
    cut(head_of(a), tail_of(a, x), tail_of(b, y));
}

proof fn metadata_tail_ends(m: MetadataFingerprint, x: Seq<char>, o: MetadataFingerprint, y: Seq<char>)
    requires
        metadata_json(m) + ("}}"@ + x) == metadata_json(o) + ("}}"@ + y),
    ensures
        m == o,
        x == y,
{
    metadata_ends(m, o, "}}"@ + x, "}}"@ + y);
    cut("}}"@, x, y);
}

proof fn sized_ends(
    label: Seq<char>,
    h: Seq<char>,
    n: u64,
    m: MetadataFingerprint,
    x: Seq<char>,
    g: Seq<char>,
    k: u64,
    o: MetadataFingerprint,
    y: Seq<char>,
)
    requires
        sized_tail(label, h, n, m, x) == sized_tail(label, g, k, o, y),
    ensures
        h == g,
        n == k,
        m == o,
        x == y,
{
    reveal_strlit(",\"metadata\":");
    let a1 = metadata_json(m) + ("}}"@ + x);
    let b1 = metadata_json(o) + ("}}"@ + y);
    let a2 = ",\"metadata\":"@ + a1;
    let b2 = ",\"metadata\":"@ + b1;
    json_text_prefix(h, g, label + (decimal(n as nat) + a2), label + (decimal(k as nat) + b2));
    cut(label, decimal(n as nat) + a2, decimal(k as nat) + b2);
    assert(a2[0] == ',' && b2[0] == ',');
    decimal_ends(n as nat, k as nat, a2, b2);
    cut(",\"metadata\":"@, a1, b1);
    metadata_tail_ends(m, x, o, y);
}

proof fn symlink_ends(a: Print, b: Print, x: Seq<char>, y: Seq<char>)
    requires
        a is Symlink,
        b is Symlink,
        tail_of(a, x) == tail_of(b, y),
    ensures
        a == b,
        x == y,
{
    match (a, b) {
        (
            Print::Symlink { target: t, target_kind: k, target_hash: h, metadata: m },
            Print::Symlink { target: u, target_kind: l, target_hash: g, metadata: o },
        ) => {
            let a1 = metadata_json(m) + ("}}"@ + x);
            let b1 = metadata_json(o) + ("}}"@ + y);
            let a2 = json_text(h) + (",\"metadata\":"@ + a1);
            let b2 = json_text(g) + (",\"metadata\":"@ + b1);
            let a3 = k.text() + ("\",\"target_hash\":"@ + a2);
            let b3 = l.text() + ("\",\"target_hash\":"@ + b2);
            json_text_prefix(t, u, ",\"target_kind\":\""@ + a3, ",\"target_kind\":\""@ + b3);
            cut(",\"target_kind\":\""@, a3, b3);
            target_kind_ends(k, l, "\",\"target_hash\":"@ + a2, "\",\"target_hash\":"@ + b2);
            cut("\",\"target_hash\":"@, a2, b2);
            json_text_prefix(h, g, ",\"metadata\":"@ + a1, ",\"metadata\":"@ + b1);
            cut(",\"metadata\":"@, a1, b1);
            metadata_tail_ends(m, x, o, y);
        },
        _ => {},
    }
}

proof fn print_ends(a: Print, b: Print, x: Seq<char>, y: Seq<char>)
    requires
        print_json(a) + x == print_json(b) + y,
    ensures
        a == b,
        x == y,
{
    heads_differ(a, b, x, y);
    match (a, b) {
        (
            Print::RegularFile { content_hash: h, size: n, metadata: m },
            Print::RegularFile { content_hash: g, size: k, metadata: o },
        ) => {
            sized_ends(",\"size\":"@, h, n, m, x, g, k, o, y);
        },
        (
            Print::Directory { manifest_hash: h, entry_count: n, metadata: m },
            Print::Directory { manifest_hash: g, entry_count: k, metadata: o },
        ) => {
            sized_ends(",\"entry_count\":"@, h, n, m, x, g, k, o, y);
        },
        (Print::Symlink { .. }, Print::Symlink { .. }) => {
            symlink_ends(a, b, x, y);
        },
        (Print::NamedPipe { metadata: m }, Print::NamedPipe { metadata: o }) => {
            metadata_tail_ends(m, x, o, y);
        },
        (
            Print::Unsupported { object_kind: k, descriptor: d },
            Print::Unsupported { object_kind: l, descriptor: e },
        ) => {
            let a1 = json_text(d) + ("}}"@ + x);
            let b1 = json_text(e) + ("}}"@ + y);
            json_text_prefix(k, l, ",\"descriptor\":"@ + a1, ",\"descriptor\":"@ + b1);
            cut(",\"descriptor\":"@, a1, b1);
            json_text_prefix(d, e, "}}"@ + x, "}}"@ + y);
            cut("}}"@, x, y);
        },
        _ => {},
    }
}

proof fn member_ends(a: (Seq<char>, Print), b: (Seq<char>, Print), x: Seq<char>, y: Seq<char>)
    requires
        member_json(a) + x == member_json(b) + y,
    ensures
        a == b,
        x == y,
{
    assert(member_json(a) + x =~= json_text(a.0) + (":"@ + (print_json(a.1) + x)));
    assert(member_json(b) + y =~= json_text(b.0) + (":"@ + (print_json(b.1) + y)));
    json_text_prefix(a.0, b.0, ":"@ + (print_json(a.1) + x), ":"@ + (print_json(b.1) + y));
    cut(":"@, print_json(a.1) + x, print_json(b.1) + y);
    print_ends(a.1, b.1, x, y);
}

proof fn members_front(rows: Seq<(Seq<char>, Print)>)
    requires
        rows.len() >= 2,
    ensures
        members_json(rows) == member_json(rows[0]) + (","@ + members_json(rows.drop_first())),
    decreases rows.len(),
{
    if rows.len() == 2 {
        assert(rows.drop_last()[0] == rows[0]);
        assert(rows.drop_first()[0] == rows.last());
        assert(members_json(rows.drop_last()) == member_json(rows[0]));
        assert(members_json(rows.drop_first()) == member_json(rows.last()));
        assert(members_json(rows) =~= member_json(rows[0]) + (","@ + members_json(rows.drop_first())));
    } else {
        let inner = rows.drop_first();
        members_front(rows.drop_last());
        assert(rows.drop_last().drop_first() =~= inner.drop_last());
        assert(inner.last() == rows.last());
        assert(rows.drop_last()[0] == rows[0]);
        let first = member_json(rows[0]);
        let middle = members_json(inner.drop_last());
        let last = member_json(rows.last());
        assert(members_json(inner) == middle + ","@ + last);
        assert(members_json(rows) == (first + (","@ + middle)) + ","@ + last);
        assert((first + (","@ + middle)) + ","@ + last =~= first + (","@ + (middle + ","@ + last)));
    }
}

proof fn members_end(a: Seq<(Seq<char>, Print)>, b: Seq<(Seq<char>, Print)>, x: Seq<char>, y: Seq<char>)
    requires
        members_json(a) + ("}"@ + x) == members_json(b) + ("}"@ + y),
    ensures
        a == b,
        x == y,
    decreases a.len(),
{
    reveal_strlit("}");
    reveal_strlit(",");
    let p = members_json(a) + ("}"@ + x);
    let q = members_json(b) + ("}"@ + y);
    if a.len() == 0 || b.len() == 0 {
        if a.len() > 0 {
            if a.len() > 1 {
                members_front(a);
            }
            assert(members_json(a)[0] == json_text(a[0].0)[0]);
            assert(p[0] == '"');
            assert(q[0] == '}');
        } else if b.len() > 0 {
            if b.len() > 1 {
                members_front(b);
            }
            assert(members_json(b)[0] == json_text(b[0].0)[0]);
            assert(q[0] == '"');
            assert(p[0] == '}');
        } else {
            assert(p =~= "}"@ + x);
            assert(q =~= "}"@ + y);
            cut("}"@, x, y);
            assert(a =~= b);
        }
    } else {
        let u = if a.len() == 1 {
            "}"@ + x
        } else {
            ","@ + (members_json(a.drop_first()) + ("}"@ + x))
        };
        let v = if b.len() == 1 {
            "}"@ + y
        } else {
            ","@ + (members_json(b.drop_first()) + ("}"@ + y))
        };
        if a.len() > 1 {
            members_front(a);
        }
        if b.len() > 1 {
            members_front(b);
        }
        assert(p =~= member_json(a[0]) + u);
        assert(q =~= member_json(b[0]) + v);
        member_ends(a[0], b[0], u, v);
        assert(u[0] == v[0]);
        if a.len() == 1 {
            assert(b.len() == 1);
            cut("}"@, x, y);
            assert(a =~= b);
        } else {
            assert(b.len() > 1);
            cut(","@, members_json(a.drop_first()) + ("}"@ + x), members_json(b.drop_first()) + ("}"@ + y));
            members_end(a.drop_first(), b.drop_first(), x, y);
            assert(a =~= seq![a[0]] + a.drop_first());
            assert(b =~= seq![b[0]] + b.drop_first());
        }
    }
}

/// Two tables that list the same rows hold the same.
proof fn same_rows(a: Table<Fingerprint>, b: Table<Fingerprint>)
    requires
        a.ordered(),
        b.ordered(),
        listed(a@) == listed(b@),
    ensures
        a@ == b@,
{
    table_listed(a);
    table_listed(b);
    let s = listed(a@);
    assert forall|k: Seq<char>| #[trigger] a@.contains_key(k) implies a@[k] == b@[k] by {
        assert(firsts(s).contains(k));
        let i = choose|i: int| 0 <= i < firsts(s).len() && firsts(s)[i] == k;
        assert(s[i].0 == k);
    }
    assert(a@ =~= b@);
}

proof fn same_bytes(a: Seq<char>, b: Seq<char>)
    requires
        encode_utf8(a) == encode_utf8(b),
    ensures
        a == b,
{
    encode_utf8_decode_utf8(a);
    encode_utf8_decode_utf8(b);
}

/// The digested bytes of a directory say which children it has: equal bytes
/// stand for equal children.
pub proof fn directory_bytes_name_the_children(a: Table<Fingerprint>, b: Table<Fingerprint>)
    requires
        a.ordered(),
        b.ordered(),
        encode_utf8(table_json(a@)) == encode_utf8(table_json(b@)),
    ensures
        a@ == b@,
{
    same_bytes(table_json(a@), table_json(b@));
    let p = members_json(listed(a@)) + ("}"@ + Seq::empty());
    let q = members_json(listed(b@)) + ("}"@ + Seq::empty());
    assert(table_json(a@) =~= "{"@ + p);
    assert(table_json(b@) =~= "{"@ + q);
    cut("{"@, p, q);
    members_end(listed(a@), listed(b@), Seq::empty(), Seq::empty());
    same_rows(a, b);
}

/// The canonical bytes say everything: manifests with the same bytes are the
/// same, so one state id stands for two states only where the digest collides.
pub proof fn canonical_bytes_name_the_state(a: Manifest, b: Manifest)
    requires
        a.entries.ordered(),
        b.entries.ordered(),
        encode_utf8(canonical_text(a@)) == encode_utf8(canonical_text(b@)),
    ensures
        a@ == b@,
{
    same_bytes(canonical_text(a@), canonical_text(b@));
    let head = "{\"schema_version\":"@ + decimal(STATE_SCHEMA_VERSION as nat) + ",\"entries\":"@ + "{"@;
    let p = members_json(listed(a@)) + ("}"@ + "}"@);
    let q = members_json(listed(b@)) + ("}"@ + "}"@);
    assert(canonical_text(a@) =~= head + p);
    assert(canonical_text(b@) =~= head + q);
    cut(head, p, q);
    members_end(listed(a@), listed(b@), "}"@, "}"@);
    same_rows(a.entries, b.entries);
}

// ---------------------------------------------------------------------------
// What the calls promise
// ---------------------------------------------------------------------------

/// The identity of a state is the digest of its canonical bytes, and two
/// manifests have the same bytes exactly when they say the same.
pub proof fn a_state_is_named_by_all_it_holds(
    a: Manifest,
    b: Manifest,
    x: crate::error::Result<Vec<u8>>,
    y: crate::error::Result<Vec<u8>>,
    id: crate::error::Result<String>,
)
    requires
        a.entries.ordered(),
        b.entries.ordered(),
        call_ensures(Manifest::canonical_bytes, (&a,), x),
        call_ensures(Manifest::canonical_bytes, (&b,), y),
        call_ensures(Manifest::state_id, (&a,), id),
    ensures
        x is Ok,
        y is Ok,
        (x->Ok_0@ == y->Ok_0@) == (a@ == b@),
        id is Ok,
        id->Ok_0@ == crate::outside::blake3_hex(x->Ok_0@),
{
    if x->Ok_0@ == y->Ok_0@ {
        canonical_bytes_name_the_state(a, b);
    }
}

/// A directory is recorded with its metadata and the number of its entries, and
/// with the digest of bytes that differ where the entries do.
pub proof fn a_directory_is_named_by_its_entries(
    a: Table<Fingerprint>,
    b: Table<Fingerprint>,
    metadata: crate::model::MetadataFingerprint,
    r: crate::error::Result<Fingerprint>,
)
    requires
        a.ordered(),
        b.ordered(),
        call_ensures(Fingerprint::directory_from_children, (&a, metadata), r),
    ensures
        r is Ok,
        r->Ok_0@ is Directory,
        r->Ok_0@->Directory_metadata == metadata,
        r->Ok_0@->Directory_entry_count == a.rows().len() as u64,
        r->Ok_0@->Directory_manifest_hash == crate::outside::blake3_hex(encode_utf8(table_json(a@))),
        a@ != b@ ==> encode_utf8(table_json(a@)) != encode_utf8(table_json(b@)),
{
    crate::table::table_listed(a);
    assert(listed(a@).len() == a.rows().len());
    if encode_utf8(table_json(a@)) == encode_utf8(table_json(b@)) {
        directory_bytes_name_the_children(a, b);
    }
}

} // verus!
