//! Scans, fingerprints and the identity of states.

use rewind::error::RewindError;
use rewind::model::{
    EffectType, Fingerprint, Manifest, MetadataFingerprint, SymlinkTargetKind,
    STATE_SCHEMA_VERSION,
};
use rewind::paths::{Place, Platform};
use rewind::scan::{
    capture, changed_paths, classify_symlink_target_kind, diff_manifests, link_way, manifest_fingerprint,
    metadata_fingerprint, read_tag, reparse_symlink_kind, reparse_unsupported_fingerprint,
    scan_fingerprint_at, scan_root, scan_workspace, symlink_kind, Directory, Entry, FileRead,
    Filesystem, LinkRead, Node, ScanOptions, IO_REPARSE_TAG_MOUNT_POINT, IO_REPARSE_TAG_SYMLINK,
};

const EXACT: Filesystem = Filesystem {
    platform: Platform::Posix,
    folds_case: false,
};
const FOLDING: Filesystem = Filesystem {
    platform: Platform::Posix,
    folds_case: true,
};

fn plain() -> MetadataFingerprint {
    metadata_fingerprint(Some(0o644), false)
}

fn hashed(bytes: &[u8]) -> Node {
    Node::File {
        read: FileRead::Read {
            content_hash: blake3::hash(bytes).to_hex().to_string(),
            size: bytes.len() as u64,
        },
        metadata: plain(),
    }
}

fn entry(name: &str, node: Node) -> Entry {
    Entry {
        name: name.to_owned(),
        unicode: true,
        late: false,
        node,
    }
}

fn folder(entries: Vec<Entry>) -> Directory {
    Directory::new(false, None, entries, Ok(metadata_fingerprint(Some(0o755), false)))
}

fn link(target: &str, kind: SymlinkTargetKind) -> Node {
    Node::Symlink {
        read: LinkRead::Read {
            target: target.to_owned(),
            target_kind: kind,
        },
        metadata: plain(),
    }
}

fn pipe(mode: u32) -> Node {
    Node::NamedPipe {
        metadata: metadata_fingerprint(Some(mode), false),
    }
}

fn special_objects(content: &[u8]) -> Directory {
    folder(vec![
        entry("pipe", pipe(0o600)),
        entry("file.txt", hashed(content)),
        entry("nested", Node::Directory(folder(vec![entry("inner.txt", hashed(b"INNER"))]))),
        entry(
            "deep",
            Node::Directory(folder(vec![entry(
                "deeper",
                Node::Directory(folder(vec![entry("leaf", hashed(b"LEAF"))])),
            )])),
        ),
        entry("link.txt", link("file.txt", SymlinkTargetKind::File)),
        entry("runtime.sock", Node::Socket { length: 0 }),
        entry(".rewind", Node::Directory(folder(vec![entry("workspace.json", hashed(b"{}"))]))),
    ])
}

/// The object at a path of a tree, taken out of it.
fn at(directory: Directory, path: &str) -> Option<Node> {
    let mut node = Node::Directory(directory);
    for name in path.split('/') {
        let Node::Directory(inner) = node else {
            return None;
        };
        node = inner.entries.into_iter().find(|e| e.name == name)?.node;
    }
    Some(node)
}

#[test]
fn path_scoped_fingerprints_match_the_full_scan() {
    let manifest = scan_workspace("/ws", &special_objects(b"CONTENT"), EXACT)
        .expect("scan")
        .manifest;
    let mut paths: Vec<String> = (0..manifest.entries.len())
        .map(|i| manifest.entries.key(i).clone())
        .collect();
    assert_eq!(paths.len(), 9);
    // Absent paths are part of the contract too, at several depths.
    paths.push("missing.txt".to_owned());
    paths.push("nested/missing.txt".to_owned());
    paths.push("deep/deeper/missing.txt".to_owned());
    for path in &paths {
        let full = manifest.get(path);
        let node = at(special_objects(b"CONTENT"), path);
        let scoped =
            scan_fingerprint_at(&format!("/ws/{path}"), path, &node, EXACT).expect("scoped scan");
        assert_eq!(
            full, scoped,
            "path-scoped fingerprint diverged from the full scan for {path}"
        );
    }

    let root_scoped = scan_root("/ws", &special_objects(b"CONTENT"), EXACT).expect("root scan");
    match &root_scoped {
        Fingerprint::Directory { entry_count, .. } => {
            let top_level = paths[..9].iter().filter(|key| !key.contains('/')).count();
            assert_eq!(
                entry_count,
                &(top_level as u64),
                "the root's scoped walk must see exactly the manifest's top level"
            );
        }
        other => panic!(
            "root scoped scan must be a directory, got {}",
            other.kind_name()
        ),
    }

    let node = at(special_objects(b"CHANGED"), "file.txt");
    let changed = scan_fingerprint_at("/ws/file.txt", "file.txt", &node, EXACT).expect("scan");
    match (&manifest.get("file.txt"), &changed) {
        (
            Fingerprint::RegularFile {
                content_hash: before,
                ..
            },
            Fingerprint::RegularFile {
                content_hash: after,
                ..
            },
        ) => assert_ne!(before, after, "the scoped scan must observe live content"),
        (before, after) => panic!("unexpected fingerprints: {before:?} vs {after:?}"),
    }
}

#[test]
fn a_fifo_scans_as_a_supported_named_pipe() {
    let scan = scan_workspace("/ws", &folder(vec![entry("logpipe", pipe(0o664))]), EXACT)
        .expect("scan");
    let fingerprint = scan.manifest.get("logpipe");
    assert_eq!(fingerprint.kind_name(), "NAMED_PIPE");
    match fingerprint {
        Fingerprint::NamedPipe { metadata } => assert_eq!(metadata.mode, Some(0o664)),
        ref other => panic!("not a pipe: {other:?}"),
    }
    assert!(fingerprint.is_supported_for_restore());
}

#[test]
fn named_pipe_fingerprint_is_backward_compatible() {
    let fingerprint = Fingerprint::NamedPipe {
        metadata: MetadataFingerprint {
            mode: Some(0o600),
            readonly: false,
        },
    };
    assert_eq!(fingerprint.kind_name(), "NAMED_PIPE");
    assert!(fingerprint.is_supported_for_restore());
    let mut manifest = Manifest::empty();
    manifest.entries.insert("pipe".to_owned(), fingerprint.clone());
    let text = String::from_utf8(manifest.canonical_bytes().expect("bytes")).expect("text");
    let value: serde_json::Value = serde_json::from_str(&text).expect("json");
    assert_eq!(value["entries"]["pipe"]["kind"], "NamedPipe");
    assert_eq!(value["entries"]["pipe"]["value"]["metadata"]["mode"], 0o600);
    assert_eq!(manifest.get("pipe"), fingerprint);
}

#[test]
fn state_identity_is_schema_versioned_and_v1_manifests_stay_readable() {
    // A link that was recorded without a target kind has an unknown one.
    assert_eq!(SymlinkTargetKind::default(), SymlinkTargetKind::Unknown);

    let manifest = Manifest::empty();
    let id = manifest.state_id().expect("state id");
    let bare = blake3::hash(b"{}").to_hex().to_string();
    assert_ne!(id, bare, "state id must not be the bare manifest digest");
    assert_eq!(
        id,
        blake3::hash(b"{\"schema_version\":2,\"entries\":{}}")
            .to_hex()
            .to_string()
    );
    assert_eq!(manifest.state_id().expect("id"), id);
    assert_ne!(id, format!("{:08x}", STATE_SCHEMA_VERSION));
}

/// The canonical bytes are JSON, whatever the names hold.
#[test]
fn canonical_bytes_are_json() {
    let name = "a\"b\\c\u{8}\u{c}\n\r\t\u{1}\u{7f}é日";
    let mut manifest = Manifest::empty();
    manifest.entries.insert(
        name.to_owned(),
        Fingerprint::Symlink {
            target: name.to_owned(),
            target_kind: SymlinkTargetKind::Directory,
            target_hash: "h".to_owned(),
            metadata: MetadataFingerprint {
                mode: None,
                readonly: true,
            },
        },
    );
    manifest.entries.insert(
        "dir".to_owned(),
        Fingerprint::directory_from_children(&manifest.entries, plain()).expect("directory"),
    );
    manifest.entries.insert(
        "odd".to_owned(),
        Fingerprint::Unsupported {
            object_kind: "K".to_owned(),
            descriptor: "D".to_owned(),
        },
    );
    let bytes = manifest.canonical_bytes().expect("bytes");
    let value: serde_json::Value = serde_json::from_slice(&bytes).expect("json");
    assert_eq!(value["schema_version"], STATE_SCHEMA_VERSION);
    let symlink = &value["entries"][name]["value"];
    assert_eq!(symlink["target"], name);
    assert_eq!(symlink["target_kind"], "directory");
    assert!(symlink["metadata"]["mode"].is_null());
    assert_eq!(symlink["metadata"]["readonly"], true);
    assert_eq!(value["entries"]["dir"]["value"]["entry_count"], 1);
    assert_eq!(value["entries"]["odd"]["value"]["descriptor"], "D");
}

#[test]
fn different_states_have_different_ids() {
    let one = scan_workspace("/ws", &special_objects(b"1"), EXACT).expect("scan");
    let same = scan_workspace("/elsewhere", &special_objects(b"1"), EXACT).expect("scan");
    let two = scan_workspace("/ws", &special_objects(b"2"), EXACT).expect("scan");
    assert_eq!(one.state_id, same.state_id);
    assert_ne!(one.state_id, two.state_id);
    assert!(one.manifest.same(&same.manifest));
    assert!(!one.manifest.same(&two.manifest));
    assert_eq!(one.unsupported_paths, vec!["runtime.sock".to_owned()]);
    assert_eq!(
        manifest_fingerprint(&one.manifest, ".rewind"),
        Fingerprint::Absent
    );
}

#[test]
fn names_that_differ_in_case_alone_collide_where_case_is_folded() {
    let tree = || {
        folder(vec![
            entry("README", hashed(b"a")),
            entry("readme", hashed(b"b")),
        ])
    };
    assert!(scan_workspace("/ws", &tree(), EXACT).is_ok());
    match scan_workspace("/ws", &tree(), FOLDING) {
        Err(RewindError::Storage(message)) => assert_eq!(
            message,
            "case-insensitive path collision between README and readme"
        ),
        _ => panic!("expected a collision"),
    }
    let umlauts = folder(vec![
        entry("ÄPFEL", hashed(b"a")),
        entry("äpfel", hashed(b"b")),
    ]);
    assert!(scan_workspace("/ws", &umlauts, FOLDING).is_err());
}

#[test]
fn faults_of_a_scan_name_the_place() {
    let fault = |node: Node| {
        scan_workspace("/ws", &folder(vec![entry("x", node)]), EXACT)
            .err()
            .expect("fault")
            .message()
    };
    assert_eq!(
        fault(Node::Unreadable("denied".to_owned())),
        "scan incomplete: /ws/x: denied"
    );
    assert_eq!(
        fault(Node::File {
            read: FileRead::Changed,
            metadata: plain()
        }),
        "scan incomplete: object changed type while scanning /ws/x"
    );
    assert_eq!(
        fault(Node::File {
            read: FileRead::Vanished("gone".to_owned()),
            metadata: plain()
        }),
        "scan incomplete: /ws/x: gone"
    );
    assert_eq!(
        fault(Node::File {
            read: FileRead::Failed(RewindError::Cas("full".to_owned())),
            metadata: plain()
        }),
        "CAS error: full"
    );
    assert_eq!(
        fault(Node::Symlink {
            read: LinkRead::NonUnicode,
            metadata: plain()
        }),
        "scan incomplete: non-Unicode symlink target is unsupported: /ws/x"
    );
    let late = Directory::new(true, None, Vec::new(), Ok(plain()));
    assert_eq!(
        scan_workspace("/ws", &late, EXACT).err().expect("late").message(),
        "scan incomplete: scan deadline exceeded"
    );
    let broken = Directory::new(false, None, Vec::new(), Err("lost".to_owned()));
    assert_eq!(
        scan_workspace("/ws", &broken, EXACT).err().expect("broken").message(),
        "I/O error: lost"
    );
    let mut odd = entry("x", hashed(b""));
    odd.unicode = false;
    assert_eq!(
        scan_workspace("/ws", &folder(vec![odd]), EXACT)
            .err()
            .expect("odd")
            .message(),
        "scan incomplete: non-Unicode filename is unsupported: /ws/x"
    );
}

#[test]
fn deadlines_are_points_in_time() {
    assert!(!ScanOptions::default().is_late(u64::MAX));
    assert!(ScanOptions::default().ingest);
    assert!(!ScanOptions::observe(None).ingest);
    assert!(ScanOptions::ingest(Some(5)).is_late(6));
    assert!(!ScanOptions::ingest(Some(5)).is_late(4));
}

#[test]
fn changes_are_told_apart() {
    let before = scan_workspace(
        "/ws",
        &folder(vec![
            entry("gone", hashed(b"g")),
            entry("kept", hashed(b"k")),
            entry("moved", hashed(b"m")),
            entry("other", hashed(b"o")),
            entry("text", hashed(b"1")),
        ]),
        EXACT,
    )
    .expect("scan")
    .manifest;
    let after = scan_workspace(
        "/ws",
        &folder(vec![
            entry("kept", hashed(b"k")),
            entry("made", hashed(b"n")),
            entry("other", Node::Directory(folder(Vec::new()))),
            entry("renamed", hashed(b"m")),
            entry("text", hashed(b"2")),
        ]),
        EXACT,
    )
    .expect("scan")
    .manifest;
    assert_eq!(
        changed_paths(&before, &after),
        ["gone", "made", "moved", "other", "renamed", "text"]
    );
    let effects = diff_manifests(&before, &after);
    let kind = |path: &str| {
        let effect = effects.iter().find(|e| e.path == path).expect("effect");
        (effect.effect_type, effect.from_path.clone())
    };
    assert_eq!(kind("gone"), (EffectType::Delete, None));
    assert_eq!(kind("made"), (EffectType::Create, None));
    assert_eq!(kind("other"), (EffectType::TypeChange, None));
    assert_eq!(kind("text"), (EffectType::Modify, None));
    assert_eq!(
        kind("renamed"),
        (EffectType::Rename, Some("moved".to_owned()))
    );
    assert!(diff_manifests(&before, &before).is_empty());
}

#[test]
fn links_are_classified_by_what_stands_on_their_way() {
    let way = link_way(Platform::Posix, "/ws", "/ws/dir/link", "../foo.txt");
    assert!(way.inside);
    assert_eq!(way.end.as_deref(), Some("/ws/foo.txt"));
    let outside = link_way(Platform::Posix, "/ws", "/ws/link", "../../etc");
    assert!(!outside.inside);

    let none: Vec<Place> = Vec::new();
    assert_eq!(
        classify_symlink_target_kind(None, true, &none, &Place::File),
        SymlinkTargetKind::File
    );
    assert_eq!(
        classify_symlink_target_kind(None, true, &none, &Place::Directory),
        SymlinkTargetKind::Directory
    );
    assert_eq!(
        classify_symlink_target_kind(None, true, &none, &Place::Missing),
        SymlinkTargetKind::Unknown
    );
    assert_eq!(
        classify_symlink_target_kind(None, true, &vec![Place::Symlink], &Place::File),
        SymlinkTargetKind::Unknown
    );
    assert_eq!(
        classify_symlink_target_kind(None, false, &none, &Place::File),
        SymlinkTargetKind::Unknown
    );
    assert_eq!(
        classify_symlink_target_kind(Some(SymlinkTargetKind::Directory), false, &none, &Place::File),
        SymlinkTargetKind::Directory
    );
}

#[test]
fn junction_is_unsupported_object() {
    assert!(reparse_unsupported_fingerprint(true, Some(IO_REPARSE_TAG_SYMLINK)).is_none());
    match reparse_unsupported_fingerprint(true, Some(IO_REPARSE_TAG_MOUNT_POINT)) {
        Some(Fingerprint::Unsupported { object_kind, .. }) => {
            assert_eq!(object_kind, "WINDOWS_JUNCTION")
        }
        other => panic!("a junction is unsupported: {other:?}"),
    }
    assert!(reparse_unsupported_fingerprint(false, None).is_some());

    let mut buffer = vec![0u8; 12];
    buffer[..4].copy_from_slice(&IO_REPARSE_TAG_SYMLINK.to_le_bytes());
    assert_eq!(read_tag(&Some(buffer.clone())), Some(IO_REPARSE_TAG_SYMLINK));
    assert_eq!(
        symlink_kind(&Some(buffer.clone())),
        Some(SymlinkTargetKind::File)
    );
    buffer[8] = 1;
    assert_eq!(
        reparse_symlink_kind(&Some(buffer)),
        Some(SymlinkTargetKind::Directory)
    );
    assert_eq!(read_tag(&Some(vec![1, 2, 3])), None);
    assert_eq!(symlink_kind(&None), None);
}

/// Observing and scanning describe a workspace alike; only scanning stores.
#[test]
fn observe_never_ingests_objects_into_the_cas() {
    let digest = |bytes: &[u8]| blake3::hash(bytes).to_hex().to_string();
    let seed = || vec![entry("seed.txt", hashed(b"seed"))];
    let take = |tree: &Directory, options: ScanOptions, objects: &Vec<String>| {
        capture("/ws", tree, &options, objects, EXACT).expect("scan")
    };
    let seeded = take(&folder(seed()), ScanOptions::ingest(None), &Vec::new()).objects;
    assert_eq!(seeded, [digest(b"seed")], "the first scan stores the seeded object");

    let tree = folder(vec![
        entry("seed.txt", hashed(b"seed")),
        entry("fresh.txt", hashed(b"fresh")),
        entry("copy.txt", hashed(b"fresh")),
    ]);
    let observed = take(&tree, ScanOptions::observe(None), &seeded);
    assert_eq!(observed.objects, seeded, "observing stores nothing");
    assert!(matches!(
        observed.scan.manifest.get("fresh.txt"),
        Fingerprint::RegularFile { .. }
    ));
    let ingested = take(&tree, ScanOptions::ingest(None), &seeded);
    assert_eq!(observed.scan.state_id, ingested.scan.state_id);
    assert_eq!(ingested.objects, [digest(b"seed"), digest(b"fresh")]);
}

/// The metadata is no part of what is described, and the unsupported paths are
/// those that are recorded so.
#[test]
fn a_scan_describes_the_workspace_and_nothing_else() {
    let scan = scan_workspace("/ws", &special_objects(b"x"), EXACT).expect("scan");
    assert!(matches!(scan.manifest.get(".rewind"), Fingerprint::Absent));
    assert!(matches!(scan.manifest.get(".rewind/workspace.json"), Fingerprint::Absent));
    assert_eq!(scan.unsupported_paths, ["runtime.sock"]);
    assert!(matches!(
        scan.manifest.get("runtime.sock"),
        Fingerprint::Unsupported { .. }
    ));
    assert_eq!(scan.state_id, scan.manifest.state_id().expect("id"));
}
