//! Transactions on a workspace held in memory: undo, redo, conflicts,
//! interruption and recovery.

use std::collections::BTreeMap;

use rewind::cas::Cas;
use rewind::error::RewindError;
use rewind::model::{
    ArchiveStatus, Fingerprint, Journal, JournalStatus, Manifest, MetadataFingerprint,
    OperationKind, OperationRecord, OperationStatus, Reversibility, SymlinkTargetKind,
    TrackingConfidence, WorkspaceCondition,
};
use rewind::paths::Platform;
use rewind::rollback::{
    abandon, anchor_objects, archived, artifact_matches_fingerprint, build_journal,
    check_abandoned, check_archivable, check_journals, check_owner, check_redo, check_undo, diagnose_recoverable, effective_expected_before,
    installation, justifies_abandonment, link_is_directory, missing_journal, needs_archive, needs_preparation,
    prepare_abandonment, prepare_steps, quarantine_of, redo, require_healthy, restore_snapshot,
    staging_is_disposable, step_facts, undo, verify_archive_pair, verify_artifact_pair, Artifact,
    Folder, Install, Item, Next, Outcome, StepFacts, Traces, Transaction, Unfinished,
};
use rewind::scan::{
    diff_manifests, scan_fingerprint_at, scan_workspace, Directory, Entry, FileRead, Filesystem,
    LinkRead, Node, ScanResult,
};

const EXACT: Filesystem = Filesystem {
    platform: Platform::Posix,
    folds_case: false,
};
const FILE: MetadataFingerprint = MetadataFingerprint {
    mode: Some(0o644),
    readonly: false,
};
const DIRECTORY: MetadataFingerprint = MetadataFingerprint {
    mode: Some(0o755),
    readonly: false,
};
const QUARANTINE: &str = "/stage/quarantine";
const PREPARED: &str = "/stage/prepared";

#[derive(Clone, Debug, PartialEq)]
enum Object {
    File(Vec<u8>),
    Directory(BTreeMap<String, Object>),
    Link(String),
    Pipe(u32),
    Socket,
}

fn file(bytes: &str) -> Object {
    Object::File(bytes.as_bytes().to_vec())
}

fn directory(entries: &[(&str, Object)]) -> Object {
    Object::Directory(entries.iter().map(|(n, o)| (n.to_string(), o.clone())).collect())
}

fn node(object: &Object) -> Node {
    match object {
        Object::File(bytes) => Node::File {
            read: FileRead::Read {
                content_hash: Cas::new(Platform::Posix, "/cas").put_bytes(bytes),
                size: bytes.len() as u64,
            },
            metadata: FILE,
        },
        Object::Directory(entries) => Node::Directory(tree(entries)),
        Object::Link(target) => Node::Symlink {
            read: LinkRead::Read {
                target: target.clone(),
                target_kind: SymlinkTargetKind::File,
            },
            metadata: FILE,
        },
        Object::Pipe(mode) => Node::NamedPipe {
            metadata: MetadataFingerprint {
                mode: Some(*mode),
                readonly: false,
            },
        },
        Object::Socket => Node::Socket { length: 0 },
    }
}

fn tree(entries: &BTreeMap<String, Object>) -> Directory {
    let list = entries
        .iter()
        .map(|(name, object)| Entry {
            name: name.clone(),
            unicode: true,
            late: false,
            node: node(object),
        })
        .collect();
    Directory::new(false, None, list, Ok(DIRECTORY))
}

/// A workspace, what was moved aside or prepared, and the stored contents.
#[derive(Clone)]
struct Disk {
    root: BTreeMap<String, Object>,
    stage: BTreeMap<String, Object>,
    cas: BTreeMap<String, Vec<u8>>,
}

impl Disk {
    fn new(entries: &[(&str, Object)]) -> Disk {
        let Object::Directory(root) = directory(entries) else {
            unreachable!()
        };
        Disk {
            root,
            stage: BTreeMap::new(),
            cas: BTreeMap::new(),
        }
    }

    fn remember(&mut self) {
        fn walk(object: &Object, cas: &mut BTreeMap<String, Vec<u8>>) {
            match object {
                Object::File(bytes) => {
                    cas.insert(Cas::new(Platform::Posix, "/cas").put_bytes(bytes), bytes.clone());
                }
                Object::Directory(entries) => entries.values().for_each(|o| walk(o, cas)),
                _ => {}
            }
        }
        for object in self.root.values() {
            walk(object, &mut self.cas);
        }
    }

    fn scan(&self) -> ScanResult {
        scan_workspace("/ws", &tree(&self.root), EXACT).expect("scan")
    }

    fn get(&self, path: &str) -> Option<&Object> {
        let mut entries = &self.root;
        let mut found = None;
        for name in path.split('/') {
            found = entries.get(name);
            match found {
                Some(Object::Directory(below)) => entries = below,
                _ => {}
            }
            found?;
        }
        found
    }

    fn entries(&mut self, path: &str) -> (&mut BTreeMap<String, Object>, String) {
        let mut names: Vec<&str> = path.split('/').collect();
        let last = names.pop().expect("name").to_owned();
        let mut entries = &mut self.root;
        for name in names {
            entries = match entries.get_mut(name) {
                Some(Object::Directory(below)) => below,
                other => panic!("no directory at {name}: {other:?}"),
            };
        }
        (entries, last)
    }

    fn put(&mut self, path: &str, object: Object) {
        let (entries, name) = self.entries(path);
        entries.insert(name, object);
    }

    fn take(&mut self, path: &str) -> Object {
        let (entries, name) = self.entries(path);
        entries.remove(&name).expect("object")
    }

    fn fingerprint(&self, path: &str) -> Fingerprint {
        let found = self.get(path).map(node);
        scan_fingerprint_at(&format!("/ws/{path}"), path, &found, EXACT).expect("path scan")
    }

    fn prepare(&mut self, journal: &Journal) {
        let (list, error) = prepare_steps(journal);
        assert!(error.is_none());
        for preparation in list {
            if let Some((hash, stage)) = preparation.content {
                self.stage
                    .insert(stage, Object::File(self.cas[&hash].clone()));
            }
        }
    }

    fn move_aside(&mut self, journal: &Journal, index: usize, facts: &StepFacts, actual: &Fingerprint) {
        if let Some(backup) = quarantine_of(&journal.steps[index], facts, actual).expect("backup") {
            if !self.stage.contains_key(&backup) {
                let object = self.take(&facts.path);
                self.stage.insert(backup, object);
            }
        }
    }

    fn install(&mut self, journal: &Journal, index: usize, facts: &StepFacts) {
        match installation(&journal.steps[index], facts).expect("installation") {
            Install::Nothing => {}
            Install::File { stage, .. } => {
                let object = self.stage.remove(&stage).expect("staged");
                self.put(&facts.path, object);
            }
            Install::Directory { .. } => {
                if self.get(&facts.path).is_none() {
                    self.put(&facts.path, directory(&[]));
                }
            }
            Install::Symlink { target, .. } => self.put(&facts.path, Object::Link(target)),
            Install::NamedPipe { metadata } => {
                self.put(&facts.path, Object::Pipe(metadata.mode.expect("mode")))
            }
        }
    }

    fn has_stage(&self, path: &Option<String>) -> bool {
        path.as_ref().is_some_and(|path| self.stage.contains_key(path))
    }

    fn traces(&self, journal: &Journal, index: usize) -> Traces {
        let step = &journal.steps[index];
        let backup = match step.backup_path.as_ref().and_then(|path| self.stage.get(path)) {
            Some(object) => artifact(object),
            None => Artifact::Missing("no such file".to_owned()),
        };
        Traces {
            backup_exists: self.has_stage(&step.backup_path),
            backup,
            staged: self.has_stage(&step.staging_path),
        }
    }
}

fn artifact(object: &Object) -> Artifact {
    match object {
        Object::File(bytes) => Artifact::File {
            size: bytes.len() as u64,
            content: Ok(bytes.clone()),
        },
        Object::Directory(entries) => Artifact::Directory(Folder {
            problem: None,
            items: entries
                .iter()
                .map(|(name, object)| Item {
                    name: name.clone(),
                    artifact: artifact(object),
                })
                .collect(),
        }),
        Object::Link(target) => Artifact::Symlink {
            target: Ok(target.clone()),
        },
        Object::Pipe(_) => Artifact::NamedPipe,
        Object::Socket => Artifact::Other,
    }
}

/// Carries a transaction on until it ends, or until it has changed `limit`
/// paths.
fn drive(
    disk: &mut Disk,
    transaction: &mut Transaction,
    mut outcome: Outcome,
    target: &Manifest,
    limit: usize,
) -> Result<Outcome, RewindError> {
    let mut changes = 0;
    let mut seen = None;
    loop {
        let index = transaction.index;
        outcome = match outcome.next {
            Next::Classify => {
                let path = transaction.journal.steps[index].paths[0].clone();
                let traces = disk.traces(&transaction.journal, index);
                transaction.classified(&disk.fingerprint(&path), &traces)
            }
            Next::Look => {
                let path = transaction.journal.steps[index].paths[0].clone();
                let actual = disk.fingerprint(&path);
                seen = Some(actual.clone());
                let exists = disk.has_stage(&transaction.journal.steps[index].backup_path);
                transaction.looked(Ok(actual), exists)
            }
            Next::Change => {
                if changes == limit {
                    return Ok(outcome);
                }
                changes += 1;
                let facts = step_facts(&transaction.journal, index).expect("facts");
                let actual = seen.take().expect("looked");
                disk.move_aside(&transaction.journal, index, &facts, &actual);
                disk.install(&transaction.journal, index, &facts);
                transaction.changed(None)
            }
            Next::Verify => {
                let facts = step_facts(&transaction.journal, index).expect("facts");
                let actual = disk.fingerprint(&facts.path);
                transaction.verified(&facts, Ok(actual))
            }
            Next::Scan => {
                let scan = disk.scan();
                let matches = scan.manifest.same(target);
                transaction.scanned(Ok(scan.state_id), matches)
            }
            Next::Committed => return Ok(outcome),
            Next::Stuck(error) | Next::Broken(error) => return Err(error),
        };
    }
}

fn journal_between(before: &ScanResult, after: &ScanResult, direction: &str) -> Journal {
    build_journal(
        Platform::Posix,
        1,
        2,
        Some(3),
        before.state_id.clone(),
        after.state_id.clone(),
        direction.to_owned(),
        &before.manifest,
        &after.manifest,
        QUARANTINE,
        PREPARED,
    )
    .expect("journal")
}

/// Takes a workspace to the state of another one.
fn transition(disk: &mut Disk, target: &ScanResult, direction: &str, force: bool) -> Result<Journal, RewindError> {
    let before = disk.scan();
    let journal = journal_between(&before, target, direction);
    assert!(needs_preparation(&journal));
    disk.prepare(&journal);
    let mut transaction = Transaction::new(journal, force, OperationStatus::Undone);
    let outcome = transaction.prepared();
    let outcome = drive(disk, &mut transaction, outcome, &target.manifest, usize::MAX)?;
    assert_eq!(
        outcome.records.workspace,
        Some((WorkspaceCondition::Healthy, target.state_id.clone()))
    );
    assert_eq!(
        outcome.records.operation,
        Some((3, OperationStatus::Undone))
    );
    assert_eq!(outcome.records.transaction, Some(JournalStatus::Committed));
    assert_eq!(disk.scan().state_id, target.state_id);
    Ok(transaction.journal)
}

/// Undoes and redoes the step between two workspaces.
fn there_and_back(start: Disk, end: Disk) {
    let mut disk = end.clone();
    disk.cas = start.cas.clone();
    disk.remember();
    let mut other = start.clone();
    other.remember();
    disk.cas.extend(other.cas);
    transition(&mut disk, &start.scan(), "UNDO", false).expect("undo");
    assert_eq!(disk.root, start.root);
    disk.stage.clear();
    transition(&mut disk, &end.scan(), "REDO", false).expect("redo");
    assert_eq!(disk.root, end.root);
}

#[test]
fn undo_and_redo_of_nonempty_directory_creation() {
    there_and_back(
        Disk::new(&[("foo.txt", file("A"))]),
        Disk::new(&[
            ("foo.txt", file("A")),
            ("made", directory(&[("one.txt", file("1")), ("two.txt", file("2"))])),
        ]),
    );
}

#[test]
fn undo_of_nested_tree_with_many_files() {
    let leaf = directory(&[("x", file("x")), ("y", file("y")), ("z", file("z"))]);
    let branch = directory(&[("a", leaf.clone()), ("b", leaf.clone()), ("c.txt", file("c"))]);
    there_and_back(
        Disk::new(&[("foo.txt", file("A"))]),
        Disk::new(&[("foo.txt", file("A")), ("deep", directory(&[("p", branch.clone()), ("q", branch)]))]),
    );
}

#[test]
fn redo_of_supervised_directory_deletion_removes_tree() {
    there_and_back(
        Disk::new(&[("gone", directory(&[("sub", directory(&[("f", file("f"))]))])), ("k", file("k"))]),
        Disk::new(&[("k", file("k"))]),
    );
}

#[test]
fn strong_run_undo_and_redo_restore_state_without_rerunning_command() {
    there_and_back(
        Disk::new(&[("foo.txt", file("A"))]),
        Disk::new(&[("foo.txt", file("B\n"))]),
    );
}

#[test]
fn deletion_creation_and_type_replacement_restore_both_directions() {
    there_and_back(
        Disk::new(&[("foo.txt", file("A")), ("node", file("N"))]),
        Disk::new(&[("bar.txt", file("B")), ("node", directory(&[("inner", file("I"))]))]),
    );
}

#[test]
fn fifo_creation_is_captured_and_reversible() {
    there_and_back(
        Disk::new(&[("foo.txt", file("A"))]),
        Disk::new(&[("foo.txt", file("A")), ("pipe", Object::Pipe(0o640))]),
    );
}

#[test]
fn replacing_a_fifo_with_a_file_is_reversible() {
    there_and_back(
        Disk::new(&[("node", Object::Pipe(0o600)), ("link", Object::Link("node".to_owned()))]),
        Disk::new(&[("node", file("now a file")), ("link", Object::Link("other".to_owned()))]),
    );
}

#[test]
fn unix_sockets_stay_unsupported_and_refuse_undo() {
    let before = Disk::new(&[("foo.txt", file("A"))]).scan();
    let after = Disk::new(&[("foo.txt", file("A")), ("run.sock", Object::Socket)]).scan();
    assert_eq!(after.unsupported_paths, vec!["run.sock".to_owned()]);
    assert_eq!(after.manifest.get("run.sock").kind_name(), "UNSUPPORTED");
    let refused = build_journal(
        Platform::Posix,
        1,
        2,
        None,
        "a".to_owned(),
        "t".to_owned(),
        "UNDO".to_owned(),
        &before.manifest,
        &after.manifest,
        QUARANTINE,
        PREPARED,
    )
    .expect_err("unsupported target");
    assert_eq!(
        refused.message(),
        "unsupported filesystem object or metadata: cannot restore run.sock as UNSUPPORTED"
    );
}

fn operation(pre: &str, post: &str) -> OperationRecord {
    OperationRecord {
        id: 3,
        workspace_id: 1,
        kind: OperationKind::Strong,
        status: OperationStatus::Completed,
        pre_state_id: Some(pre.to_owned()),
        post_state_id: Some(post.to_owned()),
        command: None,
        cwd: None,
        exit_code: Some(0),
        confidence: TrackingConfidence::FullyTracked,
        reversibility: Reversibility::FullyReversible,
        error: None,
        created_at: 0,
        effects: Vec::new(),
    }
}

#[test]
fn external_divergence_still_refuses_undo_without_mutation() {
    let start = Disk::new(&[("file.txt", file("CONTENT"))]).scan();
    let end = Disk::new(&[("file.txt", file("B"))]).scan();
    let live = Disk::new(&[("file.txt", file("external"))]).scan();
    let op = operation(&start.state_id, &end.state_id);
    assert_eq!(undo(&op, &end.state_id, false).expect("undo"), start.state_id);
    match undo(&op, &live.state_id, false) {
        Err(RewindError::Conflict { path, expected, found }) => {
            assert_eq!(path, "<workspace>");
            assert_eq!(expected, end.state_id);
            assert_eq!(found, live.state_id);
        }
        other => panic!("expected a conflict, got {other:?}"),
    }
    assert_eq!(undo(&op, &live.state_id, true).expect("forced"), start.state_id);

    // A redo leads back to where the undo began.
    let mut undone = operation(&start.state_id, &end.state_id);
    undone.status = OperationStatus::Undone;
    assert_eq!(redo(&undone, &start.state_id).expect("redo"), end.state_id);
    assert!(redo(&undone, &live.state_id).is_err());
    undone.post_state_id = None;
    assert_eq!(
        redo(&undone, &start.state_id).expect_err("missing").message(),
        "not found: operation post-state"
    );
}

#[test]
fn only_eligible_operations_are_undone_or_redone() {
    let done = operation("a", "b");
    assert!(check_undo(&done).is_ok());
    assert_eq!(
        check_redo(&done).expect_err("not undone").message(),
        "workspace condition blocks this operation: operation 3 is not eligible for redo"
    );
    let mut partial = operation("a", "b");
    partial.reversibility = Reversibility::PartiallyReversible;
    assert!(check_undo(&partial).is_err());
    assert!(require_healthy(WorkspaceCondition::Healthy).is_ok());
    assert!(require_healthy(WorkspaceCondition::Degraded).is_err());
    assert!(require_healthy(WorkspaceCondition::RecoveryRequired)
        .expect_err("blocked")
        .message()
        .contains("rewind recover --reconcile"));
}

#[test]
fn conflict_refuses_and_force_preserves_live_bytes() {
    let start = Disk::new(&[("foo.txt", file("A"))]);
    let mut planned = Disk::new(&[("foo.txt", file("B"))]);
    planned.remember();
    let mut other = start.clone();
    other.remember();
    planned.cas.extend(other.cas);
    let journal = journal_between(&planned.scan(), &start.scan(), "UNDO");
    planned.prepare(&journal);
    // Someone else writes between the plan and the step.
    planned.put("foo.txt", file("live"));

    let mut refused = planned.clone();
    let mut transaction = Transaction::new(journal, false, OperationStatus::Undone);
    let outcome = transaction.prepared();
    let error = drive(&mut refused, &mut transaction, outcome, &start.scan().manifest, usize::MAX)
        .expect_err("conflict");
    assert!(matches!(error, RewindError::Conflict { .. }));
    assert!(justifies_abandonment(&error));
    assert_eq!(refused.get("foo.txt"), Some(&file("live")));
    assert_eq!(transaction.journal.status, JournalStatus::RecoveryRequired);

    let journal = journal_between(&Disk::new(&[("foo.txt", file("B"))]).scan(), &start.scan(), "UNDO");
    let mut transaction = Transaction::new(journal, true, OperationStatus::Undone);
    let outcome = transaction.prepared();
    drive(&mut planned, &mut transaction, outcome, &start.scan().manifest, usize::MAX).expect("forced");
    assert_eq!(planned.root, start.root);
    assert_eq!(
        planned.stage.get("/stage/quarantine/0.backup"),
        Some(&file("live")),
        "what was replaced is kept"
    );
}

#[test]
fn directory_child_mutation_does_not_quarantine_the_parent_directory() {
    let start = Disk::new(&[("dir", directory(&[("child", file("1"))]))]);
    let mut disk = Disk::new(&[("dir", directory(&[("child", file("2"))]))]);
    let mut other = start.clone();
    other.remember();
    disk.cas = other.cas;
    let journal = transition(&mut disk, &start.scan(), "UNDO", false).expect("undo");
    let step = journal
        .steps
        .iter()
        .find(|step| step.paths[0] == "dir")
        .expect("directory step");
    assert!(step.backup_path.is_none());
}

#[test]
fn recovery_completes_known_crash_after_quarantine_before_install() {
    let start = Disk::new(&[("foo.txt", file("A"))]);
    let mut disk = Disk::new(&[("foo.txt", file("B"))]);
    let mut other = start.clone();
    other.remember();
    disk.cas = other.cas;
    let target = start.scan();
    let mut journal = journal_between(&disk.scan(), &target, "UNDO");
    disk.prepare(&journal);
    let facts = step_facts(&journal, 0).expect("facts");
    let actual = disk.fingerprint("foo.txt");
    disk.move_aside(&journal, 0, &facts, &actual);
    journal.status = JournalStatus::Applying;
    journal.steps[0].status = JournalStatus::Applying;

    let mut transaction = Transaction::resume(journal);
    assert!(!needs_preparation(&transaction.journal));
    let outcome = transaction.taken_up();
    assert!(matches!(outcome.next, Next::Classify));
    assert_eq!(transaction.journal.status, JournalStatus::Applying);
    let outcome = drive(&mut disk, &mut transaction, outcome, &target.manifest, usize::MAX).expect("recovered");
    assert_eq!(disk.root, start.root);
    assert_eq!(
        outcome.records.operation,
        Some((3, OperationStatus::Undone)),
        "the direction decides"
    );

    // Taking it up once more finds everything done.
    let mut again = Transaction::resume(transaction.journal);
    let outcome = again.prepared();
    let root = disk.root.clone();
    drive(&mut disk, &mut again, outcome, &target.manifest, 0).expect("repeated");
    assert_eq!(disk.root, root);
}

#[test]
fn interrupted_tree_rollback_recovers_at_directory_step() {
    let start = Disk::new(&[("foo.txt", file("A"))]);
    let end = Disk::new(&[
        ("foo.txt", file("A")),
        ("made", directory(&[("one", file("1")), ("sub", directory(&[("two", file("2"))]))])),
    ]);
    let target = start.scan();
    for limit in 0..5 {
        let mut disk = end.clone();
        disk.remember();
        let journal = journal_between(&disk.scan(), &target, "UNDO");
        disk.prepare(&journal);
        let mut transaction = Transaction::new(journal, false, OperationStatus::Undone);
        let outcome = transaction.prepared();
        drive(&mut disk, &mut transaction, outcome, &target.manifest, limit).expect("interrupted");
        let mut resumed = Transaction::resume(transaction.journal);
        let outcome = resumed.prepared();
        drive(&mut disk, &mut resumed, outcome, &target.manifest, usize::MAX).expect("recovered");
        assert_eq!(disk.root, start.root, "interrupted after {limit} changes");
    }
}

#[test]
fn recovery_refuses_unexpected_object_and_reconcile_resolves() {
    let start = Disk::new(&[("foo.txt", file("A"))]);
    let mut disk = Disk::new(&[("foo.txt", file("B"))]);
    disk.remember();
    let mut other = start.clone();
    other.remember();
    disk.cas.extend(other.cas);
    let target = start.scan();
    let journal = journal_between(&disk.scan(), &target, "UNDO");
    disk.prepare(&journal);
    disk.put("foo.txt", directory(&[]));
    let mut transaction = Transaction::resume(journal);
    let outcome = transaction.prepared();
    let error = drive(&mut disk, &mut transaction, outcome, &target.manifest, usize::MAX)
        .expect_err("unknown state");
    assert_eq!(
        error.message(),
        "workspace recovery is required: cannot classify recovery state at foo.txt"
    );
    assert_eq!(disk.get("foo.txt"), Some(&directory(&[])), "nothing is touched");

    let lines = diagnose_recoverable(&transaction.journal, &Some(disk.scan().manifest));
    assert_eq!(lines.len(), 2);
    assert!(lines[0].starts_with("transaction 00000000-0000-0000-0000-000000000002 direction=UNDO"));
    assert!(lines[1].starts_with("  step 0 foo.txt: expected_before="));

    assert!(justifies_abandonment(&error));
    let mut journal = transaction.journal;
    assert!(check_owner(&journal, 1).is_ok());
    assert!(check_owner(&journal, 9).is_err());
    prepare_abandonment(&mut journal, &vec![false]);
    assert!(journal.steps[0].backup_path.is_none());
    archived(&mut journal, None);
    abandon(&mut journal);
    assert_eq!(journal.status, JournalStatus::Abandoned);
    assert!(staging_is_disposable(&journal));
    assert!(check_abandoned(1).is_ok());
    assert!(check_abandoned(0).is_err());
    assert!(!justifies_abandonment(&RewindError::Io("disk".to_owned())));
    assert_eq!(
        missing_journal("/j").message(),
        "workspace recovery is required: transaction journal is missing: /j"
    );
}

#[test]
fn archive_of_quarantined_file_succeeds_and_staging_is_cleaned() {
    let start = Disk::new(&[("foo.txt", file("A"))]);
    let mut disk = Disk::new(&[("foo.txt", file("B"))]);
    let mut other = start.clone();
    other.remember();
    disk.cas = other.cas;
    let mut journal = transition(&mut disk, &start.scan(), "UNDO", false).expect("undo");
    assert_eq!(journal.archive_status, ArchiveStatus::Pending);
    assert!(needs_archive(&journal));
    assert!(!staging_is_disposable(&journal), "the only copy stays");
    archived(&mut journal, Some("disk full".to_owned()));
    assert_eq!(journal.archive_status, ArchiveStatus::Failed);
    assert!(needs_archive(&journal) && !staging_is_disposable(&journal));
    archived(&mut journal, None);
    assert!(!needs_archive(&journal));
    assert!(staging_is_disposable(&journal));
}

#[test]
fn recursive_archive_verification_detects_nested_corruption() {
    let source = directory(&[
        ("a.txt", file("alpha")),
        (
            "sub",
            directory(&[("b.txt", file("beta")), ("deep", directory(&[("c.txt", file("gamma"))]))]),
        ),
        ("link", Object::Link("a.txt".to_owned())),
    ]);
    let verify = |copy: &Disk| {
        verify_archive_pair(
            Platform::Posix,
            &artifact(&source),
            &artifact(&Object::Directory(copy.root.clone())),
            "tree",
        )
    };
    let Object::Directory(entries) = source.clone() else {
        unreachable!()
    };
    let faithful = Disk {
        root: entries,
        stage: BTreeMap::new(),
        cas: BTreeMap::new(),
    };
    assert!(verify(&faithful).is_ok(), "faithful copy must verify");

    let mut copy = faithful.clone();
    copy.put("sub/deep/c.txt", file("corrupt"));
    assert_eq!(
        verify(&copy).expect_err("content").message(),
        "storage error: archive content mismatch for tree/sub/deep/c.txt"
    );

    let mut copy = faithful.clone();
    copy.take("sub/deep/c.txt");
    assert!(verify(&copy).is_err());

    let mut copy = faithful.clone();
    copy.put("sub/intruder.txt", file("extra"));
    assert_eq!(
        verify(&copy).expect_err("names").message(),
        "storage error: archive directory mismatch for tree/sub"
    );

    let mut copy = faithful.clone();
    copy.take("sub/deep");
    assert!(verify(&copy).is_err());

    let mut copy = faithful.clone();
    copy.put("a.txt", directory(&[]));
    assert_eq!(
        verify(&copy).expect_err("kind").message(),
        "storage error: archive type mismatch for tree/a.txt"
    );

    let mut copy = faithful;
    copy.put("link", Object::Link("sub/b.txt".to_owned()));
    assert_eq!(
        verify(&copy).expect_err("target").message(),
        "storage error: archive link mismatch for tree/link"
    );
}

#[test]
fn one_level_is_compared_by_itself() {
    let a = artifact(&directory(&[("x", file("1"))]));
    let b = artifact(&directory(&[("x", file("2"))]));
    assert!(verify_artifact_pair(&a, &b, "d").is_ok());
    assert!(verify_archive_pair(Platform::Posix, &a, &b, "d").is_err());
    assert!(check_archivable(&a, "d").is_ok());
    assert!(matches!(
        check_archivable(&Artifact::Other, "d"),
        Err(RewindError::Unsupported(_))
    ));
    assert_eq!(
        check_archivable(&Artifact::Missing("gone".to_owned()), "d").expect_err("missing").message(),
        "storage error: local quarantine artifact is missing: d"
    );
    assert!(check_archivable(&Artifact::NamedPipe, "d").is_ok());
}

/// A side that cannot be looked at or read fails the comparison with its own
/// error, the source's before the copy's.
#[test]
fn what_cannot_be_read_is_no_faithful_copy() {
    let gone = |why: &str| Artifact::Missing(why.to_owned());
    let io = |source: &Artifact, copy: &Artifact| match verify_archive_pair(Platform::Posix, source, copy, "d") {
        Err(RewindError::Io(error)) => error,
        other => panic!("no I/O error: {other:?}"),
    };
    let readable = artifact(&file("1"));
    assert_eq!(io(&gone("a"), &gone("b")), "a");
    assert_eq!(io(&readable, &gone("b")), "b");
    assert_eq!(io(&Artifact::Other, &gone("b")), "b");
    assert_eq!(io(&gone("a"), &Artifact::Other), "a");

    let locked = |why: &str| Artifact::File { size: 1, content: Err(why.to_owned()) };
    assert_eq!(io(&locked("a"), &locked("b")), "a");
    assert_eq!(io(&readable, &locked("b")), "b");
    let link = |why: &str| Artifact::Symlink { target: Err(why.to_owned()) };
    assert_eq!(io(&link("a"), &link("b")), "a");
    assert_eq!(io(&artifact(&Object::Link("x".to_owned())), &link("b")), "b");
    let folder = |why: &str| {
        Artifact::Directory(Folder {
            problem: Some(why.to_owned()),
            items: Vec::new(),
        })
    };
    assert_eq!(io(&folder("a"), &folder("b")), "a");
    assert_eq!(io(&artifact(&directory(&[])), &folder("b")), "b");

    let nested = Artifact::Directory(Folder {
        problem: None,
        items: vec![Item { name: "x".to_owned(), artifact: gone("deep") }],
    });
    assert_eq!(io(&artifact(&directory(&[("x", file("1"))])), &nested), "deep");
    assert!(verify_artifact_pair(&Artifact::NamedPipe, &Artifact::NamedPipe, "d").is_ok());
    assert_eq!(
        verify_artifact_pair(&Artifact::NamedPipe, &Artifact::Other, "d")
            .expect_err("kind")
            .message(),
        "storage error: archive type mismatch for d"
    );
}

/// Only a pipe that was moved aside is taken for the pipe that was recorded.
#[test]
fn another_special_object_is_no_named_pipe() {
    let expected = Fingerprint::NamedPipe {
        metadata: MetadataFingerprint { mode: Some(0o600), readonly: false },
    };
    assert!(artifact_matches_fingerprint(&Artifact::NamedPipe, &expected));
    assert!(!artifact_matches_fingerprint(&Artifact::Other, &expected));
    assert!(!artifact_matches_fingerprint(&Artifact::Missing(String::new()), &expected));
    assert!(artifact_matches_fingerprint(&Artifact::Missing(String::new()), &Fingerprint::Absent));
}

/// The first transaction without a journal stops a recovery.
#[test]
fn a_missing_journal_gates_the_workspace() {
    let listed = |present: [bool; 3]| -> Vec<Unfinished> {
        present
            .iter()
            .enumerate()
            .map(|(i, present)| Unfinished {
                journal_path: format!("/j{i}"),
                present: *present,
            })
            .collect()
    };
    assert!(check_journals(&listed([true, true, true])).is_none());
    let halt = check_journals(&listed([true, false, false])).expect("halt");
    assert_eq!(halt.condition, WorkspaceCondition::RecoveryRequired);
    assert!(halt.baseline.is_none());
    assert_eq!(
        halt.error.message(),
        "workspace recovery is required: transaction journal is missing: /j1"
    );
}

/// A directory's step expects the directory without what the plan removes
/// before it.
#[test]
fn own_removals_are_no_conflict() {
    let before = Disk::new(&[("d", directory(&[("keep", file("k")), ("gone", file("g"))]))]).scan();
    let after = Disk::new(&[("d", directory(&[("keep", file("k2"))]))]).scan();
    let between = Disk::new(&[("d", directory(&[("keep", file("k"))]))]);
    assert_eq!(
        effective_expected_before(&before.manifest, &after.manifest, "d").expect("expected"),
        between.fingerprint("d")
    );
    assert_eq!(
        effective_expected_before(&before.manifest, &after.manifest, "d/gone").expect("expected"),
        before.manifest.get("d/gone")
    );
}

#[test]
fn own_removals_in_deeper_directories_are_no_conflict() {
    let tree = |x: &str, deep: &[(&str, Object)]| {
        Disk::new(&[(
            "a",
            directory(&[("b", directory(&[("c", directory(deep))])), ("x.txt", file(x))]),
        )])
    };
    let before = tree("2", &[("new", file("n")), ("old", file("o"))]);
    let after = tree("1", &[("old", file("o"))]);
    let between = tree("2", &[("old", file("o"))]);
    for path in ["a", "a/b", "a/b/c"] {
        assert_eq!(
            effective_expected_before(&before.scan().manifest, &after.scan().manifest, path)
                .expect("expected"),
            between.fingerprint(path),
            "{path}"
        );
    }
    there_and_back(after, before);

    // A directory that gives way to a file has lost its entries by then.
    there_and_back(
        Disk::new(&[("a", directory(&[("b", file("b")), ("x.txt", file("1"))]))]),
        Disk::new(&[(
            "a",
            directory(&[("b", directory(&[("c", file("c"))])), ("x.txt", file("2"))]),
        )]),
    );
}

#[test]
fn removals_come_first_and_deepest_first() {
    let before = Disk::new(&[("old", directory(&[("sub", directory(&[("f", file("f"))]))])), ("m", file("1"))]).scan();
    let after = Disk::new(&[("m", file("2")), ("new", directory(&[("g", file("g"))]))]).scan();
    let journal = journal_between(&before, &after, "REDO");
    let order: Vec<&str> = journal.steps.iter().map(|step| step.paths[0].as_str()).collect();
    assert_eq!(order, ["old/sub/f", "old/sub", "old", "new", "m", "new/g"]);
    assert_eq!(
        journal.steps[5].staging_path.as_deref(),
        Some("/stage/prepared/5.file")
    );
    assert_eq!(
        anchor_objects(&before.manifest).len(),
        2,
        "every file's content is needed"
    );
}

#[test]
fn a_restore_is_recorded_before_it_runs() {
    let a = Disk::new(&[("f", file("1"))]).scan();
    let b = Disk::new(&[("f", file("2"))]).scan();
    let draft = restore_snapshot(&a.state_id, &b.state_id, "/ws", diff_manifests(&a.manifest, &b.manifest));
    assert_eq!(draft.kind, OperationKind::Restore);
    assert_eq!(draft.status, OperationStatus::Untrusted);
    assert_eq!(draft.pre_state_id, Some(a.state_id));
    assert_eq!(draft.post_state_id, Some(b.state_id));
    assert_eq!(draft.effects.len(), 1);
}

#[test]
fn a_link_of_unknown_kind_is_never_guessed() {
    for kind in [
        SymlinkTargetKind::File,
        SymlinkTargetKind::Directory,
        SymlinkTargetKind::Unknown,
    ] {
        assert_eq!(
            link_is_directory(kind, false, "l").expect("link"),
            kind == SymlinkTargetKind::Directory
        );
    }
    assert!(!link_is_directory(SymlinkTargetKind::File, true, "l").expect("file"));
    assert!(link_is_directory(SymlinkTargetKind::Directory, true, "l").expect("directory"));
    let error = link_is_directory(SymlinkTargetKind::Unknown, true, "a/l").expect_err("unknown");
    assert_eq!(
        error.message(),
        "unsupported filesystem object or metadata: cannot install link of unknown kind at a/l"
    );
}

/// A child that was rewritten while its transaction was interrupted is kept.
#[test]
fn recovery_refuses_external_modification_of_unprocessed_child() {
    let start = Disk::new(&[("foo.txt", file("A"))]);
    let mut disk = Disk::new(&[
        ("foo.txt", file("A")),
        (
            "tree",
            directory(&[("f0", file("0")), ("f1", file("1")), ("f2", file("2"))]),
        ),
    ]);
    disk.remember();
    let target = start.scan();
    let journal = journal_between(&disk.scan(), &target, "UNDO");
    disk.prepare(&journal);
    let mut transaction = Transaction::new(journal, false, OperationStatus::Undone);
    let outcome = transaction.prepared();
    drive(&mut disk, &mut transaction, outcome, &target.manifest, 2).expect("interrupted");
    disk.put("tree/f2", file("externally rewritten"));

    let mut resumed = Transaction::resume(transaction.journal);
    assert!(!needs_preparation(&resumed.journal));
    let outcome = resumed.taken_up();
    let error = drive(&mut disk, &mut resumed, outcome, &target.manifest, usize::MAX)
        .expect_err("recovery must refuse the tampered child");
    assert_eq!(resumed.journal.status, JournalStatus::RecoveryRequired);
    assert_eq!(disk.get("tree/f2"), Some(&file("externally rewritten")));

    assert!(justifies_abandonment(&error));
    let mut journal = resumed.journal;
    let present: Vec<bool> = journal
        .steps
        .iter()
        .map(|step| disk.has_stage(&step.backup_path))
        .collect();
    prepare_abandonment(&mut journal, &present);
    abandon(&mut journal);
    assert!(journal.status.is_terminal());
    assert_eq!(disk.get("tree/f2"), Some(&file("externally rewritten")));
}
