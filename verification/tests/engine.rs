use gpgsync::engine::{Action, ConfigError, Event, Failure, GpgSync, Phase};
use gpgsync::file_op::{FileOperation, TreeType};
use gpgsync::merge::calculate_merge;
use gpgsync::path::SyncPath;
use gpgsync::tree::{Entry, Mtime, Tree, TreeNode};

fn path(s: &str) -> SyncPath {
    SyncPath::from_str(s)
}

fn entry(name: &str, node: TreeNode) -> Entry {
    Entry { name: name.as_bytes().to_vec(), node }
}

fn dir(mtime: Mtime, children: Vec<Entry>) -> TreeNode {
    TreeNode::new_dir(mtime, None, None, children)
}

fn file(mtime: Mtime) -> TreeNode {
    TreeNode::new_file(mtime, None, None)
}

fn engine() -> GpgSync {
    GpgSync::new(&path("plain"), &path("enc"), &path("/work"), true, true).unwrap()
}

/// Runs one cycle without interruption and hands back the operations.
fn cycle(engine: &mut GpgSync, plain: Vec<Option<TreeNode>>, enc: Vec<Option<TreeNode>>) -> Vec<FileOperation> {
    assert!(matches!(engine.step(Event::Quiet), Action::Read(_, _)));
    assert_eq!(engine.step(Event::Snapshots(plain, enc)), Action::Check);
    assert_eq!(engine.step(Event::Pending(false)), Action::Check);
    let ops = match engine.step(Event::Pending(false)) {
        Action::Execute(ops) => ops,
        other => panic!("unexpected action {:?}", other),
    };
    assert_eq!(engine.step(Event::Executed), Action::Done);
    ops
}

#[test]
fn mod_test_basic() {
    let t0 = Mtime::epoch();

    // PD/notes.txt -> GD/notes.txt.gpg
    {
        let mut gpgs = engine();
        let ops = cycle(
            &mut gpgs,
            vec![Some(dir(t0, vec![entry("notes.txt", file(t0))]))],
            vec![Some(dir(t0, vec![]))],
        );
        assert_eq!(ops, vec![FileOperation::EncryptPlain(path("notes.txt"))]);
        assert!(gpgs.enc_tree.get(&path("notes.txt.gpg")).is_some());
    }

    // GD/notes.txt.gpg -> PD/notes.txt
    {
        let mut gpgs = engine();
        let ops = cycle(
            &mut gpgs,
            vec![Some(dir(t0, vec![]))],
            vec![Some(dir(t0, vec![entry("notes.txt.gpg", file(t0))]))],
        );
        assert_eq!(ops, vec![FileOperation::DecryptEnc(path("notes.txt.gpg"))]);
        assert!(gpgs.plain_tree.get(&path("notes.txt")).is_some());
    }
}

#[test]
fn mod_test_creation_failure() {
    // one dir is inside the other
    assert_eq!(
        GpgSync::new(&path("/data"), &path("/data/enc"), &path("/work"), true, true).err(),
        Some(ConfigError::Overlap)
    );
    assert_eq!(
        GpgSync::new(&path("data/plain"), &path("data"), &path("/work"), true, true).err(),
        Some(ConfigError::Overlap)
    );
    // dir doesn't exist
    assert_eq!(
        GpgSync::new(&path("plain"), &path("enc"), &path("/work"), false, true).err(),
        Some(ConfigError::PlainMissing)
    );
    assert_eq!(
        GpgSync::new(&path("plain"), &path("enc"), &path("/work"), true, false).err(),
        Some(ConfigError::EncMissing)
    );
    let gpgs = engine();
    assert_eq!(gpgs.plain_root, path("/work/plain"));
    assert_eq!(gpgs.enc_root, path("/work/enc"));
    assert_eq!(gpgs.phase, Phase::Gathering);
}

#[test]
fn gpgsync_test_creation_failure() {
    // An absolute root is taken as it is; a root below the other one is refused
    // whichever way round.
    let gpgs = GpgSync::new(&path("/p"), &path("/e"), &path("/work"), true, true).unwrap();
    assert_eq!(gpgs.plain_root, path("/p"));
    assert_eq!(gpgs.enc_root, path("/e"));
    assert_eq!(
        GpgSync::new(&path("/p"), &path("/p"), &path("/work"), true, true).err(),
        Some(ConfigError::Overlap)
    );
    assert_eq!(
        GpgSync::new(&path("/p"), &path("/e"), &path("/work"), false, false).err(),
        Some(ConfigError::PlainMissing)
    );
}

#[test]
fn mod_test_directory_deletion() {
    // A directory that is deleted on one side is deleted on the other.
    let t0 = Mtime::epoch();
    let mut gpgs = engine();
    let ops = cycle(
        &mut gpgs,
        vec![Some(dir(t0, vec![entry("d", dir(t0, vec![entry("f.txt", file(t0))]))]))],
        vec![Some(dir(t0, vec![]))],
    );
    assert_eq!(
        ops,
        vec![
            FileOperation::EncryptPlain(path("d")),
            FileOperation::EncryptPlain(path("d/f.txt")),
        ]
    );

    assert_eq!(gpgs.step(Event::Changed(TreeType::Plain, vec![path("/work/plain/d")])), Action::Wait);
    assert_eq!(gpgs.step(Event::Quiet), Action::Read(vec![path("d")], vec![]));
    let ops = {
        assert_eq!(gpgs.step(Event::Snapshots(vec![None], vec![])), Action::Check);
        assert_eq!(gpgs.step(Event::Pending(false)), Action::Check);
        match gpgs.step(Event::Pending(false)) {
            Action::Execute(ops) => ops,
            other => panic!("unexpected action {:?}", other),
        }
    };
    assert_eq!(ops, vec![FileOperation::DeleteEnc(path("d"))]);
    assert_eq!(gpgs.step(Event::Executed), Action::Done);
    assert!(gpgs.plain_tree.get(&path("d")).is_none());
    assert!(gpgs.enc_tree.get(&path("d")).is_none());
}

#[test]
fn gpgsync_test_directory_deletion() {
    // A path that is neither on disk nor in the tree fails the cycle.
    let mut gpgs = engine();
    let t0 = Mtime::epoch();
    cycle(&mut gpgs, vec![Some(dir(t0, vec![]))], vec![Some(dir(t0, vec![]))]);
    assert_eq!(gpgs.step(Event::Changed(TreeType::Encrypted, vec![path("/work/enc/gone")])), Action::Wait);
    assert_eq!(gpgs.step(Event::Quiet), Action::Read(vec![], vec![path("gone")]));
    assert_eq!(
        gpgs.step(Event::Snapshots(vec![], vec![None])),
        Action::Failed(Failure::Vanished(TreeType::Encrypted, 0))
    );
}

#[test]
fn mod_test_conflict() {
    // Both sides changed: the plaintext copy is kept under another name, and
    // the encrypted copy wins.
    let t0 = Mtime::epoch();
    let t1 = Mtime::new(1, 0);
    let mut gpgs = engine();
    let ops = cycle(
        &mut gpgs,
        vec![Some(dir(t1, vec![entry("notes.txt", file(t1))]))],
        vec![Some(dir(t0, vec![entry("notes.txt.gpg", file(t0))]))],
    );
    assert_eq!(
        ops,
        vec![
            FileOperation::ConflictCopyPlain(path("notes.txt"), path("conflict_1_notes.txt")),
            FileOperation::DecryptEnc(path("notes.txt.gpg")),
        ]
    );
    assert!(gpgs.plain_tree.get(&path("conflict_1_notes.txt")).is_some());
}

#[test]
fn gpgsync_test_conflict() {
    // A file on one side and a directory on the other cannot be merged.
    let t0 = Mtime::epoch();
    let mut gpgs = engine();
    assert!(matches!(gpgs.step(Event::Quiet), Action::Read(_, _)));
    assert_eq!(
        gpgs.step(Event::Snapshots(
            vec![Some(dir(t0, vec![entry("b.txt", dir(t0, vec![]))]))],
            vec![Some(dir(t0, vec![entry("b.txt.gpg", file(t0))]))],
        )),
        Action::Check
    );
    assert_eq!(gpgs.step(Event::Pending(false)), Action::Failed(Failure::Unmergeable));
}

#[test]
fn mod_test_graceful_conflict() {
    // Modified in the encrypted directory, deleted in the plaintext one: the
    // encrypted file is kept as a conflict copy before it is deleted.
    let t0 = Mtime::epoch();
    let t1 = Mtime::new(1, 0);
    let mut gpgs = engine();
    cycle(
        &mut gpgs,
        vec![Some(dir(t0, vec![entry("notes.txt", file(t0))]))],
        vec![Some(dir(t0, vec![]))],
    );
    gpgs.step(Event::Changed(TreeType::Plain, vec![path("/work/plain/notes.txt")]));
    gpgs.step(Event::Changed(TreeType::Encrypted, vec![path("/work/enc/notes.txt.gpg")]));
    assert_eq!(gpgs.step(Event::Quiet), Action::Read(vec![path("notes.txt")], vec![path("notes.txt.gpg")]));
    assert_eq!(gpgs.step(Event::Snapshots(vec![None], vec![Some(file(t1))])), Action::Check);
    assert_eq!(gpgs.step(Event::Pending(false)), Action::Check);
    assert_eq!(
        gpgs.step(Event::Pending(false)),
        Action::Execute(vec![
            FileOperation::ConflictCopyEnc(path("notes.txt.gpg"), path("conflict_1_notes.txt.gpg")),
            FileOperation::DeleteEnc(path("notes.txt.gpg")),
        ])
    );
}

#[test]
fn gpgsync_test_graceful_conflict() {
    // Added in the plaintext directory, deleted in the encrypted one.
    let t0 = Mtime::epoch();
    let t1 = Mtime::new(1, 0);
    let mut tree_e = Tree::new();
    tree_e.write(&path("notes.txt.gpg"), false, t0);
    tree_e.clean();
    tree_e.mark_deleted(&path("notes.txt.gpg"), t0);
    let mut tree_p = Tree::new();
    tree_p.write(&path("notes.txt"), false, t1);
    assert_eq!(
        calculate_merge(&tree_e, &tree_p),
        vec![
            FileOperation::ConflictCopyPlain(path("notes.txt"), path("conflict_1_notes.txt")),
            FileOperation::DeletePlain(path("notes.txt")),
        ]
    );
}

#[test]
fn mod_test_database() {
    // After a complete cycle both trees are clean, and a second cycle over
    // the same state of the disk asks for nothing.
    let t0 = Mtime::epoch();
    let mut gpgs = engine();
    cycle(
        &mut gpgs,
        vec![Some(dir(t0, vec![entry("notes.txt", file(t0))]))],
        vec![Some(dir(t0, vec![]))],
    );
    assert_eq!(gpgs.plain_tree.root.dirt, None);
    assert_eq!(gpgs.enc_tree.root.dirt, None);
    assert_eq!(gpgs.enc_tree.get(&path("notes.txt.gpg")).unwrap().dirt, None);
    assert_eq!(calculate_merge(&gpgs.enc_tree, &gpgs.plain_tree), vec![]);
    assert_eq!(gpgs.step(Event::Quiet), Action::Read(vec![], vec![]));
    assert_eq!(gpgs.step(Event::Snapshots(vec![], vec![])), Action::Check);
    assert_eq!(gpgs.step(Event::Pending(false)), Action::Check);
    assert_eq!(gpgs.step(Event::Pending(false)), Action::Execute(vec![]));
    assert_eq!(gpgs.step(Event::Executed), Action::Done);
}

#[test]
fn gpgsync_test_database() {
    // An event that does not fit the phase changes nothing.
    let mut gpgs = engine();
    assert_eq!(gpgs.step(Event::Executed), Action::Unexpected);
    assert_eq!(gpgs.step(Event::Pending(false)), Action::Unexpected);
    assert_eq!(gpgs.phase, Phase::Gathering);
    assert!(matches!(gpgs.step(Event::Quiet), Action::Read(_, _)));
    assert_eq!(gpgs.step(Event::Quiet), Action::Unexpected);
    assert_eq!(gpgs.step(Event::Snapshots(vec![], vec![])), Action::Failed(Failure::Snapshots));
}

#[test]
fn engine_discards_the_cycle_when_events_are_pending() {
    let t0 = Mtime::epoch();
    let mut gpgs = engine();
    assert!(matches!(gpgs.step(Event::Quiet), Action::Read(_, _)));
    assert_eq!(
        gpgs.step(Event::Snapshots(
            vec![Some(dir(t0, vec![entry("notes.txt", file(t0))]))],
            vec![Some(dir(t0, vec![]))],
        )),
        Action::Check
    );
    assert_eq!(gpgs.step(Event::Pending(true)), Action::Discarded);
    assert_eq!(gpgs.phase, Phase::Gathering);
    // The tree keeps what the diff found, so the next cycle still has work.
    assert_eq!(gpgs.step(Event::Quiet), Action::Read(vec![], vec![]));
    assert_eq!(gpgs.step(Event::Snapshots(vec![], vec![])), Action::Check);
    assert_eq!(gpgs.step(Event::Pending(false)), Action::Check);
    assert_eq!(gpgs.step(Event::Pending(true)), Action::Discarded);
    assert_eq!(gpgs.step(Event::Quiet), Action::Read(vec![], vec![]));
    assert_eq!(gpgs.step(Event::Snapshots(vec![], vec![])), Action::Check);
    assert_eq!(gpgs.step(Event::Pending(false)), Action::Check);
    assert_eq!(
        gpgs.step(Event::Pending(false)),
        Action::Execute(vec![FileOperation::EncryptPlain(path("notes.txt"))])
    );
}

#[test]
fn engine_drops_paths_outside_the_root_and_folds_the_rest() {
    let t0 = Mtime::epoch();
    let mut gpgs = engine();
    cycle(&mut gpgs, vec![Some(dir(t0, vec![]))], vec![Some(dir(t0, vec![]))]);
    gpgs.step(Event::Changed(
        TreeType::Plain,
        vec![
            path("/work/plain/a/b"),
            path("/elsewhere/x"),
            path("/work/plain/a"),
            path("/work/plain/.git/index"),
            path("/work/plain/c"),
            path("d/e"),
        ],
    ));
    assert_eq!(gpgs.step(Event::Quiet), Action::Read(vec![path("a"), path("c"), path("d/e")], vec![]));
}

#[test]
fn dir_and_dir_recurse_without_conflict_copies() {
    let t0 = Mtime::epoch();
    let t1 = Mtime::new(1, 0);
    let mut tree_p = Tree::new();
    tree_p.write(&path("a"), true, t0);
    tree_p.clean();
    tree_p.write(&path("a/f1.txt"), false, t1);
    let mut tree_e = Tree::new();
    tree_e.write(&path("a"), true, t0);
    tree_e.clean();
    tree_e.write(&path("a/f2.txt.gpg"), false, t0);
    assert_eq!(
        calculate_merge(&tree_e, &tree_p),
        vec![
            FileOperation::EncryptPlain(path("a/f1.txt")),
            FileOperation::DecryptEnc(path("a/f2.txt.gpg")),
        ]
    );
}

#[test]
fn mod_test_running_sync() {
    let t0 = Mtime::epoch();
    let t1 = Mtime::new(1, 0);
    let mut gpgs = engine();
    // Both directories are empty at first.
    assert_eq!(cycle(&mut gpgs, vec![Some(dir(t0, vec![]))], vec![Some(dir(t0, vec![]))]), vec![]);
    assert!(gpgs.enc_tree.get(&path("notes.txt.gpg")).is_none());

    // Then a file appears.
    assert_eq!(gpgs.step(Event::Changed(TreeType::Plain, vec![path("/work/plain/notes.txt")])), Action::Wait);
    assert_eq!(gpgs.step(Event::Quiet), Action::Read(vec![path("notes.txt")], vec![]));
    assert_eq!(gpgs.step(Event::Snapshots(vec![Some(file(t1))], vec![])), Action::Check);
    assert_eq!(gpgs.step(Event::Pending(false)), Action::Check);
    assert_eq!(
        gpgs.step(Event::Pending(false)),
        Action::Execute(vec![FileOperation::EncryptPlain(path("notes.txt"))])
    );
    assert_eq!(gpgs.step(Event::Executed), Action::Done);
    assert!(gpgs.enc_tree.get(&path("notes.txt.gpg")).is_some());
}

#[test]
fn test_directories() {
    let t0 = Mtime::epoch();

    // PD/dir/ -> GD/dir/
    {
        let mut gpgs = engine();
        let ops = cycle(&mut gpgs, vec![Some(dir(t0, vec![entry("dir", dir(t0, vec![]))]))], vec![Some(dir(t0, vec![]))]);
        assert_eq!(ops, vec![FileOperation::EncryptPlain(path("dir"))]);
        assert!(gpgs.enc_tree.get(&path("dir")).unwrap().is_dir());
    }

    // GD/dir/ -> PD/dir/
    {
        let mut gpgs = engine();
        let ops = cycle(&mut gpgs, vec![Some(dir(t0, vec![]))], vec![Some(dir(t0, vec![entry("dir", dir(t0, vec![]))]))]);
        assert_eq!(ops, vec![FileOperation::DecryptEnc(path("dir"))]);
        assert!(gpgs.plain_tree.get(&path("dir")).unwrap().is_dir());
    }

    // PD/dir/... -> GD/dir/...
    {
        let mut gpgs = engine();
        let ops = cycle(
            &mut gpgs,
            vec![Some(dir(
                t0,
                vec![entry(
                    "dir",
                    dir(
                        t0,
                        vec![
                            entry("notes.txt", file(t0)),
                            entry("dir2", dir(t0, vec![entry("notes2.txt", file(t0)), entry("notes3.txt", file(t0))])),
                        ],
                    ),
                )],
            ))],
            vec![Some(dir(t0, vec![]))],
        );
        assert_eq!(
            ops,
            vec![
                FileOperation::EncryptPlain(path("dir")),
                FileOperation::EncryptPlain(path("dir/dir2")),
                FileOperation::EncryptPlain(path("dir/dir2/notes2.txt")),
                FileOperation::EncryptPlain(path("dir/dir2/notes3.txt")),
                FileOperation::EncryptPlain(path("dir/notes.txt")),
            ]
        );
        for p in ["dir/notes.txt.gpg", "dir/dir2/notes2.txt.gpg", "dir/dir2/notes3.txt.gpg"] {
            assert!(gpgs.enc_tree.get(&path(p)).unwrap().is_file());
        }
    }
}

#[test]
fn mod_test_rename() {
    let t0 = Mtime::epoch();
    let t1 = Mtime::new(1, 0);
    let mut gpgs = engine();
    cycle(
        &mut gpgs,
        vec![Some(dir(t0, vec![entry("notes.txt", file(t0))]))],
        vec![Some(dir(t0, vec![]))],
    );
    assert!(gpgs.enc_tree.get(&path("notes.txt.gpg")).is_some());

    // A rename is reported with both paths.
    gpgs.step(Event::Changed(
        TreeType::Plain,
        vec![path("/work/plain/notes.txt"), path("/work/plain/notes_renamed.txt")],
    ));
    assert_eq!(
        gpgs.step(Event::Quiet),
        Action::Read(vec![path("notes.txt"), path("notes_renamed.txt")], vec![])
    );
    assert_eq!(gpgs.step(Event::Snapshots(vec![None, Some(file(t1))], vec![])), Action::Check);
    assert_eq!(gpgs.step(Event::Pending(false)), Action::Check);
    assert_eq!(
        gpgs.step(Event::Pending(false)),
        Action::Execute(vec![
            FileOperation::DeleteEnc(path("notes.txt.gpg")),
            FileOperation::EncryptPlain(path("notes_renamed.txt")),
        ])
    );
    assert_eq!(gpgs.step(Event::Executed), Action::Done);
    assert!(gpgs.plain_tree.get(&path("notes.txt")).is_none());
    assert!(gpgs.plain_tree.get(&path("notes_renamed.txt")).is_some());
    assert!(gpgs.enc_tree.get(&path("notes.txt.gpg")).is_none());
    assert!(gpgs.enc_tree.get(&path("notes_renamed.txt.gpg")).is_some());
}
