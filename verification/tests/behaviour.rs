use gpgsync::conflict::make_conflict_name;
use gpgsync::file_op::{FileOperation, TreeType};
use gpgsync::filesync::{determine_file_change, determine_sync_action, FileChange, FileStatus, SyncAction};
use gpgsync::fs_ops::{can_plan, plan_file_op, FsAction, Source};
use gpgsync::hash::{check_coincide, hash_all, same_digest};
use gpgsync::merge::{calculate_merge, can_merge, handle_independently, key_of};
use gpgsync::path::SyncPath;
use gpgsync::path_aggregator::PathAggregator;
use gpgsync::syncdb::{analyze_file_and_update_db, DbEntry, SyncDb, DB_VERSION};
use gpgsync::syncentity::SyncEntity;
use gpgsync::tree::{Dirt, Entry, Mtime, Tree, TreeNode};
use gpgsync::update::{op_applicable, try_update_trees};

fn path(s: &str) -> SyncPath {
    SyncPath::from_str(s)
}

fn entry(name: &str, node: TreeNode) -> Entry {
    Entry { name: name.as_bytes().to_vec(), node }
}

fn retained(pa: &PathAggregator) -> Vec<SyncPath> {
    pa.iter().clone()
}

fn hex(bytes: &[u8]) -> String {
    bytes.iter().map(|b| format!("{:02x}", b)).collect()
}

#[test]
fn aggregator_keeps_the_topmost_paths() {
    let mut pa = PathAggregator::new();
    assert_eq!(retained(&pa), vec![]);
    pa.mark_path(&path("/a"));
    pa.mark_path(&path("/a/b"));
    assert_eq!(retained(&pa), vec![path("/a")]);

    let mut pa = PathAggregator::new();
    pa.mark_path(&path("/a/b"));
    pa.mark_path(&path("/a"));
    assert_eq!(retained(&pa), vec![path("/a")]);

    let mut pa = PathAggregator::new();
    pa.mark_path(&path("/a/b"));
    pa.mark_path(&path("/c"));
    pa.mark_path(&path("/"));
    assert_eq!(retained(&pa), vec![path("/")]);
}

#[test]
fn aggregator_is_sorted_and_free_of_prefixes() {
    let mut pa = PathAggregator::new();
    for p in ["m/x", "b", "m/x", "z/1/2", "a/b/c", "z/1", "ab", "a/b", "m/y", "/abs", "a/bc"] {
        pa.mark_path(&path(p));
    }
    assert_eq!(
        retained(&pa),
        vec![
            path("/abs"),
            path("a/b"),
            path("a/bc"),
            path("ab"),
            path("b"),
            path("m/x"),
            path("m/y"),
            path("z/1"),
        ]
    );
    let kept = retained(&pa);
    for a in &kept {
        for b in &kept {
            assert!(a == b || !a.starts_with(b));
        }
    }
    // The empty relative path is above every relative path, but above no
    // absolute one.
    pa.mark_path(&path(""));
    assert_eq!(retained(&pa), vec![path("/abs"), path("")]);
}

#[test]
fn conflict_names_carry_the_seconds_in_decimal() {
    assert_eq!(make_conflict_name(&Mtime::new(0, 0), b"f1.txt"), b"conflict_0_f1.txt".to_vec());
    assert_eq!(make_conflict_name(&Mtime::new(1, 999_999_999), b"f1.txt"), b"conflict_1_f1.txt".to_vec());
    assert_eq!(
        make_conflict_name(&Mtime::new(1700000009, 0), b"a.gpg"),
        b"conflict_1700000009_a.gpg".to_vec()
    );
    assert_eq!(
        make_conflict_name(&Mtime::new(u64::MAX, 0), b""),
        b"conflict_18446744073709551615_".to_vec()
    );
    // A conflict copy of a conflict copy gets a second prefix.
    assert_eq!(
        make_conflict_name(&Mtime::new(10, 0), b"conflict_7_x"),
        b"conflict_10_conflict_7_x".to_vec()
    );
}

#[test]
fn keys_of_encrypted_entries() {
    let t0 = Mtime::epoch();
    assert_eq!(key_of(&entry("a.txt.gpg", TreeNode::new_file(t0, None, None))), Some(b"a.txt".to_vec()));
    assert_eq!(key_of(&entry("a.txt", TreeNode::new_file(t0, None, None))), None);
    assert_eq!(key_of(&entry("d.gpg", TreeNode::new_dir(t0, None, None, vec![]))), Some(b"d.gpg".to_vec()));
    assert_eq!(key_of(&entry(".gpg", TreeNode::new_file(t0, None, None))), Some(b"".to_vec()));
}

#[test]
fn merge_goes_by_key_and_passes_over_files_without_gpg() {
    let t0 = Mtime::epoch();
    let mut tree_e = Tree::with_time(&t0);
    // By name `b.a` comes before `b.gpg`, by key `b` comes before `b.a`.
    tree_e.write(&path("b.gpg"), false, t0);
    tree_e.write(&path("b.a"), true, t0);
    tree_e.write(&path("plain.txt"), false, t0);
    let tree_p = Tree::with_time(&t0);
    assert!(can_merge(&tree_e, &tree_p));
    assert_eq!(
        calculate_merge(&tree_e, &tree_p),
        vec![FileOperation::DecryptEnc(path("b.gpg")), FileOperation::DecryptEnc(path("b.a"))]
    );
}

#[test]
fn merge_refuses_clashes() {
    let t0 = Mtime::epoch();
    // Two encrypted entries with one key.
    let mut tree_e = Tree::with_time(&t0);
    tree_e.write(&path("b.txt"), true, t0);
    tree_e.write(&path("b.txt.gpg"), false, t0);
    let tree_p = Tree::with_time(&t0);
    assert!(!can_merge(&tree_e, &tree_p));

    // A plaintext directory against an encrypted file.
    let mut tree_e = Tree::with_time(&t0);
    tree_e.write(&path("b.txt.gpg"), false, t0);
    let mut tree_p = Tree::with_time(&t0);
    tree_p.write(&path("b.txt"), true, t0);
    assert!(!can_merge(&tree_e, &tree_p));

    // The same one level down, below PathDirt on both sides.
    let mut tree_e = Tree::with_time(&t0);
    tree_e.write(&path("d/b.txt.gpg"), false, t0);
    let mut tree_p = Tree::with_time(&t0);
    tree_p.write(&path("d/b.txt/x"), false, t0);
    assert!(!can_merge(&tree_e, &tree_p));

    // Below a node that is not walked as a pair nothing is asked.
    tree_p.clean();
    tree_p.write(&path("d"), true, t0);
    assert!(can_merge(&tree_e, &tree_p));
}

#[test]
fn merge_of_one_sided_changes() {
    let t0 = Mtime::epoch();
    let t1 = Mtime::new(1, 0);
    let mut tree_e = Tree::with_time(&t0);
    tree_e.write(&path("d/old.txt.gpg"), false, t0);
    tree_e.write(&path("d/sub/x.gpg"), false, t0);
    tree_e.clean();
    let mut tree_p = Tree::with_time(&t0);
    tree_p.write(&path("d/old.txt"), false, t0);
    tree_p.write(&path("d/sub/x"), false, t0);
    tree_p.clean();

    tree_e.mark_deleted(&path("d/old.txt.gpg"), t1);
    tree_e.mark_deleted(&path("d/sub"), t1);
    tree_e.write(&path("d/new.gpg"), false, t1);
    assert_eq!(
        calculate_merge(&tree_e, &tree_p),
        vec![
            FileOperation::DecryptEnc(path("d/new.gpg")),
            FileOperation::DeletePlain(path("d/old.txt")),
            FileOperation::DeletePlain(path("d/sub")),
        ]
    );

    let mut ops = vec![FileOperation::DeleteEnc(path("first"))];
    let sub = tree_e.get(&path("d")).unwrap();
    handle_independently(sub, &path("d"), &mut ops, TreeType::Encrypted, Some(&path("copy")));
    assert_eq!(
        ops,
        vec![
            FileOperation::DeleteEnc(path("first")),
            FileOperation::ConflictCopyEnc(path("d/new.gpg"), path("copy/new.gpg")),
        ]
    );
}

#[test]
fn update_stops_at_the_first_operation_that_does_not_apply() {
    let t0 = Mtime::epoch();
    let mut tree_e = Tree::with_time(&t0);
    let mut tree_p = Tree::with_time(&t0);
    tree_p.write(&path("a/f.txt"), false, t0);
    let ops = vec![
        FileOperation::EncryptPlain(path("a/f.txt")),
        FileOperation::DeletePlain(path("a/missing.txt")),
        FileOperation::DeletePlain(path("a/f.txt")),
    ];
    assert!(op_applicable(&tree_e, &tree_p, &ops[0]));
    assert!(!op_applicable(&tree_e, &tree_p, &ops[1]));
    assert_eq!(try_update_trees(&mut tree_e, &mut tree_p, &ops), Some(1));
    assert!(tree_e.get(&path("a/f.txt.gpg")).is_some());
    assert!(tree_p.get(&path("a/f.txt")).is_some());

    assert_eq!(try_update_trees(&mut tree_e, &mut tree_p, &vec![FileOperation::DeletePlain(path("a/f.txt"))]), None);
    assert!(tree_p.get(&path("a/f.txt")).is_none());

    // The root cannot be deleted, a file without `.gpg` cannot be decrypted,
    // and nothing can be placed below a file.
    assert!(!op_applicable(&tree_e, &tree_p, &FileOperation::DeleteEnc(path(""))));
    tree_e.write(&path("raw"), false, t0);
    assert!(!op_applicable(&tree_e, &tree_p, &FileOperation::DecryptEnc(path("raw"))));
    assert!(!op_applicable(
        &tree_e,
        &tree_p,
        &FileOperation::ConflictCopyEnc(path("raw"), path("a/f.txt.gpg/below"))
    ));
    assert!(op_applicable(&tree_e, &tree_p, &FileOperation::ConflictCopyEnc(path("raw"), path("x/y/z"))));
}

#[test]
fn update_mirrors_directories_with_all_below_them() {
    let t0 = Mtime::epoch();
    let t1 = Mtime::new(1, 0);
    let mut tree_e = Tree::with_time(&t0);
    tree_e.write(&path("d/x.gpg"), false, t1);
    tree_e.write(&path("d/sub/y.txt.gpg"), false, t1);
    tree_e.write(&path("d/sub.gpg/z.gpg"), false, t1);
    tree_e.write(&path("d/not_encrypted"), false, t1);
    let mut tree_p = Tree::with_time(&t0);
    assert_eq!(try_update_trees(&mut tree_e, &mut tree_p, &vec![FileOperation::DecryptEnc(path("d"))]), None);

    // Files lose their `.gpg`, directories keep their names, and a file
    // without `.gpg` has no mirror.
    for p in ["d", "d/x", "d/sub", "d/sub/y.txt", "d/sub.gpg", "d/sub.gpg/z"] {
        assert!(tree_p.get(&path(p)).is_some(), "{}", p);
    }
    assert!(tree_p.get(&path("d/x.gpg")).is_none());
    assert!(tree_p.get(&path("d/not_encrypted")).is_none());
    assert_eq!(tree_p.get(&path("d/sub/y.txt")).unwrap().dirt, Some(Dirt::Modified));
    assert_eq!(tree_p.get(&path("d")).unwrap().mtime, t1);
    assert_eq!(tree_p.root.dirt, Some(Dirt::PathDirt));
    assert_eq!(tree_p.root.mtime, t1);

    // And back: files get `.gpg`, directories keep their names.
    let mut back = Tree::with_time(&t0);
    assert_eq!(try_update_trees(&mut back, &mut tree_p, &vec![FileOperation::EncryptPlain(path("d"))]), None);
    for p in ["d", "d/x.gpg", "d/sub", "d/sub/y.txt.gpg", "d/sub.gpg", "d/sub.gpg/z.gpg"] {
        assert!(back.get(&path(p)).is_some(), "{}", p);
    }
    assert!(back.get(&path("d/x")).is_none());

    // A copy within one side keeps every name.
    assert_eq!(
        try_update_trees(
            &mut tree_e,
            &mut tree_p,
            &vec![FileOperation::ConflictCopyEnc(path("d"), path("conflict_1_d"))]
        ),
        None
    );
    assert_eq!(tree_e.get(&path("conflict_1_d")), tree_e.get(&path("d")));
}

#[test]
fn plans_for_files_and_directories() {
    let files = || Source::Dir(vec![path("a.txt"), path("sub/b.txt.gpg")]);
    assert_eq!(
        plan_file_op(&FileOperation::DeleteEnc(path("d")), &Source::File),
        vec![FsAction::RemoveFile(TreeType::Encrypted, path("d"))]
    );
    assert_eq!(
        plan_file_op(&FileOperation::DeletePlain(path("d")), &files()),
        vec![FsAction::RemoveDirAll(TreeType::Plain, path("d"))]
    );
    assert_eq!(
        plan_file_op(&FileOperation::EncryptPlain(path("d/f")), &Source::File),
        vec![FsAction::Encrypt(path("d/f"), path("d/f.gpg"))]
    );
    assert_eq!(
        plan_file_op(&FileOperation::EncryptPlain(path("d")), &Source::Dir(vec![])),
        vec![FsAction::CreateDirAll(TreeType::Encrypted, path("d"))]
    );
    assert_eq!(
        plan_file_op(&FileOperation::EncryptPlain(path("d")), &files()),
        vec![
            FsAction::Encrypt(path("d/a.txt"), path("d/a.txt.gpg")),
            FsAction::Encrypt(path("d/sub/b.txt.gpg"), path("d/sub/b.txt.gpg.gpg")),
        ]
    );
    assert_eq!(
        plan_file_op(&FileOperation::DecryptEnc(path("d/f.gpg")), &Source::File),
        vec![FsAction::Decrypt(path("d/f.gpg"), path("d/f"))]
    );
    assert_eq!(
        plan_file_op(&FileOperation::DecryptEnc(path("d")), &Source::Dir(vec![])),
        vec![FsAction::CreateDirAll(TreeType::Plain, path("d"))]
    );
    assert_eq!(
        plan_file_op(&FileOperation::DecryptEnc(path("d")), &files()),
        vec![FsAction::Decrypt(path("d/sub/b.txt.gpg"), path("d/sub/b.txt"))]
    );
    assert_eq!(
        plan_file_op(&FileOperation::ConflictCopyPlain(path("f"), path("conflict_1_f")), &Source::File),
        vec![FsAction::Copy(TreeType::Plain, path("f"), path("conflict_1_f"))]
    );
    assert_eq!(
        plan_file_op(&FileOperation::ConflictCopyEnc(path("d"), path("conflict_1_d")), &files()),
        vec![
            FsAction::Copy(TreeType::Encrypted, path("d/a.txt"), path("conflict_1_d/a.txt")),
            FsAction::Copy(TreeType::Encrypted, path("d/sub/b.txt.gpg"), path("conflict_1_d/sub/b.txt.gpg")),
        ]
    );
}

#[test]
fn plans_are_refused_for_paths_that_are_not_relative() {
    assert!(can_plan(&FileOperation::DeleteEnc(path("d")), &Source::File));
    assert!(!can_plan(&FileOperation::DeleteEnc(path("/d")), &Source::File));
    assert!(!can_plan(&FileOperation::ConflictCopyPlain(path("d"), path("/e")), &Source::File));
    assert!(!can_plan(&FileOperation::EncryptPlain(path("d")), &Source::Dir(vec![path("/abs")])));
    assert!(!can_plan(&FileOperation::EncryptPlain(path("d")), &Source::Dir(vec![path("")])));
    assert!(!can_plan(&FileOperation::EncryptPlain(path("")), &Source::File));
    assert!(!can_plan(&FileOperation::DecryptEnc(path("d/f.txt")), &Source::File));
    assert!(can_plan(&FileOperation::DecryptEnc(path("d")), &Source::Dir(vec![path("f.txt")])));
    assert!(FileOperation::DeleteEnc(path("d")).is_relative());
    assert_eq!(FileOperation::DeleteEnc(path("d")).source(), (TreeType::Encrypted, &path("d")));
    assert_eq!(FileOperation::EncryptPlain(path("d")).source(), (TreeType::Plain, &path("d")));
    assert_eq!(
        FileOperation::ConflictCopyPlain(path("d"), path("e")).source(),
        (TreeType::Plain, &path("d"))
    );
    assert!(!FileOperation::ConflictCopyEnc(path("/d"), path("e")).is_relative());
}

#[test]
fn file_changes_and_sync_actions() {
    let t1 = Mtime::new(1, 0);
    let t2 = Mtime::new(1, 1);
    let gone = FileStatus::Nonexistent;
    assert_eq!(determine_file_change(gone, gone), FileChange::NoChange(gone));
    assert_eq!(determine_file_change(gone, FileStatus::Existent(t1)), FileChange::Add);
    assert_eq!(determine_file_change(FileStatus::Existent(t1), gone), FileChange::Del);
    assert_eq!(determine_file_change(FileStatus::Existent(t1), FileStatus::Existent(t2)), FileChange::Mod);
    assert_eq!(determine_file_change(FileStatus::Existent(t2), FileStatus::Existent(t1)), FileChange::Mod);
    assert_eq!(
        determine_file_change(FileStatus::Existent(t1), FileStatus::Existent(t1)),
        FileChange::NoChange(FileStatus::Existent(t1))
    );

    let same_here = FileChange::NoChange(FileStatus::Existent(t1));
    let same_gone = FileChange::NoChange(gone);
    let table = [
        (same_here, same_gone, SyncAction::Nothing),
        (same_gone, FileChange::Add, SyncAction::PushGpg),
        (same_gone, FileChange::Mod, SyncAction::PushGpg),
        (same_gone, FileChange::Del, SyncAction::Nothing),
        (same_here, FileChange::Add, SyncAction::PossibleConflict),
        (same_here, FileChange::Mod, SyncAction::PushGpg),
        (same_here, FileChange::Del, SyncAction::DeletePlain),
        (FileChange::Add, same_gone, SyncAction::PushPlain),
        (FileChange::Add, same_here, SyncAction::PossibleConflict),
        (FileChange::Add, FileChange::Add, SyncAction::PossibleConflict),
        (FileChange::Add, FileChange::Mod, SyncAction::PossibleConflict),
        (FileChange::Add, FileChange::Del, SyncAction::PushPlain),
        (FileChange::Mod, same_gone, SyncAction::PushPlain),
        (FileChange::Mod, same_here, SyncAction::PushPlain),
        (FileChange::Mod, FileChange::Add, SyncAction::PossibleConflict),
        (FileChange::Mod, FileChange::Mod, SyncAction::PossibleConflict),
        (FileChange::Mod, FileChange::Del, SyncAction::PushPlain),
        (FileChange::Del, same_gone, SyncAction::Nothing),
        (FileChange::Del, same_here, SyncAction::DeleteGpg),
        (FileChange::Del, FileChange::Add, SyncAction::PushGpg),
        (FileChange::Del, FileChange::Mod, SyncAction::PushPlain),
        (FileChange::Del, FileChange::Del, SyncAction::Nothing),
    ];
    for (plain, gpg, action) in table {
        assert_eq!(determine_sync_action(plain, gpg), action);
    }
}

#[test]
fn database_records_the_last_state_of_each_file() {
    let t1 = Mtime::new(1, 0);
    let t2 = Mtime::new(2, 0);
    let plain_root = path("/p");
    let gpg_root = path("/e");
    let a = SyncEntity::from_plain(&path("/p/a.txt"), &plain_root, &gpg_root);
    let b = SyncEntity::from_gpg(&path("/e/d/b.txt.gpg"), &plain_root, &gpg_root);

    let mut db = SyncDb::new(&gpg_root);
    assert_eq!(db.gpg_root(), &gpg_root);
    assert_eq!(db.db_version(), DB_VERSION);
    assert_eq!(db.get_file_status(&a), (FileStatus::Nonexistent, FileStatus::Nonexistent));

    db.set_file_status(&a, FileStatus::Existent(t1), FileStatus::Nonexistent);
    db.set_file_status(&b, FileStatus::Existent(t2), FileStatus::Existent(t2));
    assert_eq!(db.get_file_status(&a), (FileStatus::Existent(t1), FileStatus::Nonexistent));
    assert_eq!(db.get_file_status(&b), (FileStatus::Existent(t2), FileStatus::Existent(t2)));
    db.set_file_status(&a, FileStatus::Existent(t2), FileStatus::Existent(t1));
    assert_eq!(db.get_file_status(&a), (FileStatus::Existent(t2), FileStatus::Existent(t1)));
    assert_eq!(db.get_file_status(&b), (FileStatus::Existent(t2), FileStatus::Existent(t2)));
    assert_eq!(db.entries().len(), 2);

    // The plaintext copy changed, the encrypted one did not.
    assert_eq!(
        analyze_file_and_update_db(&mut db, &a, FileStatus::Existent(t1), FileStatus::Existent(t1)),
        SyncAction::PushPlain
    );
    assert_eq!(db.get_file_status(&a), (FileStatus::Existent(t1), FileStatus::Existent(t1)));
    assert_eq!(
        analyze_file_and_update_db(&mut db, &a, FileStatus::Existent(t1), FileStatus::Existent(t1)),
        SyncAction::Nothing
    );

    let saved = vec![DbEntry { path: path("a.txt"), plain: FileStatus::Existent(t1), gpg: FileStatus::Nonexistent }];
    assert_eq!(SyncDb::restore(path("/e"), DB_VERSION + 1, vec![]), None);
    let restored = SyncDb::restore(path("/e"), DB_VERSION, saved).unwrap();
    assert_eq!(restored.get_file_status(&a), (FileStatus::Existent(t1), FileStatus::Nonexistent));
    assert_eq!(restored.get_file_status(&b), (FileStatus::Nonexistent, FileStatus::Nonexistent));
}

#[test]
fn digests_are_those_of_sha1_and_md5() {
    assert_eq!(hex(&hash_all(b"abc")), "a9993e364706816aba3e25717850c26c9cd0d89d");
    assert_eq!(hex(&hash_all(b"")), "da39a3ee5e6b4b0d3255bfef95601890afd80709");
    assert_eq!(hex(&hash_all(b"hello world")), "2aae6c35c94fcfb415dbe95f408b9ce91ee846ed");
    // Stable from call to call.
    assert_eq!(hash_all(b"hello"), hash_all(b"hello"));
    assert!(same_digest(&hash_all(b"x"), &hash_all(b"x")));
    assert!(!same_digest(&hash_all(b"x"), &hash_all(b"y")));
    assert!(check_coincide(b"hello", b"hello"));
    assert!(!check_coincide(b"hello", b"goodbye"));
    assert!(check_coincide(b"", b""));
}
