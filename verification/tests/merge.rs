use gpgsync::file_op::FileOperation;
use gpgsync::merge::{calculate_merge, can_merge};
use gpgsync::path::SyncPath;
use gpgsync::tree::{Mtime, Tree};

fn path(s: &str) -> SyncPath {
    SyncPath::from_str(s)
}

#[test]
fn merge_test_merge_1() {
    // del <-> del (top-level)
    let t0 = Mtime::epoch();
    let t1 = Mtime::new(1, 1);

    let mut tree_e = Tree::new();
    tree_e.write(&path("f1.txt.gpg"), false, t0);
    tree_e.mark_deleted(&path("f1.txt.gpg"), t0);

    let mut tree_p = Tree::new();
    tree_p.write(&path("f1.txt"), false, t1);
    tree_p.mark_deleted(&path("f1.txt"), t1);

    assert!(can_merge(&tree_e, &tree_p));
    assert_eq!(calculate_merge(&tree_e, &tree_p), vec![]);
}

#[test]
fn merge_test_merge_2() {
    // clean <-> del (top-level)
    let t0 = Mtime::epoch();
    let t1 = Mtime::new(1, 1);

    let mut tree_e = Tree::new();
    tree_e.write(&path("f1.txt.gpg"), false, t0);
    tree_e.clean();

    let mut tree_p = Tree::new();
    tree_p.write(&path("f1.txt"), false, t1);
    tree_p.mark_deleted(&path("f1.txt"), t1);

    assert_eq!(
        calculate_merge(&tree_e, &tree_p),
        vec![FileOperation::DeleteEnc(path("f1.txt.gpg"))]
    );
}

#[test]
fn merge_test_merge_3() {
    // mod <-> mod (top-level)
    let t0 = Mtime::epoch();
    let t1 = Mtime::new(1, 1);

    let mut tree_e = Tree::new();
    tree_e.write(&path("f1.txt.gpg"), false, t0);

    let mut tree_p = Tree::new();
    tree_p.write(&path("f1.txt"), false, t1);

    assert_eq!(
        calculate_merge(&tree_e, &tree_p),
        vec![
            FileOperation::ConflictCopyPlain(
                path("f1.txt"),
                path(&format!("conflict_{}_f1.txt", t1.as_secs()))
            ),
            FileOperation::DecryptEnc(path("f1.txt.gpg"))
        ]
    );
}

#[test]
fn merge_test_merge_5() {
    // mod <-> mod (conflicting mod within same subdir)
    let t0 = Mtime::epoch();
    let t1 = Mtime::new(1, 1);

    let mut tree_e = Tree::new();
    tree_e.write(&path("a/f1.txt.gpg"), false, t0);
    tree_e.write(&path("a/f2.txt.gpg"), false, t0);

    let mut tree_p = Tree::new();
    tree_p.write(&path("a/f1.txt"), false, t1);
    tree_p.write(&path("a/f2.txt"), false, t1);

    assert_eq!(
        calculate_merge(&tree_e, &tree_p),
        vec![
            FileOperation::ConflictCopyPlain(
                path("a/f1.txt"),
                path(&format!("a/conflict_{}_f1.txt", t1.as_secs()))
            ),
            FileOperation::DecryptEnc(path("a/f1.txt.gpg")),
            FileOperation::ConflictCopyPlain(
                path("a/f2.txt"),
                path(&format!("a/conflict_{}_f2.txt", t1.as_secs()))
            ),
            FileOperation::DecryptEnc(path("a/f2.txt.gpg")),
        ]
    );
}

#[test]
fn merge_test_merge_6() {
    // pathdirt/mod <-> delete/ (conflicting on separate levels)
    let t0 = Mtime::epoch();
    let t1 = Mtime::new(1, 1);

    let mut tree_e = Tree::new();
    tree_e.write(&path("a/f1.txt.gpg"), false, t0);

    let mut tree_p = Tree::new();
    tree_p.write(&path("a/f1.txt"), false, t1);
    tree_p.clean();
    tree_p.mark_deleted(&path("a"), t1);

    assert_eq!(
        calculate_merge(&tree_e, &tree_p),
        vec![
            FileOperation::ConflictCopyEnc(
                path("a/f1.txt.gpg"),
                path(&format!("conflict_{}_a/f1.txt.gpg", t0.as_secs()))
            ),
            FileOperation::DeleteEnc(path("a")),
        ]
    );
}

#[test]
fn merge_test_merge_7() {
    // delete/ <-> pathdirt/mod (conflicting on separate levels)
    let t0 = Mtime::epoch();
    let t1 = Mtime::new(1, 1);

    let mut tree_e = Tree::new();
    tree_e.write(&path("a/f1.txt.gpg"), false, t0);
    tree_e.clean();
    tree_e.mark_deleted(&path("a"), t0);

    let mut tree_p = Tree::new();
    tree_p.write(&path("a/f1.txt"), false, t1);

    assert_eq!(
        calculate_merge(&tree_e, &tree_p),
        vec![
            FileOperation::ConflictCopyPlain(
                path("a/f1.txt"),
                path(&format!("conflict_{}_a/f1.txt", t1.as_secs()))
            ),
            FileOperation::DeletePlain(path("a")),
        ]
    );
}

#[test]
fn merge_test_merge_8() {
    // pathdirt/del <-> pathdirt/mod (conflicting on same levels)
    let t0 = Mtime::epoch();
    let t1 = Mtime::new(1, 1);

    let mut tree_e = Tree::new();
    tree_e.write(&path("a/f1.txt.gpg"), false, t0);
    tree_e.mark_deleted(&path("a/f1.txt.gpg"), t0);

    let mut tree_p = Tree::new();
    tree_p.write(&path("a/f1.txt"), false, t1);

    assert_eq!(
        calculate_merge(&tree_e, &tree_p),
        vec![
            FileOperation::ConflictCopyPlain(
                path("a/f1.txt"),
                path(&format!("a/conflict_{}_f1.txt", t1.as_secs()))
            ),
            FileOperation::DeletePlain(path("a/f1.txt")),
        ]
    );
}

#[test]
fn merge_test_merge_9() {
    // pathdirt/mod <-> pathdirt/del (conflicting on same levels)
    let t0 = Mtime::epoch();
    let t1 = Mtime::new(1, 1);

    let mut tree_e = Tree::new();
    tree_e.write(&path("a/f1.txt.gpg"), false, t0);

    let mut tree_p = Tree::new();
    tree_p.write(&path("a/f1.txt"), false, t1);
    tree_p.mark_deleted(&path("a/f1.txt"), t1);

    assert_eq!(
        calculate_merge(&tree_e, &tree_p),
        vec![
            FileOperation::ConflictCopyEnc(
                path("a/f1.txt.gpg"),
                path(&format!("a/conflict_{}_f1.txt.gpg", t0.as_secs()))
            ),
            FileOperation::DeleteEnc(path("a/f1.txt.gpg")),
        ]
    );
}

#[test]
fn merge_test_merge_10() {
    // mod <-> pathdirt/mod (conflicting on separate levels)
    let t0 = Mtime::epoch();
    let t1 = Mtime::new(1, 1);

    let mut tree_e = Tree::new();
    tree_e.write(&path("a"), true, t0);

    let mut tree_p = Tree::new();
    tree_p.write(&path("a/f1.txt"), false, t1);

    assert_eq!(
        calculate_merge(&tree_e, &tree_p),
        vec![
            FileOperation::ConflictCopyPlain(
                path("a/f1.txt"),
                path(&format!("conflict_{}_a/f1.txt", t1.as_secs()))
            ),
            FileOperation::DecryptEnc(path("a")),
        ]
    );
}

#[test]
fn merge_test_merge_11() {
    // pathdirt/mod <-> mod (conflicting on separate levels)
    let t0 = Mtime::epoch();
    let t1 = Mtime::new(1, 1);

    let mut tree_e = Tree::new();
    tree_e.write(&path("a/f1.txt.gpg"), false, t0);

    let mut tree_p = Tree::new();
    tree_p.write(&path("a"), true, t1);

    assert_eq!(
        calculate_merge(&tree_e, &tree_p),
        vec![
            FileOperation::ConflictCopyEnc(
                path("a/f1.txt.gpg"),
                path(&format!("conflict_{}_a/f1.txt.gpg", t0.as_secs()))
            ),
            FileOperation::EncryptPlain(path("a")),
        ]
    );
}
