use gpgsync::diff::{DiffError, TreeReconciler};
use gpgsync::file_op::TreeType;
use gpgsync::path::SyncPath;
use gpgsync::tree::{Dirt, Entry, Mtime, Tree, TreeNode};

fn path(s: &str) -> SyncPath {
    SyncPath::from_str(s)
}

fn entry(name: &str, node: TreeNode) -> Entry {
    Entry { name: name.as_bytes().to_vec(), node }
}

fn dir(mtime: Mtime, children: Vec<Entry>) -> TreeNode {
    TreeNode::new_dir(mtime, None, None, children)
}

fn file(mtime: Mtime) -> TreeNode {
    TreeNode::new_file(mtime, None, None)
}

#[test]
fn diff_test_diff_from_filesystem_0() {
    // (plain) file on filesystem <-> empty tree
    let t0 = Mtime::epoch();
    let f1_mtime = Mtime::new(1700000000, 5);
    let fs = dir(f1_mtime, vec![entry("f1.txt", file(f1_mtime))]);

    let mut tr = Tree::with_time(&t0);
    let r = TreeReconciler::diff_from_filesystem(Some(&fs), &mut tr, &path(""), TreeType::Plain);
    assert_eq!(r, Ok(()));

    assert_eq!(
        tr,
        Tree {
            root: TreeNode::new_dir(
                f1_mtime,
                Some(Dirt::PathDirt),
                None,
                vec![entry("f1.txt", TreeNode::new_file(f1_mtime, Some(Dirt::Modified), None))]
            )
        }
    );
}

#[test]
fn diff_test_diff_from_filesystem_1() {
    // (plain) empty filesystem <-> tree with entry
    let t1 = Mtime::new(1, 1);
    let fs = dir(t1, vec![]);

    let mut tr = Tree::with_time(&t1);
    tr.write(&path("f1.txt"), false, t1);
    tr.clean();

    let r = TreeReconciler::diff_from_filesystem(Some(&fs), &mut tr, &path(""), TreeType::Plain);
    assert_eq!(r, Ok(()));

    assert_eq!(
        tr,
        Tree {
            root: TreeNode::new_dir(
                t1,
                Some(Dirt::PathDirt),
                None,
                vec![entry("f1.txt", TreeNode::new_file(t1, Some(Dirt::Deleted), None))]
            )
        }
    );
}

#[test]
fn diff_test_diff_from_filesystem_2() {
    // (plain) file in filesystem <-> tree with older mtime
    let t0 = Mtime::epoch();
    let f1_mtime = Mtime::new(1700000000, 5);
    let fs = dir(f1_mtime, vec![entry("f1.txt", file(f1_mtime))]);

    let mut tr = Tree::with_time(&t0);
    tr.write(&path("f1.txt"), false, t0);
    tr.clean();

    let r = TreeReconciler::diff_from_filesystem(Some(&fs), &mut tr, &path(""), TreeType::Plain);
    assert_eq!(r, Ok(()));

    assert_eq!(
        tr,
        Tree {
            root: TreeNode::new_dir(
                f1_mtime,
                Some(Dirt::PathDirt),
                None,
                vec![entry("f1.txt", TreeNode::new_file(f1_mtime, Some(Dirt::Modified), None))]
            )
        }
    );
}

#[test]
fn diff_test_diff_from_filesystem_3() {
    // (plain) file in filesystem <-> tree with correct mtime
    let t0 = Mtime::epoch();
    let f1_mtime = Mtime::new(1700000000, 5);
    let fs = dir(f1_mtime, vec![entry("f1.txt", file(f1_mtime))]);

    let mut tr = Tree::with_time(&t0);
    tr.write(&path("f1.txt"), false, f1_mtime);
    tr.clean();

    let r = TreeReconciler::diff_from_filesystem(Some(&fs), &mut tr, &path(""), TreeType::Plain);
    assert_eq!(r, Ok(()));

    assert_eq!(
        tr,
        Tree {
            root: TreeNode::new_dir(
                f1_mtime,
                None,
                None,
                vec![entry("f1.txt", TreeNode::new_file(f1_mtime, None, None))]
            )
        }
    );
}

#[test]
fn diff_test_diff_from_filesystem_4() {
    // (enc) file on filesystem <-> empty tree
    let t0 = Mtime::epoch();
    let f1_mtime = Mtime::new(1700000000, 5);
    let fs = dir(f1_mtime, vec![entry("f1.txt.gpg", file(f1_mtime))]);

    let mut tr = Tree::with_time(&t0);
    let r = TreeReconciler::diff_from_filesystem(Some(&fs), &mut tr, &path(""), TreeType::Encrypted);
    assert_eq!(r, Ok(()));

    assert_eq!(
        tr,
        Tree {
            root: TreeNode::new_dir(
                f1_mtime,
                Some(Dirt::PathDirt),
                None,
                vec![entry("f1.txt.gpg", TreeNode::new_file(f1_mtime, Some(Dirt::Modified), None))]
            )
        }
    );
}

#[test]
fn diff_test_diff_from_filesystem_5() {
    // (enc) empty filesystem <-> tree with entry
    let t1 = Mtime::new(1, 1);
    let fs = dir(t1, vec![]);

    let mut tr = Tree::with_time(&t1);
    tr.write(&path("f1.txt.gpg"), false, t1);
    tr.clean();

    let r = TreeReconciler::diff_from_filesystem(Some(&fs), &mut tr, &path(""), TreeType::Encrypted);
    assert_eq!(r, Ok(()));

    assert_eq!(
        tr,
        Tree {
            root: TreeNode::new_dir(
                t1,
                Some(Dirt::PathDirt),
                None,
                vec![entry("f1.txt.gpg", TreeNode::new_file(t1, Some(Dirt::Deleted), None))]
            )
        }
    );
}

#[test]
fn diff_test_diff_from_filesystem_6() {
    // (enc) file in filesystem <-> tree with older mtime
    let t0 = Mtime::epoch();
    let f1_mtime = Mtime::new(1700000000, 5);
    let fs = dir(f1_mtime, vec![entry("f1.txt.gpg", file(f1_mtime))]);

    let mut tr = Tree::with_time(&t0);
    tr.write(&path("f1.txt.gpg"), false, t0);
    tr.clean();

    let r = TreeReconciler::diff_from_filesystem(Some(&fs), &mut tr, &path(""), TreeType::Encrypted);
    assert_eq!(r, Ok(()));

    assert_eq!(
        tr,
        Tree {
            root: TreeNode::new_dir(
                f1_mtime,
                Some(Dirt::PathDirt),
                None,
                vec![entry("f1.txt.gpg", TreeNode::new_file(f1_mtime, Some(Dirt::Modified), None))]
            )
        }
    );
}

#[test]
fn diff_test_diff_from_filesystem_7() {
    // (enc) file in filesystem <-> tree with correct mtime
    let t0 = Mtime::epoch();
    let f1_mtime = Mtime::new(1700000000, 5);
    let fs = dir(f1_mtime, vec![entry("f1.txt.gpg", file(f1_mtime))]);

    let mut tr = Tree::with_time(&t0);
    tr.write(&path("f1.txt.gpg"), false, f1_mtime);
    tr.clean();

    let r = TreeReconciler::diff_from_filesystem(Some(&fs), &mut tr, &path(""), TreeType::Encrypted);
    assert_eq!(r, Ok(()));

    assert_eq!(
        tr,
        Tree {
            root: TreeNode::new_dir(
                f1_mtime,
                None,
                None,
                vec![entry("f1.txt.gpg", TreeNode::new_file(f1_mtime, None, None))]
            )
        }
    );
}

#[test]
fn diff_test_diff_from_filesystem_8() {
    // (enc) a file without .gpg in the filesystem is ignored
    let t0 = Mtime::epoch();
    let f1_mtime = Mtime::new(1700000000, 5);
    let fs = dir(f1_mtime, vec![entry("f1.txt.wrongextension", file(f1_mtime))]);

    let mut tr = Tree::with_time(&t0);
    let r = TreeReconciler::diff_from_filesystem(Some(&fs), &mut tr, &path(""), TreeType::Encrypted);
    assert_eq!(r, Ok(()));

    assert_eq!(tr, Tree { root: TreeNode::new_dir(t0, None, None, vec![]) });
}

#[test]
fn diff_skips_hidden_entries_on_both_sides() {
    let t0 = Mtime::epoch();
    let m = Mtime::new(7, 0);
    let fs = dir(m, vec![entry(".git", dir(m, vec![entry("index", file(m))])), entry(".hidden.gpg", file(m))]);

    let mut plain = Tree::with_time(&t0);
    assert_eq!(TreeReconciler::diff_from_filesystem(Some(&fs), &mut plain, &path(""), TreeType::Plain), Ok(()));
    assert_eq!(plain, Tree { root: TreeNode::new_dir(t0, None, None, vec![]) });

    let mut enc = Tree::with_time(&t0);
    assert_eq!(TreeReconciler::diff_from_filesystem(Some(&fs), &mut enc, &path(""), TreeType::Encrypted), Ok(()));
    assert_eq!(enc, Tree { root: TreeNode::new_dir(t0, None, None, vec![]) });

    // A hidden path of interest leaves the tree alone as well.
    assert_eq!(
        TreeReconciler::diff_from_filesystem(Some(&file(m)), &mut plain, &path(".git/index"), TreeType::Plain),
        Ok(())
    );
    assert_eq!(plain, Tree { root: TreeNode::new_dir(t0, None, None, vec![]) });
}

#[test]
fn diff_keeps_directories_of_any_name_on_the_encrypted_side() {
    let t0 = Mtime::epoch();
    let m = Mtime::new(7, 0);
    let fs = dir(m, vec![entry("docs", dir(m, vec![entry("a.gpg", file(m)), entry("b.txt", file(m))]))]);

    let mut enc = Tree::with_time(&t0);
    assert_eq!(TreeReconciler::diff_from_filesystem(Some(&fs), &mut enc, &path(""), TreeType::Encrypted), Ok(()));
    let docs = enc.root.child(b"docs").unwrap();
    assert!(docs.is_dir());
    assert_eq!(docs.dirt, Some(Dirt::Modified));
    assert!(docs.child(b"a.gpg").is_some());
    assert!(docs.child(b"b.txt").is_none());
}

#[test]
fn diff_recurses_into_changed_directories_only() {
    let t0 = Mtime::epoch();
    let m = Mtime::new(7, 0);
    let mut tr = Tree::with_time(&t0);
    tr.write(&path("same/f.txt"), false, t0);
    tr.write(&path("other/g.txt"), false, t0);
    tr.clean();

    // `same` keeps its time, so what lies below it is not looked at.
    let fs = dir(
        t0,
        vec![
            entry("other", dir(m, vec![entry("g.txt", file(m))])),
            entry("same", dir(t0, vec![entry("f.txt", file(m))])),
        ],
    );
    assert_eq!(TreeReconciler::diff_from_filesystem(Some(&fs), &mut tr, &path(""), TreeType::Plain), Ok(()));
    assert_eq!(tr.root.child(b"same").unwrap().dirt, None);
    assert_eq!(tr.root.child(b"same").unwrap().child(b"f.txt").unwrap().dirt, None);
    assert_eq!(tr.root.child(b"other").unwrap().dirt, Some(Dirt::Modified));
    assert_eq!(tr.root.child(b"other").unwrap().child(b"g.txt").unwrap().dirt, Some(Dirt::Modified));
    assert_eq!(tr.root.child(b"other").unwrap().child(b"g.txt").unwrap().mtime, m);
}

#[test]
fn diff_marks_a_missing_subtree_with_its_prior_time() {
    let t1 = Mtime::new(1, 1);
    let t2 = Mtime::new(2, 0);
    let mut tr = Tree::with_time(&t1);
    tr.write(&path("a/b/c.txt"), false, t1);
    tr.write(&path("a/d.txt"), false, t2);
    tr.clean();

    assert_eq!(TreeReconciler::diff_from_filesystem(None, &mut tr, &path("a"), TreeType::Plain), Ok(()));
    let a = tr.root.child(b"a").unwrap();
    assert_eq!(a.dirt, Some(Dirt::Deleted));
    assert_eq!(a.mtime, t2);
    assert_eq!(a.child(b"b").unwrap().child(b"c.txt").unwrap().dirt, Some(Dirt::Deleted));
    assert_eq!(a.child(b"b").unwrap().child(b"c.txt").unwrap().mtime, t2);
    assert_eq!(tr.root.dirt, Some(Dirt::PathDirt));
}

#[test]
fn diff_reports_a_file_in_place_of_a_directory() {
    let t0 = Mtime::epoch();
    let m = Mtime::new(7, 0);
    let mut tr = Tree::with_time(&t0);
    tr.write(&path("a/f.txt"), false, t0);
    tr.clean();

    let fs = dir(t0, vec![entry("a", file(m))]);
    assert_eq!(
        TreeReconciler::diff_from_filesystem(Some(&fs), &mut tr, &path(""), TreeType::Plain),
        Err(DiffError::KindChanged(path("a")))
    );
}
