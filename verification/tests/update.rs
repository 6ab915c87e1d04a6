use gpgsync::file_op::FileOperation;
use gpgsync::path::SyncPath;
use gpgsync::tree::{Dirt, Entry, Mtime, Tree, TreeNode};
use gpgsync::update::update_trees_with_changes;

fn path(s: &str) -> SyncPath {
    SyncPath::from_str(s)
}

fn entry(name: &str, node: TreeNode) -> Entry {
    Entry { name: name.as_bytes().to_vec(), node }
}

#[test]
fn update_test_update_tree_0() {
    // ConflictCopyEnc (simple leaf in subdir)
    let t0 = Mtime::epoch();

    let conflict_filename = format!("conflict_{}_f1.txt.gpg", t0.as_secs());
    let conflict_path = format!("a/conflict_{}_f1.txt.gpg", t0.as_secs());

    let mut tree_e = Tree::new();
    tree_e.write(&path("a/f1.txt.gpg"), false, t0);

    let mut tree_p = Tree::new();

    update_trees_with_changes(
        &mut tree_e,
        &mut tree_p,
        &vec![FileOperation::ConflictCopyEnc(path("a/f1.txt.gpg"), path(&conflict_path))],
    );

    assert!(tree_e.root.get_parent_of(&path(&conflict_path)).is_some());

    let tr = Tree {
        root: TreeNode::new_dir(
            t0,
            Some(Dirt::PathDirt),
            None,
            vec![entry(
                "a",
                TreeNode::new_dir(
                    t0,
                    Some(Dirt::PathDirt),
                    None,
                    vec![
                        entry(&conflict_filename, TreeNode::new_file(t0, Some(Dirt::Modified), None)),
                        entry("f1.txt.gpg", TreeNode::new_file(t0, Some(Dirt::Modified), None)),
                    ],
                ),
            )],
        ),
    };

    assert_eq!(tree_e, tr);
}

#[test]
fn update_test_update_tree_1() {
    // ConflictCopyPlain (simple leaf in subdir)
    let t1 = Mtime::new(1, 1);

    let conflict_filename = format!("conflict_{}_f1.txt", t1.as_secs());
    let conflict_path = format!("a/conflict_{}_f1.txt", t1.as_secs());

    let mut tree_e = Tree::new();

    let mut tree_p = Tree::new();
    tree_p.write(&path("a/f1.txt"), false, t1);

    update_trees_with_changes(
        &mut tree_e,
        &mut tree_p,
        &vec![FileOperation::ConflictCopyPlain(path("a/f1.txt"), path(&conflict_path))],
    );

    assert!(tree_p.root.get_parent_of(&path(&conflict_path)).is_some());

    let tr = Tree {
        root: TreeNode::new_dir(
            t1,
            Some(Dirt::PathDirt),
            None,
            vec![entry(
                "a",
                TreeNode::new_dir(
                    t1,
                    Some(Dirt::PathDirt),
                    None,
                    vec![
                        entry(&conflict_filename, TreeNode::new_file(t1, Some(Dirt::Modified), None)),
                        entry("f1.txt", TreeNode::new_file(t1, Some(Dirt::Modified), None)),
                    ],
                ),
            )],
        ),
    };

    assert_eq!(tree_p, tr);
}

#[test]
fn update_test_update_tree_2() {
    // DeleteEnc (simple leaf in subdir)
    let t0 = Mtime::epoch();

    let mut tree_e = Tree::new();
    tree_e.write(&path("a/f1.txt.gpg"), false, t0);

    let mut tree_p = Tree::new();

    update_trees_with_changes(
        &mut tree_e,
        &mut tree_p,
        &vec![FileOperation::DeleteEnc(path("a/f1.txt.gpg"))],
    );

    let tr = Tree {
        root: TreeNode::new_dir(
            t0,
            Some(Dirt::PathDirt),
            None,
            vec![entry("a", TreeNode::new_dir(t0, Some(Dirt::PathDirt), None, vec![]))],
        ),
    };

    assert_eq!(tree_e, tr);
}

#[test]
fn update_test_update_tree_3() {
    // DeletePlain (simple leaf in subdir)
    let t1 = Mtime::new(1, 1);

    let mut tree_e = Tree::new();

    let mut tree_p = Tree::new();
    tree_p.write(&path("a/f1.txt"), false, t1);

    update_trees_with_changes(
        &mut tree_e,
        &mut tree_p,
        &vec![FileOperation::DeletePlain(path("a/f1.txt"))],
    );

    let tr = Tree {
        root: TreeNode::new_dir(
            t1,
            Some(Dirt::PathDirt),
            None,
            vec![entry("a", TreeNode::new_dir(t1, Some(Dirt::PathDirt), None, vec![]))],
        ),
    };

    assert_eq!(tree_p, tr);
}

#[test]
fn update_test_update_tree_4() {
    // Encryption (simple leaf in subdir)
    let t1 = Mtime::new(1, 1);

    let mut tree_e = Tree::new();

    let mut tree_p = Tree::new();
    tree_p.write(&path("a/f1.txt"), false, t1);

    update_trees_with_changes(
        &mut tree_e,
        &mut tree_p,
        &vec![FileOperation::EncryptPlain(path("a/f1.txt"))],
    );

    let tr = Tree {
        root: TreeNode::new_dir(
            t1,
            Some(Dirt::PathDirt),
            None,
            vec![entry(
                "a",
                TreeNode::new_dir(
                    t1,
                    Some(Dirt::PathDirt),
                    None,
                    vec![entry("f1.txt.gpg", TreeNode::new_file(t1, Some(Dirt::Modified), None))],
                ),
            )],
        ),
    };

    assert_eq!(tree_e, tr);
}

#[test]
fn update_test_update_tree_5() {
    // Decryption (simple leaf in subdir)
    let t0 = Mtime::epoch();

    let mut tree_e = Tree::new();
    tree_e.write(&path("a/f1.txt.gpg"), false, t0);

    let mut tree_p = Tree::new();

    update_trees_with_changes(
        &mut tree_e,
        &mut tree_p,
        &vec![FileOperation::DecryptEnc(path("a/f1.txt.gpg"))],
    );

    let tr = Tree {
        root: TreeNode::new_dir(
            t0,
            Some(Dirt::PathDirt),
            None,
            vec![entry(
                "a",
                TreeNode::new_dir(
                    t0,
                    Some(Dirt::PathDirt),
                    None,
                    vec![entry("f1.txt", TreeNode::new_file(t0, Some(Dirt::Modified), None))],
                ),
            )],
        ),
    };

    assert_eq!(tree_p, tr);
}
