use gpgsync::file_op::{FileOperation, TreeType};
use gpgsync::merge::Independent;
use gpgsync::path::SyncPath;
use gpgsync::tree::{Dirt, Entry, Mtime, Tree, TreeNode};
use gpgsync::visit::MarkDeleted;

fn path(s: &str) -> SyncPath {
    SyncPath::from_str(s)
}

fn entry(name: &str, node: TreeNode) -> Entry {
    Entry { name: name.as_bytes().to_vec(), node }
}

fn dirt_at(tree: &Tree, p: &str) -> Option<Dirt> {
    tree.get(&path(p)).unwrap().dirt
}

#[test]
fn write_marks_the_path_and_sets_the_time() {
    let t0 = Mtime::epoch();
    let t5 = Mtime::new(5, 9);
    let mut tree = Tree::with_time(&t0);
    tree.write(&path("a/b/c.txt"), false, t5);

    assert_eq!(dirt_at(&tree, ""), Some(Dirt::PathDirt));
    assert_eq!(dirt_at(&tree, "a"), Some(Dirt::PathDirt));
    assert_eq!(dirt_at(&tree, "a/b"), Some(Dirt::PathDirt));
    assert_eq!(dirt_at(&tree, "a/b/c.txt"), Some(Dirt::Modified));
    for p in ["", "a", "a/b", "a/b/c.txt"] {
        assert_eq!(tree.get(&path(p)).unwrap().mtime, t5);
    }
    assert!(tree.get(&path("a/b")).unwrap().is_dir());
    assert!(tree.get(&path("a/b/c.txt")).unwrap().is_file());
    assert!(tree.get(&path("a/x")).is_none());
}

#[test]
fn write_does_not_downgrade_the_dirt_above() {
    let t0 = Mtime::epoch();
    let t1 = Mtime::new(1, 0);
    let mut tree = Tree::with_time(&t0);
    tree.write(&path("a"), true, t0);
    tree.write(&path("a/b"), false, t1);
    assert_eq!(dirt_at(&tree, "a"), Some(Dirt::Modified));
    assert_eq!(tree.get(&path("a")).unwrap().mtime, t1);
    assert_eq!(dirt_at(&tree, "a/b"), Some(Dirt::Modified));

    tree.clean();
    tree.write(&path("a/c/d"), false, t1);
    tree.mark_deleted(&path("a/c"), t1);
    tree.write(&path("a/c/e"), false, t1);
    assert_eq!(dirt_at(&tree, "a/c"), Some(Dirt::Deleted));
    assert_eq!(dirt_at(&tree, "a"), Some(Dirt::PathDirt));
}

#[test]
fn write_of_the_root_marks_it_modified() {
    let t0 = Mtime::epoch();
    let t1 = Mtime::new(1, 0);
    let mut tree = Tree::with_time(&t0);
    assert!(tree.can_write(&path(""), true));
    assert!(!tree.can_write(&path(""), false));
    tree.write(&path(""), true, t1);
    assert_eq!(tree.root.dirt, Some(Dirt::Modified));
    assert_eq!(tree.root.mtime, t1);
}

#[test]
fn can_write_sees_files_on_the_way_and_the_kind_at_the_end() {
    let t0 = Mtime::epoch();
    let mut tree = Tree::with_time(&t0);
    tree.write(&path("d/f.txt"), false, t0);
    assert!(tree.can_write(&path("d/f.txt"), false));
    assert!(!tree.can_write(&path("d/f.txt"), true));
    assert!(tree.can_write(&path("d"), true));
    assert!(!tree.can_write(&path("d"), false));
    assert!(!tree.can_write(&path("d/f.txt/below"), false));
    assert!(tree.can_write(&path("d/new/deep/file"), false));
    assert!(tree.can_write(&path("other"), true));
}

#[test]
fn mark_deleted_marks_the_whole_subtree() {
    let t0 = Mtime::epoch();
    let t1 = Mtime::new(1, 1);
    let mut tree = Tree::with_time(&t0);
    tree.write(&path("a/b/c.txt"), false, t0);
    tree.write(&path("a/b/d/e.txt"), false, t0);
    tree.write(&path("a/keep.txt"), false, t0);
    tree.clean();
    tree.mark_deleted(&path("a/b"), t1);

    for p in ["a/b", "a/b/c.txt", "a/b/d", "a/b/d/e.txt"] {
        assert_eq!(dirt_at(&tree, p), Some(Dirt::Deleted));
        assert_eq!(tree.get(&path(p)).unwrap().mtime, t1);
    }
    assert_eq!(dirt_at(&tree, "a"), Some(Dirt::PathDirt));
    assert_eq!(dirt_at(&tree, ""), Some(Dirt::PathDirt));
    assert_eq!(dirt_at(&tree, "a/keep.txt"), None);
    assert_eq!(tree.get(&path("a/keep.txt")).unwrap().mtime, t0);
}

#[test]
fn clean_clears_all_dirt_and_is_idempotent() {
    let t0 = Mtime::epoch();
    // A dirty node below a clean one is cleaned as well.
    let mut tree = Tree {
        root: TreeNode::new_dir(
            t0,
            None,
            None,
            vec![entry(
                "a",
                TreeNode::new_dir(t0, None, None, vec![entry("f", TreeNode::new_file(t0, Some(Dirt::Modified), None))]),
            )],
        ),
    };
    tree.clean();
    assert_eq!(dirt_at(&tree, "a/f"), None);
    let once = tree.clone();
    tree.clean();
    assert_eq!(tree, once);
}

#[test]
fn prune_drops_deleted_subtrees_below_path_dirt() {
    let t0 = Mtime::epoch();
    let mut tree = Tree::with_time(&t0);
    tree.write(&path("a/gone.txt"), false, t0);
    tree.write(&path("a/stay.txt"), false, t0);
    tree.write(&path("b/deep/gone.txt"), false, t0);
    tree.clean();
    tree.mark_deleted(&path("a/gone.txt"), t0);
    tree.mark_deleted(&path("b/deep"), t0);
    tree.prune_deleted();

    assert!(tree.get(&path("a/gone.txt")).is_none());
    assert!(tree.get(&path("a/stay.txt")).is_some());
    assert!(tree.get(&path("b")).is_some());
    assert!(tree.get(&path("b/deep")).is_none());
    // Pruning does not touch the dirt of what stays.
    assert_eq!(dirt_at(&tree, "a"), Some(Dirt::PathDirt));
}

#[test]
fn prune_stops_below_modified_and_clean_nodes() {
    let t0 = Mtime::epoch();
    let gone = || TreeNode::new_file(t0, Some(Dirt::Deleted), None);
    let mut tree = Tree {
        root: TreeNode::new_dir(
            t0,
            Some(Dirt::PathDirt),
            None,
            vec![
                entry(
                    "clean",
                    TreeNode::new_dir(
                        t0,
                        None,
                        None,
                        vec![
                            entry("x", gone()),
                            entry("sub", TreeNode::new_dir(t0, Some(Dirt::PathDirt), None, vec![entry("y", gone())])),
                        ],
                    ),
                ),
                entry(
                    "modified",
                    TreeNode::new_dir(
                        t0,
                        Some(Dirt::Modified),
                        None,
                        vec![
                            entry("x", gone()),
                            entry("sub", TreeNode::new_dir(t0, Some(Dirt::PathDirt), None, vec![entry("y", gone())])),
                        ],
                    ),
                ),
            ],
        ),
    };
    tree.prune_deleted();
    // The deleted children of a visited node go, whatever its dirt ...
    assert!(tree.get(&path("clean/x")).is_none());
    assert!(tree.get(&path("modified/x")).is_none());
    // ... but the walk goes on below PathDirt only.
    assert!(tree.get(&path("clean/sub/y")).is_some());
    assert!(tree.get(&path("modified/sub/y")).is_some());
}

#[test]
fn parent_is_there_exactly_for_present_paths_that_are_not_empty() {
    let t0 = Mtime::epoch();
    let mut tree = Tree::with_time(&t0);
    tree.write(&path("a/b/c"), false, t0);
    for p in ["", "a", "a/b", "a/b/c", "a/x", "x", "a/b/c/d"] {
        let present = tree.get(&path(p)).is_some();
        assert_eq!(tree.get_parent_of(&path(p)).is_some(), present && !p.is_empty());
    }
    assert_eq!(tree.get_parent_of(&path("a/b/c")), tree.get(&path("a/b")));
}

#[test]
fn new_dir_sorts_its_entries_and_keeps_the_later_of_two() {
    let t0 = Mtime::epoch();
    let t1 = Mtime::new(1, 0);
    let node = TreeNode::new_dir(
        t0,
        None,
        Some(vec![1, 2, 3]),
        vec![
            entry("b", TreeNode::new_file(t0, None, None)),
            entry("a", TreeNode::new_file(t0, None, None)),
            entry("b", TreeNode::new_file(t1, None, None)),
            entry("", TreeNode::new_file(t0, None, None)),
        ],
    );
    let names: Vec<&[u8]> = node.children.as_ref().unwrap().iter().map(|e| e.name.as_slice()).collect();
    assert_eq!(names, vec![&b""[..], &b"a"[..], &b"b"[..]]);
    assert_eq!(node.child(b"b").unwrap().mtime, t1);
    assert_eq!(node.hash, Some(vec![1, 2, 3]));
    assert!(node.is_dir());
    assert!(!node.is_file());
    assert!(node.child(b"c").is_none());
    assert!(TreeNode::new_file(t0, None, None).child(b"a").is_none());
}

#[test]
fn walks_with_a_visitor_reach_every_node() {
    let t0 = Mtime::epoch();
    let t9 = Mtime::new(9, 0);
    let mut tree = Tree::with_time(&t0);
    tree.write(&path("a/b/c"), false, t0);
    tree.write(&path("a/d"), false, t0);
    tree.clean();

    let mut top_down = tree.clone();
    top_down.root.dfs_preorder(&mut MarkDeleted { mtime: t9 });
    let mut bottom_up = tree.clone();
    bottom_up.root.dfs_postorder_mut(&mut MarkDeleted { mtime: t9 });
    let mut with_path = tree.clone();
    with_path.root.dfs_preorder_path_mut(&mut MarkDeleted { mtime: t9 });
    let mut direct = tree.clone();
    direct.mark_deleted(&path(""), t9);

    assert_eq!(top_down, direct);
    assert_eq!(bottom_up, direct);
    assert_eq!(with_path, direct);
    for p in ["", "a", "a/b", "a/b/c", "a/d"] {
        assert_eq!(dirt_at(&direct, p), Some(Dirt::Deleted));
        assert_eq!(direct.get(&path(p)).unwrap().mtime, t9);
    }
}

#[test]
fn a_new_tree_is_an_empty_directory_with_the_current_time() {
    let tree = Tree::new();
    assert_eq!(tree.root.dirt, None);
    assert_eq!(tree.root.hash, None);
    assert_eq!(tree.root.children, Some(vec![]));
    // Some time after the year 2020.
    assert!(tree.root.mtime.as_secs() > 1_577_836_800);
}

#[test]
fn walks_go_top_down_or_bottom_up() {
    let t0 = Mtime::epoch();
    let mut tree = Tree::with_time(&t0);
    tree.write(&path("a"), true, t0);
    tree.write(&path("a/f"), false, t0);
    tree.write(&path("b"), false, t0);
    let visitor = || Independent { root: path("at"), to: None, side: TreeType::Plain, ops: vec![] };

    let mut top_down = visitor();
    tree.root.dfs_preorder_path(&mut top_down);
    assert_eq!(
        top_down.ops,
        vec![
            FileOperation::EncryptPlain(path("at/a")),
            FileOperation::EncryptPlain(path("at/a/f")),
            FileOperation::EncryptPlain(path("at/b")),
        ]
    );

    let mut bottom_up = visitor();
    tree.root.dfs_postorder(&mut bottom_up);
    assert_eq!(
        bottom_up.ops,
        vec![
            FileOperation::EncryptPlain(path("at/a/f")),
            FileOperation::EncryptPlain(path("at/a")),
            FileOperation::EncryptPlain(path("at/b")),
        ]
    );

    // Top down, the walk does not go below a node at which the visitor says
    // so; bottom up, every node is reached.
    tree.mark_deleted(&path("a"), t0);
    let mut top_down = visitor();
    tree.root.dfs_preorder_path(&mut top_down);
    assert_eq!(
        top_down.ops,
        vec![FileOperation::DeleteEnc(path("at/a")), FileOperation::EncryptPlain(path("at/b"))]
    );
    let mut bottom_up = visitor();
    tree.root.dfs_postorder(&mut bottom_up);
    assert_eq!(
        bottom_up.ops,
        vec![
            FileOperation::DeleteEnc(path("at/a/f.gpg")),
            FileOperation::DeleteEnc(path("at/a")),
            FileOperation::EncryptPlain(path("at/b")),
        ]
    );
}
