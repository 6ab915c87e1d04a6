use gpgsync::path::SyncPath;
use gpgsync::tree::{Dirt, Mtime, Tree};

#[test]
fn tree_test_tree() {
    let mut tree = Tree::new();

    let t0 = Mtime::epoch();
    let t1 = Mtime::new(1, 1);

    tree.write(&SyncPath::from_str("sub/dir/file.txt"), false, t0);

    assert_eq!(tree.root.children.as_ref().unwrap().len(), 1);
    assert!(tree
        .root
        .child(b"sub")
        .unwrap()
        .child(b"dir")
        .unwrap()
        .child(b"file.txt")
        .is_some());
    assert_eq!(tree.root.child(b"sub").unwrap().dirt, Some(Dirt::PathDirt));
    assert_eq!(
        tree.root.child(b"sub").unwrap().child(b"dir").unwrap().dirt,
        Some(Dirt::PathDirt)
    );
    assert_eq!(
        tree.root
            .child(b"sub")
            .unwrap()
            .child(b"dir")
            .unwrap()
            .child(b"file.txt")
            .unwrap()
            .dirt,
        Some(Dirt::Modified)
    );

    tree.mark_deleted(&SyncPath::from_str("sub/dir"), t1);

    assert_eq!(tree.root.child(b"sub").unwrap().dirt, Some(Dirt::PathDirt));
    assert_eq!(
        tree.root.child(b"sub").unwrap().child(b"dir").unwrap().dirt,
        Some(Dirt::Deleted)
    );
    assert_eq!(
        tree.root
            .child(b"sub")
            .unwrap()
            .child(b"dir")
            .unwrap()
            .child(b"file.txt")
            .unwrap()
            .dirt,
        Some(Dirt::Deleted)
    );
}

#[test]
fn tree_test_get_parent() {
    let t0 = Mtime::epoch();

    let mut tree = Tree::new();
    tree.write(&SyncPath::from_str("a/b/c/d/e/f1.txt"), false, t0);

    assert_eq!(
        tree.root.get_parent_of(&SyncPath::from_str("a")).cloned(),
        Some(tree.root.clone())
    );
    assert_eq!(
        tree.root.get_parent_of(&SyncPath::from_str("a/b")).cloned(),
        Some(tree.root.child(b"a").unwrap().clone())
    );
    assert_eq!(
        tree.root
            .get_parent_of(&SyncPath::from_str("a/b/c/d/e/f1.txt"))
            .cloned(),
        Some(
            tree.root
                .child(b"a")
                .unwrap()
                .child(b"b")
                .unwrap()
                .child(b"c")
                .unwrap()
                .child(b"d")
                .unwrap()
                .child(b"e")
                .unwrap()
                .clone()
        )
    );
    assert_eq!(tree.root.get_parent_of(&SyncPath::from_str("")).cloned(), None);
    assert_eq!(tree.root.get_parent_of(&SyncPath::from_str("xxx")).cloned(), None);
    assert_eq!(tree.root.get_parent_of(&SyncPath::from_str("a/xxx")).cloned(), None);
}
