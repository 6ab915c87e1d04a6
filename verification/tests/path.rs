use gpgsync::order::{compare_bytes, Order};
use gpgsync::path::{add_gpg_suffix, has_gpg_suffix, is_hidden_name, remove_gpg_suffix, SyncPath};
use gpgsync::syncentity::SyncEntity;

fn path(s: &str) -> SyncPath {
    SyncPath::from_str(s)
}

fn names(p: &SyncPath) -> Vec<String> {
    p.segments.iter().map(|s| String::from_utf8_lossy(s).into_owned()).collect()
}

#[test]
fn parse_splits_at_separators() {
    let p = path("sub/dir/file.txt");
    assert!(!p.absolute);
    assert_eq!(names(&p), vec!["sub", "dir", "file.txt"]);

    let q = path("/a//b/./c/");
    assert!(q.absolute);
    assert_eq!(names(&q), vec!["a", "b", "c"]);

    let empty = path("");
    assert!(!empty.absolute);
    assert_eq!(empty.len(), 0);
    assert_eq!(empty, SyncPath::new());

    let root = path("/");
    assert!(root.absolute);
    assert_eq!(root.len(), 0);

    assert_eq!(names(&path("../x")), vec!["..", "x"]);
    assert_eq!(names(&path("./x")), vec!["x"]);
    assert_eq!(names(&path(".hidden/..x/.")), vec![".hidden", "..x"]);
    assert_eq!(SyncPath::from_bytes(b"a/b"), path("a/b"));
}

#[test]
fn render_joins_with_separators() {
    assert_eq!(path("/dir1/subdir1/").to_bytes(), b"/dir1/subdir1".to_vec());
    assert_eq!(path("a//b").to_bytes(), b"a/b".to_vec());
    assert_eq!(path("").to_bytes(), b"".to_vec());
    assert_eq!(path("/").to_bytes(), b"/".to_vec());
    assert_eq!(path("x").to_bytes(), b"x".to_vec());
    let p = path("/a/b.txt");
    assert_eq!(SyncPath::from_bytes(&p.to_bytes()), p);
}

#[test]
fn bytes_are_compared_lexicographically() {
    assert_eq!(compare_bytes(b"", b""), Order::Equal);
    assert_eq!(compare_bytes(b"", b"a"), Order::Less);
    assert_eq!(compare_bytes(b"a", b""), Order::Greater);
    assert_eq!(compare_bytes(b"abc", b"abd"), Order::Less);
    assert_eq!(compare_bytes(b"abd", b"abc"), Order::Greater);
    assert_eq!(compare_bytes(b"ab", b"abc"), Order::Less);
    assert_eq!(compare_bytes(b"abc", b"abc"), Order::Equal);
    assert_eq!(compare_bytes(&[0xff], &[0x00, 0x01]), Order::Greater);
}

#[test]
fn paths_are_compared_segment_by_segment() {
    assert_eq!(path("a/b").compare(&path("a/b")), Order::Equal);
    assert_eq!(path("a").compare(&path("a/b")), Order::Less);
    assert_eq!(path("a/b").compare(&path("ab")), Order::Less);
    assert_eq!(path("a/c").compare(&path("a/b/z")), Order::Greater);
    assert_eq!(path("/z").compare(&path("a")), Order::Less);
    assert_eq!(path("a").compare(&path("/z")), Order::Greater);
    assert_eq!(path("/").compare(&path("/a")), Order::Less);
    assert_eq!(path("/dir1/subdir1/").compare(&path("/dir1/subdir1")), Order::Equal);
}

#[test]
fn prefixes_and_joins() {
    assert!(path("a/b/c").starts_with(&path("a/b")));
    assert!(path("a/b").starts_with(&path("a/b")));
    assert!(path("a/b").starts_with(&path("")));
    assert!(!path("a/bc").starts_with(&path("a/b")));
    assert!(!path("a").starts_with(&path("a/b")));
    assert!(!path("/a/b").starts_with(&path("a")));
    assert!(path("/a/b").starts_with(&path("/")));

    assert_eq!(path("/r/a/b").strip_prefix(&path("/r")), Some(path("a/b")));
    assert_eq!(path("/r").strip_prefix(&path("/r")), Some(path("")));
    assert_eq!(path("/x/a").strip_prefix(&path("/r")), None);

    assert_eq!(path("/r").join(&path("a/b")), path("/r/a/b"));
    assert_eq!(path("/r").join(&path("/abs")), path("/abs"));
    assert_eq!(path("r").join(&path("")), path("r"));
    assert_eq!(path("r").join_name(b"x"), path("r/x"));

    let mut p = path("a");
    p.push(b"b");
    assert_eq!(p, path("a/b"));
    assert_eq!(p.file_name(), Some(&b"b".to_vec()));
    assert!(p.pop());
    assert!(p.pop());
    assert!(!p.pop());
    assert_eq!(p.file_name(), None);
    assert!(p.is_relative());
    assert!(!path("/a").is_relative());
    assert_eq!(path("a/b").clone(), path("a/b"));
}

#[test]
fn hidden_names_begin_with_a_dot() {
    assert!(is_hidden_name(b".git"));
    assert!(is_hidden_name(b"..x"));
    assert!(is_hidden_name(b"..."));
    assert!(!is_hidden_name(b"."));
    assert!(!is_hidden_name(b".."));
    assert!(!is_hidden_name(b""));
    assert!(!is_hidden_name(b"a.b"));

    assert!(path(".git/index").is_hidden());
    assert!(path("a/.b/c").is_hidden());
    assert!(!path("a/b.c").is_hidden());
    assert!(!path("../a").is_hidden());
    assert!(!path("").is_hidden());
    let mut dots = SyncPath::new();
    dots.push(b".");
    dots.push(b"a");
    assert!(!dots.is_hidden());
}

#[test]
fn gpg_suffix_is_added_and_removed() {
    assert_eq!(add_gpg_suffix(&path("a/f.txt")), path("a/f.txt.gpg"));
    assert_eq!(add_gpg_suffix(&path("/x")), path("/x.gpg"));
    assert_eq!(remove_gpg_suffix(&path("a/f.txt.gpg")), path("a/f.txt"));
    assert_eq!(remove_gpg_suffix(&add_gpg_suffix(&path("a/b.gpg"))), path("a/b.gpg"));
    assert!(has_gpg_suffix(b"f.gpg"));
    assert!(has_gpg_suffix(b".gpg"));
    assert!(!has_gpg_suffix(b"gpg"));
    assert!(!has_gpg_suffix(b"f.gpg.txt"));
    assert!(!has_gpg_suffix(b"f.GPG"));
}

#[test]
fn test_representation() {
    let plain_root = path("/data/plain");
    let gpg_root = path("/data/enc");

    let se = SyncEntity::from_plain(&path("/data/plain/sub/notes.txt"), &plain_root, &gpg_root);
    assert_eq!(se.rel_without_gpg(), &path("sub/notes.txt"));
    assert_eq!(se.as_plain(), path("/data/plain/sub/notes.txt"));
    assert_eq!(se.as_gpg(), path("/data/enc/sub/notes.txt.gpg"));

    let sg = SyncEntity::from_gpg(&path("/data/enc/sub/notes.txt.gpg"), &plain_root, &gpg_root);
    assert_eq!(sg.rel_without_gpg(), &path("sub/notes.txt"));
    assert_eq!(sg, se);
    assert_eq!(sg.as_gpg(), path("/data/enc/sub/notes.txt.gpg"));
}
