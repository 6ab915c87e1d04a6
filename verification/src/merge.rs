//! Merging the two trees into a list of file operations.
//!
//! Both trees are walked together, directory by directory. The children of a
//! pair of directories are matched on a key: the name of a plaintext entry,
//! the name of an encrypted directory, and the name of an encrypted file
//! without its `.gpg`. What is done for a key depends on the dirt that the two
//! nodes carry.

use vstd::prelude::*;
use crate::conflict::{conflict_name, make_conflict_name};
use crate::entries::{
    child, collect, has_child, lemma_put, lemma_rank_is, lemma_rank_of_member, names_sorted, put, rank,
};
use crate::file_op::{all_relative, ops_view, FileOpView, FileOperation, TreeType};
use crate::merge_lemmas::{lemma_merge_relative, lemma_raw_name, lemma_walk_independent};
use crate::order::{
    bytes_lt, compare_bytes, lemma_bytes_lt_irreflexive, lemma_bytes_lt_total,
    lemma_bytes_lt_transitive, Order,
};
use crate::path::{
    add_gpg_suffix, ends_with_gpg, gpg_suffix, has_gpg_suffix, remove_gpg_suffix, root_path, PathView,
    SyncPath,
};
use crate::tree::{entries_view, Dirt, Entry, EntryView, NodeView, Tree, TreeNode};
use crate::tree_lemmas::lemma_child_is_smaller;
use crate::visit::Visit;

verus! {

/// The key under which an entry of the encrypted tree is matched with an
/// entry of the plaintext tree: the name of a directory, the name of a file
/// without its `.gpg`. A file whose name does not end in `.gpg` has no key.
pub open spec fn normal_name(e: EntryView) -> Option<Seq<u8>> {
    if e.node.is_dir() {
        Some(e.name)
    } else if ends_with_gpg(e.name) {
        Some(e.name.take(e.name.len() - 4))
    } else {
        None
    }
}

/// The name that an entry of the encrypted tree has on disk, from its key.
pub open spec fn raw_name(key: Seq<u8>, is_dir: bool) -> Seq<u8> {
    if is_dir {
        key
    } else {
        key + gpg_suffix()
    }
}

/// The entries of `cs` that have a key, each under its key, in the order of
/// `cs`.
pub open spec fn normal_entries(cs: Seq<EntryView>) -> Seq<EntryView>
    decreases cs.len(),
{
    if cs.len() == 0 {
        Seq::empty()
    } else {
        let front = normal_entries(cs.drop_last());
        match normal_name(cs.last()) {
            Some(key) => front.push(EntryView { name: key, node: cs.last().node }),
            None => front,
        }
    }
}

/// The entries of `cs` that have a key, each under its key, sorted by key.
pub open spec fn by_key(cs: Seq<EntryView>) -> Seq<EntryView> {
    collect(normal_entries(cs))
}

/// No two entries of `cs` have the same key.
pub open spec fn unique_keys(cs: Seq<EntryView>) -> bool {
    forall|i: int, j: int|
        0 <= i < j < cs.len() && normal_name(cs[i]) is Some ==> normal_name(#[trigger] cs[i]) != normal_name(
            #[trigger] cs[j],
        )
}

/// The operation that mirrors the deletion of the node at `at`, which is a
/// node of the tree of `side`, on the other side.
pub open spec fn removal(side: TreeType, at: PathView, is_dir: bool) -> FileOpView {
    match side {
        TreeType::Plain => FileOpView::DeleteEnc(
            if is_dir {
                at
            } else {
                at.with_gpg_suffix()
            },
        ),
        TreeType::Encrypted => FileOpView::DeletePlain(
            if is_dir {
                at
            } else {
                at.without_gpg_suffix()
            },
        ),
    }
}

/// The operation that mirrors the node at `at`, which is a node of the tree
/// of `side`, to the other side.
pub open spec fn mirror(side: TreeType, at: PathView) -> FileOpView {
    match side {
        TreeType::Plain => FileOpView::EncryptPlain(at),
        TreeType::Encrypted => FileOpView::DecryptEnc(at),
    }
}

/// The operation that copies the node at `at` to `to` within `side`.
pub open spec fn conflict_copy(side: TreeType, at: PathView, to: PathView) -> FileOpView {
    match side {
        TreeType::Plain => FileOpView::ConflictCopyPlain(at, to),
        TreeType::Encrypted => FileOpView::ConflictCopyEnc(at, to),
    }
}

/// `to` with `name` as a further segment, where there is a `to`.
pub open spec fn push_opt(to: Option<PathView>, name: Seq<u8>) -> Option<PathView> {
    match to {
        Some(p) => Some(p.push(name)),
        None => None,
    }
}

/// A node that the walk leaves out with all below it: a file without a
/// name, or a file of the encrypted tree whose name does not end in `.gpg`.
pub open spec fn left_out(side: TreeType, at: PathView, node: NodeView) -> bool {
    !node.is_dir() && (at.segments.len() == 0 || (side == TreeType::Encrypted && !ends_with_gpg(
        at.segments.last(),
    )))
}

/// The visitor that gathers the operations for a subtree of the tree of
/// `side` where the other side has nothing to say. The subtree stands at
/// `root`; with `to`, changed nodes are copied to the same place below `to`.
pub struct Independent {
    pub root: SyncPath,
    pub to: Option<SyncPath>,
    pub side: TreeType,
    pub ops: Vec<FileOperation>,
}

/// The mathematical value of an [`Independent`].
pub ghost struct IndependentView {
    pub root: PathView,
    pub to: Option<PathView>,
    pub side: TreeType,
    pub ops: Seq<FileOpView>,
}

impl View for Independent {
    type V = IndependentView;

    open spec fn view(&self) -> IndependentView {
        IndependentView {
            root: self.root@,
            to: match self.to {
                Some(t) => Some(t@),
                None => None,
            },
            side: self.side,
            ops: ops_view(self.ops@),
        }
    }
}

/// The operations for the subtree `n` of the tree of `side`, which stands at
/// `at`, where the other side has nothing to say. The subtree is walked top
/// down, the children of a directory in the order of their names.
///
/// A node that is left out asks for nothing. A `Deleted` node is deleted on
/// the other side, and the walk does not go below it. A `Modified` node is
/// mirrored to the other side. Where `to` is given, the other side is about
/// to be overwritten or deleted: then a `Modified` node is copied to the same
/// place below `to` instead, and for a `Deleted` node nothing is done.
pub open spec fn independent(n: NodeView, at: PathView, to: Option<PathView>, side: TreeType) -> Seq<
    FileOpView,
>
    decreases n, 1nat,
{
    if left_out(side, at, n) {
        Seq::empty()
    } else {
        match n.dirt {
            Some(Dirt::Deleted) => if to is None {
                seq![removal(side, at, n.is_dir())]
            } else {
                Seq::empty()
            },
            Some(Dirt::Modified) => seq![
                match to {
                    Some(t) => conflict_copy(side, at, t),
                    None => mirror(side, at),
                },
            ] + independent_below(n, at, to, side),
            _ => independent_below(n, at, to, side),
        }
    }
}

/// The operations for the children of `n`.
pub open spec fn independent_below(n: NodeView, at: PathView, to: Option<PathView>, side: TreeType) -> Seq<
    FileOpView,
>
    decreases n, 0nat,
{
    match n.children {
        Some(cs) => independent_entries(cs, at, to, side),
        None => Seq::empty(),
    }
}

/// The operations for the entries `cs` of the directory at `at`, one entry
/// after the other.
pub open spec fn independent_entries(
    cs: Seq<EntryView>,
    at: PathView,
    to: Option<PathView>,
    side: TreeType,
) -> Seq<FileOpView>
    decreases cs, 0nat,
{
    if cs.len() == 0 {
        Seq::empty()
    } else {
        independent_entries(cs.drop_last(), at, to, side) + independent(
            cs.last().node,
            at.push(cs.last().name),
            push_opt(to, cs.last().name),
            side,
        )
    }
}

/// The operations for a key that both directories hold: `ne` is the node of
/// the encrypted tree, `np` the node of the plaintext tree, `dir` the path of
/// the directories, and `deeper` the operations for the two nodes as a pair
/// of directories.
pub open spec fn both_sides(dir: PathView, key: Seq<u8>, ne: NodeView, np: NodeView, deeper: Seq<FileOpView>) -> Seq<
    FileOpView,
> {
    let raw = raw_name(key, ne.is_dir());
    let pe = dir.push(raw);
    let pp = dir.push(key);
    let copy_e = dir.push(conflict_name(ne.mtime.secs, raw));
    let copy_p = dir.push(conflict_name(np.mtime.secs, key));
    match (ne.dirt, np.dirt) {
        (None, None) => Seq::empty(),
        (None, Some(_)) => independent(np, pp, None, TreeType::Plain),
        (Some(_), None) => independent(ne, pe, None, TreeType::Encrypted),
        (Some(Dirt::PathDirt), Some(Dirt::PathDirt)) => deeper,
        (Some(Dirt::PathDirt), Some(Dirt::Modified)) => independent(ne, pe, Some(copy_e), TreeType::Encrypted)
            + seq![FileOpView::EncryptPlain(pp)],
        (Some(Dirt::PathDirt), Some(Dirt::Deleted)) => independent(ne, pe, Some(copy_e), TreeType::Encrypted)
            + seq![FileOpView::DeleteEnc(pe)],
        (Some(Dirt::Modified), Some(Dirt::PathDirt)) => independent(np, pp, Some(copy_p), TreeType::Plain)
            + seq![FileOpView::DecryptEnc(pe)],
        (Some(Dirt::Modified), Some(Dirt::Modified)) => seq![
            FileOpView::ConflictCopyPlain(pp, copy_p),
            FileOpView::DecryptEnc(pe),
        ],
        (Some(Dirt::Modified), Some(Dirt::Deleted)) => seq![
            FileOpView::ConflictCopyEnc(pe, copy_e),
            FileOpView::DeleteEnc(pe),
        ],
        (Some(Dirt::Deleted), Some(Dirt::PathDirt)) => independent(np, pp, Some(copy_p), TreeType::Plain)
            + seq![FileOpView::DeletePlain(pp)],
        (Some(Dirt::Deleted), Some(Dirt::Modified)) => seq![
            FileOpView::ConflictCopyPlain(pp, copy_p),
            FileOpView::DeletePlain(pp),
        ],
        (Some(Dirt::Deleted), Some(Dirt::Deleted)) => Seq::empty(),
    }
}

/// The operations for a key that only the encrypted directory holds.
pub open spec fn enc_only(dir: PathView, e: EntryView) -> Seq<FileOpView> {
    independent(e.node, dir.push(raw_name(e.name, e.node.is_dir())), None, TreeType::Encrypted)
}

/// The operations for a key that only the plaintext directory holds.
pub open spec fn plain_only(dir: PathView, e: EntryView) -> Seq<FileOpView> {
    independent(e.node, dir.push(e.name), None, TreeType::Plain)
}

/// The operations for the directory at `dir`, whose encrypted entries are
/// `en`, sorted by key, and whose plaintext entries are `pl`, sorted by name.
/// Both lists are walked together in the order of the keys.
pub open spec fn zip_ops(en: Seq<EntryView>, pl: Seq<EntryView>, dir: PathView) -> Seq<FileOpView>
    decreases pl, en.len(),
{
    if en.len() == 0 && pl.len() == 0 {
        Seq::empty()
    } else if pl.len() == 0 || (en.len() > 0 && bytes_lt(en[0].name, pl[0].name)) {
        enc_only(dir, en[0]) + zip_ops(en.skip(1), pl, dir)
    } else if en.len() == 0 || bytes_lt(pl[0].name, en[0].name) {
        plain_only(dir, pl[0]) + zip_ops(en, pl.skip(1), dir)
    } else {
        both_sides(
            dir,
            pl[0].name,
            en[0].node,
            pl[0].node,
            merge_dirs(en[0].node, pl[0].node, dir.push(pl[0].name)),
        ) + zip_ops(en.skip(1), pl.skip(1), dir)
    }
}

/// The operations for the pair of nodes `e` of the encrypted tree and `p` of
/// the plaintext tree, which both stand at `dir`. For a pair of files there
/// are none.
pub open spec fn merge_dirs(e: NodeView, p: NodeView, dir: PathView) -> Seq<FileOpView>
    decreases p, 0nat,
{
    match p.children {
        Some(pc) => match e.children {
            Some(ec) => zip_ops(by_key(ec), pc, dir),
            None => Seq::empty(),
        },
        None => Seq::empty(),
    }
}

/// The condition that [`mergeable`] puts on the plaintext entry `p` of a
/// directory whose encrypted entries, sorted by key, are `en`.
pub open spec fn entry_mergeable(en: Seq<EntryView>, p: EntryView) -> bool {
    match child(en, p.name) {
        Some(ne) => {
            &&& ne.is_dir() == p.node.is_dir()
            &&& (ne.dirt == Some(Dirt::PathDirt) && p.node.dirt == Some(Dirt::PathDirt) ==> mergeable(ne, p.node))
        },
        None => true,
    }
}

/// The two nodes can be merged as a pair: both are files, or both are
/// directories in which no two encrypted entries have one key, every key
/// that both hold stands for two files or for two directories, and the nodes
/// of every key that carries `PathDirt` on both sides can be merged in turn.
pub open spec fn mergeable(e: NodeView, p: NodeView) -> bool
    decreases p,
{
    match p.children {
        Some(pc) => match e.children {
            Some(ec) => {
                &&& unique_keys(ec)
                &&& forall|j: int|
                    0 <= j < pc.len() ==> match child(by_key(ec), (#[trigger] pc[j]).name) {
                        Some(ne) => {
                            &&& ne.is_dir() == pc[j].node.is_dir()
                            &&& (ne.dirt == Some(Dirt::PathDirt) && pc[j].node.dirt == Some(Dirt::PathDirt)
                                ==> mergeable(ne, pc[j].node))
                        },
                        None => true,
                    }
            },
            None => false,
        },
        None => e.children is None,
    }
}

/// The value of a path that may be missing.
pub open spec fn opt_path_view(p: Option<&SyncPath>) -> Option<PathView> {
    match p {
        Some(q) => Some(q@),
        None => None,
    }
}

/// `to` followed by `relpath`, where there is a `to`.
pub open spec fn join_opt(to: Option<PathView>, relpath: PathView) -> Option<PathView> {
    match to {
        Some(p) => Some(p.join(relpath)),
        None => None,
    }
}

impl Visit for Independent {
    open spec fn step(s: IndependentView, node: NodeView, relpath: PathView) -> (IndependentView, bool) {
        let at = s.root.join(relpath);
        let to = join_opt(s.to, relpath);
        if left_out(s.side, at, node) {
            (s, false)
        } else {
            match node.dirt {
                Some(Dirt::Deleted) => (
                    if to is None {
                        IndependentView { ops: s.ops.push(removal(s.side, at, node.is_dir())), ..s }
                    } else {
                        s
                    },
                    false,
                ),
                Some(Dirt::Modified) => (
                    IndependentView {
                        ops: s.ops.push(
                            match to {
                                Some(t) => conflict_copy(s.side, at, t),
                                None => mirror(s.side, at),
                            },
                        ),
                        ..s
                    },
                    true,
                ),
                _ => (s, true),
            }
        }
    }

    fn enter(&mut self, node: &TreeNode, relpath: &SyncPath) -> (descend: bool) {
        let at = self.root.join(relpath);
        if !node.is_dir() {
            let named = match at.file_name() {
                Some(name) => match self.side {
                    TreeType::Encrypted => has_gpg_suffix(name.as_slice()),
                    TreeType::Plain => true,
                },
                None => false,
            };
            if !named {
                return false;
            }
        }
        match node.dirt {
            Some(Dirt::Deleted) => {
                match &self.to {
                    None => {
                        let op = match self.side {
                            TreeType::Plain => FileOperation::DeleteEnc(
                                if node.is_dir() {
                                    at
                                } else {
                                    add_gpg_suffix(&at)
                                },
                            ),
                            TreeType::Encrypted => FileOperation::DeletePlain(
                                if node.is_dir() {
                                    at
                                } else {
                                    remove_gpg_suffix(&at)
                                },
                            ),
                        };
                        proof {
                            lemma_ops_push(self.ops@, op);
                            assert(ops_view(self.ops@) + seq![op@] =~= ops_view(self.ops@).push(op@));
                        }
                        self.ops.push(op);
                    },
                    Some(_) => {},
                }
                false
            },
            Some(Dirt::Modified) => {
                let op = match &self.to {
                    Some(t) => {
                        let copy = t.join(relpath);
                        match self.side {
                            TreeType::Plain => FileOperation::ConflictCopyPlain(at, copy),
                            TreeType::Encrypted => FileOperation::ConflictCopyEnc(at, copy),
                        }
                    },
                    None => match self.side {
                        TreeType::Plain => FileOperation::EncryptPlain(at),
                        TreeType::Encrypted => FileOperation::DecryptEnc(at),
                    },
                };
                proof {
                    lemma_ops_push(self.ops@, op);
                    assert(ops_view(self.ops@) + seq![op@] =~= ops_view(self.ops@).push(op@));
                }
                self.ops.push(op);
                true
            },
            _ => true,
        }
    }
}

/// A list of operations grows by one.
proof fn lemma_ops_push(ops: Seq<FileOperation>, op: FileOperation)
    ensures
        ops_view(ops.push(op)) == ops_view(ops) + seq![op@],
{
    assert(ops_view(ops.push(op)) =~= ops_view(ops) + seq![op@]);
}

/// Appends to `ops` the operations for the subtree `n` of the tree of
/// `side`, which stands at `at`, where the other side has nothing to say. With
/// `to`, changed nodes are copied to the same place below `to` in place of
/// being mirrored, and deleted nodes are left alone.
pub fn handle_independently(
    n: &TreeNode,
    at: &SyncPath,
    ops: &mut Vec<FileOperation>,
    side: TreeType,
    to: Option<&SyncPath>,
)
    ensures
        ops_view(final(ops)@) == ops_view(old(ops)@) + independent(n@, at@, opt_path_view(to), side),
{
    let mut visitor = Independent {
        root: at.clone_path(),
        to: match to {
            Some(t) => Some(t.clone_path()),
            None => None,
        },
        side,
        ops: Vec::new(),
    };
    std::mem::swap(ops, &mut visitor.ops);
    proof {
        let top = root_path();
        assert(at@.join(top).segments =~= at@.segments);
        assert(at@.join(top) == at@);
        match opt_path_view(to) {
            Some(t) => {
                assert(t.join(top).segments =~= t.segments);
            },
            None => {},
        }
        assert(join_opt(opt_path_view(to), top) == opt_path_view(to));
        lemma_walk_independent(visitor@, n@, top);
    }
    n.dfs_preorder_path(&mut visitor);
    std::mem::swap(ops, &mut visitor.ops);
}

/// An entry of the encrypted tree under its key: the key, and the position of
/// the entry among the children of its directory.
pub struct KeyRef {
    pub key: Vec<u8>,
    pub index: usize,
}

/// The entries that `refs` stands for, each under its key.
pub open spec fn keyed_view(refs: Seq<KeyRef>, cs: Seq<EntryView>) -> Seq<EntryView> {
    Seq::new(refs.len(), |k: int| EntryView { name: refs[k].key@, node: cs[refs[k].index as int].node })
}

/// Every entry of `refs` points at an entry of `cs` before `upto` that has
/// the key under which `refs` holds it.
pub open spec fn refs_point_into(refs: Seq<KeyRef>, cs: Seq<EntryView>, upto: int) -> bool {
    forall|k: int|
        0 <= k < refs.len() ==> (#[trigger] refs[k]).index < upto && normal_name(cs[refs[k].index as int])
            == Some(refs[k].key@)
}

/// The position in `refs`, which is sorted by key, at which `key` stands or
/// would be inserted.
fn key_position(refs: &Vec<KeyRef>, key: &[u8], Ghost(cs): Ghost<Seq<EntryView>>) -> (r: usize)
    requires
        names_sorted(keyed_view(refs@, cs)),
    ensures
        r == rank(keyed_view(refs@, cs), key@),
        r <= refs@.len(),
{
    let ghost ks = keyed_view(refs@, cs);
    let mut lo: usize = 0;
    let mut hi: usize = refs.len();
    while lo < hi
        invariant
            ks == keyed_view(refs@, cs),
            names_sorted(ks),
            lo <= hi <= refs@.len(),
            forall|i: int| 0 <= i < lo ==> bytes_lt(#[trigger] ks[i].name, key@),
            forall|i: int| hi <= i < ks.len() ==> !bytes_lt(#[trigger] ks[i].name, key@),
        decreases hi - lo,
    {
        let mid: usize = lo + (hi - lo) / 2;
        match compare_bytes(refs[mid].key.as_slice(), key) {
            Order::Less => {
                proof {
                    assert(bytes_lt(ks[mid as int].name, key@));
                    assert forall|i: int| 0 <= i < mid + 1 implies bytes_lt(#[trigger] ks[i].name, key@) by {
                        if i < mid {
                            lemma_bytes_lt_transitive(ks[i].name, ks[mid as int].name, key@);
                        }
                    }
                }
                lo = mid + 1;
            },
            _ => {
                proof {
                    lemma_bytes_lt_irreflexive(key@);
                    assert(!bytes_lt(ks[mid as int].name, key@));
                    assert forall|i: int| mid <= i < ks.len() implies !bytes_lt(#[trigger] ks[i].name, key@) by {
                        if i > mid && bytes_lt(ks[i].name, key@) {
                            lemma_bytes_lt_transitive(ks[mid as int].name, ks[i].name, key@);
                        }
                    }
                }
                hi = mid;
            },
        }
    }
    proof {
        lemma_rank_is(ks, key@, lo as int);
    }
    lo
}

/// The position in `refs` of the entry with the key `key`.
fn find_key(refs: &Vec<KeyRef>, key: &[u8], Ghost(cs): Ghost<Seq<EntryView>>) -> (r: Option<usize>)
    requires
        names_sorted(keyed_view(refs@, cs)),
    ensures
        r is Some <==> has_child(keyed_view(refs@, cs), key@),
        r matches Some(i) ==> i == rank(keyed_view(refs@, cs), key@) && i < refs@.len(),
{
    let i = key_position(refs, key, Ghost(cs));
    if i < refs.len() {
        match compare_bytes(refs[i].key.as_slice(), key) {
            Order::Equal => Some(i),
            _ => None,
        }
    } else {
        None
    }
}

/// The key of an entry of the encrypted tree.
pub fn key_of(e: &Entry) -> (r: Option<Vec<u8>>)
    ensures
        match r {
            Some(key) => normal_name(e@) == Some(key@),
            None => normal_name(e@) is None,
        },
{
    if e.node.is_dir() {
        Some(e.name.clone())
    } else if has_gpg_suffix(e.name.as_slice()) {
        let mut key = e.name.clone();
        let n = key.len();
        key.truncate(n - 4);
        Some(key)
    } else {
        None
    }
}

/// Sorts the entries of a directory of the encrypted tree by key. There is
/// no result where two entries have one key.
fn sort_by_key(entries: &Vec<Entry>) -> (r: Option<Vec<KeyRef>>)
    ensures
        match r {
            Some(refs) => {
                &&& unique_keys(entries_view(entries@))
                &&& keyed_view(refs@, entries_view(entries@)) == by_key(entries_view(entries@))
                &&& names_sorted(by_key(entries_view(entries@)))
                &&& refs_point_into(refs@, entries_view(entries@), entries@.len() as int)
            },
            None => !unique_keys(entries_view(entries@)),
        },
{
    let ghost cs = entries_view(entries@);
    let mut refs: Vec<KeyRef> = Vec::new();
    let mut i: usize = 0;
    proof {
        assert(cs.take(0) =~= Seq::<EntryView>::empty());
        assert(keyed_view(refs@, cs) =~= by_key(cs.take(0)));
    }
    while i < entries.len()
        invariant
            i <= entries@.len(),
            cs == entries_view(entries@),
            keyed_view(refs@, cs) == by_key(cs.take(i as int)),
            names_sorted(keyed_view(refs@, cs)),
            refs_point_into(refs@, cs, i as int),
            unique_keys(cs.take(i as int)),
            forall|a: int|
                0 <= a < i && normal_name(#[trigger] cs[a]) is Some ==> has_child(
                    keyed_view(refs@, cs),
                    normal_name(cs[a])->0,
                ),
        decreases entries@.len() - i,
    {
        let ghost ks = keyed_view(refs@, cs);
        proof {
            assert(cs.take(i + 1).drop_last() =~= cs.take(i as int));
            assert(cs.take(i + 1).last() == cs[i as int]);
        }
        match key_of(&entries[i]) {
            Some(key) => {
                let r = key_position(&refs, key.as_slice(), Ghost(cs));
                let found = if r < refs.len() {
                    match compare_bytes(refs[r].key.as_slice(), key.as_slice()) {
                        Order::Equal => true,
                        _ => false,
                    }
                } else {
                    false
                };
                if found {
                    proof {
                        let a = refs@[r as int].index as int;
                        assert(normal_name(cs[a]) == normal_name(cs[i as int]));
                    }
                    return None;
                }
                proof {
                    lemma_put(ks, key@, cs[i as int].node, key@);
                    assert forall|a: int, b: int|
                        0 <= a < b < i + 1 && normal_name(cs.take(i + 1)[a]) is Some implies normal_name(
                        #[trigger] cs.take(i + 1)[a],
                    ) != normal_name(#[trigger] cs.take(i + 1)[b]) by {
                        if b < i {
                            assert(cs.take(i as int)[a] == cs[a] && cs.take(i as int)[b] == cs[b]);
                        } else {
                            assert(has_child(ks, normal_name(cs[a])->0));
                        }
                    }
                    assert forall|a: int| 0 <= a < i + 1 && normal_name(#[trigger] cs[a]) is Some implies has_child(
                        put(ks, key@, cs[i as int].node),
                        normal_name(cs[a])->0,
                    ) by {
                        lemma_put(ks, key@, cs[i as int].node, normal_name(cs[a])->0);
                    }
                }
                refs.insert(r, KeyRef { key, index: i });
                proof {
                    assert(keyed_view(refs@, cs) =~= put(ks, key@, cs[i as int].node));
                    let front = normal_entries(cs.take(i as int));
                    let x = EntryView { name: key@, node: cs[i as int].node };
                    assert(front.push(x).drop_last() =~= front);
                    assert(normal_entries(cs.take(i + 1)) == front.push(x));
                }
            },
            None => {
                proof {
                    assert forall|a: int, b: int|
                        0 <= a < b < i + 1 && normal_name(cs.take(i + 1)[a]) is Some implies normal_name(
                        #[trigger] cs.take(i + 1)[a],
                    ) != normal_name(#[trigger] cs.take(i + 1)[b]) by {
                        if b < i {
                            assert(cs.take(i as int)[a] == cs[a] && cs.take(i as int)[b] == cs[b]);
                        }
                    }
                }
            },
        }
        i += 1;
    }
    proof {
        assert(cs.take(cs.len() as int) =~= cs);
    }
    Some(refs)
}

/// Appends to `ops` the operations for a key that both directories hold.
fn handle_both(ne: &TreeNode, np: &TreeNode, raw: &[u8], key: &[u8], dir: &SyncPath, ops: &mut Vec<FileOperation>)
    requires
        ne@.wf(),
        np@.wf(),
        raw@ == raw_name(key@, ne@.is_dir()),
        ne@.is_dir() == np@.is_dir(),
        ne@.dirt == Some(Dirt::PathDirt) && np@.dirt == Some(Dirt::PathDirt) ==> mergeable(ne@, np@),
    ensures
        ops_view(final(ops)@) == ops_view(old(ops)@) + both_sides(
            dir@,
            key@,
            ne@,
            np@,
            merge_dirs(ne@, np@, dir@.push(key@)),
        ),
    decreases np, 2nat,
{
    let ghost start = ops_view(ops@);
    let pe = dir.join_name(raw);
    let pp = dir.join_name(key);
    proof {
        if !ne@.is_dir() {
            let n = raw@.len() as int;
            assert(raw@.subrange(n - 4, n) =~= gpg_suffix());
        }
        assert(pe@.segments.last() == raw@);
    }
    match (ne.dirt, np.dirt) {
        (None, None) => {
            proof {
                assert(start + Seq::<FileOpView>::empty() =~= start);
            }
        },
        (None, Some(_)) => {
            handle_independently(np, &pp, ops, TreeType::Plain, None);
        },
        (Some(_), None) => {
            handle_independently(ne, &pe, ops, TreeType::Encrypted, None);
        },
        (Some(Dirt::PathDirt), Some(Dirt::PathDirt)) => {
            calculate_merge_rec(ne, np, ops, &pp);
        },
        (Some(Dirt::PathDirt), Some(Dirt::Modified)) => {
            let copy_e = dir.join_name(make_conflict_name(&ne.mtime, raw).as_slice());
            handle_independently(ne, &pe, ops, TreeType::Encrypted, Some(&copy_e));
            let op = FileOperation::EncryptPlain(pp);
            proof {
                lemma_ops_push(ops@, op);
            }
            ops.push(op);
        },
        (Some(Dirt::PathDirt), Some(Dirt::Deleted)) => {
            let copy_e = dir.join_name(make_conflict_name(&ne.mtime, raw).as_slice());
            handle_independently(ne, &pe, ops, TreeType::Encrypted, Some(&copy_e));
            let op = FileOperation::DeleteEnc(pe);
            proof {
                lemma_ops_push(ops@, op);
            }
            ops.push(op);
        },
        (Some(Dirt::Modified), Some(Dirt::PathDirt)) => {
            let copy_p = dir.join_name(make_conflict_name(&np.mtime, key).as_slice());
            handle_independently(np, &pp, ops, TreeType::Plain, Some(&copy_p));
            let op = FileOperation::DecryptEnc(pe);
            proof {
                lemma_ops_push(ops@, op);
            }
            ops.push(op);
        },
        (Some(Dirt::Modified), Some(Dirt::Modified)) => {
            let copy_p = dir.join_name(make_conflict_name(&np.mtime, key).as_slice());
            let first = FileOperation::ConflictCopyPlain(pp, copy_p);
            let second = FileOperation::DecryptEnc(pe);
            proof {
                lemma_ops_push(ops@, first);
                lemma_ops_push(ops@.push(first), second);
                assert(start + seq![first@] + seq![second@] =~= start + seq![first@, second@]);
            }
            ops.push(first);
            ops.push(second);
        },
        (Some(Dirt::Modified), Some(Dirt::Deleted)) => {
            let copy_e = dir.join_name(make_conflict_name(&ne.mtime, raw).as_slice());
            let first = FileOperation::ConflictCopyEnc(pe.clone_path(), copy_e);
            let second = FileOperation::DeleteEnc(pe);
            proof {
                lemma_ops_push(ops@, first);
                lemma_ops_push(ops@.push(first), second);
                assert(start + seq![first@] + seq![second@] =~= start + seq![first@, second@]);
            }
            ops.push(first);
            ops.push(second);
        },
        (Some(Dirt::Deleted), Some(Dirt::PathDirt)) => {
            let copy_p = dir.join_name(make_conflict_name(&np.mtime, key).as_slice());
            handle_independently(np, &pp, ops, TreeType::Plain, Some(&copy_p));
            let op = FileOperation::DeletePlain(pp);
            proof {
                lemma_ops_push(ops@, op);
            }
            ops.push(op);
        },
        (Some(Dirt::Deleted), Some(Dirt::Modified)) => {
            let copy_p = dir.join_name(make_conflict_name(&np.mtime, key).as_slice());
            let first = FileOperation::ConflictCopyPlain(pp.clone_path(), copy_p);
            let second = FileOperation::DeletePlain(pp);
            proof {
                lemma_ops_push(ops@, first);
                lemma_ops_push(ops@.push(first), second);
                assert(start + seq![first@] + seq![second@] =~= start + seq![first@, second@]);
            }
            ops.push(first);
            ops.push(second);
        },
        (Some(Dirt::Deleted), Some(Dirt::Deleted)) => {
            proof {
                assert(start + Seq::<FileOpView>::empty() =~= start);
            }
        },
    }
    proof {
        assert(ops_view(ops@) =~= start + both_sides(
            dir@,
            key@,
            ne@,
            np@,
            merge_dirs(ne@, np@, dir@.push(key@)),
        ));
    }
}

/// Appends to `ops` the operations for the pair of nodes `enc` and `plain`,
/// which both stand at `curpath`.
fn calculate_merge_rec(enc: &TreeNode, plain: &TreeNode, ops: &mut Vec<FileOperation>, curpath: &SyncPath)
    requires
        enc@.wf(),
        plain@.wf(),
        mergeable(enc@, plain@),
    ensures
        ops_view(final(ops)@) == ops_view(old(ops)@) + merge_dirs(enc@, plain@, curpath@),
    decreases plain, 1nat,
{
    let ghost start = ops_view(ops@);
    match &plain.children {
        Some(pc) => match &enc.children {
            Some(ec) => {
                let ghost ecv = entries_view(ec@);
                let ghost pl = entries_view(pc@);
                let refs = match sort_by_key(ec) {
                    Some(refs) => refs,
                    None => {
                        return ;
                    },
                };
                let ghost en = by_key(ecv);
                let mut i: usize = 0;
                let mut j: usize = 0;
                proof {
                    assert(en.skip(0) =~= en);
                    assert(pl.skip(0) =~= pl);
                }
                while i < refs.len() || j < pc.len()
                    invariant
                        i <= refs@.len(),
                        j <= pc@.len(),
                        enc@.wf(),
                        plain@.wf(),
                        mergeable(enc@, plain@),
                        enc.children == Some(*ec),
                        plain.children == Some(*pc),
                        ecv == entries_view(ec@),
                        pl == entries_view(pc@),
                        en == by_key(ecv),
                        en == keyed_view(refs@, ecv),
                        names_sorted(en),
                        names_sorted(pl),
                        refs_point_into(refs@, ecv, ec@.len() as int),
                        start + zip_ops(en, pl, curpath@) == ops_view(ops@) + zip_ops(
                            en.skip(i as int),
                            pl.skip(j as int),
                            curpath@,
                        ),
                    decreases (refs@.len() - i) + (pc@.len() - j),
                {
                    let ghost before = ops_view(ops@);
                    let ghost en_rest = en.skip(i as int);
                    let ghost pl_rest = pl.skip(j as int);
                    let order = if i >= refs.len() {
                        Order::Greater
                    } else if j >= pc.len() {
                        Order::Less
                    } else {
                        compare_bytes(refs[i].key.as_slice(), pc[j].name.as_slice())
                    };
                    proof {
                        if i < refs@.len() {
                            assert(en_rest[0] == en[i as int]);
                            assert(en_rest.skip(1) =~= en.skip(i + 1));
                            lemma_raw_name(ecv[refs@[i as int].index as int]);
                        }
                        if j < pc@.len() {
                            assert(pl_rest[0] == pl[j as int]);
                            assert(pl_rest.skip(1) =~= pl.skip(j + 1));
                        }
                        if i < refs@.len() && j < pc@.len() {
                            lemma_bytes_lt_total(en[i as int].name, pl[j as int].name);
                            lemma_bytes_lt_irreflexive(en[i as int].name);
                        }
                    }
                    match order {
                        Order::Less => {
                            let e = &ec[refs[i].index];
                            let at = curpath.join_name(e.name.as_slice());
                            assert(at@.segments.last() == e.name@);
                            handle_independently(&e.node, &at, ops, TreeType::Encrypted, None);
                            proof {
                                assert(ops_view(ops@) + zip_ops(en.skip(i + 1), pl_rest, curpath@) =~= before + (
                                enc_only(curpath@, en_rest[0]) + zip_ops(en_rest.skip(1), pl_rest, curpath@)));
                            }
                            i += 1;
                        },
                        Order::Greater => {
                            let e = &pc[j];
                            let at = curpath.join_name(e.name.as_slice());
                            handle_independently(&e.node, &at, ops, TreeType::Plain, None);
                            proof {
                                assert(ops_view(ops@) + zip_ops(en_rest, pl.skip(j + 1), curpath@) =~= before + (
                                plain_only(curpath@, pl_rest[0]) + zip_ops(en_rest, pl_rest.skip(1), curpath@)));
                            }
                            j += 1;
                        },
                        Order::Equal => {
                            let e = &ec[refs[i].index];
                            let p = &pc[j];
                            proof {
                                lemma_rank_of_member(en, i as int);
                                assert(child(en, pl[j as int].name) == Some(en[i as int].node));
                                assert(ecv[refs@[i as int].index as int].node.wf());
                                assert(pl[j as int].node.wf());
                                lemma_child_is_smaller(*plain, *pc, j as int);
                            }
                            handle_both(&e.node, &p.node, e.name.as_slice(), p.name.as_slice(), curpath, ops);
                            proof {
                                let step = both_sides(
                                    curpath@,
                                    pl_rest[0].name,
                                    en_rest[0].node,
                                    pl_rest[0].node,
                                    merge_dirs(en_rest[0].node, pl_rest[0].node, curpath@.push(pl_rest[0].name)),
                                );
                                assert(ops_view(ops@) + zip_ops(en.skip(i + 1), pl.skip(j + 1), curpath@) =~= before
                                    + (step + zip_ops(en_rest.skip(1), pl_rest.skip(1), curpath@)));
                            }
                            i += 1;
                            j += 1;
                        },
                    }
                }
                proof {
                    assert(ops_view(ops@) + Seq::<FileOpView>::empty() =~= ops_view(ops@));
                }
            },
            None => {
                proof {
                    assert(start + Seq::<FileOpView>::empty() =~= start);
                }
            },
        },
        None => {
            proof {
                assert(start + Seq::<FileOpView>::empty() =~= start);
            }
        },
    }
}

/// The operations that bring the two trees back in step, in the order in
/// which they are to be carried out. Every path in them is relative.
pub fn calculate_merge(enc: &Tree, plain: &Tree) -> (ops: Vec<FileOperation>)
    requires
        enc.wf(),
        plain.wf(),
        mergeable(enc@, plain@),
    ensures
        ops_view(ops@) == merge_dirs(enc@, plain@, root_path()),
        all_relative(ops_view(ops@)),
{
    let mut ops: Vec<FileOperation> = Vec::new();
    let path = SyncPath::new();
    proof {
        assert(ops_view(ops@) =~= Seq::<FileOpView>::empty());
    }
    calculate_merge_rec(&enc.root, &plain.root, &mut ops, &path);
    proof {
        assert(Seq::<FileOpView>::empty() + merge_dirs(enc@, plain@, root_path()) =~= merge_dirs(
            enc@,
            plain@,
            root_path(),
        ));
        lemma_merge_relative(enc@, plain@, root_path());
    }
    ops
}

/// Whether the two nodes can be merged as a pair.
fn mergeable_nodes(e: &TreeNode, p: &TreeNode) -> (r: bool)
    requires
        e@.wf(),
        p@.wf(),
    ensures
        r == mergeable(e@, p@),
    decreases p,
{
    match &p.children {
        Some(pc) => match &e.children {
            Some(ec) => {
                let ghost ecv = entries_view(ec@);
                let ghost pl = entries_view(pc@);
                let refs = match sort_by_key(ec) {
                    Some(refs) => refs,
                    None => {
                        return false;
                    },
                };
                let ghost en = by_key(ecv);
                let mut j: usize = 0;
                while j < pc.len()
                    invariant
                        j <= pc@.len(),
                        e@.wf(),
                        p@.wf(),
                        p.children == Some(*pc),
                        e.children == Some(*ec),
                        unique_keys(ecv),
                        ecv == entries_view(ec@),
                        pl == entries_view(pc@),
                        en == by_key(ecv),
                        en == keyed_view(refs@, ecv),
                        names_sorted(en),
                        refs_point_into(refs@, ecv, ec@.len() as int),
                        forall|k: int| 0 <= k < ecv.len() ==> (#[trigger] ecv[k]).node.wf(),
                        forall|k: int| 0 <= k < j ==> entry_mergeable(en, #[trigger] pl[k]),
                    decreases pc@.len() - j,
                {
                    match find_key(&refs, pc[j].name.as_slice(), Ghost(ecv)) {
                        Some(k) => {
                            let ne = &ec[refs[k].index].node;
                            let np = &pc[j].node;
                            proof {
                                assert(en[k as int].node == ne@);
                                assert(child(en, pl[j as int].name) == Some(ne@));
                                assert(ecv[refs@[k as int].index as int].node.wf());
                                assert(pl[j as int].node.wf());
                                lemma_child_is_smaller(*p, *pc, j as int);
                            }
                            if ne.is_dir() != np.is_dir() {
                                assert(!entry_mergeable(en, pl[j as int]));
                                return false;
                            }
                            let deep = match (ne.dirt, np.dirt) {
                                (Some(Dirt::PathDirt), Some(Dirt::PathDirt)) => true,
                                _ => false,
                            };
                            if deep {
                                if !mergeable_nodes(ne, np) {
                                    assert(!entry_mergeable(en, pl[j as int]));
                                    return false;
                                }
                            }
                        },
                        None => {},
                    }
                    j += 1;
                }
                true
            },
            None => false,
        },
        None => e.children.is_none(),
    }
}

/// Whether the two trees can be merged: no directory of the encrypted tree
/// holds two entries with one key, and no key stands for a file on one side
/// and for a directory on the other.
pub fn can_merge(enc: &Tree, plain: &Tree) -> (r: bool)
    requires
        enc.wf(),
        plain.wf(),
    ensures
        r == mergeable(enc@, plain@),
{
    mergeable_nodes(&enc.root, &plain.root)
}

} // verus!
