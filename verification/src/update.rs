//! Carrying file operations over into the two trees.
//!
//! Once the operations of a merge were carried out on disk, the trees are
//! brought up to date from the operations alone, without another look at the
//! filesystem: what was deleted leaves its tree, what was encrypted,
//! decrypted or copied is copied from its place in the one tree to its new
//! place in the same or in the other tree.

use vstd::prelude::*;
use crate::entries::{
    child, collect, find_entry, has_child, lemma_collect_wf, lemma_put, lemma_put_wf,
    lemma_rank_bounds, lemma_without, lower_bound, names_sorted, put, put_entry, rank, remove_entry,
    without,
};
use crate::file_op::{ops_view, FileOpView, FileOperation, TreeType};
use crate::merge::{key_of, normal_name, raw_name};
use crate::path::{
    add_gpg_suffix, ends_with_gpg, gpg_suffix, has_gpg_suffix, remove_gpg_suffix, PathView, SyncPath,
};
use crate::tree::{
    entries_view, fresh, lift, lift_dirt, Dirt, Entry, EntryView, Mtime, NodeView, Tree, TreeNode,
};
use crate::tree_lemmas::lemma_child_is_smaller;

verus! {

impl NodeView {
    /// The subtree without the node that is reached along `segs`.
    pub open spec fn remove_at(self, segs: Seq<Seq<u8>>) -> NodeView
        decreases segs.len(),
    {
        if segs.len() == 0 {
            self
        } else {
            match self.children {
                Some(cs) => if segs.len() == 1 {
                    NodeView { children: Some(without(cs, segs[0])), ..self }
                } else {
                    match child(cs, segs[0]) {
                        Some(c) => NodeView {
                            children: Some(put(cs, segs[0], c.remove_at(segs.skip(1)))),
                            ..self
                        },
                        None => self,
                    }
                },
                None => self,
            }
        }
    }

    /// A node can be placed at `segs`: `segs` is not empty, and on the way
    /// down to the directory that is to hold the node there is no file.
    pub open spec fn can_place(self, segs: Seq<Seq<u8>>) -> bool
        decreases segs.len(),
    {
        &&& segs.len() > 0
        &&& self.is_dir()
        &&& segs.len() > 1 ==> match child(self.children->0, segs[0]) {
            Some(c) => c.can_place(segs.skip(1)),
            None => true,
        }
    }

    /// The subtree with `node` placed at `segs`, in place of what was there.
    /// The nodes above `segs` are created where they are missing; they carry
    /// `mtime`, and their dirt is lifted to `PathDirt` at least.
    pub open spec fn place(self, segs: Seq<Seq<u8>>, node: NodeView, mtime: Mtime) -> NodeView
        decreases segs.len(),
    {
        if segs.len() == 0 {
            self
        } else {
            let cs = match self.children {
                Some(cs) => cs,
                None => Seq::empty(),
            };
            let below = if segs.len() == 1 {
                node
            } else {
                (match child(cs, segs[0]) {
                    Some(c) => c,
                    None => fresh(true, mtime),
                }).place(segs.skip(1), node, mtime)
            };
            NodeView { mtime, dirt: lift(self.dirt), children: Some(put(cs, segs[0], below)), ..self }
        }
    }
}

/// Removing a node keeps the tree well-formed.
pub proof fn lemma_remove_at_wf(tree: NodeView, segs: Seq<Seq<u8>>)
    requires
        tree.wf(),
    ensures
        tree.remove_at(segs).wf(),
        tree.remove_at(segs).is_dir() == tree.is_dir(),
    decreases segs.len(),
{
    if segs.len() > 0 {
        match tree.children {
            Some(cs) => {
                lemma_rank_bounds(cs, segs[0]);
                if segs.len() == 1 {
                    lemma_without(cs, segs[0], segs[0]);
                    let out = without(cs, segs[0]);
                    let r = rank(cs, segs[0]);
                    assert forall|i: int| 0 <= i < out.len() implies (#[trigger] out[i]).node.wf() by {
                        if has_child(cs, segs[0]) {
                            assert(out[i] == if i < r {
                                cs[i]
                            } else {
                                cs[i + 1]
                            });
                        }
                    }
                } else {
                    match child(cs, segs[0]) {
                        Some(c) => {
                            assert(c == cs[rank(cs, segs[0])].node);
                            lemma_remove_at_wf(c, segs.skip(1));
                            lemma_put(cs, segs[0], c.remove_at(segs.skip(1)), segs[0]);
                            lemma_put_wf(cs, segs[0], c.remove_at(segs.skip(1)));
                        },
                        None => {},
                    }
                }
            },
            None => {},
        }
    }
}

/// Placing a well-formed node keeps the tree well-formed.
pub proof fn lemma_place_wf(tree: NodeView, segs: Seq<Seq<u8>>, node: NodeView, mtime: Mtime)
    requires
        tree.wf(),
        node.wf(),
        tree.can_place(segs),
    ensures
        tree.place(segs, node, mtime).wf(),
        tree.place(segs, node, mtime).is_dir(),
    decreases segs.len(),
{
    let cs = tree.children->0;
    lemma_rank_bounds(cs, segs[0]);
    if segs.len() == 1 {
        lemma_put(cs, segs[0], node, segs[0]);
        lemma_put_wf(cs, segs[0], node);
    } else {
        let c = match child(cs, segs[0]) {
            Some(c) => c,
            None => fresh(true, mtime),
        };
        if has_child(cs, segs[0]) {
            assert(c == cs[rank(cs, segs[0])].node);
        } else {
            lemma_fresh_can_place(segs.skip(1), mtime);
        }
        lemma_place_wf(c, segs.skip(1), node, mtime);
        let below = c.place(segs.skip(1), node, mtime);
        lemma_put(cs, segs[0], below, segs[0]);
        lemma_put_wf(cs, segs[0], below);
    }
}

/// Below a freshly created directory a node can be placed anywhere.
pub proof fn lemma_fresh_can_place(segs: Seq<Seq<u8>>, mtime: Mtime)
    requires
        segs.len() > 0,
    ensures
        fresh(true, mtime).can_place(segs),
        fresh(true, mtime).wf(),
{
    if segs.len() > 1 {
        assert(child(Seq::<EntryView>::empty(), segs[0]) is None);
    }
}

impl TreeNode {
    /// Removes the node that is reached along the segments of `path` from
    /// `from` on, with everything below it.
    fn remove_from(&mut self, path: &SyncPath, from: usize)
        requires
            from <= path.segments@.len(),
            old(self)@.wf(),
        ensures
            final(self)@ == old(self)@.remove_at(path.segs().skip(from as int)),
            final(self)@.wf(),
        decreases path.segments@.len() - from,
    {
        let ghost segs = path.segs().skip(from as int);
        proof {
            lemma_remove_at_wf(self@, segs);
        }
        let len = path.segments.len();
        if from == len {
            return ;
        }
        let name = &path.segments[from];
        proof {
            assert(segs.skip(1) =~= path.segs().skip(from + 1));
            assert(segs[0] == name@);
        }
        match &mut self.children {
            Some(entries) => {
                let ghost cs = entries_view(entries@);
                if from + 1 == len {
                    let _ = remove_entry(entries, name.as_slice());
                } else {
                    match find_entry(entries, name.as_slice()) {
                        Some(r) => {
                            entries[r].node.remove_from(path, from + 1);
                            proof {
                                let below = cs[r as int].node;
                                assert(entries_view(entries@) =~= put(
                                    cs,
                                    segs[0],
                                    below.remove_at(segs.skip(1)),
                                ));
                            }
                        },
                        None => {},
                    }
                }
            },
            None => {},
        }
    }

    /// Whether a node can be placed at the end of the segments of `path`
    /// from `from` on.
    fn can_place_from(&self, path: &SyncPath, from: usize) -> (r: bool)
        requires
            from <= path.segments@.len(),
            self@.wf(),
        ensures
            r == self@.can_place(path.segs().skip(from as int)),
    {
        let len = path.segments.len();
        if from == len {
            return false;
        }
        let mut n = self;
        let mut i: usize = from;
        while i + 1 < len
            invariant
                from <= i < len,
                len == path.segments@.len(),
                n@.wf(),
                self@.can_place(path.segs().skip(from as int)) == n@.can_place(path.segs().skip(i as int)),
            decreases len - i,
        {
            proof {
                assert(path.segs().skip(i as int).skip(1) =~= path.segs().skip(i + 1));
                assert(path.segs().skip(i as int)[0] == path.segments@[i as int]@);
            }
            match &n.children {
                Some(entries) => match find_entry(entries, path.segments[i].as_slice()) {
                    Some(k) => {
                        n = &entries[k].node;
                    },
                    None => {
                        return true;
                    },
                },
                None => {
                    return false;
                },
            }
            i += 1;
        }
        n.children.is_some()
    }

    /// Places `node` at the end of the segments of `path` from `from` on.
    fn place_from(&mut self, path: &SyncPath, from: usize, node: TreeNode, mtime: Mtime)
        requires
            from < path.segments@.len(),
            old(self)@.wf(),
            node@.wf(),
            old(self)@.can_place(path.segs().skip(from as int)),
        ensures
            final(self)@ == old(self)@.place(path.segs().skip(from as int), node@, mtime),
            final(self)@.wf(),
        decreases path.segments@.len() - from,
    {
        let ghost segs = path.segs().skip(from as int);
        proof {
            lemma_place_wf(self@, segs, node@, mtime);
        }
        self.mtime = mtime;
        self.dirt = lift_dirt(self.dirt);
        let name = &path.segments[from];
        let len = path.segments.len();
        let last = from + 1 == len;
        proof {
            assert(segs.skip(1) =~= path.segs().skip(from + 1));
            assert(segs[0] == name@);
        }
        match &mut self.children {
            Some(entries) => {
                let ghost cs = entries_view(entries@);
                if last {
                    put_entry(entries, Entry { name: name.clone(), node });
                } else {
                    let r = match find_entry(entries, name.as_slice()) {
                        Some(r) => r,
                        None => {
                            let r = lower_bound(entries, name.as_slice());
                            entries.insert(
                                r,
                                Entry {
                                    name: name.clone(),
                                    node: TreeNode {
                                        mtime,
                                        dirt: Some(Dirt::PathDirt),
                                        hash: None,
                                        children: Some(Vec::new()),
                                    },
                                },
                            );
                            proof {
                                lemma_fresh_can_place(segs.skip(1), mtime);
                                assert(entries@[r as int].node@.children->0 =~= Seq::<EntryView>::empty());
                                assert(entries@[r as int].node@ == fresh(true, mtime));
                            }
                            r
                        },
                    };
                    let ghost mid = entries_view(entries@);
                    proof {
                        let below = match child(cs, segs[0]) {
                            Some(c) => c,
                            None => fresh(true, mtime),
                        };
                        assert(mid =~= put(cs, segs[0], below));
                        assert(mid[r as int].node == below);
                    }
                    entries[r].node.place_from(path, from + 1, node, mtime);
                    proof {
                        let below = mid[r as int].node;
                        assert(entries_view(entries@) =~= put(
                            cs,
                            segs[0],
                            below.place(segs.skip(1), node@, mtime),
                        ));
                    }
                }
            },
            None => {},
        }
    }
}

/// The path at which the mirror of the node at `p` stands in the encrypted
/// tree: `p` itself for a directory, `p` with `.gpg` for a file.
pub open spec fn enc_place(p: PathView, is_dir: bool) -> PathView {
    if is_dir {
        p
    } else {
        p.with_gpg_suffix()
    }
}

/// The path at which the mirror of the node at `p` stands in the plaintext
/// tree: `p` itself for a directory, `p` without `.gpg` for a file.
pub open spec fn plain_place(p: PathView, is_dir: bool) -> PathView {
    if is_dir {
        p
    } else {
        p.without_gpg_suffix()
    }
}

/// The name under which an entry stands on the side `to` once it is
/// mirrored there: on the encrypted side the name of a file gets `.gpg`, on
/// the plaintext side it loses it, and a file without `.gpg` has no mirror.
pub open spec fn mirrored_name(e: EntryView, to: TreeType) -> Option<Seq<u8>> {
    match to {
        TreeType::Encrypted => Some(raw_name(e.name, e.node.is_dir())),
        TreeType::Plain => normal_name(e),
    }
}

/// The mirrors on the side `to` of the entries `cs`, in the order of `cs`.
pub open spec fn mirrored_entries(cs: Seq<EntryView>, to: TreeType) -> Seq<EntryView>
    decreases cs, 0nat,
{
    if cs.len() == 0 {
        Seq::empty()
    } else {
        let front = mirrored_entries(cs.drop_last(), to);
        match mirrored_name(cs.last(), to) {
            Some(name) => front.push(EntryView { name, node: mirrored(cs.last().node, to) }),
            None => front,
        }
    }
}

/// The subtree `node` as it stands on the side `to` once it is mirrored
/// there: the same nodes, each entry under its name on that side.
pub open spec fn mirrored(node: NodeView, to: TreeType) -> NodeView
    decreases node, 1nat,
{
    match node.children {
        Some(cs) => NodeView { children: Some(collect(mirrored_entries(cs, to))), ..node },
        None => node,
    }
}

/// What is placed when a node is copied: the node itself for a copy within
/// one side, its mirror for a copy to the other side `across`.
pub open spec fn copied(node: NodeView, across: Option<TreeType>) -> NodeView {
    match across {
        Some(to) => mirrored(node, to),
        None => node,
    }
}

/// The node at `from` can be copied to `to`.
pub open spec fn can_copy(source: NodeView, from: PathView, target: NodeView, to: PathView) -> bool {
    source.parent_of(from.segments) is Some && target.can_place(to.segments)
}

/// `target` with a copy of the node that `source` holds at `from` placed at
/// `to`. The nodes above `to` carry the time of the node afterwards.
pub open spec fn copy_into(
    source: NodeView,
    from: PathView,
    target: NodeView,
    to: PathView,
    across: Option<TreeType>,
) -> NodeView {
    let node = source.get(from.segments)->0;
    target.place(to.segments, copied(node, across), node.mtime)
}

/// The mirror of a subtree is well-formed.
pub proof fn lemma_mirrored_wf(node: NodeView, to: TreeType)
    ensures
        mirrored(node, to).wf(),
    decreases node, 1nat,
{
    match node.children {
        Some(cs) => {
            lemma_mirrored_entries_wf(cs, to);
            lemma_collect_wf(mirrored_entries(cs, to));
        },
        None => {},
    }
}

/// The mirrors of a list of entries are well-formed.
pub proof fn lemma_mirrored_entries_wf(cs: Seq<EntryView>, to: TreeType)
    ensures
        forall|i: int|
            0 <= i < mirrored_entries(cs, to).len() ==> (#[trigger] mirrored_entries(cs, to)[i]).node.wf(),
    decreases cs, 0nat,
{
    if cs.len() > 0 {
        lemma_mirrored_entries_wf(cs.drop_last(), to);
        lemma_mirrored_wf(cs.last().node, to);
    }
}

/// The operation can be carried over into the trees: what it deletes or
/// takes as its source is a node other than the root, a file that it
/// decrypts has a name that ends in `.gpg`, and there is no file on the way
/// down to the place of what it creates.
pub open spec fn applicable(enc: NodeView, plain: NodeView, op: FileOpView) -> bool {
    match op {
        FileOpView::DeleteEnc(p) => enc.parent_of(p.segments) is Some,
        FileOpView::DeletePlain(p) => plain.parent_of(p.segments) is Some,
        FileOpView::EncryptPlain(p) => plain.parent_of(p.segments) is Some && enc.can_place(
            enc_place(p, plain.get(p.segments)->0.is_dir()).segments,
        ),
        FileOpView::DecryptEnc(p) => {
            &&& enc.parent_of(p.segments) is Some
            &&& !enc.get(p.segments)->0.is_dir() ==> ends_with_gpg(p.segments.last())
            &&& plain.can_place(plain_place(p, enc.get(p.segments)->0.is_dir()).segments)
        },
        FileOpView::ConflictCopyEnc(p, q) => can_copy(enc, p, enc, q),
        FileOpView::ConflictCopyPlain(p, q) => can_copy(plain, p, plain, q),
    }
}

/// The encrypted tree and the plaintext tree after `op`.
pub open spec fn update_one(enc: NodeView, plain: NodeView, op: FileOpView) -> (NodeView, NodeView) {
    match op {
        FileOpView::DeleteEnc(p) => (enc.remove_at(p.segments), plain),
        FileOpView::DeletePlain(p) => (enc, plain.remove_at(p.segments)),
        FileOpView::EncryptPlain(p) => (
            copy_into(
                plain,
                p,
                enc,
                enc_place(p, plain.get(p.segments)->0.is_dir()),
                Some(TreeType::Encrypted),
            ),
            plain,
        ),
        FileOpView::DecryptEnc(p) => (
            enc,
            copy_into(enc, p, plain, plain_place(p, enc.get(p.segments)->0.is_dir()), Some(TreeType::Plain)),
        ),
        FileOpView::ConflictCopyEnc(p, q) => (copy_into(enc, p, enc, q, None), plain),
        FileOpView::ConflictCopyPlain(p, q) => (enc, copy_into(plain, p, plain, q, None)),
    }
}

/// The two trees after the operations `ops`, one after the other.
pub open spec fn update_all(enc: NodeView, plain: NodeView, ops: Seq<FileOpView>) -> (NodeView, NodeView)
    decreases ops.len(),
{
    if ops.len() == 0 {
        (enc, plain)
    } else {
        let (e, p) = update_all(enc, plain, ops.drop_last());
        update_one(e, p, ops.last())
    }
}

/// Each of the operations `ops` can be carried over into the trees as they
/// are after the operations before it.
pub open spec fn all_applicable(enc: NodeView, plain: NodeView, ops: Seq<FileOpView>) -> bool
    decreases ops.len(),
{
    if ops.len() == 0 {
        true
    } else {
        let (e, p) = update_all(enc, plain, ops.drop_last());
        all_applicable(enc, plain, ops.drop_last()) && applicable(e, p, ops.last())
    }
}

/// Whether the node at `from` in `source` can be copied to `to` in `target`.
fn copy_possible(source: &Tree, from: &SyncPath, target: &Tree, to: &SyncPath) -> (r: bool)
    requires
        source.wf(),
        target.wf(),
    ensures
        r == can_copy(source@, from@, target@, to@),
{
    proof {
        assert(to.segs().skip(0) =~= to.segs());
    }
    source.get_parent_of(from).is_some() && target.root.can_place_from(to, 0)
}

/// The name `name` with `.gpg` added.
fn with_gpg(name: &Vec<u8>) -> (r: Vec<u8>)
    ensures
        r@ == name@ + gpg_suffix(),
{
    let mut r = name.clone();
    r.push(0x2e);
    r.push(0x67);
    r.push(0x70);
    r.push(0x67);
    assert(r@ =~= name@ + gpg_suffix());
    r
}

/// The subtree `node` as it stands on the side `to` once it is mirrored
/// there.
pub fn mirror_node(node: &TreeNode, to: TreeType) -> (r: TreeNode)
    ensures
        r@ == mirrored(node@, to),
        r@.wf(),
    decreases node,
{
    proof {
        lemma_mirrored_wf(node@, to);
    }
    let hash = match &node.hash {
        Some(h) => Some(h.clone()),
        None => None,
    };
    let children = match &node.children {
        Some(entries) => {
            let ghost cs = entries_view(entries@);
            let mut out: Vec<Entry> = Vec::new();
            let mut i: usize = 0;
            proof {
                assert(cs.take(0) =~= Seq::<EntryView>::empty());
                assert(entries_view(out@) =~= collect(mirrored_entries(cs.take(0), to)));
            }
            while i < entries.len()
                invariant
                    i <= entries@.len(),
                    node.children == Some(*entries),
                    cs == entries_view(entries@),
                    names_sorted(entries_view(out@)),
                    entries_view(out@) == collect(mirrored_entries(cs.take(i as int), to)),
                decreases entries@.len() - i,
            {
                let e = &entries[i];
                proof {
                    assert(cs.take(i + 1).drop_last() =~= cs.take(i as int));
                    assert(cs.take(i + 1).last() == cs[i as int]);
                    lemma_child_is_smaller(*node, *entries, i as int);
                }
                let name = match to {
                    TreeType::Encrypted => Some(
                        if e.node.is_dir() {
                            e.name.clone()
                        } else {
                            with_gpg(&e.name)
                        },
                    ),
                    TreeType::Plain => key_of(e),
                };
                match name {
                    Some(name) => {
                        let copy = Entry { name, node: mirror_node(&e.node, to) };
                        proof {
                            let front = mirrored_entries(cs.take(i as int), to);
                            assert(front.push(copy@).drop_last() =~= front);
                        }
                        put_entry(&mut out, copy);
                    },
                    None => {},
                }
                i += 1;
            }
            proof {
                assert(cs.take(cs.len() as int) =~= cs);
            }
            Some(out)
        },
        None => None,
    };
    TreeNode { mtime: node.mtime, dirt: node.dirt, hash, children }
}

/// A copy of the node at `from` in `source`: the node as it is for a copy
/// within one side, its mirror for a copy to the other side `across`.
fn copy_of(source: &Tree, from: &SyncPath, across: Option<TreeType>) -> (r: TreeNode)
    requires
        source.wf(),
        source@.get(from@.segments) is Some,
    ensures
        r@ == copied(source@.get(from@.segments)->0, across),
        r.mtime == source@.get(from@.segments)->0.mtime,
        r@.wf(),
{
    match source.get(from) {
        Some(node) => match across {
            Some(side) => mirror_node(node, side),
            None => node.clone_node(),
        },
        None => TreeNode::new_file(Mtime::epoch(), None, None),
    }
}

/// Places `node` at `to` in `target`.
fn place_copy(target: &mut Tree, to: &SyncPath, node: TreeNode)
    requires
        old(target).wf(),
        node@.wf(),
        old(target)@.can_place(to@.segments),
    ensures
        final(target)@ == old(target)@.place(to@.segments, node@, node.mtime),
        final(target).wf(),
{
    proof {
        assert(to.segs().skip(0) =~= to.segs());
        lemma_place_wf(target@, to.segs(), node@, node.mtime);
    }
    let mtime = node.mtime;
    target.root.place_from(to, 0, node, mtime);
}

/// Whether `op` can be carried over into the trees.
pub fn op_applicable(enc: &Tree, plain: &Tree, op: &FileOperation) -> (r: bool)
    requires
        enc.wf(),
        plain.wf(),
    ensures
        r == applicable(enc@, plain@, op@),
{
    match op {
        FileOperation::DeleteEnc(p) => enc.get_parent_of(p).is_some(),
        FileOperation::DeletePlain(p) => plain.get_parent_of(p).is_some(),
        FileOperation::EncryptPlain(p) => {
            if plain.get_parent_of(p).is_none() {
                return false;
            }
            match plain.get(p) {
                Some(node) => {
                    if node.is_dir() {
                        copy_possible(plain, p, enc, p)
                    } else {
                        let q = add_gpg_suffix(p);
                        copy_possible(plain, p, enc, &q)
                    }
                },
                None => false,
            }
        },
        FileOperation::DecryptEnc(p) => {
            if enc.get_parent_of(p).is_none() {
                return false;
            }
            match enc.get(p) {
                Some(node) => {
                    if node.is_dir() {
                        copy_possible(enc, p, plain, p)
                    } else {
                        match p.file_name() {
                            Some(name) => {
                                if has_gpg_suffix(name.as_slice()) {
                                    let q = remove_gpg_suffix(p);
                                    copy_possible(enc, p, plain, &q)
                                } else {
                                    false
                                }
                            },
                            None => false,
                        }
                    }
                },
                None => false,
            }
        },
        FileOperation::ConflictCopyEnc(p, q) => copy_possible(enc, p, enc, q),
        FileOperation::ConflictCopyPlain(p, q) => copy_possible(plain, p, plain, q),
    }
}

/// Carries `op` over into the trees.
pub fn update_trees_with_change(enc: &mut Tree, plain: &mut Tree, op: &FileOperation)
    requires
        old(enc).wf(),
        old(plain).wf(),
        applicable(old(enc)@, old(plain)@, op@),
    ensures
        (final(enc)@, final(plain)@) == update_one(old(enc)@, old(plain)@, op@),
        final(enc).wf(),
        final(plain).wf(),
{
    match op {
        FileOperation::DeleteEnc(p) => {
            proof {
                assert(p.segs().skip(0) =~= p.segs());
                lemma_remove_at_wf(enc@, p.segs());
            }
            enc.root.remove_from(p, 0);
        },
        FileOperation::DeletePlain(p) => {
            proof {
                assert(p.segs().skip(0) =~= p.segs());
                lemma_remove_at_wf(plain@, p.segs());
            }
            plain.root.remove_from(p, 0);
        },
        FileOperation::EncryptPlain(p) => {
            let is_dir = match plain.get(p) {
                Some(node) => node.is_dir(),
                None => true,
            };
            let copy = copy_of(plain, p, Some(TreeType::Encrypted));
            if is_dir {
                place_copy(enc, p, copy);
            } else {
                let q = add_gpg_suffix(p);
                place_copy(enc, &q, copy);
            }
        },
        FileOperation::DecryptEnc(p) => {
            let is_dir = match enc.get(p) {
                Some(node) => node.is_dir(),
                None => true,
            };
            let copy = copy_of(enc, p, Some(TreeType::Plain));
            if is_dir {
                place_copy(plain, p, copy);
            } else {
                let q = remove_gpg_suffix(p);
                place_copy(plain, &q, copy);
            }
        },
        FileOperation::ConflictCopyEnc(p, q) => {
            let copy = copy_of(enc, p, None);
            place_copy(enc, q, copy);
        },
        FileOperation::ConflictCopyPlain(p, q) => {
            let copy = copy_of(plain, p, None);
            place_copy(plain, q, copy);
        },
    }
}

/// Carries the operations `ops` over into the trees, one after the other.
pub fn update_trees_with_changes(enc: &mut Tree, plain: &mut Tree, ops: &Vec<FileOperation>)
    requires
        old(enc).wf(),
        old(plain).wf(),
        all_applicable(old(enc)@, old(plain)@, ops_view(ops@)),
    ensures
        (final(enc)@, final(plain)@) == update_all(old(enc)@, old(plain)@, ops_view(ops@)),
        final(enc).wf(),
        final(plain).wf(),
{
    let ghost all = ops_view(ops@);
    let mut i: usize = 0;
    proof {
        assert(all.take(0) =~= Seq::<FileOpView>::empty());
    }
    while i < ops.len()
        invariant
            i <= ops@.len(),
            all == ops_view(ops@),
            enc.wf(),
            plain.wf(),
            all_applicable(old(enc)@, old(plain)@, all),
            (enc@, plain@) == update_all(old(enc)@, old(plain)@, all.take(i as int)),
        decreases ops@.len() - i,
    {
        proof {
            assert(all.take(i + 1).drop_last() =~= all.take(i as int));
            assert(all.take(i + 1).last() == ops@[i as int]@);
            lemma_applicable_prefix(old(enc)@, old(plain)@, all, i + 1);
        }
        update_trees_with_change(enc, plain, &ops[i]);
        i += 1;
    }
    proof {
        assert(all.take(all.len() as int) =~= all);
    }
}

/// Where a list of operations can be carried over, each of its prefixes
/// can.
pub proof fn lemma_applicable_prefix(enc: NodeView, plain: NodeView, ops: Seq<FileOpView>, k: int)
    requires
        all_applicable(enc, plain, ops),
        0 <= k <= ops.len(),
    ensures
        all_applicable(enc, plain, ops.take(k)),
    decreases ops.len(),
{
    if k == ops.len() {
        assert(ops.take(k) =~= ops);
    } else {
        lemma_applicable_prefix(enc, plain, ops.drop_last(), k);
        assert(ops.drop_last().take(k) =~= ops.take(k));
    }
}

/// Carries the operations `ops` over into the trees, one after the other, as
/// far as they can be carried over. The result is the position of the first
/// operation that cannot, at which the work stops.
pub fn try_update_trees(enc: &mut Tree, plain: &mut Tree, ops: &Vec<FileOperation>) -> (r: Option<usize>)
    requires
        old(enc).wf(),
        old(plain).wf(),
    ensures
        final(enc).wf(),
        final(plain).wf(),
        r is None <==> all_applicable(old(enc)@, old(plain)@, ops_view(ops@)),
        r is None ==> (final(enc)@, final(plain)@) == update_all(old(enc)@, old(plain)@, ops_view(ops@)),
        r matches Some(k) ==> {
            &&& k < ops@.len()
            &&& all_applicable(old(enc)@, old(plain)@, ops_view(ops@).take(k as int))
            &&& (final(enc)@, final(plain)@) == update_all(
                old(enc)@,
                old(plain)@,
                ops_view(ops@).take(k as int),
            )
            &&& !applicable(final(enc)@, final(plain)@, ops@[k as int]@)
        },
{
    let ghost all = ops_view(ops@);
    let mut i: usize = 0;
    proof {
        assert(all.take(0) =~= Seq::<FileOpView>::empty());
    }
    while i < ops.len()
        invariant
            i <= ops@.len(),
            all == ops_view(ops@),
            enc.wf(),
            plain.wf(),
            all_applicable(old(enc)@, old(plain)@, all.take(i as int)),
            (enc@, plain@) == update_all(old(enc)@, old(plain)@, all.take(i as int)),
        decreases ops@.len() - i,
    {
        proof {
            assert(all.take(i + 1).drop_last() =~= all.take(i as int));
            assert(all.take(i + 1).last() == ops@[i as int]@);
        }
        if !op_applicable(enc, plain, &ops[i]) {
            proof {
                if all_applicable(old(enc)@, old(plain)@, all) {
                    lemma_applicable_prefix(old(enc)@, old(plain)@, all, i + 1);
                }
            }
            return Some(i);
        }
        update_trees_with_change(enc, plain, &ops[i]);
        i += 1;
    }
    proof {
        assert(all.take(all.len() as int) =~= all);
    }
    None
}

} // verus!
