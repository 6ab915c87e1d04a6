//! In-memory mirror of one directory tree.
//!
//! A [`TreeNode`] stands for one filesystem entry. A directory holds its
//! children sorted by name, each name at most once. Every node carries the
//! modification time that was last seen for it and an optional [`Dirt`] tag
//! that records what happened to it since the tree was last cleaned.

use vstd::prelude::*;
use crate::entries::{
    child, collect, find_entry, lemma_collect_wf, lemma_live_push, live, lower_bound, names_sorted, put,
    put_entry,
};
use crate::path::{root_path, SyncPath};
use crate::tree_lemmas::{
    dirt_closed, lemma_child_is_smaller, lemma_clean_closed, lemma_cleaned, lemma_fresh_can_write,
    lemma_get_concat, lemma_mark_deleted_closed, lemma_mark_deleted_wf, lemma_pruned_closed,
    lemma_pruned_wf, lemma_write_closed, lemma_write_is_dir, lemma_write_wf,
};
use crate::visit::{lemma_walk_mark_deleted, MarkDeleted};

verus! {

/// A modification time: whole seconds and nanoseconds since the Unix epoch.
#[derive(Clone, Copy, Debug, PartialEq, Eq, Structural)]
pub struct Mtime {
    pub secs: u64,
    pub nanos: u32,
}

/// The change recorded on a node.
#[derive(Clone, Copy, Debug, PartialEq, Eq, Structural)]
pub enum Dirt {
    /// The node itself is unchanged but lies on the way to a changed node.
    PathDirt,
    /// The node was created or its modification time changed.
    Modified,
    /// The node and everything below it is gone from the filesystem.
    Deleted,
}

/// A named child of a directory node.
#[derive(Debug, PartialEq)]
pub struct Entry {
    pub name: Vec<u8>,
    pub node: TreeNode,
}

/// One filesystem entry. It is a directory exactly if `children` is `Some`.
#[derive(Debug, PartialEq)]
pub struct TreeNode {
    pub mtime: Mtime,
    pub dirt: Option<Dirt>,
    pub hash: Option<Vec<u8>>,
    /// The children of a directory, sorted by name. The names are those on
    /// disk: in the encrypted tree the names of files end in `.gpg`.
    pub children: Option<Vec<Entry>>,
}

/// The mathematical value of an [`Entry`].
pub ghost struct EntryView {
    pub name: Seq<u8>,
    pub node: NodeView,
}

/// The mathematical value of a [`TreeNode`].
pub ghost struct NodeView {
    pub mtime: Mtime,
    pub dirt: Option<Dirt>,
    pub hash: Option<Seq<u8>>,
    pub children: Option<Seq<EntryView>>,
}

impl View for Entry {
    type V = EntryView;

    open spec fn view(&self) -> EntryView {
        EntryView { name: self.name@, node: self.node.view() }
    }
}

/// The values of a list of entries, in the same order.
pub open spec fn entries_view(entries: Seq<Entry>) -> Seq<EntryView>
    decreases entries,
{
    Seq::new(
        entries.len(),
        |i: int|
            if 0 <= i < entries.len() {
                EntryView { name: entries[i].name@, node: entries[i].node.view() }
            } else {
                arbitrary()
            },
    )
}

impl View for TreeNode {
    type V = NodeView;

    open spec fn view(&self) -> NodeView
        decreases self,
    {
        NodeView {
            mtime: self.mtime,
            dirt: self.dirt,
            hash: match self.hash {
                Some(h) => Some(h@),
                None => None,
            },
            children: match self.children {
                Some(entries) => Some(entries_view(entries@)),
                None => None,
            },
        }
    }
}

/// The dirt of a node on the way to a changed node: at least `PathDirt`, and
/// never less than what the node already carries.
pub open spec fn lift(dirt: Option<Dirt>) -> Option<Dirt> {
    match dirt {
        Some(Dirt::Modified) => Some(Dirt::Modified),
        Some(Dirt::Deleted) => Some(Dirt::Deleted),
        _ => Some(Dirt::PathDirt),
    }
}

/// A node that a write creates on its way down: an empty directory, or a file.
pub open spec fn fresh(is_dir: bool, mtime: Mtime) -> NodeView {
    NodeView {
        mtime,
        dirt: Some(Dirt::PathDirt),
        hash: None,
        children: if is_dir {
            Some(Seq::empty())
        } else {
            None
        },
    }
}

impl NodeView {
    pub open spec fn is_dir(self) -> bool {
        self.children is Some
    }

    /// In every directory of the subtree the names are strictly increasing.
    pub open spec fn wf(self) -> bool
        decreases self,
    {
        match self.children {
            Some(cs) => names_sorted(cs) && forall|i: int|
                0 <= i < cs.len() ==> (#[trigger] cs[i]).node.wf(),
            None => true,
        }
    }

    /// The node that is reached from here along `segs`.
    pub open spec fn get(self, segs: Seq<Seq<u8>>) -> Option<NodeView>
        decreases segs.len(),
    {
        if segs.len() == 0 {
            Some(self)
        } else {
            match self.children {
                Some(cs) => match child(cs, segs[0]) {
                    Some(c) => c.get(segs.skip(1)),
                    None => None,
                },
                None => None,
            }
        }
    }

    /// The node above the one that is reached along `segs`: defined where
    /// `segs` is not empty and leads to a node.
    pub open spec fn parent_of(self, segs: Seq<Seq<u8>>) -> Option<NodeView> {
        if segs.len() > 0 && self.get(segs) is Some {
            self.get(segs.drop_last())
        } else {
            None
        }
    }

    /// A write along `segs` meets no file on its way down, and what it finds
    /// at the end, if anything, is of the kind that is written.
    pub open spec fn can_write(self, segs: Seq<Seq<u8>>, is_dir: bool) -> bool
        decreases segs.len(),
    {
        if segs.len() == 0 {
            self.is_dir() == is_dir
        } else {
            match self.children {
                Some(cs) => match child(cs, segs[0]) {
                    Some(c) => c.can_write(segs.skip(1), is_dir),
                    None => true,
                },
                None => false,
            }
        }
    }

    /// The subtree after a write along `segs`: the node at the end is
    /// `Modified`, the nodes above it are lifted to `PathDirt` at least, all of
    /// them carry `mtime`, and missing nodes are created.
    pub open spec fn write(self, segs: Seq<Seq<u8>>, is_dir: bool, mtime: Mtime) -> NodeView
        decreases segs.len(),
    {
        if segs.len() == 0 {
            NodeView { mtime, dirt: Some(Dirt::Modified), ..self }
        } else {
            let cs = match self.children {
                Some(cs) => cs,
                None => Seq::empty(),
            };
            let below = match child(cs, segs[0]) {
                Some(c) => c,
                None => fresh(segs.len() > 1 || is_dir, mtime),
            };
            NodeView {
                mtime,
                dirt: lift(self.dirt),
                children: Some(put(cs, segs[0], below.write(segs.skip(1), is_dir, mtime))),
                ..self
            }
        }
    }

    /// The subtree with every node `Deleted` and carrying `mtime`.
    pub open spec fn all_deleted(self, mtime: Mtime) -> NodeView
        decreases self,
    {
        NodeView {
            mtime,
            dirt: Some(Dirt::Deleted),
            hash: self.hash,
            children: match self.children {
                Some(cs) => Some(
                    Seq::new(
                        cs.len(),
                        |i: int|
                            if 0 <= i < cs.len() {
                                EntryView { name: cs[i].name, node: cs[i].node.all_deleted(mtime) }
                            } else {
                                arbitrary()
                            },
                    ),
                ),
                None => None,
            },
        }
    }

    /// The subtree after the node along `segs` was marked as deleted: that
    /// node and all below it are `Deleted`, the nodes above it are lifted to
    /// `PathDirt` at least, and all of them carry `mtime`.
    pub open spec fn mark_deleted(self, segs: Seq<Seq<u8>>, mtime: Mtime) -> NodeView
        decreases segs.len(),
    {
        if segs.len() == 0 {
            self.all_deleted(mtime)
        } else {
            match self.children {
                Some(cs) => match child(cs, segs[0]) {
                    Some(c) => NodeView {
                        mtime,
                        dirt: lift(self.dirt),
                        children: Some(put(cs, segs[0], c.mark_deleted(segs.skip(1), mtime))),
                        ..self
                    },
                    None => self,
                },
                None => self,
            }
        }
    }

    /// The subtree with all dirt cleared.
    pub open spec fn cleaned(self) -> NodeView
        decreases self,
    {
        NodeView {
            dirt: None,
            children: match self.children {
                Some(cs) => Some(
                    Seq::new(
                        cs.len(),
                        |i: int|
                            if 0 <= i < cs.len() {
                                EntryView { name: cs[i].name, node: cs[i].node.cleaned() }
                            } else {
                                arbitrary()
                            },
                    ),
                ),
                None => None,
            },
            ..self
        }
    }

    /// No node of the subtree carries dirt.
    pub open spec fn is_clean(self) -> bool
        decreases self,
    {
        &&& self.dirt is None
        &&& match self.children {
            Some(cs) => forall|i: int| 0 <= i < cs.len() ==> (#[trigger] cs[i]).node.is_clean(),
            None => true,
        }
    }

    /// Every node of the subtree is `Deleted`.
    pub open spec fn is_all_deleted(self) -> bool
        decreases self,
    {
        &&& self.dirt == Some(Dirt::Deleted)
        &&& match self.children {
            Some(cs) => forall|i: int| 0 <= i < cs.len() ==> (#[trigger] cs[i]).node.is_all_deleted(),
            None => true,
        }
    }

    /// The subtree without its deleted parts. The `Deleted` children of this
    /// node are dropped; where this node carries `PathDirt` the same is done
    /// in each child that is left.
    pub open spec fn pruned(self) -> NodeView
        decreases self,
    {
        match self.children {
            Some(cs) => NodeView {
                children: Some(
                    if self.dirt == Some(Dirt::PathDirt) {
                        live(pruned_entries(cs))
                    } else {
                        live(cs)
                    },
                ),
                ..self
            },
            None => self,
        }
    }
}

/// `cs` with every node pruned.
pub open spec fn pruned_entries(cs: Seq<EntryView>) -> Seq<EntryView>
    decreases cs,
{
    Seq::new(
        cs.len(),
        |i: int|
            if 0 <= i < cs.len() {
                EntryView { name: cs[i].name, node: cs[i].node.pruned() }
            } else {
                arbitrary()
            },
    )
}

/// An empty directory without dirt.
pub open spec fn empty_root(mtime: Mtime) -> NodeView {
    NodeView { mtime, dirt: None, hash: None, children: Some(Seq::empty()) }
}

/// Reads the system clock with `SystemTime::now` and hands back the time
/// since the Unix epoch, or `None` where the clock stands before the epoch.
/// Nothing is claimed of the time that comes back.
#[verifier::external_body]
fn system_time_now() -> Option<Mtime> {
    match std::time::SystemTime::now().duration_since(std::time::UNIX_EPOCH) {
        Ok(d) => Some(Mtime { secs: d.as_secs(), nanos: d.subsec_nanos() }),
        Err(_) => None,
    }
}

impl Mtime {
    /// The time `secs` seconds and `nanos` nanoseconds after the Unix epoch.
    pub fn new(secs: u64, nanos: u32) -> (t: Mtime)
        ensures
            t == (Mtime { secs, nanos }),
    {
        Mtime { secs, nanos }
    }

    /// The Unix epoch.
    pub fn epoch() -> (t: Mtime)
        ensures
            t == (Mtime { secs: 0, nanos: 0 }),
    {
        Mtime { secs: 0, nanos: 0 }
    }

    /// The whole seconds since the Unix epoch.
    pub fn as_secs(&self) -> (s: u64)
        ensures
            s == self.secs,
    {
        self.secs
    }
}

/// Lifts the dirt of a node that lies on the way to a changed node.
pub fn lift_dirt(dirt: Option<Dirt>) -> (r: Option<Dirt>)
    ensures
        r == lift(dirt),
{
    match dirt {
        Some(Dirt::Modified) => Some(Dirt::Modified),
        Some(Dirt::Deleted) => Some(Dirt::Deleted),
        _ => Some(Dirt::PathDirt),
    }
}

impl TreeNode {
    /// A file node.
    pub fn new_file(mtime: Mtime, dirt: Option<Dirt>, hash: Option<Vec<u8>>) -> (r: TreeNode)
        ensures
            r.mtime == mtime,
            r.dirt == dirt,
            r.hash == hash,
            r.children is None,
            r@.wf(),
    {
        TreeNode { mtime, dirt, hash, children: None }
    }

    /// A directory node that holds the given entries. The entries may come in
    /// any order; of two entries with one name the later one stays.
    pub fn new_dir(mtime: Mtime, dirt: Option<Dirt>, hash: Option<Vec<u8>>, children: Vec<Entry>) -> (r:
        TreeNode)
        ensures
            r.mtime == mtime,
            r.dirt == dirt,
            r.hash == hash,
            r@.children == Some(collect(entries_view(children@))),
            (forall|i: int| 0 <= i < children@.len() ==> (#[trigger] children@[i]).node@.wf()) ==> r@.wf(),
    {
        let ghost es = entries_view(children@);
        let mut sorted: Vec<Entry> = Vec::new();
        proof {
            assert(es.take(0) =~= Seq::<EntryView>::empty());
            assert(entries_view(sorted@) =~= collect(es.take(0)));
        }
        for e in it: children
            invariant
                es == entries_view(children@),
                names_sorted(entries_view(sorted@)),
                entries_view(sorted@) == collect(es.take(it.index() as int)),
        {
            proof {
                let i = it.index() as int;
                assert(es.take(i + 1).drop_last() =~= es.take(i));
                assert(es.take(i + 1).last() == es[i]);
            }
            put_entry(&mut sorted, e);
        }
        proof {
            assert(es.take(es.len() as int) =~= es);
            if forall|i: int| 0 <= i < children@.len() ==> (#[trigger] children@[i]).node@.wf() {
                assert forall|i: int| 0 <= i < es.len() implies (#[trigger] es[i]).node.wf() by {
                    assert(children@[i].node@.wf());
                }
                lemma_collect_wf(es);
            }
        }
        TreeNode { mtime, dirt, hash, children: Some(sorted) }
    }

    /// A node of the given kind as a write creates it on its way down.
    fn fresh_node(is_dir: bool, mtime: Mtime) -> (r: TreeNode)
        ensures
            r@ == fresh(is_dir, mtime),
    {
        let r = TreeNode {
            mtime,
            dirt: Some(Dirt::PathDirt),
            hash: None,
            children: if is_dir {
                Some(Vec::new())
            } else {
                None
            },
        };
        proof {
            if is_dir {
                assert(r@.children->0 =~= Seq::<EntryView>::empty());
            }
        }
        r
    }

    /// Whether the node is a directory.
    pub fn is_dir(&self) -> (r: bool)
        ensures
            r == self@.is_dir(),
    {
        self.children.is_some()
    }

    /// Whether the node is a file.
    pub fn is_file(&self) -> (r: bool)
        ensures
            r == !self@.is_dir(),
    {
        self.children.is_none()
    }

    /// The child called `name`, if the node is a directory that has one.
    pub fn child(&self, name: &[u8]) -> (r: Option<&TreeNode>)
        requires
            self@.wf(),
        ensures
            match r {
                Some(c) => self@.get(seq![name@]) == Some(c@),
                None => self@.get(seq![name@]) is None,
            },
    {
        proof {
            reveal_with_fuel(NodeView::get, 2);
            assert(seq![name@].skip(1) =~= Seq::<Seq<u8>>::empty());
        }
        match &self.children {
            Some(entries) => match find_entry(entries, name) {
                Some(i) => Some(&entries[i].node),
                None => None,
            },
            None => None,
        }
    }

    /// The node that is reached from this one along the first `upto`
    /// segments of `p`.
    fn get_prefix(&self, p: &SyncPath, upto: usize) -> (r: Option<&TreeNode>)
        requires
            self@.wf(),
            upto <= p.segments@.len(),
        ensures
            match r {
                Some(n) => self@.get(p.segs().take(upto as int)) == Some(n@) && n@.wf(),
                None => self@.get(p.segs().take(upto as int)) is None,
            },
    {
        let ghost segs = p.segs().take(upto as int);
        let mut n = self;
        let mut i: usize = 0;
        proof {
            assert(segs.skip(0) =~= segs);
        }
        while i < upto
            invariant
                i <= upto <= p.segments@.len(),
                segs == p.segs().take(upto as int),
                n@.wf(),
                self@.get(segs) == n@.get(segs.skip(i as int)),
            decreases upto - i,
        {
            proof {
                assert(segs.skip(i as int).skip(1) =~= segs.skip(i + 1));
                assert(segs.skip(i as int)[0] == p.segments@[i as int]@);
            }
            match &n.children {
                Some(entries) => match find_entry(entries, p.segments[i].as_slice()) {
                    Some(k) => {
                        n = &entries[k].node;
                    },
                    None => {
                        return None;
                    },
                },
                None => {
                    return None;
                },
            }
            i += 1;
        }
        Some(n)
    }

    /// The node that is reached from this one along `p`.
    pub fn get(&self, p: &SyncPath) -> (r: Option<&TreeNode>)
        requires
            self@.wf(),
        ensures
            match r {
                Some(n) => self@.get(p.segs()) == Some(n@) && n@.wf(),
                None => self@.get(p.segs()) is None,
            },
    {
        proof {
            assert(p.segs().take(p.segs().len() as int) =~= p.segs());
        }
        self.get_prefix(p, p.segments.len())
    }

    /// The node above the one that is reached along `p`, where `p` is not
    /// empty and leads to a node.
    pub fn get_parent_of(&self, p: &SyncPath) -> (r: Option<&TreeNode>)
        requires
            self@.wf(),
        ensures
            match r {
                Some(n) => self@.parent_of(p.segs()) == Some(n@) && n@.wf(),
                None => self@.parent_of(p.segs()) is None,
            },
    {
        let len = p.segments.len();
        if len == 0 {
            return None;
        }
        let ghost segs = p.segs();
        let ghost last = segs[len - 1];
        proof {
            assert(segs.take(len - 1) =~= segs.drop_last());
            assert(segs =~= segs.drop_last() + seq![last]);
            lemma_get_concat(self@, segs.drop_last(), seq![last]);
        }
        match self.get_prefix(p, len - 1) {
            Some(parent) => match parent.child(p.segments[len - 1].as_slice()) {
                Some(_) => Some(parent),
                None => None,
            },
            None => None,
        }
    }

    /// Whether a write along the segments of `path` from `from` on is
    /// possible.
    fn can_write_from(&self, path: &SyncPath, from: usize, is_dir: bool) -> (r: bool)
        requires
            from <= path.segments@.len(),
            self@.wf(),
        ensures
            r == self@.can_write(path.segs().skip(from as int), is_dir),
    {
        let mut n = self;
        let mut i: usize = from;
        while i < path.segments.len()
            invariant
                from <= i <= path.segments@.len(),
                n@.wf(),
                self@.can_write(path.segs().skip(from as int), is_dir) == n@.can_write(
                    path.segs().skip(i as int),
                    is_dir,
                ),
            decreases path.segments@.len() - i,
        {
            proof {
                assert(path.segs().skip(i as int).skip(1) =~= path.segs().skip(i + 1));
                assert(path.segs().skip(i as int)[0] == path.segments@[i as int]@);
            }
            match &n.children {
                Some(entries) => match find_entry(entries, path.segments[i].as_slice()) {
                    Some(k) => {
                        n = &entries[k].node;
                    },
                    None => {
                        return true;
                    },
                },
                None => {
                    return false;
                },
            }
            i += 1;
        }
        n.children.is_some() == is_dir
    }

    /// Writes the node that is reached along the segments of `path` from
    /// `from` on.
    fn write_from(&mut self, path: &SyncPath, from: usize, is_dir: bool, mtime: Mtime)
        requires
            from <= path.segments@.len(),
            old(self)@.wf(),
            old(self)@.can_write(path.segs().skip(from as int), is_dir),
        ensures
            final(self)@ == old(self)@.write(path.segs().skip(from as int), is_dir, mtime),
            final(self)@.wf(),
        decreases path.segments@.len() - from,
    {
        let ghost before = self@;
        let ghost segs = path.segs().skip(from as int);
        proof {
            lemma_write_wf(before, segs, is_dir, mtime);
        }
        self.mtime = mtime;
        if from == path.segments.len() {
            self.dirt = Some(Dirt::Modified);
        } else {
            self.dirt = lift_dirt(self.dirt);
            let name = &path.segments[from];
            proof {
                assert(segs.skip(1) =~= path.segs().skip(from + 1));
                assert(segs[0] == name@);
            }
            match &mut self.children {
                Some(entries) => {
                    let ghost cs = entries_view(entries@);
                    let r = match find_entry(entries, name.as_slice()) {
                        Some(r) => r,
                        None => {
                            let r = lower_bound(entries, name.as_slice());
                            let last = from + 1 == path.segments.len();
                            entries.insert(
                                r,
                                Entry { name: name.clone(), node: TreeNode::fresh_node(!last || is_dir, mtime) },
                            );
                            proof {
                                lemma_fresh_can_write(segs.skip(1), is_dir, mtime);
                            }
                            r
                        },
                    };
                    let ghost mid = entries_view(entries@);
                    proof {
                        let below = match child(cs, segs[0]) {
                            Some(c) => c,
                            None => fresh(segs.len() > 1 || is_dir, mtime),
                        };
                        assert(mid =~= put(cs, segs[0], below));
                        assert(mid[r as int].node == below);
                    }
                    entries[r].node.write_from(path, from + 1, is_dir, mtime);
                    proof {
                        let below = mid[r as int].node;
                        let after = entries_view(entries@);
                        assert(after =~= put(cs, segs[0], below.write(segs.skip(1), is_dir, mtime)));
                    }
                },
                None => {},
            }
        }
    }

    /// Marks this node and every node below it as deleted.
    pub fn delete_all(&mut self, mtime: Mtime)
        ensures
            final(self)@ == old(self)@.all_deleted(mtime),
    {
        let mut marker = crate::visit::MarkDeleted { mtime };
        proof {
            crate::visit::lemma_walk_mark_deleted(mtime, self@, crate::path::root_path());
        }
        self.dfs_preorder(&mut marker);
    }

    /// Marks the node that is reached along the segments of `path` from
    /// `from` on, and everything below it, as deleted.
    fn mark_deleted_from(&mut self, path: &SyncPath, from: usize, mtime: Mtime)
        requires
            from <= path.segments@.len(),
            old(self)@.wf(),
            old(self)@.get(path.segs().skip(from as int)) is Some,
        ensures
            final(self)@ == old(self)@.mark_deleted(path.segs().skip(from as int), mtime),
        decreases path.segments@.len() - from,
    {
        let ghost segs = path.segs().skip(from as int);
        if from == path.segments.len() {
            self.delete_all(mtime);
        } else {
            self.mtime = mtime;
            self.dirt = lift_dirt(self.dirt);
            let name = &path.segments[from];
            proof {
                assert(segs.skip(1) =~= path.segs().skip(from + 1));
                assert(segs[0] == name@);
            }
            match &mut self.children {
                Some(entries) => {
                    let ghost cs = entries_view(entries@);
                    match find_entry(entries, name.as_slice()) {
                        Some(r) => {
                            entries[r].node.mark_deleted_from(path, from + 1, mtime);
                            proof {
                                let below = cs[r as int].node;
                                let after = entries_view(entries@);
                                assert(after =~= put(cs, segs[0], below.mark_deleted(segs.skip(1), mtime)));
                            }
                        },
                        None => {},
                    }
                },
                None => {},
            }
        }
    }

    /// Clears the dirt of this node and of every node below it.
    pub fn clean(&mut self)
        ensures
            final(self)@ == old(self)@.cleaned(),
        decreases *old(self),
    {
        self.dirt = None;
        let ghost before = *old(self);
        match &mut self.children {
            Some(entries) => {
                let ghost first = *entries;
                let ghost cs = entries_view(entries@);
                let mut i: usize = 0;
                while i < entries.len()
                    invariant
                        i <= entries@.len(),
                        entries@.len() == first@.len(),
                        before == *old(self),
                        before.children == Some(first),
                        cs == entries_view(first@),
                        forall|k: int| i <= k < first@.len() ==> entries@[k] == first@[k],
                        forall|k: int|
                            0 <= k < i ==> (#[trigger] entries_view(entries@)[k]) == (EntryView {
                                name: cs[k].name,
                                node: cs[k].node.cleaned(),
                            }),
                    decreases entries@.len() - i,
                {
                    let ghost prev = entries@;
                    proof {
                        lemma_child_is_smaller(before, first, i as int);
                    }
                    entries[i].node.clean();
                    proof {
                        assert forall|k: int| 0 <= k < i + 1 implies (#[trigger] entries_view(entries@)[k]) == (
                        EntryView { name: cs[k].name, node: cs[k].node.cleaned() }) by {
                            if k < i {
                                assert(entries@[k] == prev[k]);
                                assert(entries_view(prev)[k] == entries_view(entries@)[k]);
                            }
                        }
                    }
                    i += 1;
                }
                proof {
                    assert(entries_view(entries@) =~= before@.cleaned().children->0);
                }
            },
            None => {},
        }
    }

    /// Removes the deleted parts of the subtree below this node. The
    /// `Deleted` children of this node are dropped; where this node carries
    /// `PathDirt` the same is done in each child that is left.
    pub fn prune(&mut self)
        ensures
            final(self)@ == old(self)@.pruned(),
        decreases *old(self),
    {
        let deep = match self.dirt {
            Some(Dirt::PathDirt) => true,
            _ => false,
        };
        let ghost before = *old(self);
        match self.children.take() {
            Some(entries) => {
                let ghost cs = entries_view(entries@);
                let ghost mapped = if deep {
                    pruned_entries(cs)
                } else {
                    cs
                };
                let mut kept: Vec<Entry> = Vec::new();
                proof {
                    assert(mapped.take(0) =~= Seq::<EntryView>::empty());
                    reveal(Seq::filter);
                    assert(entries_view(kept@) =~= live(mapped.take(0)));
                }
                for e in it: entries
                    invariant
                        before == *old(self),
                        before.children == Some(entries),
                        cs == entries_view(entries@),
                        mapped.len() == cs.len(),
                        forall|i: int|
                            0 <= i < cs.len() ==> #[trigger] mapped[i] == (if deep {
                                EntryView { name: cs[i].name, node: cs[i].node.pruned() }
                            } else {
                                cs[i]
                            }),
                        entries_view(kept@) == live(mapped.take(it.index() as int)),
                {
                    let ghost i = it.index() as int;
                    let ghost old_kept = entries_view(kept@);
                    let mut e = e;
                    proof {
                        assert(e == entries@[i]);
                        lemma_child_is_smaller(before, entries, i);
                        assert(mapped.take(i + 1) =~= mapped.take(i).push(mapped[i]));
                        lemma_live_push(mapped.take(i), mapped[i]);
                    }
                    let deleted = match e.node.dirt {
                        Some(Dirt::Deleted) => true,
                        _ => false,
                    };
                    if !deleted {
                        if deep {
                            e.node.prune();
                        }
                        kept.push(e);
                        proof {
                            assert(entries_view(kept@) =~= old_kept.push(mapped[i]));
                        }
                    }
                }
                proof {
                    assert(mapped.take(cs.len() as int) =~= mapped);
                }
                self.children = Some(kept);
            },
            None => {},
        }
    }

    /// A copy of this node and of everything below it.
    pub fn clone_node(&self) -> (r: TreeNode)
        ensures
            r@ == self@,
        decreases self,
    {
        let hash = match &self.hash {
            Some(h) => Some(h.clone()),
            None => None,
        };
        let children = match &self.children {
            Some(entries) => {
                let mut copies: Vec<Entry> = Vec::new();
                let mut i: usize = 0;
                while i < entries.len()
                    invariant
                        i <= entries@.len(),
                        self.children == Some(*entries),
                        copies@.len() == i,
                        forall|k: int| 0 <= k < i ==> (#[trigger] copies@[k])@ == entries@[k]@,
                    decreases entries@.len() - i,
                {
                    proof {
                        lemma_child_is_smaller(*self, *entries, i as int);
                    }
                    let e = &entries[i];
                    copies.push(Entry { name: e.name.clone(), node: e.node.clone_node() });
                    i += 1;
                }
                proof {
                    assert(entries_view(copies@) =~= entries_view(entries@));
                }
                Some(copies)
            },
            None => None,
        };
        TreeNode { mtime: self.mtime, dirt: self.dirt, hash, children }
    }
}

impl Clone for TreeNode {
    fn clone(&self) -> (r: TreeNode)
        ensures
            r@ == self@,
    {
        self.clone_node()
    }
}

impl Clone for Entry {
    fn clone(&self) -> (r: Entry)
        ensures
            r@ == self@,
    {
        Entry { name: self.name.clone(), node: self.node.clone_node() }
    }
}

/// The mirror of one directory tree. The root is always a directory.
#[derive(Debug, PartialEq)]
pub struct Tree {
    pub root: TreeNode,
}

impl View for Tree {
    type V = NodeView;

    open spec fn view(&self) -> NodeView {
        self.root@
    }
}

impl Tree {
    /// The root is a directory and the names of every directory are sorted.
    pub open spec fn wf(&self) -> bool {
        self@.wf() && self@.is_dir()
    }

    /// An empty tree whose root carries the time `time`.
    pub fn with_time(time: &Mtime) -> (t: Tree)
        ensures
            t@ == empty_root(*time),
            t.wf(),
    {
        let t = Tree { root: TreeNode { mtime: *time, dirt: None, hash: None, children: Some(Vec::new()) } };
        proof {
            assert(t@.children->0 =~= Seq::<EntryView>::empty());
        }
        t
    }

    /// An empty tree whose root carries the current time, or the Unix epoch
    /// where the system clock stands before it.
    pub fn new() -> (t: Tree)
        ensures
            exists|time: Mtime| t@ == empty_root(time),
            t.wf(),
    {
        let time = match system_time_now() {
            Some(time) => time,
            None => Mtime::epoch(),
        };
        Tree::with_time(&time)
    }

    /// Clears all dirt.
    pub fn clean(&mut self)
        ensures
            final(self)@ == old(self)@.cleaned(),
            final(self)@.is_clean(),
            dirt_closed(final(self)@),
            old(self).wf() ==> final(self).wf(),
    {
        proof {
            lemma_cleaned(self@);
            lemma_clean_closed(self@.cleaned());
        }
        self.root.clean();
    }

    /// Whether `path` can be written as a directory (`is_dir`) or as a file:
    /// no node on the way down is a file, and the node at `path`, if there is
    /// one, is of that kind.
    pub fn can_write(&self, path: &SyncPath, is_dir: bool) -> (r: bool)
        requires
            self.wf(),
        ensures
            r == self@.can_write(path.segs(), is_dir),
    {
        proof {
            assert(path.segs().skip(0) =~= path.segs());
        }
        self.root.can_write_from(path, 0, is_dir)
    }

    /// Records that `path` was created or changed at `mtime`. The node at
    /// `path` becomes `Modified`; the directories above it, which are created
    /// where they are missing, carry `PathDirt` unless they are `Modified` or
    /// `Deleted` already; all of them carry `mtime`.
    pub fn write(&mut self, path: &SyncPath, is_dir: bool, mtime: Mtime)
        requires
            old(self).wf(),
            old(self)@.can_write(path.segs(), is_dir),
        ensures
            final(self)@ == old(self)@.write(path.segs(), is_dir, mtime),
            final(self).wf(),
            dirt_closed(old(self)@) ==> dirt_closed(final(self)@),
    {
        proof {
            assert(path.segs().skip(0) =~= path.segs());
        }
        self.root.write_from(path, 0, is_dir, mtime);
        proof {
            lemma_write_is_dir(old(self)@, path.segs(), is_dir, mtime);
            if dirt_closed(old(self)@) {
                lemma_write_closed(old(self)@, path.segs(), is_dir, mtime);
            }
        }
    }

    /// Records that the node at `path` and all below it are gone. They become
    /// `Deleted`; the directories above carry `PathDirt` unless they are
    /// `Modified` or `Deleted` already; all of them carry `mtime`.
    pub fn mark_deleted(&mut self, path: &SyncPath, mtime: Mtime)
        requires
            old(self).wf(),
            old(self)@.get(path.segs()) is Some,
        ensures
            final(self)@ == old(self)@.mark_deleted(path.segs(), mtime),
            final(self).wf(),
            dirt_closed(old(self)@) ==> dirt_closed(final(self)@),
    {
        proof {
            assert(path.segs().skip(0) =~= path.segs());
            lemma_mark_deleted_wf(self@, path.segs(), mtime);
            if dirt_closed(self@) {
                lemma_mark_deleted_closed(self@, path.segs(), mtime);
            }
        }
        self.root.mark_deleted_from(path, 0, mtime);
    }

    /// Removes every subtree whose top node is `Deleted` and that is reached
    /// from the root through `PathDirt` nodes only.
    pub fn prune_deleted(&mut self)
        ensures
            final(self)@ == old(self)@.pruned(),
            old(self).wf() ==> final(self).wf(),
            dirt_closed(old(self)@) ==> dirt_closed(final(self)@),
    {
        proof {
            if self.wf() {
                lemma_pruned_wf(self@);
            }
            if dirt_closed(self@) {
                lemma_pruned_closed(self@);
            }
        }
        self.root.prune();
    }

    /// The node at `p`.
    pub fn get(&self, p: &SyncPath) -> (r: Option<&TreeNode>)
        requires
            self.wf(),
        ensures
            match r {
                Some(n) => self@.get(p.segs()) == Some(n@) && n@.wf(),
                None => self@.get(p.segs()) is None,
            },
    {
        self.root.get(p)
    }

    /// The node above `p`, but only where `p` is not empty and present.
    pub fn get_parent_of(&self, p: &SyncPath) -> (r: Option<&TreeNode>)
        requires
            self.wf(),
        ensures
            match r {
                Some(n) => self@.parent_of(p.segs()) == Some(n@) && n@.wf(),
                None => self@.parent_of(p.segs()) is None,
            },
    {
        self.root.get_parent_of(p)
    }
}

impl Clone for Tree {
    fn clone(&self) -> (r: Tree)
        ensures
            r@ == self@,
    {
        Tree { root: self.root.clone_node() }
    }
}

} // verus!
