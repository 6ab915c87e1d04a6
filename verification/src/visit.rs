//! Walking a tree with a visitor.
//!
//! A visitor is called once for each node that a walk reaches. It carries a
//! state of its own, which each call may change, and it is told the path of
//! the node relative to the node at which the walk began.

use vstd::prelude::*;
use crate::path::{root_path, PathView, SyncPath};
use crate::tree::{entries_view, Dirt, EntryView, Mtime, NodeView, TreeNode};
use crate::tree_lemmas::{lemma_child_is_smaller};

verus! {

/// A visitor that looks at the nodes of a tree, top down. Its answer at a
/// node says whether the walk goes on below that node.
pub trait Visit: View + Sized {
    /// The state of the visitor after it was called at `node`, and its
    /// answer.
    spec fn step(state: Self::V, node: NodeView, relpath: PathView) -> (Self::V, bool);

    /// Looks at `node`.
    fn enter(&mut self, node: &TreeNode, relpath: &SyncPath) -> (descend: bool)
        ensures
            (final(self)@, descend) == Self::step(old(self)@, node@, relpath@),
    ;
}

/// A visitor that may change the nodes of a tree: the time, the dirt and
/// the hash of a node, but not its children.
pub trait VisitMut: View + Sized {
    /// The state of the visitor after it was called at `node`, what it made
    /// of the node, and its answer.
    spec fn step_mut(state: Self::V, node: NodeView, relpath: PathView) -> (Self::V, NodeView, bool);

    /// Looks at `node` and changes it.
    fn enter_mut(&mut self, node: &mut TreeNode, relpath: &SyncPath) -> (descend: bool)
        ensures
            (final(self)@, final(node)@, descend) == Self::step_mut(old(self)@, old(node)@, relpath@),
            final(node).children == old(node).children,
    ;
}

/// The state of a visitor after a walk through the subtree `node`, which
/// stands at `relpath`: the visitor is called at `node` and then, where it
/// says so, the children of `node` are walked through in the order of their
/// names.
pub open spec fn walk<V: Visit>(state: V::V, node: NodeView, relpath: PathView) -> V::V
    decreases node, 1nat,
{
    let (next, descend) = V::step(state, node, relpath);
    if descend {
        match node.children {
            Some(cs) => walk_entries::<V>(next, cs, relpath),
            None => next,
        }
    } else {
        next
    }
}

/// The state of a visitor after a walk through the subtrees of the entries
/// `cs` of the directory at `relpath`, one after the other.
pub open spec fn walk_entries<V: Visit>(state: V::V, cs: Seq<EntryView>, relpath: PathView) -> V::V
    decreases cs, 0nat,
{
    if cs.len() == 0 {
        state
    } else {
        walk::<V>(
            walk_entries::<V>(state, cs.drop_last(), relpath),
            cs.last().node,
            relpath.push(cs.last().name),
        )
    }
}

/// The state of a visitor after a walk through the subtree `node` bottom
/// up: the children of `node` are walked through in the order of their
/// names, and then the visitor is called at `node`. Its answer is not looked
/// at.
pub open spec fn walk_up<V: Visit>(state: V::V, node: NodeView, relpath: PathView) -> V::V
    decreases node, 1nat,
{
    let below = match node.children {
        Some(cs) => walk_up_entries::<V>(state, cs, relpath),
        None => state,
    };
    V::step(below, node, relpath).0
}

/// The state of a visitor after a walk bottom up through the subtrees of
/// the entries `cs` of the directory at `relpath`, one after the other.
pub open spec fn walk_up_entries<V: Visit>(state: V::V, cs: Seq<EntryView>, relpath: PathView) -> V::V
    decreases cs, 0nat,
{
    if cs.len() == 0 {
        state
    } else {
        walk_up::<V>(
            walk_up_entries::<V>(state, cs.drop_last(), relpath),
            cs.last().node,
            relpath.push(cs.last().name),
        )
    }
}

/// The state of a visitor and the subtree after a walk through the subtree
/// `node` top down: the visitor is called at `node` and then, where it says
/// so, the children of `node` are walked through in the order of their
/// names.
pub open spec fn walk_mut<V: VisitMut>(state: V::V, node: NodeView, relpath: PathView) -> (V::V, NodeView)
    decreases node, 1nat,
{
    let (next, changed, descend) = V::step_mut(state, node, relpath);
    if descend {
        match node.children {
            Some(cs) => {
                let (last, below) = walk_mut_entries::<V>(next, cs, relpath);
                (last, NodeView { children: Some(below), ..changed })
            },
            None => (next, changed),
        }
    } else {
        (next, changed)
    }
}

/// The state of a visitor and the entries after a walk top down through the
/// subtrees of the entries `cs` of the directory at `relpath`.
pub open spec fn walk_mut_entries<V: VisitMut>(state: V::V, cs: Seq<EntryView>, relpath: PathView) -> (
    V::V,
    Seq<EntryView>,
)
    decreases cs, 0nat,
{
    if cs.len() == 0 {
        (state, Seq::empty())
    } else {
        let (mid, front) = walk_mut_entries::<V>(state, cs.drop_last(), relpath);
        let (last, node) = walk_mut::<V>(mid, cs.last().node, relpath.push(cs.last().name));
        (last, front.push(EntryView { name: cs.last().name, node }))
    }
}

/// The state of a visitor and the subtree after a walk through the subtree
/// `node` bottom up: the children of `node` are walked through, and then the
/// visitor is called at `node` as it is with its children walked through.
pub open spec fn walk_up_mut<V: VisitMut>(state: V::V, node: NodeView, relpath: PathView) -> (V::V, NodeView)
    decreases node, 1nat,
{
    match node.children {
        Some(cs) => {
            let (mid, below) = walk_up_mut_entries::<V>(state, cs, relpath);
            let (last, changed, _) = V::step_mut(mid, NodeView { children: Some(below), ..node }, relpath);
            (last, changed)
        },
        None => {
            let (last, changed, _) = V::step_mut(state, node, relpath);
            (last, changed)
        },
    }
}

/// The state of a visitor and the entries after a walk bottom up through
/// the subtrees of the entries `cs` of the directory at `relpath`.
pub open spec fn walk_up_mut_entries<V: VisitMut>(state: V::V, cs: Seq<EntryView>, relpath: PathView) -> (
    V::V,
    Seq<EntryView>,
)
    decreases cs, 0nat,
{
    if cs.len() == 0 {
        (state, Seq::empty())
    } else {
        let (mid, front) = walk_up_mut_entries::<V>(state, cs.drop_last(), relpath);
        let (last, node) = walk_up_mut::<V>(mid, cs.last().node, relpath.push(cs.last().name));
        (last, front.push(EntryView { name: cs.last().name, node }))
    }
}

impl TreeNode {
    /// Walks through the subtree top down with a visitor that may change
    /// the nodes. Where the visitor answers `false` the walk does not go
    /// below the node.
    pub fn dfs_preorder<V: VisitMut>(&mut self, fun: &mut V)
        ensures
            (final(fun)@, final(self)@) == walk_mut::<V>(old(fun)@, old(self)@, root_path()),
    {
        self.dfs_preorder_path_mut(fun);
    }

    /// Walks through the subtree top down. The visitor is called at each
    /// node with the path of the node relative to this node; where it
    /// answers `false` the walk does not go below the node.
    pub fn dfs_preorder_path<V: Visit>(&self, fun: &mut V)
        ensures
            final(fun)@ == walk::<V>(old(fun)@, self@, root_path()),
    {
        let mut relpath = SyncPath::new();
        self.dfs_preorder_path_impl(fun, &mut relpath);
    }

    /// Walks through the subtree top down, with `relpath` as the path of
    /// this node.
    pub fn dfs_preorder_path_impl<V: Visit>(&self, fun: &mut V, relpath: &mut SyncPath)
        ensures
            final(fun)@ == walk::<V>(old(fun)@, self@, old(relpath)@),
            final(relpath)@ == old(relpath)@,
        decreases self,
    {
        if fun.enter(self, relpath) {
            match &self.children {
                Some(entries) => {
                    let ghost cs = entries_view(entries@);
                    let ghost start = fun@;
                    let ghost at = relpath@;
                    let mut i: usize = 0;
                    proof {
                        assert(cs.take(0) =~= Seq::<EntryView>::empty());
                    }
                    while i < entries.len()
                        invariant
                            i <= entries@.len(),
                            self.children == Some(*entries),
                            cs == entries_view(entries@),
                            relpath@ == at,
                            fun@ == walk_entries::<V>(start, cs.take(i as int), at),
                        decreases entries@.len() - i,
                    {
                        proof {
                            assert(cs.take(i + 1).drop_last() =~= cs.take(i as int));
                            assert(cs.take(i + 1).last() == cs[i as int]);
                            lemma_child_is_smaller(*self, *entries, i as int);
                        }
                        relpath.push(entries[i].name.as_slice());
                        entries[i].node.dfs_preorder_path_impl(fun, relpath);
                        relpath.pop();
                        proof {
                            assert(relpath@.segments =~= at.segments);
                        }
                        i += 1;
                    }
                    proof {
                        assert(cs.take(cs.len() as int) =~= cs);
                    }
                },
                None => {},
            }
        }
    }

    /// Walks through the subtree top down with a visitor that may change
    /// the nodes. The visitor is told the path of each node relative to
    /// this node.
    pub fn dfs_preorder_path_mut<V: VisitMut>(&mut self, fun: &mut V)
        ensures
            (final(fun)@, final(self)@) == walk_mut::<V>(old(fun)@, old(self)@, root_path()),
    {
        let mut relpath = SyncPath::new();
        self.dfs_preorder_path_mut_impl(fun, &mut relpath);
    }

    /// Walks through the subtree top down with a visitor that may change
    /// the nodes, with `relpath` as the path of this node.
    pub fn dfs_preorder_path_mut_impl<V: VisitMut>(&mut self, fun: &mut V, relpath: &mut SyncPath)
        ensures
            (final(fun)@, final(self)@) == walk_mut::<V>(old(fun)@, old(self)@, old(relpath)@),
            final(relpath)@ == old(relpath)@,
        decreases *old(self),
    {
        let ghost before = *old(self);
        let ghost at = relpath@;
        let descend = fun.enter_mut(self, relpath);
        if descend {
            match &mut self.children {
                Some(entries) => {
                    let ghost first = *entries;
                    let ghost cs = entries_view(entries@);
                    let ghost start = fun@;
                    let mut i: usize = 0;
                    proof {
                        assert(cs.take(0) =~= Seq::<EntryView>::empty());
                        assert(entries_view(entries@).take(0) =~= Seq::<EntryView>::empty());
                    }
                    while i < entries.len()
                        invariant
                            i <= entries@.len(),
                            entries@.len() == first@.len(),
                            before == *old(self),
                            before.children == Some(first),
                            cs == entries_view(first@),
                            relpath@ == at,
                            forall|k: int| i <= k < first@.len() ==> entries@[k] == first@[k],
                            (fun@, entries_view(entries@).take(i as int)) == walk_mut_entries::<V>(
                                start,
                                cs.take(i as int),
                                at,
                            ),
                        decreases entries@.len() - i,
                    {
                        let ghost prev = entries_view(entries@);
                        proof {
                            assert(cs.take(i + 1).drop_last() =~= cs.take(i as int));
                            assert(cs.take(i + 1).last() == cs[i as int]);
                            lemma_child_is_smaller(before, first, i as int);
                            assert(entries@[i as int]@ == cs[i as int]);
                        }
                        relpath.push(entries[i].name.as_slice());
                        entries[i].node.dfs_preorder_path_mut_impl(fun, relpath);
                        relpath.pop();
                        proof {
                            assert(relpath@.segments =~= at.segments);
                            let now = entries_view(entries@);
                            assert(now.take(i + 1) =~= prev.take(i as int).push(now[i as int]));
                        }
                        i += 1;
                    }
                    proof {
                        assert(cs.take(cs.len() as int) =~= cs);
                        assert(entries_view(entries@).take(entries@.len() as int) =~= entries_view(entries@));
                    }
                },
                None => {},
            }
        }
    }

    /// Walks through the subtree bottom up. The visitor is called at each
    /// node, after the nodes below it, with the path of the node relative
    /// to this node. Its answer is not looked at.
    pub fn dfs_postorder<V: Visit>(&self, fun: &mut V)
        ensures
            final(fun)@ == walk_up::<V>(old(fun)@, self@, root_path()),
    {
        let mut relpath = SyncPath::new();
        self.dfs_postorder_impl(fun, &mut relpath);
    }

    /// Walks through the subtree bottom up, with `relpath` as the path of
    /// this node.
    fn dfs_postorder_impl<V: Visit>(&self, fun: &mut V, relpath: &mut SyncPath)
        ensures
            final(fun)@ == walk_up::<V>(old(fun)@, self@, old(relpath)@),
            final(relpath)@ == old(relpath)@,
        decreases self,
    {
        match &self.children {
            Some(entries) => {
                let ghost cs = entries_view(entries@);
                let ghost start = fun@;
                let ghost at = relpath@;
                let mut i: usize = 0;
                proof {
                    assert(cs.take(0) =~= Seq::<EntryView>::empty());
                }
                while i < entries.len()
                    invariant
                        i <= entries@.len(),
                        self.children == Some(*entries),
                        cs == entries_view(entries@),
                        relpath@ == at,
                        fun@ == walk_up_entries::<V>(start, cs.take(i as int), at),
                    decreases entries@.len() - i,
                {
                    proof {
                        assert(cs.take(i + 1).drop_last() =~= cs.take(i as int));
                        assert(cs.take(i + 1).last() == cs[i as int]);
                        lemma_child_is_smaller(*self, *entries, i as int);
                    }
                    relpath.push(entries[i].name.as_slice());
                    entries[i].node.dfs_postorder_impl(fun, relpath);
                    relpath.pop();
                    proof {
                        assert(relpath@.segments =~= at.segments);
                    }
                    i += 1;
                }
                proof {
                    assert(cs.take(cs.len() as int) =~= cs);
                }
            },
            None => {},
        }
        let _ = fun.enter(self, relpath);
    }

    /// Walks through the subtree bottom up with a visitor that may change
    /// the nodes. The visitor is called at each node after the nodes below
    /// it. Its answer is not looked at.
    pub fn dfs_postorder_mut<V: VisitMut>(&mut self, fun: &mut V)
        ensures
            (final(fun)@, final(self)@) == walk_up_mut::<V>(old(fun)@, old(self)@, root_path()),
    {
        let mut relpath = SyncPath::new();
        self.dfs_postorder_mut_impl(fun, &mut relpath);
    }

    /// Walks through the subtree bottom up with a visitor that may change
    /// the nodes, with `relpath` as the path of this node.
    fn dfs_postorder_mut_impl<V: VisitMut>(&mut self, fun: &mut V, relpath: &mut SyncPath)
        ensures
            (final(fun)@, final(self)@) == walk_up_mut::<V>(old(fun)@, old(self)@, old(relpath)@),
            final(relpath)@ == old(relpath)@,
        decreases *old(self),
    {
        let ghost before = *old(self);
        let ghost at = relpath@;
        match &mut self.children {
            Some(entries) => {
                let ghost first = *entries;
                let ghost cs = entries_view(entries@);
                let ghost start = fun@;
                let mut i: usize = 0;
                proof {
                    assert(cs.take(0) =~= Seq::<EntryView>::empty());
                    assert(entries_view(entries@).take(0) =~= Seq::<EntryView>::empty());
                }
                while i < entries.len()
                    invariant
                        i <= entries@.len(),
                        entries@.len() == first@.len(),
                        before == *old(self),
                        before.children == Some(first),
                        cs == entries_view(first@),
                        relpath@ == at,
                        forall|k: int| i <= k < first@.len() ==> entries@[k] == first@[k],
                        (fun@, entries_view(entries@).take(i as int)) == walk_up_mut_entries::<V>(
                            start,
                            cs.take(i as int),
                            at,
                        ),
                    decreases entries@.len() - i,
                {
                    let ghost prev = entries_view(entries@);
                    proof {
                        assert(cs.take(i + 1).drop_last() =~= cs.take(i as int));
                        assert(cs.take(i + 1).last() == cs[i as int]);
                        lemma_child_is_smaller(before, first, i as int);
                        assert(entries@[i as int]@ == cs[i as int]);
                    }
                    relpath.push(entries[i].name.as_slice());
                    entries[i].node.dfs_postorder_mut_impl(fun, relpath);
                    relpath.pop();
                    proof {
                        assert(relpath@.segments =~= at.segments);
                        let now = entries_view(entries@);
                        assert(now.take(i + 1) =~= prev.take(i as int).push(now[i as int]));
                    }
                    i += 1;
                }
                proof {
                    assert(cs.take(cs.len() as int) =~= cs);
                    assert(entries_view(entries@).take(entries@.len() as int) =~= entries_view(entries@));
                }
            },
            None => {},
        }
        let _ = fun.enter_mut(self, relpath);
    }
}

/// The visitor that marks every node it is called at as deleted at a given
/// time.
pub struct MarkDeleted {
    pub mtime: Mtime,
}

impl View for MarkDeleted {
    type V = Mtime;

    open spec fn view(&self) -> Mtime {
        self.mtime
    }
}

impl VisitMut for MarkDeleted {
    open spec fn step_mut(state: Mtime, node: NodeView, relpath: PathView) -> (Mtime, NodeView, bool) {
        (state, NodeView { mtime: state, dirt: Some(Dirt::Deleted), ..node }, true)
    }

    fn enter_mut(&mut self, node: &mut TreeNode, relpath: &SyncPath) -> (descend: bool) {
        node.mtime = self.mtime;
        node.dirt = Some(Dirt::Deleted);
        true
    }
}

/// A walk with [`MarkDeleted`] leaves every node of the subtree `Deleted`,
/// with the time of the visitor.
pub proof fn lemma_walk_mark_deleted(mtime: Mtime, node: NodeView, relpath: PathView)
    ensures
        walk_mut::<MarkDeleted>(mtime, node, relpath) == (mtime, node.all_deleted(mtime)),
    decreases node, 1nat,
{
    match node.children {
        Some(cs) => {
            lemma_walk_mark_deleted_entries(mtime, cs, relpath);
            assert(walk_mut_entries::<MarkDeleted>(mtime, cs, relpath).1 =~= node.all_deleted(mtime).children->0);
        },
        None => {},
    }
}

/// A walk with [`MarkDeleted`] through a list of entries leaves every node
/// of each entry `Deleted`.
pub proof fn lemma_walk_mark_deleted_entries(mtime: Mtime, cs: Seq<EntryView>, relpath: PathView)
    ensures
        walk_mut_entries::<MarkDeleted>(mtime, cs, relpath).0 == mtime,
        walk_mut_entries::<MarkDeleted>(mtime, cs, relpath).1.len() == cs.len(),
        forall|i: int|
            0 <= i < cs.len() ==> #[trigger] walk_mut_entries::<MarkDeleted>(mtime, cs, relpath).1[i] == (
            EntryView { name: cs[i].name, node: cs[i].node.all_deleted(mtime) }),
    decreases cs, 0nat,
{
    if cs.len() > 0 {
        let front = cs.drop_last();
        lemma_walk_mark_deleted_entries(mtime, front, relpath);
        lemma_walk_mark_deleted(mtime, cs.last().node, relpath.push(cs.last().name));
        let out = walk_mut_entries::<MarkDeleted>(mtime, cs, relpath).1;
        let out_front = walk_mut_entries::<MarkDeleted>(mtime, front, relpath).1;
        assert forall|i: int| 0 <= i < cs.len() implies #[trigger] out[i] == (EntryView {
            name: cs[i].name,
            node: cs[i].node.all_deleted(mtime),
        }) by {
            if i < cs.len() - 1 {
                assert(out[i] == out_front[i]);
                assert(front[i] == cs[i]);
            }
        }
    }
}

} // verus!
