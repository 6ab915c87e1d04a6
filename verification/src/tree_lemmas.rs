//! What holds of the operations on a tree, whatever the tree and the path.

use vstd::prelude::*;
use crate::entries::{
    child, has_child, lemma_live_sorted, lemma_put, lemma_put_wf, lemma_rank_bounds, live, put, rank,
};
use crate::order::bytes_lt;
use crate::tree::{fresh, lift, pruned_entries, Dirt, Entry, EntryView, Mtime, NodeView, TreeNode};

verus! {

/// A child of a directory node is structurally smaller than the node.
pub proof fn lemma_child_is_smaller(node: TreeNode, entries: Vec<Entry>, i: int)
    requires
        node.children == Some(entries),
        0 <= i < entries@.len(),
    ensures
        decreases_to!(node => entries@[i].node),
{
    assert(decreases_to!(entries => entries[i]));
    assert(decreases_to!(node => node.children));
    assert(node.children->0 == entries);
    assert(decreases_to!(node.children => node.children->0));
    assert(decreases_to!(entries[i] => entries[i].node));
}

/// Walking along `a` and then along `b` is walking along `a + b`.
pub proof fn lemma_get_concat(node: NodeView, a: Seq<Seq<u8>>, b: Seq<Seq<u8>>)
    ensures
        node.get(a + b) == match node.get(a) {
            Some(m) => m.get(b),
            None => None,
        },
    decreases a.len(),
{
    if a.len() == 0 {
        assert(a + b =~= b);
    } else {
        assert((a + b)[0] == a[0]);
        assert((a + b).skip(1) =~= a.skip(1) + b);
        match node.children {
            Some(cs) => match child(cs, a[0]) {
                Some(c) => {
                    lemma_get_concat(c, a.skip(1), b);
                },
                None => {},
            },
            None => {},
        }
    }
}

/// A freshly created node has no children, so anything can be written below it.
pub proof fn lemma_fresh_can_write(segs: Seq<Seq<u8>>, is_dir: bool, mtime: Mtime)
    ensures
        fresh(segs.len() > 0 || is_dir, mtime).can_write(segs, is_dir),
        fresh(segs.len() > 0 || is_dir, mtime).wf(),
{
    let f = fresh(segs.len() > 0 || is_dir, mtime);
    if segs.len() > 0 {
        assert(child(Seq::<EntryView>::empty(), segs[0]) is None);
    }
}

/// A write keeps the names of every directory sorted.
pub proof fn lemma_write_wf(node: NodeView, segs: Seq<Seq<u8>>, is_dir: bool, mtime: Mtime)
    requires
        node.wf(),
        node.can_write(segs, is_dir),
    ensures
        node.write(segs, is_dir, mtime).wf(),
    decreases segs.len(),
{
    if segs.len() > 0 {
        let cs = node.children->0;
        let rest = segs.skip(1);
        let below = match child(cs, segs[0]) {
            Some(c) => c,
            None => fresh(segs.len() > 1 || is_dir, mtime),
        };
        lemma_rank_bounds(cs, segs[0]);
        if has_child(cs, segs[0]) {
            assert(below == cs[rank(cs, segs[0])].node);
        } else {
            lemma_fresh_can_write(rest, is_dir, mtime);
        }
        lemma_write_wf(below, rest, is_dir, mtime);
        let written = below.write(rest, is_dir, mtime);
        lemma_put(cs, segs[0], written, segs[0]);
        lemma_put_wf(cs, segs[0], written);
    }
}

/// A write leaves a directory a directory and a file a file.
pub proof fn lemma_write_is_dir(node: NodeView, segs: Seq<Seq<u8>>, is_dir: bool, mtime: Mtime)
    requires
        node.can_write(segs, is_dir),
    ensures
        node.write(segs, is_dir, mtime).is_dir() == node.is_dir(),
{
}

/// Marking a subtree as deleted keeps it well-formed and leaves every node of
/// it `Deleted`.
pub proof fn lemma_all_deleted(node: NodeView, mtime: Mtime)
    requires
        node.wf(),
    ensures
        node.all_deleted(mtime).wf(),
        node.all_deleted(mtime).is_all_deleted(),
        node.all_deleted(mtime).is_dir() == node.is_dir(),
    decreases node,
{
    match node.children {
        Some(cs) => {
            let out = node.all_deleted(mtime).children->0;
            assert forall|i: int| 0 <= i < out.len() implies (#[trigger] out[i]).node.wf()
                && out[i].node.is_all_deleted() by {
                lemma_all_deleted(cs[i].node, mtime);
            }
            assert forall|i: int, j: int| 0 <= i < j < out.len() implies bytes_lt(
                #[trigger] out[i].name,
                #[trigger] out[j].name,
            ) by {
                assert(out[i].name == cs[i].name && out[j].name == cs[j].name);
            }
        },
        None => {},
    }
}

/// Marking a node as deleted keeps the tree well-formed.
pub proof fn lemma_mark_deleted_wf(node: NodeView, segs: Seq<Seq<u8>>, mtime: Mtime)
    requires
        node.wf(),
    ensures
        node.mark_deleted(segs, mtime).wf(),
        node.mark_deleted(segs, mtime).is_dir() == node.is_dir(),
    decreases segs.len(),
{
    if segs.len() == 0 {
        lemma_all_deleted(node, mtime);
    } else {
        match node.children {
            Some(cs) => {
                lemma_rank_bounds(cs, segs[0]);
                match child(cs, segs[0]) {
                    Some(c) => {
                        assert(c == cs[rank(cs, segs[0])].node);
                        lemma_mark_deleted_wf(c, segs.skip(1), mtime);
                        let marked = c.mark_deleted(segs.skip(1), mtime);
                        lemma_put(cs, segs[0], marked, segs[0]);
                        lemma_put_wf(cs, segs[0], marked);
                    },
                    None => {},
                }
            },
            None => {},
        }
    }
}

/// Cleaning keeps the tree well-formed and leaves no dirt.
pub proof fn lemma_cleaned(node: NodeView)
    ensures
        node.cleaned().is_clean(),
        node.wf() ==> node.cleaned().wf(),
        node.cleaned().is_dir() == node.is_dir(),
    decreases node,
{
    match node.children {
        Some(cs) => {
            let out = node.cleaned().children->0;
            assert forall|i: int| 0 <= i < out.len() implies (#[trigger] out[i]).node.is_clean() && (node.wf()
                ==> out[i].node.wf()) by {
                lemma_cleaned(cs[i].node);
            }
            if node.wf() {
                assert forall|i: int, j: int| 0 <= i < j < out.len() implies bytes_lt(
                    #[trigger] out[i].name,
                    #[trigger] out[j].name,
                ) by {
                    assert(out[i].name == cs[i].name && out[j].name == cs[j].name);
                }
            }
        },
        None => {},
    }
}

/// Pruning keeps the tree well-formed.
pub proof fn lemma_pruned_wf(node: NodeView)
    requires
        node.wf(),
    ensures
        node.pruned().wf(),
        node.pruned().is_dir() == node.is_dir(),
    decreases node,
{
    match node.children {
        Some(cs) => {
            let mapped = if node.dirt == Some(Dirt::PathDirt) {
                pruned_entries(cs)
            } else {
                cs
            };
            assert forall|i: int| 0 <= i < mapped.len() implies (#[trigger] mapped[i]).node.wf() by {
                if node.dirt == Some(Dirt::PathDirt) {
                    lemma_pruned_wf(cs[i].node);
                }
            }
            assert forall|i: int, j: int| 0 <= i < j < mapped.len() implies bytes_lt(
                #[trigger] mapped[i].name,
                #[trigger] mapped[j].name,
            ) by {
                assert(mapped[i].name == cs[i].name && mapped[j].name == cs[j].name);
            }
            lemma_live_sorted(mapped);
            let out = live(mapped);
            assert forall|i: int| 0 <= i < out.len() implies (#[trigger] out[i]).node.wf() by {
                assert(mapped.contains(out[i]));
                let j = choose|j: int| 0 <= j < mapped.len() && mapped[j] == out[i];
                assert(mapped[j].node.wf());
            }
        },
        None => {},
    }
}

/// Where a path leads to a node, each of its prefixes leads to a node.
pub proof fn lemma_get_prefix_present(tree: NodeView, p: Seq<Seq<u8>>, k: int)
    requires
        tree.get(p) is Some,
        0 <= k <= p.len(),
    ensures
        tree.get(p.take(k)) is Some,
{
    assert(p =~= p.take(k) + p.skip(k));
    lemma_get_concat(tree, p.take(k), p.skip(k));
}

/// The node above a path exists exactly where the path is not empty and leads
/// to a node.
pub proof fn lemma_parent_iff_present(tree: NodeView, p: Seq<Seq<u8>>)
    ensures
        tree.parent_of(p) is Some <==> (tree.get(p) is Some && p.len() > 0),
{
    if tree.get(p) is Some && p.len() > 0 {
        lemma_get_prefix_present(tree, p, p.len() - 1);
        assert(p.take(p.len() - 1) =~= p.drop_last());
    }
}

/// The dirt that the node at `p` carries, `None` where there is no such node.
pub open spec fn dirt_at(tree: NodeView, p: Seq<Seq<u8>>) -> Option<Dirt> {
    match tree.get(p) {
        Some(n) => n.dirt,
        None => None,
    }
}

/// After a write to `p` the node at `p` is `Modified`, is of the kind that was
/// written and carries the new time. Every node strictly above `p` carries the
/// new time and the dirt it had before, lifted to `PathDirt` at least.
pub proof fn lemma_write_marks_path(tree: NodeView, p: Seq<Seq<u8>>, is_dir: bool, mtime: Mtime, k: int)
    requires
        tree.wf(),
        tree.can_write(p, is_dir),
        0 <= k <= p.len(),
    ensures
        tree.write(p, is_dir, mtime).get(p.take(k)) is Some,
        tree.write(p, is_dir, mtime).get(p.take(k))->0.mtime == mtime,
        k == p.len() ==> {
            &&& tree.write(p, is_dir, mtime).get(p.take(k))->0.dirt == Some(Dirt::Modified)
            &&& tree.write(p, is_dir, mtime).get(p.take(k))->0.is_dir() == is_dir
        },
        k < p.len() ==> {
            &&& tree.write(p, is_dir, mtime).get(p.take(k))->0.dirt == lift(dirt_at(tree, p.take(k)))
            &&& tree.write(p, is_dir, mtime).get(p.take(k))->0.is_dir()
        },
    decreases p.len(),
{
    let w = tree.write(p, is_dir, mtime);
    if k == 0 {
        assert(p.take(0) =~= Seq::<Seq<u8>>::empty());
    } else {
        let cs = tree.children->0;
        let rest = p.skip(1);
        lemma_rank_bounds(cs, p[0]);
        let below = match child(cs, p[0]) {
            Some(c) => c,
            None => fresh(p.len() > 1 || is_dir, mtime),
        };
        if has_child(cs, p[0]) {
            assert(below == cs[rank(cs, p[0])].node);
        } else {
            lemma_fresh_can_write(rest, is_dir, mtime);
        }
        lemma_write_marks_path(below, rest, is_dir, mtime, k - 1);
        lemma_put(cs, p[0], below.write(rest, is_dir, mtime), p[0]);
        assert(p.take(k)[0] == p[0]);
        assert(p.take(k).skip(1) =~= rest.take(k - 1));
        if k < p.len() && !has_child(cs, p[0]) {
            // The node was created by this write: it carried nothing before.
            lemma_get_fresh(rest.take(k - 1), p.len() > 1 || is_dir, mtime);
        }
    }
}

/// Below a freshly created node there is nothing but the node itself, which
/// carries `PathDirt`.
pub proof fn lemma_get_fresh(q: Seq<Seq<u8>>, is_dir: bool, mtime: Mtime)
    ensures
        lift(dirt_at(fresh(is_dir, mtime), q)) == Some(Dirt::PathDirt),
{
    if q.len() > 0 {
        if is_dir {
            assert(child(Seq::<EntryView>::empty(), q[0]) is None);
        }
    }
}

/// After a write to `p` the node at `p` carries `Modified` and the new time,
/// and every node strictly above `p` that was not `Modified` or `Deleted`
/// before carries `PathDirt`.
pub proof fn lemma_write_leaves_path_dirt(tree: NodeView, p: Seq<Seq<u8>>, is_dir: bool, mtime: Mtime)
    requires
        tree.wf(),
        tree.can_write(p, is_dir),
    ensures
        tree.write(p, is_dir, mtime).get(p) is Some,
        tree.write(p, is_dir, mtime).get(p)->0.dirt == Some(Dirt::Modified),
        tree.write(p, is_dir, mtime).get(p)->0.mtime == mtime,
        forall|k: int|
            0 <= k < p.len() && dirt_at(tree, p.take(k)) != Some(Dirt::Modified) && dirt_at(tree, p.take(k))
                != Some(Dirt::Deleted) ==> dirt_at(tree.write(p, is_dir, mtime), #[trigger] p.take(k)) == Some(
                Dirt::PathDirt,
            ),
        forall|k: int|
            0 <= k < p.len() ==> dirt_at(tree.write(p, is_dir, mtime), #[trigger] p.take(k)) is Some,
{
    lemma_write_marks_path(tree, p, is_dir, mtime, p.len() as int);
    assert(p.take(p.len() as int) =~= p);
    assert forall|k: int| 0 <= k < p.len() implies dirt_at(tree.write(p, is_dir, mtime), #[trigger] p.take(k))
        == lift(dirt_at(tree, p.take(k))) by {
        lemma_write_marks_path(tree, p, is_dir, mtime, k);
    }
}

/// In a subtree that is deleted throughout, every node that a path leads to
/// is `Deleted`.
pub proof fn lemma_all_deleted_get(node: NodeView, q: Seq<Seq<u8>>)
    requires
        node.is_all_deleted(),
        node.get(q) is Some,
    ensures
        node.get(q)->0.dirt == Some(Dirt::Deleted),
        node.get(q)->0.is_all_deleted(),
    decreases q.len(),
{
    if q.len() > 0 {
        let cs = node.children->0;
        lemma_rank_bounds(cs, q[0]);
        let c = cs[rank(cs, q[0])].node;
        assert(c.is_all_deleted());
        lemma_all_deleted_get(c, q.skip(1));
    }
}

/// After the node at `p` was marked as deleted, every node of the subtree at
/// `p` is `Deleted`: the node at `p` and each node that a path through `p`
/// leads to.
pub proof fn lemma_mark_deleted_marks_subtree(tree: NodeView, p: Seq<Seq<u8>>, mtime: Mtime, q: Seq<Seq<u8>>)
    requires
        tree.wf(),
        tree.get(p) is Some,
    ensures
        tree.mark_deleted(p, mtime).get(p) is Some,
        tree.mark_deleted(p, mtime).get(p)->0.is_all_deleted(),
        tree.mark_deleted(p, mtime).get(p + q) is Some ==> tree.mark_deleted(p, mtime).get(p + q)->0.dirt
            == Some(Dirt::Deleted),
    decreases p.len(),
{
    let m = tree.mark_deleted(p, mtime);
    if p.len() == 0 {
        lemma_all_deleted(tree, mtime);
    } else {
        let cs = tree.children->0;
        lemma_rank_bounds(cs, p[0]);
        let c = cs[rank(cs, p[0])].node;
        lemma_mark_deleted_marks_subtree(c, p.skip(1), mtime, q);
        lemma_put(cs, p[0], c.mark_deleted(p.skip(1), mtime), p[0]);
    }
    lemma_get_concat(m, p, q);
    if m.get(p + q) is Some {
        lemma_all_deleted_get(m.get(p)->0, q);
    }
}

/// In a tree without dirt no node that a path leads to carries dirt.
pub proof fn lemma_clean_get(node: NodeView, q: Seq<Seq<u8>>)
    requires
        node.is_clean(),
        node.get(q) is Some,
    ensures
        node.get(q)->0.dirt is None,
        node.get(q)->0.is_clean(),
    decreases q.len(),
{
    if q.len() > 0 {
        let cs = node.children->0;
        lemma_rank_bounds(cs, q[0]);
        let c = cs[rank(cs, q[0])].node;
        assert(c.is_clean());
        lemma_clean_get(c, q.skip(1));
    }
}

/// A tree without dirt is what cleaning makes of it.
pub proof fn lemma_cleaned_of_clean(node: NodeView)
    requires
        node.is_clean(),
    ensures
        node.cleaned() == node,
    decreases node,
{
    match node.children {
        Some(cs) => {
            let out = node.cleaned().children->0;
            assert forall|i: int| 0 <= i < cs.len() implies #[trigger] out[i] == cs[i] by {
                assert(cs[i].node.is_clean());
                lemma_cleaned_of_clean(cs[i].node);
            }
            assert(out =~= cs);
        },
        None => {},
    }
}

/// Cleaning twice is cleaning once, and after cleaning no node carries dirt.
pub proof fn lemma_clean_idempotent(tree: NodeView, q: Seq<Seq<u8>>)
    ensures
        tree.cleaned().cleaned() == tree.cleaned(),
        tree.cleaned().is_clean(),
        tree.cleaned().get(q) is Some ==> tree.cleaned().get(q)->0.dirt is None,
{
    lemma_cleaned(tree);
    lemma_cleaned_of_clean(tree.cleaned());
    if tree.cleaned().get(q) is Some {
        lemma_clean_get(tree.cleaned(), q);
    }
}

/// Dirt reaches up to the top: in every directory of the subtree that holds a
/// child with dirt, the directory carries dirt itself. So wherever a node
/// carries dirt, each node above it carries `PathDirt` at least.
pub open spec fn dirt_closed(node: NodeView) -> bool
    decreases node,
{
    match node.children {
        Some(cs) => forall|i: int|
            0 <= i < cs.len() ==> ((#[trigger] cs[i]).node.dirt is Some ==> node.dirt is Some) && dirt_closed(
                cs[i].node,
            ),
        None => true,
    }
}

/// Every node of `cs` is closed under dirt, and carries no dirt unless
/// `above` allows it.
pub open spec fn entries_closed(cs: Seq<EntryView>, above: bool) -> bool {
    forall|i: int| 0 <= i < cs.len() ==> ((#[trigger] cs[i]).node.dirt is Some ==> above) && dirt_closed(cs[i].node)
}

/// Storing a node keeps a list of entries closed under dirt.
pub proof fn lemma_put_closed(cs: Seq<EntryView>, name: Seq<u8>, node: NodeView, above: bool)
    requires
        entries_closed(cs, above),
        dirt_closed(node),
        node.dirt is Some ==> above,
    ensures
        entries_closed(put(cs, name, node), above),
{
    lemma_rank_bounds(cs, name);
    let r = rank(cs, name);
    let out = put(cs, name, node);
    assert forall|i: int| 0 <= i < out.len() implies ((#[trigger] out[i]).node.dirt is Some ==> above)
        && dirt_closed(out[i].node) by {
        if has_child(cs, name) {
            if i != r {
                assert(out[i] == cs[i]);
            }
        } else {
            if i < r {
                assert(out[i] == cs[i]);
            } else if i > r {
                assert(out[i] == cs[i - 1]);
            }
        }
    }
}

/// Where a node carries dirt in a tree that is closed under dirt, every node
/// above it carries dirt.
pub proof fn lemma_dirt_reaches_up(tree: NodeView, p: Seq<Seq<u8>>, k: int)
    requires
        dirt_closed(tree),
        tree.get(p) is Some,
        tree.get(p)->0.dirt is Some,
        0 <= k <= p.len(),
    ensures
        tree.get(p.take(k)) is Some,
        tree.get(p.take(k))->0.dirt is Some,
    decreases p.len(),
{
    if k == 0 {
        assert(p.take(0) =~= Seq::<Seq<u8>>::empty());
        if p.len() > 0 {
            let cs = tree.children->0;
            lemma_rank_bounds(cs, p[0]);
            let c = cs[rank(cs, p[0])].node;
            lemma_dirt_reaches_up(c, p.skip(1), 0);
            assert(p.skip(1).take(0) =~= Seq::<Seq<u8>>::empty());
        }
    } else {
        let cs = tree.children->0;
        lemma_rank_bounds(cs, p[0]);
        let c = cs[rank(cs, p[0])].node;
        lemma_dirt_reaches_up(c, p.skip(1), k - 1);
        assert(p.take(k)[0] == p[0]);
        assert(p.take(k).skip(1) =~= p.skip(1).take(k - 1));
    }
}

/// A write keeps the tree closed under dirt.
pub proof fn lemma_write_closed(tree: NodeView, p: Seq<Seq<u8>>, is_dir: bool, mtime: Mtime)
    requires
        dirt_closed(tree),
        tree.can_write(p, is_dir),
    ensures
        dirt_closed(tree.write(p, is_dir, mtime)),
        tree.write(p, is_dir, mtime).dirt is Some,
    decreases p.len(),
{
    if p.len() > 0 {
        let cs = tree.children->0;
        lemma_rank_bounds(cs, p[0]);
        let below = match child(cs, p[0]) {
            Some(c) => c,
            None => fresh(p.len() > 1 || is_dir, mtime),
        };
        if has_child(cs, p[0]) {
            assert(below == cs[rank(cs, p[0])].node);
        } else {
            lemma_fresh_can_write(p.skip(1), is_dir, mtime);
        }
        lemma_write_closed(below, p.skip(1), is_dir, mtime);
        assert(entries_closed(cs, true));
        lemma_put_closed(cs, p[0], below.write(p.skip(1), is_dir, mtime), true);
    }
}

/// A subtree that is deleted throughout is closed under dirt.
pub proof fn lemma_all_deleted_closed(node: NodeView, mtime: Mtime)
    ensures
        dirt_closed(node.all_deleted(mtime)),
    decreases node,
{
    match node.children {
        Some(cs) => {
            let out = node.all_deleted(mtime).children->0;
            assert forall|i: int| 0 <= i < out.len() implies dirt_closed((#[trigger] out[i]).node) by {
                lemma_all_deleted_closed(cs[i].node, mtime);
            }
        },
        None => {},
    }
}

/// Marking a node as deleted keeps the tree closed under dirt.
pub proof fn lemma_mark_deleted_closed(tree: NodeView, p: Seq<Seq<u8>>, mtime: Mtime)
    requires
        dirt_closed(tree),
        tree.get(p) is Some,
    ensures
        dirt_closed(tree.mark_deleted(p, mtime)),
        tree.mark_deleted(p, mtime).dirt is Some,
    decreases p.len(),
{
    if p.len() == 0 {
        lemma_all_deleted_closed(tree, mtime);
    } else {
        let cs = tree.children->0;
        lemma_rank_bounds(cs, p[0]);
        let c = cs[rank(cs, p[0])].node;
        lemma_mark_deleted_closed(c, p.skip(1), mtime);
        assert(entries_closed(cs, true));
        lemma_put_closed(cs, p[0], c.mark_deleted(p.skip(1), mtime), true);
    }
}

/// A tree without dirt is closed under dirt.
pub proof fn lemma_clean_closed(node: NodeView)
    requires
        node.is_clean(),
    ensures
        dirt_closed(node),
    decreases node,
{
    match node.children {
        Some(cs) => {
            assert forall|i: int| 0 <= i < cs.len() implies (#[trigger] cs[i]).node.dirt is None && dirt_closed(
                cs[i].node,
            ) by {
                assert(cs[i].node.is_clean());
                lemma_clean_closed(cs[i].node);
            }
        },
        None => {},
    }
}

/// Each entry that is left without the deleted entries is an entry of the
/// list.
pub proof fn lemma_live_contained(cs: Seq<EntryView>)
    ensures
        forall|i: int| 0 <= i < live(cs).len() ==> cs.contains(#[trigger] live(cs)[i]),
{
    let kept = live(cs);
    assert forall|i: int| 0 <= i < kept.len() implies cs.contains(#[trigger] kept[i]) by {
        cs.lemma_filter_contains_rev(|e: EntryView| e.node.dirt != Some(Dirt::Deleted), kept[i]);
    }
}

/// Pruning keeps the tree closed under dirt.
pub proof fn lemma_pruned_closed(node: NodeView)
    requires
        dirt_closed(node),
    ensures
        dirt_closed(node.pruned()),
    decreases node,
{
    match node.children {
        Some(cs) => {
            let mapped = if node.dirt == Some(Dirt::PathDirt) {
                pruned_entries(cs)
            } else {
                cs
            };
            assert forall|i: int| 0 <= i < mapped.len() implies ((#[trigger] mapped[i]).node.dirt is Some
                ==> node.dirt is Some) && dirt_closed(mapped[i].node) by {
                assert(cs[i].node.dirt is Some ==> node.dirt is Some);
                if node.dirt == Some(Dirt::PathDirt) {
                    lemma_pruned_closed(cs[i].node);
                }
            }
            lemma_live_contained(mapped);
            let out = live(mapped);
            assert forall|i: int| 0 <= i < out.len() implies ((#[trigger] out[i]).node.dirt is Some
                ==> node.dirt is Some) && dirt_closed(out[i].node) by {
                assert(mapped.contains(out[i]));
                let j = choose|j: int| 0 <= j < mapped.len() && mapped[j] == out[i];
                assert(dirt_closed(mapped[j].node));
            }
        },
        None => {},
    }
}

} // verus!
