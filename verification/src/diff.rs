//! Reconciling a tree with what is found on disk.
//!
//! The caller reads the part of the filesystem that is of interest into a
//! snapshot: a [`TreeNode`] that holds, for the entry at the path of interest
//! and for everything below it, the modification time and the children. Dirt
//! and hash of a snapshot are not looked at. The tree is then brought up to
//! date: what is new or changed on disk is written to the tree, what is gone
//! from disk is marked as deleted.

use vstd::prelude::*;
use crate::file_op::TreeType;
use crate::order::{bytes_lt, compare_bytes, lemma_bytes_lt_irreflexive, lemma_bytes_lt_total, Order};
use crate::path::{ends_with_gpg, has_gpg_suffix, hidden_name, is_hidden_name, SyncPath};
use crate::tree::{entries_view, Entry, EntryView, Mtime, NodeView, Tree, TreeNode};
use crate::tree_lemmas::lemma_child_is_smaller;

verus! {

/// Why a tree could not be reconciled with the filesystem.
#[derive(Debug, PartialEq, Eq)]
pub enum DiffError {
    /// The entry at this path is a file on disk and a directory in the tree,
    /// or the other way round, or lies below a file of the tree.
    KindChanged(SyncPath),
}

/// The name and the modification time of a child of a tree node.
pub struct Stat {
    pub name: Vec<u8>,
    pub mtime: Mtime,
}

/// The mathematical value of a [`Stat`].
pub ghost struct StatView {
    pub name: Seq<u8>,
    pub mtime: Mtime,
}

/// The values of a list of stats, in the same order.
pub open spec fn stats_view(stats: Seq<Stat>) -> Seq<StatView> {
    Seq::new(stats.len(), |i: int| StatView { name: stats[i].name@, mtime: stats[i].mtime })
}

/// The names and modification times of the entries `cs`.
pub open spec fn stats_of(cs: Seq<EntryView>) -> Seq<StatView> {
    Seq::new(cs.len(), |i: int| StatView { name: cs[i].name, mtime: cs[i].node.mtime })
}

/// An entry of the filesystem is looked at: its name is not that of a hidden
/// entry, and on the encrypted side it is a directory or has a name that ends
/// in `.gpg`.
pub open spec fn visible(name: Seq<u8>, is_dir: bool, side: TreeType) -> bool {
    !hidden_name(name) && (side == TreeType::Plain || is_dir || ends_with_gpg(name))
}

/// The tree with the node at `p` marked as deleted at `mtime`, where there
/// is such a node.
pub open spec fn deleted_at(tree: NodeView, p: Seq<Seq<u8>>, mtime: Mtime) -> NodeView {
    if tree.get(p) is Some {
        tree.mark_deleted(p, mtime)
    } else {
        tree
    }
}

/// The tree after the entry `f` that was found on disk at `sub` was taken
/// into account, or `None` where a file stands in place of a directory or a
/// directory in place of a file.
///
/// An entry that the tree lacks is written, with everything visible below
/// it. A file that the tree holds is written where its modification time is
/// not the one of the tree. For a directory that the tree holds the children
/// on disk and in the tree are gone through together.
pub open spec fn reconcile_present(tree: NodeView, sub: Seq<Seq<u8>>, f: NodeView, side: TreeType) -> Option<
    NodeView,
>
    decreases f, 1nat,
{
    match tree.get(sub) {
        None => if !tree.can_write(sub, f.is_dir()) {
            None
        } else {
            match f.children {
                Some(fe) => reconcile_entries(
                    tree.write(sub, true, f.mtime),
                    sub,
                    fe,
                    Seq::empty(),
                    side,
                ),
                None => Some(tree.write(sub, false, f.mtime)),
            }
        },
        Some(n) => if f.is_dir() != n.is_dir() {
            None
        } else {
            match f.children {
                Some(fe) => reconcile_entries(tree, sub, fe, stats_of(n.children->0), side),
                None => if f.mtime != n.mtime {
                    if tree.can_write(sub, false) {
                        Some(tree.write(sub, false, f.mtime))
                    } else {
                        None
                    }
                } else {
                    Some(tree)
                },
            }
        },
    }
}

/// The tree after the children of the directory at `sub` were gone through:
/// `fe` are the entries found on disk, `te` the names and modification times
/// of the children in the tree, both sorted by name. The names are taken in
/// order.
///
/// An entry on disk that is not visible is passed over. A name that only the
/// disk holds is a new entry. A name that only the tree holds is marked as
/// deleted, at the time that the tree has for it. A name that both hold is
/// left alone where the two modification times are equal; otherwise it is
/// written with the time found on disk, and then looked into.
pub open spec fn reconcile_entries(
    tree: NodeView,
    sub: Seq<Seq<u8>>,
    fe: Seq<EntryView>,
    te: Seq<StatView>,
    side: TreeType,
) -> Option<NodeView>
    decreases fe, te.len(),
{
    if fe.len() > 0 && !visible(fe[0].name, fe[0].node.is_dir(), side) {
        reconcile_entries(tree, sub, fe.skip(1), te, side)
    } else if fe.len() == 0 && te.len() == 0 {
        Some(tree)
    } else if te.len() == 0 || (fe.len() > 0 && bytes_lt(fe[0].name, te[0].name)) {
        match reconcile_present(tree, sub.push(fe[0].name), fe[0].node, side) {
            Some(next) => reconcile_entries(next, sub, fe.skip(1), te, side),
            None => None,
        }
    } else if fe.len() == 0 || bytes_lt(te[0].name, fe[0].name) {
        reconcile_entries(deleted_at(tree, sub.push(te[0].name), te[0].mtime), sub, fe, te.skip(1), side)
    } else if fe[0].node.mtime == te[0].mtime {
        reconcile_entries(tree, sub, fe.skip(1), te.skip(1), side)
    } else if !tree.can_write(sub.push(fe[0].name), fe[0].node.is_dir()) {
        None
    } else {
        match reconcile_present(
            tree.write(sub.push(fe[0].name), fe[0].node.is_dir(), fe[0].node.mtime),
            sub.push(fe[0].name),
            fe[0].node,
            side,
        ) {
            Some(next) => reconcile_entries(next, sub, fe.skip(1), te.skip(1), side),
            None => None,
        }
    }
}

/// The path `sub` is looked at as the place of the entry `f` found on disk:
/// none of its segments is the name of a hidden entry, and on the encrypted
/// side a file has a name that ends in `.gpg`.
pub open spec fn admitted(sub: Seq<Seq<u8>>, f: NodeView, side: TreeType) -> bool {
    &&& forall|i: int| 0 <= i < sub.len() ==> !hidden_name(#[trigger] sub[i])
    &&& side == TreeType::Encrypted && !f.is_dir() ==> sub.len() > 0 && ends_with_gpg(sub.last())
}

/// The tree after it was reconciled with `fs`, which is what was found on
/// disk at `sub`, or `None` where a file stands in place of a directory or a
/// directory in place of a file.
///
/// Where nothing was found, the node at `sub` is marked as deleted at the
/// time that the tree has for it. What was found at a path that is not looked
/// at leaves the tree as it is.
pub open spec fn reconcile(tree: NodeView, sub: Seq<Seq<u8>>, fs: Option<NodeView>, side: TreeType) -> Option<
    NodeView,
> {
    match fs {
        Some(f) => if admitted(sub, f, side) {
            reconcile_present(tree, sub, f, side)
        } else {
            Some(tree)
        },
        None => Some(tree.mark_deleted(sub, tree.get(sub)->0.mtime)),
    }
}

/// The value of a snapshot that may be missing.
pub open spec fn opt_node_view(fs: Option<&TreeNode>) -> Option<NodeView> {
    match fs {
        Some(f) => Some(f@),
        None => None,
    }
}

/// The names and modification times of the children of the node at `sub`,
/// or of no children where there is no such directory.
fn child_stats(tr: &Tree, sub: &SyncPath) -> (r: Vec<Stat>)
    requires
        tr.wf(),
    ensures
        stats_view(r@) == match tr@.get(sub.segs()) {
            Some(n) => match n.children {
                Some(cs) => stats_of(cs),
                None => Seq::empty(),
            },
            None => Seq::empty(),
        },
{
    let mut stats: Vec<Stat> = Vec::new();
    match tr.get(sub) {
        Some(n) => match &n.children {
            Some(entries) => {
                let ghost cs = entries_view(entries@);
                let mut i: usize = 0;
                while i < entries.len()
                    invariant
                        i <= entries@.len(),
                        cs == entries_view(entries@),
                        stats@.len() == i,
                        forall|k: int|
                            0 <= k < i ==> (#[trigger] stats@[k]).name@ == cs[k].name && stats@[k].mtime
                                == cs[k].node.mtime,
                    decreases entries@.len() - i,
                {
                    stats.push(Stat { name: entries[i].name.clone(), mtime: entries[i].node.mtime });
                    i += 1;
                }
                proof {
                    assert(stats_view(stats@) =~= stats_of(cs));
                }
            },
            None => {
                proof {
                    assert(stats_view(stats@) =~= Seq::<StatView>::empty());
                }
            },
        },
        None => {
            proof {
                assert(stats_view(stats@) =~= Seq::<StatView>::empty());
            }
        },
    }
    stats
}

/// Whether an entry of the filesystem is looked at.
pub fn is_visible(name: &[u8], is_dir: bool, side: TreeType) -> (r: bool)
    ensures
        r == visible(name@, is_dir, side),
{
    if is_hidden_name(name) {
        return false;
    }
    match side {
        TreeType::Plain => true,
        TreeType::Encrypted => is_dir || has_gpg_suffix(name),
    }
}

/// When a filesystem notification comes, the tree is brought up to date from
/// what is found on disk.
pub struct TreeReconciler {}

impl TreeReconciler {
    /// Takes the entry `f` that was found on disk at `sub` into account.
    fn present(tr: &mut Tree, sub: &SyncPath, f: &TreeNode, side: TreeType) -> (r: Result<(), DiffError>)
        requires
            old(tr).wf(),
        ensures
            final(tr).wf(),
            match r {
                Ok(_) => reconcile_present(old(tr)@, sub.segs(), f@, side) == Some(final(tr)@),
                Err(_) => reconcile_present(old(tr)@, sub.segs(), f@, side) is None,
            },
        decreases f, 1nat,
    {
        let known = match tr.get(sub) {
            Some(n) => Some((n.is_dir(), n.mtime)),
            None => None,
        };
        match known {
            None => {
                if !tr.can_write(sub, f.is_dir()) {
                    return Err(DiffError::KindChanged(sub.clone_path()));
                }
                tr.write(sub, f.is_dir(), f.mtime);
                match &f.children {
                    Some(fe) => {
                        let none: Vec<Stat> = Vec::new();
                        proof {
                            assert(stats_view(none@) =~= Seq::<StatView>::empty());
                        }
                        TreeReconciler::entries(tr, sub, f, fe, &none, side)
                    },
                    None => Ok(()),
                }
            },
            Some((is_dir, mtime)) => {
                if f.is_dir() != is_dir {
                    return Err(DiffError::KindChanged(sub.clone_path()));
                }
                match &f.children {
                    Some(fe) => {
                        let stats = child_stats(tr, sub);
                        TreeReconciler::entries(tr, sub, f, fe, &stats, side)
                    },
                    None => {
                        if f.mtime.secs != mtime.secs || f.mtime.nanos != mtime.nanos {
                            if !tr.can_write(sub, false) {
                                return Err(DiffError::KindChanged(sub.clone_path()));
                            }
                            tr.write(sub, false, f.mtime);
                        }
                        Ok(())
                    },
                }
            },
        }
    }

    /// Goes through the children of the directory at `sub`: `fe` are the
    /// entries of the snapshot `f`, `te` the children in the tree.
    fn entries(
        tr: &mut Tree,
        sub: &SyncPath,
        f: &TreeNode,
        fe: &Vec<Entry>,
        te: &Vec<Stat>,
        side: TreeType,
    ) -> (r: Result<(), DiffError>)
        requires
            old(tr).wf(),
            f.children == Some(*fe),
        ensures
            final(tr).wf(),
            match r {
                Ok(_) => reconcile_entries(
                    old(tr)@,
                    sub.segs(),
                    entries_view(fe@),
                    stats_view(te@),
                    side,
                ) == Some(final(tr)@),
                Err(_) => reconcile_entries(
                    old(tr)@,
                    sub.segs(),
                    entries_view(fe@),
                    stats_view(te@),
                    side,
                ) is None,
            },
        decreases f, 0nat,
    {
        let ghost fv = entries_view(fe@);
        let ghost tv = stats_view(te@);
        let ghost goal = reconcile_entries(tr@, sub.segs(), fv, tv, side);
        let mut i: usize = 0;
        let mut j: usize = 0;
        proof {
            assert(fv.skip(0) =~= fv);
            assert(tv.skip(0) =~= tv);
        }
        while i < fe.len() || j < te.len()
            invariant
                i <= fe@.len(),
                j <= te@.len(),
                tr.wf(),
                f.children == Some(*fe),
                fv == entries_view(fe@),
                tv == stats_view(te@),
                goal == reconcile_entries(old(tr)@, sub.segs(), fv, tv, side),
                goal == reconcile_entries(tr@, sub.segs(), fv.skip(i as int), tv.skip(j as int), side),
            decreases (fe@.len() - i) + (te@.len() - j),
        {
            let ghost f_rest = fv.skip(i as int);
            let ghost t_rest = tv.skip(j as int);
            proof {
                if i < fe@.len() {
                    assert(f_rest[0] == fv[i as int]);
                    assert(f_rest.skip(1) =~= fv.skip(i + 1));
                    lemma_child_is_smaller(*f, *fe, i as int);
                }
                if j < te@.len() {
                    assert(t_rest[0] == tv[j as int]);
                    assert(t_rest.skip(1) =~= tv.skip(j + 1));
                }
                if i < fe@.len() && j < te@.len() {
                    lemma_bytes_lt_total(fv[i as int].name, tv[j as int].name);
                    lemma_bytes_lt_irreflexive(fv[i as int].name);
                }
            }
            if i < fe.len() && !is_visible(fe[i].name.as_slice(), fe[i].node.is_dir(), side) {
                i += 1;
                continue ;
            }
            let order = if i >= fe.len() {
                Order::Greater
            } else if j >= te.len() {
                Order::Less
            } else {
                compare_bytes(fe[i].name.as_slice(), te[j].name.as_slice())
            };
            match order {
                Order::Less => {
                    let at = sub.join_name(fe[i].name.as_slice());
                    match TreeReconciler::present(tr, &at, &fe[i].node, side) {
                        Ok(_) => {},
                        Err(e) => {
                            return Err(e);
                        },
                    }
                    i += 1;
                },
                Order::Greater => {
                    let at = sub.join_name(te[j].name.as_slice());
                    if tr.get(&at).is_some() {
                        tr.mark_deleted(&at, te[j].mtime);
                    }
                    j += 1;
                },
                Order::Equal => {
                    let e = &fe[i];
                    let same = e.node.mtime.secs == te[j].mtime.secs && e.node.mtime.nanos == te[j].mtime.nanos;
                    if !same {
                        let at = sub.join_name(e.name.as_slice());
                        if !tr.can_write(&at, e.node.is_dir()) {
                            return Err(DiffError::KindChanged(at));
                        }
                        tr.write(&at, e.node.is_dir(), e.node.mtime);
                        match TreeReconciler::present(tr, &at, &e.node, side) {
                            Ok(_) => {},
                            Err(e) => {
                                return Err(e);
                            },
                        }
                    }
                    i += 1;
                    j += 1;
                },
            }
        }
        Ok(())
    }

    /// Whether `sub` is looked at as the place of the entry `f` found on
    /// disk.
    pub fn is_admitted(sub: &SyncPath, f: &TreeNode, side: TreeType) -> (r: bool)
        ensures
            r == admitted(sub.segs(), f@, side),
    {
        if sub.is_hidden() {
            proof {
                let i = choose|i: int| 0 <= i < sub@.segments.len() && hidden_name(#[trigger] sub@.segments[i]);
                assert(hidden_name(sub.segs()[i]));
            }
            return false;
        }
        proof {
            assert forall|i: int| 0 <= i < sub.segs().len() implies !hidden_name(#[trigger] sub.segs()[i]) by {
                if hidden_name(sub.segs()[i]) {
                    assert(hidden_name(sub@.segments[i]));
                }
            }
        }
        match side {
            TreeType::Plain => true,
            TreeType::Encrypted => {
                if f.is_dir() {
                    true
                } else {
                    match sub.file_name() {
                        Some(name) => has_gpg_suffix(name.as_slice()),
                        None => false,
                    }
                }
            },
        }
    }

    /// Reconciles the tree `tr` with the filesystem at
    /// `subtree_of_interest`. `fs` is what was found on disk at that path,
    /// with everything below it, or `None` where nothing was found.
    ///
    /// The call fails, with the tree in an unfinished state, where the tree
    /// holds a file in place of a directory on disk or the other way round.
    pub fn diff_from_filesystem(
        fs: Option<&TreeNode>,
        tr: &mut Tree,
        subtree_of_interest: &SyncPath,
        tree_type: TreeType,
    ) -> (r: Result<(), DiffError>)
        requires
            old(tr).wf(),
            fs is Some || old(tr)@.get(subtree_of_interest.segs()) is Some,
        ensures
            final(tr).wf(),
            match r {
                Ok(_) => reconcile(
                    old(tr)@,
                    subtree_of_interest.segs(),
                    opt_node_view(fs),
                    tree_type,
                ) == Some(final(tr)@),
                Err(_) => reconcile(
                    old(tr)@,
                    subtree_of_interest.segs(),
                    opt_node_view(fs),
                    tree_type,
                ) is None,
            },
    {
        match fs {
            Some(f) => {
                if TreeReconciler::is_admitted(subtree_of_interest, f, tree_type) {
                    TreeReconciler::present(tr, subtree_of_interest, f, tree_type)
                } else {
                    Ok(())
                }
            },
            None => {
                let mtime = match tr.get(subtree_of_interest) {
                    Some(n) => n.mtime,
                    None => Mtime::epoch(),
                };
                tr.mark_deleted(subtree_of_interest, mtime);
                Ok(())
            },
        }
    }
}

} // verus!
