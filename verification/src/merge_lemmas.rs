//! What holds of the merge, whatever the trees.

use vstd::prelude::*;
use crate::conflict::conflict_name;
use crate::entries::{collect, has_child, lemma_rank_bounds, put, rank};
use crate::file_op::{all_relative, FileOpView, TreeType};
use crate::merge::{
    both_sides, by_key, enc_only, independent, independent_entries, join_opt, merge_dirs,
    normal_entries, normal_name, plain_only, push_opt, raw_name, zip_ops, Independent,
    IndependentView,
};
use crate::order::bytes_lt;
use crate::path::{ends_with_gpg, PathView};
use crate::tree::{EntryView, NodeView};
use crate::visit::{walk, walk_entries, Visit};

verus! {

/// The name of an entry of the encrypted tree is its key, with `.gpg` for a
/// file.
pub proof fn lemma_raw_name(e: EntryView)
    requires
        normal_name(e) is Some,
    ensures
        e.name == raw_name(normal_name(e)->0, e.node.is_dir()),
        !e.node.is_dir() ==> ends_with_gpg(e.name),
{
    if !e.node.is_dir() {
        let n = e.name.len() as int;
        assert(e.name =~= e.name.take(n - 4) + e.name.subrange(n - 4, n));
    }
}

/// A walk with [`Independent`] gathers the operations that [`independent`]
/// names.
pub proof fn lemma_walk_independent(s: IndependentView, n: NodeView, relpath: PathView)
    requires
        !relpath.absolute,
    ensures
        walk::<Independent>(s, n, relpath) == (IndependentView {
            ops: s.ops + independent(n, s.root.join(relpath), join_opt(s.to, relpath), s.side),
            ..s
        }),
    decreases n, 1nat,
{
    let at = s.root.join(relpath);
    let to = join_opt(s.to, relpath);
    let (next, descend) = Independent::step(s, n, relpath);
    if descend {
        match n.children {
            Some(cs) => {
                lemma_walk_independent_entries(next, cs, relpath);
            },
            None => {},
        }
    }
    let out = walk::<Independent>(s, n, relpath);
    assert(out.ops =~= s.ops + independent(n, at, to, s.side));
    assert(s.ops + Seq::<FileOpView>::empty() =~= s.ops);
}

/// A walk with [`Independent`] through a list of entries gathers the
/// operations that [`independent_entries`] names.
pub proof fn lemma_walk_independent_entries(s: IndependentView, cs: Seq<EntryView>, relpath: PathView)
    requires
        !relpath.absolute,
    ensures
        walk_entries::<Independent>(s, cs, relpath) == (IndependentView {
            ops: s.ops + independent_entries(cs, s.root.join(relpath), join_opt(s.to, relpath), s.side),
            ..s
        }),
    decreases cs, 0nat,
{
    let at = s.root.join(relpath);
    let to = join_opt(s.to, relpath);
    if cs.len() == 0 {
        assert(s.ops + Seq::<FileOpView>::empty() =~= s.ops);
    } else {
        let front = cs.drop_last();
        let e = cs.last();
        lemma_walk_independent_entries(s, front, relpath);
        let mid = walk_entries::<Independent>(s, front, relpath);
        let below = relpath.push(e.name);
        assert(mid.root.join(below).segments =~= at.push(e.name).segments);
        assert(mid.root.join(below) == at.push(e.name));
        assert(join_opt(mid.to, below) == push_opt(to, e.name)) by {
            match s.to {
                Some(t) => {
                    assert(t.join(below).segments =~= t.join(relpath).push(e.name).segments);
                },
                None => {},
            }
        }
        lemma_walk_independent(mid, e.node, below);
        let out = walk_entries::<Independent>(s, cs, relpath);
        assert(out.ops =~= s.ops + independent_entries(cs, at, to, s.side));
    }
}

/// The operations for a subtree at a relative path, with a relative place
/// for copies, have relative paths only.
pub proof fn lemma_independent_relative(n: NodeView, at: PathView, to: Option<PathView>, side: TreeType)
    requires
        !at.absolute,
        to matches Some(t) ==> !t.absolute,
    ensures
        all_relative(independent(n, at, to, side)),
    decreases n, 1nat,
{
    match n.children {
        Some(cs) => {
            lemma_independent_entries_relative(cs, at, to, side);
        },
        None => {},
    }
}

/// The operations for the entries of a directory at a relative path have
/// relative paths only.
pub proof fn lemma_independent_entries_relative(
    cs: Seq<EntryView>,
    at: PathView,
    to: Option<PathView>,
    side: TreeType,
)
    requires
        !at.absolute,
        to matches Some(t) ==> !t.absolute,
    ensures
        all_relative(independent_entries(cs, at, to, side)),
    decreases cs, 0nat,
{
    if cs.len() > 0 {
        lemma_independent_entries_relative(cs.drop_last(), at, to, side);
        lemma_independent_relative(cs.last().node, at.push(cs.last().name), push_opt(to, cs.last().name), side);
    }
}

/// Two lists of operations with relative paths make one such list.
pub proof fn lemma_relative_concat(a: Seq<FileOpView>, b: Seq<FileOpView>)
    requires
        all_relative(a),
        all_relative(b),
    ensures
        all_relative(a + b),
{
    assert forall|i: int| 0 <= i < (a + b).len() implies (#[trigger] (a + b)[i]).is_relative() by {
        if i < a.len() {
            assert((a + b)[i] == a[i]);
        } else {
            assert((a + b)[i] == b[i - a.len()]);
        }
    }
}

/// The operations for the entries of a directory at a relative path have
/// relative paths only.
pub proof fn lemma_zip_relative(en: Seq<EntryView>, pl: Seq<EntryView>, dir: PathView)
    requires
        !dir.absolute,
    ensures
        all_relative(zip_ops(en, pl, dir)),
    decreases pl, en.len(),
{
    if en.len() == 0 && pl.len() == 0 {
    } else if pl.len() == 0 || (en.len() > 0 && bytes_lt(en[0].name, pl[0].name)) {
        lemma_independent_relative(
            en[0].node,
            dir.push(raw_name(en[0].name, en[0].node.is_dir())),
            None,
            TreeType::Encrypted,
        );
        lemma_zip_relative(en.skip(1), pl, dir);
        lemma_relative_concat(enc_only(dir, en[0]), zip_ops(en.skip(1), pl, dir));
    } else if en.len() == 0 || bytes_lt(pl[0].name, en[0].name) {
        lemma_independent_relative(pl[0].node, dir.push(pl[0].name), None, TreeType::Plain);
        lemma_zip_relative(en, pl.skip(1), dir);
        lemma_relative_concat(plain_only(dir, pl[0]), zip_ops(en, pl.skip(1), dir));
    } else {
        let key = pl[0].name;
        let ne = en[0].node;
        let np = pl[0].node;
        let raw = raw_name(key, ne.is_dir());
        let copy_e = dir.push(conflict_name(ne.mtime.secs, raw));
        let copy_p = dir.push(conflict_name(np.mtime.secs, key));
        lemma_merge_relative(ne, np, dir.push(key));
        lemma_independent_relative(np, dir.push(key), None, TreeType::Plain);
        lemma_independent_relative(ne, dir.push(raw), None, TreeType::Encrypted);
        lemma_independent_relative(np, dir.push(key), Some(copy_p), TreeType::Plain);
        lemma_independent_relative(ne, dir.push(raw), Some(copy_e), TreeType::Encrypted);
        let step = both_sides(dir, key, ne, np, merge_dirs(ne, np, dir.push(key)));
        assert(all_relative(step)) by {
            lemma_relative_concat(
                independent(ne, dir.push(raw), Some(copy_e), TreeType::Encrypted),
                seq![FileOpView::EncryptPlain(dir.push(key))],
            );
            lemma_relative_concat(
                independent(ne, dir.push(raw), Some(copy_e), TreeType::Encrypted),
                seq![FileOpView::DeleteEnc(dir.push(raw))],
            );
            lemma_relative_concat(
                independent(np, dir.push(key), Some(copy_p), TreeType::Plain),
                seq![FileOpView::DecryptEnc(dir.push(raw))],
            );
            lemma_relative_concat(
                independent(np, dir.push(key), Some(copy_p), TreeType::Plain),
                seq![FileOpView::DeletePlain(dir.push(key))],
            );
        }
        lemma_zip_relative(en.skip(1), pl.skip(1), dir);
        lemma_relative_concat(step, zip_ops(en.skip(1), pl.skip(1), dir));
    }
}

/// Every operation of a merge that begins at a relative path has relative
/// paths only.
pub proof fn lemma_merge_relative(enc: NodeView, plain: NodeView, dir: PathView)
    requires
        !dir.absolute,
    ensures
        all_relative(merge_dirs(enc, plain, dir)),
    decreases plain, 0nat,
{
    match plain.children {
        Some(pc) => match enc.children {
            Some(ec) => {
                lemma_zip_relative(by_key(ec), pc, dir);
            },
            None => {},
        },
        None => {},
    }
}

/// No node of the entries `cs` carries dirt.
pub open spec fn entries_clean(cs: Seq<EntryView>) -> bool {
    forall|i: int| 0 <= i < cs.len() ==> (#[trigger] cs[i]).node.is_clean()
}

/// Storing a node without dirt among nodes without dirt leaves all of them
/// without dirt.
pub proof fn lemma_put_clean(cs: Seq<EntryView>, name: Seq<u8>, node: NodeView)
    requires
        entries_clean(cs),
        node.is_clean(),
    ensures
        entries_clean(put(cs, name, node)),
{
    lemma_rank_bounds(cs, name);
    let r = rank(cs, name);
    let out = put(cs, name, node);
    assert forall|i: int| 0 <= i < out.len() implies (#[trigger] out[i]).node.is_clean() by {
        if has_child(cs, name) {
            if i != r {
                assert(out[i] == cs[i]);
            }
        } else {
            if i < r {
                assert(out[i] == cs[i]);
            } else if i > r {
                assert(out[i] == cs[i - 1]);
            }
        }
    }
}

/// Sorting entries without dirt by key gives entries without dirt.
pub proof fn lemma_by_key_clean(cs: Seq<EntryView>)
    requires
        entries_clean(cs),
    ensures
        entries_clean(normal_entries(cs)),
        entries_clean(by_key(cs)),
    decreases cs.len(),
{
    if cs.len() > 0 {
        let front = cs.drop_last();
        assert(entries_clean(front)) by {
            assert forall|i: int| 0 <= i < front.len() implies (#[trigger] front[i]).node.is_clean() by {
                assert(front[i] == cs[i]);
            }
        }
        lemma_by_key_clean(front);
        assert(cs.last().node.is_clean());
        match normal_name(cs.last()) {
            Some(key) => {
                let x = EntryView { name: key, node: cs.last().node };
                let ne = normal_entries(front);
                assert(normal_entries(cs) == ne.push(x));
                assert(ne.push(x).drop_last() =~= ne);
                lemma_put_clean(collect(ne), key, cs.last().node);
            },
            None => {},
        }
    }
}

/// A subtree without dirt asks for no operation.
pub proof fn lemma_independent_clean(n: NodeView, at: PathView, to: Option<PathView>, side: TreeType)
    requires
        n.is_clean(),
    ensures
        independent(n, at, to, side) == Seq::<FileOpView>::empty(),
    decreases n, 1nat,
{
    match n.children {
        Some(cs) => {
            lemma_independent_entries_clean(cs, at, to, side);
        },
        None => {},
    }
}

/// Entries without dirt ask for no operation.
pub proof fn lemma_independent_entries_clean(
    cs: Seq<EntryView>,
    at: PathView,
    to: Option<PathView>,
    side: TreeType,
)
    requires
        entries_clean(cs),
    ensures
        independent_entries(cs, at, to, side) == Seq::<FileOpView>::empty(),
    decreases cs, 0nat,
{
    if cs.len() > 0 {
        let front = cs.drop_last();
        assert(entries_clean(front)) by {
            assert forall|i: int| 0 <= i < front.len() implies (#[trigger] front[i]).node.is_clean() by {
                assert(front[i] == cs[i]);
            }
        }
        lemma_independent_entries_clean(front, at, to, side);
        assert(cs.last().node.is_clean());
        lemma_independent_clean(
            cs.last().node,
            at.push(cs.last().name),
            push_opt(to, cs.last().name),
            side,
        );
        assert(Seq::<FileOpView>::empty() + Seq::<FileOpView>::empty() =~= Seq::<FileOpView>::empty());
    }
}

/// Two lists of entries without dirt ask for no operation.
pub proof fn lemma_zip_clean(en: Seq<EntryView>, pl: Seq<EntryView>, dir: PathView)
    requires
        entries_clean(en),
        entries_clean(pl),
    ensures
        zip_ops(en, pl, dir) == Seq::<FileOpView>::empty(),
    decreases pl.len() + en.len(),
{
    if en.len() > 0 {
        assert(en[0].node.is_clean());
        assert(entries_clean(en.skip(1))) by {
            assert forall|i: int| 0 <= i < en.skip(1).len() implies (#[trigger] en.skip(1)[i]).node.is_clean() by {
                assert(en.skip(1)[i] == en[i + 1]);
            }
        }
        lemma_independent_clean(
            en[0].node,
            dir.push(raw_name(en[0].name, en[0].node.is_dir())),
            None,
            TreeType::Encrypted,
        );
    }
    if pl.len() > 0 {
        assert(pl[0].node.is_clean());
        assert(entries_clean(pl.skip(1))) by {
            assert forall|i: int| 0 <= i < pl.skip(1).len() implies (#[trigger] pl.skip(1)[i]).node.is_clean() by {
                assert(pl.skip(1)[i] == pl[i + 1]);
            }
        }
        lemma_independent_clean(pl[0].node, dir.push(pl[0].name), None, TreeType::Plain);
    }
    if en.len() > 0 || pl.len() > 0 {
        if en.len() > 0 {
            lemma_zip_clean(en.skip(1), pl, dir);
        }
        if pl.len() > 0 {
            lemma_zip_clean(en, pl.skip(1), dir);
        }
        if en.len() > 0 && pl.len() > 0 {
            lemma_zip_clean(en.skip(1), pl.skip(1), dir);
        }
        assert(Seq::<FileOpView>::empty() + Seq::<FileOpView>::empty() =~= Seq::<FileOpView>::empty());
    }
}

/// Two trees without dirt are in step: their merge asks for no operation.
pub proof fn lemma_merge_of_clean_is_empty(enc: NodeView, plain: NodeView, dir: PathView)
    requires
        enc.is_clean(),
        plain.is_clean(),
    ensures
        merge_dirs(enc, plain, dir) == Seq::<FileOpView>::empty(),
{
    match (enc.children, plain.children) {
        (Some(ec), Some(pc)) => {
            lemma_by_key_clean(ec);
            lemma_zip_clean(by_key(ec), pc, dir);
        },
        _ => {},
    }
}

} // verus!
