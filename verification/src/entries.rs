//! Sorted lists of entries.
//!
//! The children of a directory are kept as a list of entries whose names
//! are strictly increasing. Such a list maps each name to at most one node.

use vstd::prelude::*;
use crate::order::{
    bytes_lt, compare_bytes, lemma_bytes_lt_irreflexive, lemma_bytes_lt_total,
    lemma_bytes_lt_transitive, Order,
};
use crate::tree::{entries_view, Dirt, Entry, EntryView, NodeView};

verus! {

/// The names of `cs` are strictly increasing, so no name occurs twice.
pub open spec fn names_sorted(cs: Seq<EntryView>) -> bool {
    forall|i: int, j: int| 0 <= i < j < cs.len() ==> bytes_lt(#[trigger] cs[i].name, #[trigger] cs[j].name)
}

/// The number of leading entries of `cs` whose names come before `name`. In a
/// sorted list this is the position at which `name` stands or would be
/// inserted.
pub open spec fn rank(cs: Seq<EntryView>, name: Seq<u8>) -> int
    decreases cs.len(),
{
    if cs.len() == 0 || !bytes_lt(cs[0].name, name) {
        0
    } else {
        1 + rank(cs.skip(1), name)
    }
}

/// `cs` has an entry called `name`.
pub open spec fn has_child(cs: Seq<EntryView>, name: Seq<u8>) -> bool {
    rank(cs, name) < cs.len() && cs[rank(cs, name)].name == name
}

/// The node that `cs` holds under `name`, if any.
pub open spec fn child(cs: Seq<EntryView>, name: Seq<u8>) -> Option<NodeView> {
    if has_child(cs, name) {
        Some(cs[rank(cs, name)].node)
    } else {
        None
    }
}

/// `cs` with `node` stored under `name`, in place of what was there before.
pub open spec fn put(cs: Seq<EntryView>, name: Seq<u8>, node: NodeView) -> Seq<EntryView> {
    if has_child(cs, name) {
        cs.update(rank(cs, name), EntryView { name, node })
    } else {
        cs.insert(rank(cs, name), EntryView { name, node })
    }
}

/// `cs` without the entry called `name`.
pub open spec fn without(cs: Seq<EntryView>, name: Seq<u8>) -> Seq<EntryView> {
    if has_child(cs, name) {
        cs.remove(rank(cs, name))
    } else {
        cs
    }
}

/// The sorted list that results from storing the entries of `es` one after
/// the other. Of two entries with one name the later one stays.
pub open spec fn collect(es: Seq<EntryView>) -> Seq<EntryView>
    decreases es.len(),
{
    if es.len() == 0 {
        Seq::empty()
    } else {
        put(collect(es.drop_last()), es.last().name, es.last().node)
    }
}

/// The entries of `cs` that are not `Deleted`, in the same order.
pub open spec fn live(cs: Seq<EntryView>) -> Seq<EntryView> {
    cs.filter(|e: EntryView| e.node.dirt != Some(Dirt::Deleted))
}

/// The rank lies within the list.
pub proof fn lemma_rank_bounds(cs: Seq<EntryView>, name: Seq<u8>)
    ensures
        0 <= rank(cs, name) <= cs.len(),
    decreases cs.len(),
{
    if cs.len() != 0 && bytes_lt(cs[0].name, name) {
        lemma_rank_bounds(cs.skip(1), name);
    }
}

/// A position that splits `cs` into names before `name` and the rest is the
/// rank of `name`.
pub proof fn lemma_rank_is(cs: Seq<EntryView>, name: Seq<u8>, r: int)
    requires
        0 <= r <= cs.len(),
        forall|i: int| 0 <= i < r ==> bytes_lt(#[trigger] cs[i].name, name),
        r < cs.len() ==> !bytes_lt(cs[r].name, name),
    ensures
        rank(cs, name) == r,
    decreases cs.len(),
{
    if r > 0 {
        assert(bytes_lt(cs[0].name, name));
        let rest = cs.skip(1);
        assert forall|i: int| 0 <= i < r - 1 implies bytes_lt(#[trigger] rest[i].name, name) by {
            assert(rest[i] == cs[i + 1]);
        }
        lemma_rank_is(rest, name, r - 1);
    }
}

/// In a sorted list the rank of `name` splits the list into the names before
/// `name` and the names not before it.
pub proof fn lemma_rank_splits(cs: Seq<EntryView>, name: Seq<u8>)
    requires
        names_sorted(cs),
    ensures
        0 <= rank(cs, name) <= cs.len(),
        forall|i: int| 0 <= i < rank(cs, name) ==> bytes_lt(#[trigger] cs[i].name, name),
        forall|i: int| rank(cs, name) <= i < cs.len() ==> !bytes_lt(#[trigger] cs[i].name, name),
    decreases cs.len(),
{
    if cs.len() != 0 {
        let rest = cs.skip(1);
        assert forall|i: int, j: int| 0 <= i < j < rest.len() implies bytes_lt(
            #[trigger] rest[i].name,
            #[trigger] rest[j].name,
        ) by {
            assert(rest[i] == cs[i + 1] && rest[j] == cs[j + 1]);
        }
        if bytes_lt(cs[0].name, name) {
            lemma_rank_splits(rest, name);
            assert forall|i: int| 0 <= i < rank(cs, name) implies bytes_lt(#[trigger] cs[i].name, name) by {
                if i > 0 {
                    assert(cs[i] == rest[i - 1]);
                }
            }
            assert forall|i: int| rank(cs, name) <= i < cs.len() implies !bytes_lt(
                #[trigger] cs[i].name,
                name,
            ) by {
                assert(cs[i] == rest[i - 1]);
            }
        } else {
            assert forall|i: int| 0 <= i < cs.len() implies !bytes_lt(#[trigger] cs[i].name, name) by {
                if i > 0 && bytes_lt(cs[i].name, name) {
                    lemma_bytes_lt_transitive(cs[0].name, cs[i].name, name);
                }
            }
        }
    }
}

/// In a sorted list an entry is found under its own name, at its own position.
pub proof fn lemma_rank_of_member(cs: Seq<EntryView>, k: int)
    requires
        names_sorted(cs),
        0 <= k < cs.len(),
    ensures
        rank(cs, cs[k].name) == k,
        has_child(cs, cs[k].name),
        child(cs, cs[k].name) == Some(cs[k].node),
{
    lemma_bytes_lt_irreflexive(cs[k].name);
    lemma_rank_is(cs, cs[k].name, k);
}

/// Storing under a name keeps the list sorted, and afterwards the list maps
/// that name to the stored node and every other name to what it held before.
pub proof fn lemma_put(cs: Seq<EntryView>, name: Seq<u8>, node: NodeView, other: Seq<u8>)
    requires
        names_sorted(cs),
    ensures
        names_sorted(put(cs, name, node)),
        rank(put(cs, name, node), name) == rank(cs, name),
        child(put(cs, name, node), name) == Some(node),
        other != name ==> child(put(cs, name, node), other) == child(cs, other),
{
    let r = rank(cs, name);
    let out = put(cs, name, node);
    lemma_rank_splits(cs, name);
    lemma_bytes_lt_irreflexive(name);
    if has_child(cs, name) {
        assert forall|i: int, j: int| 0 <= i < j < out.len() implies bytes_lt(
            #[trigger] out[i].name,
            #[trigger] out[j].name,
        ) by {
            assert(out[i].name == cs[i].name && out[j].name == cs[j].name);
        }
        lemma_rank_is(out, name, r);
        if other != name {
            lemma_rank_splits(cs, other);
            let q = rank(cs, other);
            assert forall|i: int| 0 <= i < q implies bytes_lt(#[trigger] out[i].name, other) by {
                assert(out[i].name == cs[i].name);
            }
            if q < cs.len() {
                assert(out[q].name == cs[q].name);
            }
            lemma_rank_is(out, other, q);
            if q == r {
                assert(cs[q].name != other);
            }
        }
    } else {
        assert forall|i: int, j: int| 0 <= i < j < out.len() implies bytes_lt(
            #[trigger] out[i].name,
            #[trigger] out[j].name,
        ) by {
            if j == r {
                assert(out[i] == cs[i]);
            } else if i == r {
                assert(out[j] == cs[j - 1]);
                lemma_bytes_lt_total(cs[j - 1].name, name);
            } else {
                assert(out[i] == if i < r { cs[i] } else { cs[i - 1] });
                assert(out[j] == if j < r { cs[j] } else { cs[j - 1] });
            }
        }
        assert forall|i: int| 0 <= i < r implies bytes_lt(#[trigger] out[i].name, name) by {
            assert(out[i] == cs[i]);
        }
        lemma_rank_is(out, name, r);
        if other != name {
            lemma_rank_splits(cs, other);
            lemma_bytes_lt_total(name, other);
            let q = rank(cs, other);
            if bytes_lt(name, other) {
                // `name` now stands before `other`, which moves one place up.
                if q < r {
                    assert(!bytes_lt(cs[q].name, other));
                    assert(bytes_lt(cs[q].name, name));
                    lemma_bytes_lt_transitive(cs[q].name, name, other);
                }
                assert forall|i: int| 0 <= i < q + 1 implies bytes_lt(#[trigger] out[i].name, other) by {
                    if i < r {
                        assert(out[i] == cs[i]);
                    } else if i > r {
                        assert(out[i] == cs[i - 1]);
                    }
                }
                if q < cs.len() {
                    assert(out[q + 1] == cs[q]);
                }
                lemma_rank_is(out, other, q + 1);
            } else {
                if q > r {
                    assert(bytes_lt(cs[r].name, other));
                    assert(!bytes_lt(cs[r].name, name));
                    lemma_bytes_lt_total(cs[r].name, name);
                    if cs[r].name != name {
                        lemma_bytes_lt_transitive(other, name, cs[r].name);
                        lemma_bytes_lt_total(cs[r].name, other);
                    }
                }
                assert forall|i: int| 0 <= i < q implies bytes_lt(#[trigger] out[i].name, other) by {
                    assert(out[i] == cs[i]);
                }
                if q == r {
                    assert(out[q].name == name);
                } else {
                    assert(out[q] == cs[q]);
                }
                lemma_rank_is(out, other, q);
            }
        }
    }
}

/// Removing a name keeps the list sorted, and afterwards the list lacks that
/// name and maps every other name to what it held before.
pub proof fn lemma_without(cs: Seq<EntryView>, name: Seq<u8>, other: Seq<u8>)
    requires
        names_sorted(cs),
    ensures
        names_sorted(without(cs, name)),
        child(without(cs, name), name) is None,
        other != name ==> child(without(cs, name), other) == child(cs, other),
{
    let r = rank(cs, name);
    let out = without(cs, name);
    lemma_rank_splits(cs, name);
    if has_child(cs, name) {
        assert forall|i: int, j: int| 0 <= i < j < out.len() implies bytes_lt(
            #[trigger] out[i].name,
            #[trigger] out[j].name,
        ) by {
            assert(out[i] == if i < r { cs[i] } else { cs[i + 1] });
            assert(out[j] == if j < r { cs[j] } else { cs[j + 1] });
        }
        assert forall|i: int| 0 <= i < r implies bytes_lt(#[trigger] out[i].name, name) by {
            assert(out[i] == cs[i]);
        }
        if r < out.len() {
            assert(out[r] == cs[r + 1]);
            assert(bytes_lt(cs[r].name, cs[r + 1].name));
            lemma_bytes_lt_total(name, out[r].name);
        }
        lemma_rank_is(out, name, r);
        if other != name {
            lemma_rank_splits(cs, other);
            lemma_bytes_lt_total(name, other);
            let q = rank(cs, other);
            if bytes_lt(name, other) {
                assert(q > r);
                assert forall|i: int| 0 <= i < q - 1 implies bytes_lt(#[trigger] out[i].name, other) by {
                    assert(out[i] == if i < r { cs[i] } else { cs[i + 1] });
                }
                if q - 1 < out.len() {
                    assert(out[q - 1] == cs[q]);
                }
                lemma_rank_is(out, other, q - 1);
            } else {
                if q > r {
                    assert(bytes_lt(cs[r].name, other));
                }
                assert(q <= r);
                assert forall|i: int| 0 <= i < q implies bytes_lt(#[trigger] out[i].name, other) by {
                    assert(out[i] == cs[i]);
                }
                if q < out.len() {
                    if q < r {
                        assert(out[q] == cs[q]);
                    } else {
                        assert(out[q] == cs[q + 1]);
                        lemma_bytes_lt_transitive(other, name, cs[q + 1].name);
                        lemma_bytes_lt_total(other, cs[q + 1].name);
                    }
                }
                lemma_rank_is(out, other, q);
            }
        }
    }
}

/// Storing a well-formed node in a list of well-formed nodes leaves all of
/// them well-formed.
pub proof fn lemma_put_wf(cs: Seq<EntryView>, name: Seq<u8>, node: NodeView)
    requires
        forall|i: int| 0 <= i < cs.len() ==> (#[trigger] cs[i]).node.wf(),
        node.wf(),
    ensures
        forall|i: int| 0 <= i < put(cs, name, node).len() ==> (#[trigger] put(cs, name, node)[i]).node.wf(),
{
    lemma_rank_bounds(cs, name);
    let r = rank(cs, name);
    let out = put(cs, name, node);
    assert forall|i: int| 0 <= i < out.len() implies (#[trigger] out[i]).node.wf() by {
        if has_child(cs, name) {
            if i != r {
                assert(out[i] == cs[i]);
            }
        } else {
            if i < r {
                assert(out[i] == cs[i]);
            } else if i > r {
                assert(out[i] == cs[i - 1]);
            }
        }
    }
}

/// Collecting well-formed nodes gives a sorted list of well-formed nodes.
pub proof fn lemma_collect_wf(es: Seq<EntryView>)
    requires
        forall|i: int| 0 <= i < es.len() ==> (#[trigger] es[i]).node.wf(),
    ensures
        names_sorted(collect(es)),
        forall|i: int| 0 <= i < collect(es).len() ==> (#[trigger] collect(es)[i]).node.wf(),
    decreases es.len(),
{
    if es.len() > 0 {
        let front = es.drop_last();
        assert forall|i: int| 0 <= i < front.len() implies (#[trigger] front[i]).node.wf() by {
            assert(front[i] == es[i]);
        }
        lemma_collect_wf(front);
        lemma_put(collect(front), es.last().name, es.last().node, es.last().name);
        lemma_put_wf(collect(front), es.last().name, es.last().node);
    }
}

/// What `live` keeps of a list that grows by one entry at its end.
pub proof fn lemma_live_push(cs: Seq<EntryView>, e: EntryView)
    ensures
        live(cs.push(e)) == if e.node.dirt == Some(Dirt::Deleted) {
            live(cs)
        } else {
            live(cs).push(e)
        },
{
    reveal(Seq::filter);
    assert(cs.push(e).drop_last() =~= cs);
}

/// What is left of a sorted list without its deleted entries is sorted, and
/// each entry of it is an entry of the list.
pub proof fn lemma_live_sorted(cs: Seq<EntryView>)
    requires
        names_sorted(cs),
    ensures
        names_sorted(live(cs)),
        forall|i: int| 0 <= i < live(cs).len() ==> cs.contains(#[trigger] live(cs)[i]),
    decreases cs.len(),
{
    reveal(Seq::filter);
    if cs.len() > 0 {
        let front = cs.drop_last();
        let last = cs.last();
        assert(names_sorted(front)) by {
            assert forall|i: int, j: int| 0 <= i < j < front.len() implies bytes_lt(
                #[trigger] front[i].name,
                #[trigger] front[j].name,
            ) by {
                assert(front[i] == cs[i] && front[j] == cs[j]);
            }
        }
        lemma_live_sorted(front);
        assert(cs =~= front.push(last));
        lemma_live_push(front, last);
        let out = live(cs);
        assert forall|i: int| 0 <= i < out.len() implies cs.contains(#[trigger] out[i]) by {
            if i < live(front).len() {
                let x = live(front)[i];
                assert(front.contains(x));
                let j = choose|j: int| 0 <= j < front.len() && front[j] == x;
                assert(cs[j] == x);
            } else {
                assert(out[i] == cs[cs.len() - 1]);
            }
        }
        assert forall|i: int, j: int| 0 <= i < j < out.len() implies bytes_lt(
            #[trigger] out[i].name,
            #[trigger] out[j].name,
        ) by {
            if j >= live(front).len() {
                let x = live(front)[i];
                assert(front.contains(x));
                let k = choose|k: int| 0 <= k < front.len() && front[k] == x;
                assert(cs[k] == x);
                assert(out[j] == cs[cs.len() - 1]);
            }
        }
    }
}

/// The position in a sorted list of entries at which `name` stands or would
/// be inserted, by binary search.
pub fn lower_bound(entries: &Vec<Entry>, name: &[u8]) -> (r: usize)
    requires
        names_sorted(entries_view(entries@)),
    ensures
        r == rank(entries_view(entries@), name@),
        r <= entries@.len(),
{
    let ghost cs = entries_view(entries@);
    let mut lo: usize = 0;
    let mut hi: usize = entries.len();
    while lo < hi
        invariant
            cs == entries_view(entries@),
            names_sorted(cs),
            lo <= hi <= entries@.len(),
            forall|i: int| 0 <= i < lo ==> bytes_lt(#[trigger] cs[i].name, name@),
            forall|i: int| hi <= i < cs.len() ==> !bytes_lt(#[trigger] cs[i].name, name@),
        decreases hi - lo,
    {
        let mid: usize = lo + (hi - lo) / 2;
        match compare_bytes(entries[mid].name.as_slice(), name) {
            Order::Less => {
                proof {
                    assert(bytes_lt(cs[mid as int].name, name@));
                    assert forall|i: int| 0 <= i < mid + 1 implies bytes_lt(#[trigger] cs[i].name, name@) by {
                        if i < mid {
                            lemma_bytes_lt_transitive(cs[i].name, cs[mid as int].name, name@);
                        }
                    }
                }
                lo = mid + 1;
            },
            _ => {
                proof {
                    lemma_bytes_lt_irreflexive(name@);
                    assert(!bytes_lt(cs[mid as int].name, name@));
                    assert forall|i: int| mid <= i < cs.len() implies !bytes_lt(#[trigger] cs[i].name, name@) by {
                        if i > mid && bytes_lt(cs[i].name, name@) {
                            lemma_bytes_lt_transitive(cs[mid as int].name, cs[i].name, name@);
                        }
                    }
                }
                hi = mid;
            },
        }
    }
    proof {
        lemma_rank_is(cs, name@, lo as int);
    }
    lo
}

/// The position of the entry called `name` in a sorted list of entries.
pub fn find_entry(entries: &Vec<Entry>, name: &[u8]) -> (r: Option<usize>)
    requires
        names_sorted(entries_view(entries@)),
    ensures
        r is Some <==> has_child(entries_view(entries@), name@),
        r matches Some(i) ==> i == rank(entries_view(entries@), name@) && i < entries@.len(),
{
    let i = lower_bound(entries, name);
    if i < entries.len() {
        match compare_bytes(entries[i].name.as_slice(), name) {
            Order::Equal => Some(i),
            _ => None,
        }
    } else {
        None
    }
}

/// Stores `e` in a sorted list of entries, in place of the entry of the same
/// name if there is one.
pub fn put_entry(entries: &mut Vec<Entry>, e: Entry)
    requires
        names_sorted(entries_view(old(entries)@)),
    ensures
        entries_view(final(entries)@) == put(entries_view(old(entries)@), e.name@, e.node@),
        names_sorted(entries_view(final(entries)@)),
{
    let ghost cs = entries_view(entries@);
    proof {
        lemma_put(cs, e.name@, e.node@, e.name@);
    }
    let r = lower_bound(entries, e.name.as_slice());
    let found = if r < entries.len() {
        match compare_bytes(entries[r].name.as_slice(), e.name.as_slice()) {
            Order::Equal => true,
            _ => false,
        }
    } else {
        false
    };
    if found {
        entries[r] = e;
    } else {
        entries.insert(r, e);
    }
    proof {
        assert(entries_view(entries@) =~= put(cs, e.name@, e.node@));
    }
}

/// Takes the entry called `name` out of a sorted list of entries.
pub fn remove_entry(entries: &mut Vec<Entry>, name: &[u8]) -> (r: Option<Entry>)
    requires
        names_sorted(entries_view(old(entries)@)),
    ensures
        entries_view(final(entries)@) == without(entries_view(old(entries)@), name@),
        names_sorted(entries_view(final(entries)@)),
        match r {
            Some(e) => child(entries_view(old(entries)@), name@) == Some(e.node@) && e.name@ == name@,
            None => child(entries_view(old(entries)@), name@) is None,
        },
{
    let ghost cs = entries_view(entries@);
    proof {
        lemma_without(cs, name@, name@);
    }
    match find_entry(entries, name) {
        Some(i) => {
            let e = entries.remove(i);
            proof {
                assert(entries_view(entries@) =~= without(cs, name@));
            }
            Some(e)
        },
        None => None,
    }
}

} // verus!
