//! Folding a set of paths to the topmost ones.
//!
//! A [`PathAggregator`] keeps the paths that were marked, sorted, and without
//! any path that lies below another one that is kept.

use vstd::prelude::*;
use crate::order::Order;
use crate::path::{PathView, SyncPath};
use crate::path_lemmas::{
    lemma_between_prefix, lemma_path_lt_irreflexive, lemma_path_lt_total, lemma_path_lt_transitive,
    lemma_prefix_lt, lemma_prefix_transitive,
};

verus! {

/// The values of a list of paths, in the same order.
pub open spec fn paths_view(paths: Seq<SyncPath>) -> Seq<PathView> {
    Seq::new(paths.len(), |i: int| paths[i]@)
}

/// The paths of `s` are strictly increasing.
pub open spec fn sorted(s: Seq<PathView>) -> bool {
    forall|i: int, j: int| 0 <= i < j < s.len() ==> (#[trigger] s[i]).lt(#[trigger] s[j])
}

/// No path of `s` is another path of `s` or lies below one.
pub open spec fn prefix_free(s: Seq<PathView>) -> bool {
    forall|i: int, j: int|
        0 <= i < s.len() && 0 <= j < s.len() && i != j ==> !(#[trigger] s[i]).starts_with(#[trigger] s[j])
}

/// Some path of `s` is `p` or lies above `p`.
pub open spec fn covered(s: Seq<PathView>, p: PathView) -> bool {
    exists|i: int| 0 <= i < s.len() && p.starts_with(#[trigger] s[i])
}

/// A path comes before every other path that lies below it.
pub proof fn lemma_path_prefix_lt(a: PathView, b: PathView)
    requires
        b.starts_with(a),
        a != b,
    ensures
        a.lt(b),
{
    if a.segments == b.segments {
        assert(a == b);
    }
    lemma_prefix_lt(a.segments, b.segments);
}

/// What lies in the order between a path and a path below it lies below that
/// path too.
pub proof fn lemma_path_between(a: PathView, x: PathView, b: PathView)
    requires
        b.starts_with(a),
        a.lt(x),
        x.lt(b),
    ensures
        x.starts_with(a),
{
    lemma_between_prefix(a.segments, x.segments, b.segments);
}

/// What lies below a path lies below every path above that path.
pub proof fn lemma_starts_with_transitive(a: PathView, b: PathView, c: PathView)
    requires
        b.starts_with(a),
        c.starts_with(b),
    ensures
        c.starts_with(a),
{
    lemma_prefix_transitive(a.segments, b.segments, c.segments);
}

/// `out` is what marking `p` makes of `s`, where neither `p` nor a path above
/// it is in `s`: `out` is sorted and holds `p` and the paths of `s` that do
/// not lie below `p`.
pub open spec fn is_marked(s: Seq<PathView>, p: PathView, out: Seq<PathView>) -> bool {
    &&& sorted(out)
    &&& forall|q: PathView| out.contains(q) <==> (q == p || (s.contains(q) && !q.starts_with(p)))
}

/// What marking `p` makes of `s`. Where `p` or a path above it is in `s`,
/// that is `s`. Otherwise it is the sorted list of `p` and the paths of `s`
/// that do not lie below `p`.
pub open spec fn marked(s: Seq<PathView>, p: PathView) -> Seq<PathView> {
    if covered(s, p) {
        s
    } else {
        choose|out: Seq<PathView>| is_marked(s, p, out)
    }
}

/// What marking the paths `ps`, one after the other, makes of `s`.
pub open spec fn marked_all(s: Seq<PathView>, ps: Seq<PathView>) -> Seq<PathView>
    decreases ps.len(),
{
    if ps.len() == 0 {
        s
    } else {
        marked(marked_all(s, ps.drop_last()), ps.last())
    }
}

/// Two sorted lists that hold the same paths are one list.
pub proof fn lemma_sorted_unique(a: Seq<PathView>, b: Seq<PathView>)
    requires
        sorted(a),
        sorted(b),
        forall|q: PathView| a.contains(q) <==> b.contains(q),
    ensures
        a == b,
    decreases a.len(),
{
    if a.len() == 0 {
        if b.len() > 0 {
            assert(b.contains(b[0]));
            assert(a.contains(b[0]));
        }
        assert(a =~= b);
    } else {
        let x = a.last();
        assert(a.contains(x));
        assert(b.contains(x));
        let y = b.last();
        assert(b.contains(y));
        assert(a.contains(y));
        let i = choose|i: int| 0 <= i < a.len() && a[i] == y;
        let j = choose|j: int| 0 <= j < b.len() && b[j] == x;
        if x != y {
            assert(i < a.len() - 1);
            assert(a[i].lt(a[a.len() - 1]));
            assert(j < b.len() - 1);
            assert(b[j].lt(b[b.len() - 1]));
            lemma_path_lt_total(x, y);
        }
        let a0 = a.drop_last();
        let b0 = b.drop_last();
        assert forall|q: PathView| a0.contains(q) <==> b0.contains(q) by {
            if a0.contains(q) {
                let k = choose|k: int| 0 <= k < a0.len() && a0[k] == q;
                assert(a[k] == q);
                assert(a[k].lt(a[a.len() - 1]));
                lemma_path_lt_irreflexive(x);
                assert(a.contains(q));
                let m = choose|m: int| 0 <= m < b.len() && b[m] == q;
                assert(m < b.len() - 1);
                assert(b0[m] == q);
            }
            if b0.contains(q) {
                let k = choose|k: int| 0 <= k < b0.len() && b0[k] == q;
                assert(b[k] == q);
                assert(b[k].lt(b[b.len() - 1]));
                lemma_path_lt_irreflexive(x);
                assert(b.contains(q));
                let m = choose|m: int| 0 <= m < a.len() && a[m] == q;
                assert(m < a.len() - 1);
                assert(a0[m] == q);
            }
        }
        assert(sorted(a0)) by {
            assert forall|i: int, j: int| 0 <= i < j < a0.len() implies (#[trigger] a0[i]).lt(#[trigger] a0[j]) by {
                assert(a0[i] == a[i] && a0[j] == a[j]);
            }
        }
        assert(sorted(b0)) by {
            assert forall|i: int, j: int| 0 <= i < j < b0.len() implies (#[trigger] b0[i]).lt(#[trigger] b0[j]) by {
                assert(b0[i] == b[i] && b0[j] == b[j]);
            }
        }
        lemma_sorted_unique(a0, b0);
        assert(a =~= a0.push(x));
        assert(b =~= b0.push(y));
    }
}

/// The set of paths that were marked, folded to the topmost ones.
#[derive(Debug)]
pub struct PathAggregator {
    paths: Vec<SyncPath>,
}

impl View for PathAggregator {
    type V = Seq<PathView>;

    closed spec fn view(&self) -> Seq<PathView> {
        paths_view(self.paths@)
    }
}

impl PathAggregator {
    #[verifier::type_invariant]
    spec fn inv(self) -> bool {
        sorted(paths_view(self.paths@)) && prefix_free(paths_view(self.paths@))
    }

    /// An aggregator that holds no path.
    pub fn new() -> (a: PathAggregator)
        ensures
            a@ == Seq::<PathView>::empty(),
    {
        let a = PathAggregator { paths: Vec::new() };
        assert(a@ =~= Seq::<PathView>::empty());
        a
    }

    /// The paths that are retained, in sorted order.
    pub fn iter(&self) -> (r: &Vec<SyncPath>)
        ensures
            paths_view(r@) == self@,
            sorted(self@),
            prefix_free(self@),
    {
        proof {
            use_type_invariant(self);
        }
        &self.paths
    }

    /// The position of the first retained path that does not come before `p`.
    fn position(&self, p: &SyncPath) -> (r: usize)
        ensures
            r <= self@.len(),
            forall|i: int| 0 <= i < r ==> (#[trigger] self@[i]).lt(p@),
            forall|i: int| r <= i < self@.len() ==> !(#[trigger] self@[i]).lt(p@),
    {
        proof {
            use_type_invariant(self);
        }
        let ghost s = self@;
        let mut lo: usize = 0;
        let mut hi: usize = self.paths.len();
        while lo < hi
            invariant
                s == paths_view(self.paths@),
                sorted(s),
                lo <= hi <= s.len(),
                forall|i: int| 0 <= i < lo ==> (#[trigger] s[i]).lt(p@),
                forall|i: int| hi <= i < s.len() ==> !(#[trigger] s[i]).lt(p@),
            decreases hi - lo,
        {
            let mid: usize = lo + (hi - lo) / 2;
            match self.paths[mid].compare(p) {
                Order::Less => {
                    proof {
                        assert(s[mid as int].lt(p@));
                        assert forall|i: int| 0 <= i < mid + 1 implies (#[trigger] s[i]).lt(p@) by {
                            if i < mid {
                                lemma_path_lt_transitive(s[i], s[mid as int], p@);
                            }
                        }
                    }
                    lo = mid + 1;
                },
                _ => {
                    proof {
                        lemma_path_lt_irreflexive(p@);
                        assert(!s[mid as int].lt(p@));
                        assert forall|i: int| mid <= i < s.len() implies !(#[trigger] s[i]).lt(p@) by {
                            if i > mid && s[i].lt(p@) {
                                lemma_path_lt_transitive(s[mid as int], s[i], p@);
                            }
                        }
                    }
                    hi = mid;
                },
            }
        }
        lo
    }

    /// The position after the last retained path from `from` on that lies
    /// below `p`, where `from` is the position of `p` in the order.
    fn end_of_descendants(&self, p: &SyncPath, from: usize) -> (r: usize)
        requires
            from <= self@.len(),
            forall|i: int| 0 <= i < from ==> (#[trigger] self@[i]).lt(p@),
            forall|i: int| from <= i < self@.len() ==> p@.lt(#[trigger] self@[i]),
        ensures
            from <= r <= self@.len(),
            forall|i: int| from <= i < r ==> (#[trigger] self@[i]).starts_with(p@),
            forall|i: int| r <= i < self@.len() ==> !(#[trigger] self@[i]).starts_with(p@),
    {
        proof {
            use_type_invariant(self);
        }
        let ghost s = self@;
        let mut lo: usize = from;
        let mut hi: usize = self.paths.len();
        while lo < hi
            invariant
                s == paths_view(self.paths@),
                sorted(s),
                from <= lo <= hi <= s.len(),
                forall|i: int| from <= i < s.len() ==> p@.lt(#[trigger] s[i]),
                forall|i: int| from <= i < lo ==> (#[trigger] s[i]).starts_with(p@),
                forall|i: int| hi <= i < s.len() ==> !(#[trigger] s[i]).starts_with(p@),
            decreases hi - lo,
        {
            let mid: usize = lo + (hi - lo) / 2;
            if self.paths[mid].starts_with(p) {
                proof {
                    assert forall|i: int| from <= i < mid + 1 implies (#[trigger] s[i]).starts_with(p@) by {
                        if i < mid {
                            lemma_path_between(p@, s[i], s[mid as int]);
                        }
                    }
                }
                lo = mid + 1;
            } else {
                proof {
                    assert forall|i: int| mid <= i < s.len() implies !(#[trigger] s[i]).starts_with(p@) by {
                        if i > mid && s[i].starts_with(p@) {
                            lemma_path_between(p@, s[mid as int], s[i]);
                        }
                    }
                }
                hi = mid;
            }
        }
        lo
    }

    /// Marks `p`. Where `p` or a path above it is retained already, nothing
    /// changes. Otherwise `p` is retained from now on, and the paths below
    /// `p` that were retained are dropped.
    pub fn mark_path(&mut self, p: &SyncPath)
        ensures
            sorted(final(self)@),
            prefix_free(final(self)@),
            covered(old(self)@, p@) ==> final(self)@ == old(self)@,
            !covered(old(self)@, p@) ==> forall|q: PathView|
                final(self)@.contains(q) <==> (q == p@ || (old(self)@.contains(q) && !q.starts_with(p@))),
            covered(final(self)@, p@),
            forall|q: PathView| covered(old(self)@, q) ==> covered(final(self)@, q),
            final(self)@ == marked(old(self)@, p@),
    {
        proof {
            use_type_invariant(&*self);
        }
        let ghost s = self@;
        let idx = self.position(p);
        if idx < self.paths.len() {
            match self.paths[idx].compare(p) {
                Order::Equal => {
                    assert(p@.starts_with(s[idx as int])) by {
                        assert(p@.segments.take(p@.segments.len() as int) =~= p@.segments);
                    }
                    return ;
                },
                _ => {},
            }
        }
        if idx > 0 && p.starts_with(&self.paths[idx - 1]) {
            assert(p@.starts_with(s[idx - 1]));
            return ;
        }
        proof {
            // No retained path is `p` or lies above it.
            assert forall|i: int| 0 <= i < s.len() implies !p@.starts_with(#[trigger] s[i]) by {
                if p@.starts_with(s[i]) {
                    if s[i] == p@ {
                        lemma_path_lt_irreflexive(p@);
                        if i >= idx {
                            if i > idx {
                                assert(s[idx as int].lt(s[i]));
                            }
                        }
                    } else {
                        lemma_path_prefix_lt(s[i], p@);
                        if i < idx - 1 {
                            lemma_path_between(s[i], s[idx - 1], p@);
                        }
                    }
                }
            }
            assert forall|i: int| idx <= i < s.len() implies p@.lt(#[trigger] s[i]) by {
                lemma_path_lt_total(p@, s[i]);
                if s[i] == p@ {
                    assert(p@.segments.take(p@.segments.len() as int) =~= p@.segments);
                    assert(p@.starts_with(s[i]));
                }
            }
        }
        let end = self.end_of_descendants(p, idx);
        let mut kept: Vec<SyncPath> = Vec::new();
        std::mem::swap(&mut self.paths, &mut kept);
        let mut tail = kept.split_off(end);
        kept.truncate(idx);
        kept.push(p.clone_path());
        kept.append(&mut tail);
        proof {
            let out = paths_view(kept@);
            assert(out.len() == idx + 1 + (s.len() - end));
            assert forall|k: int| 0 <= k < out.len() implies #[trigger] out[k] == (if k < idx {
                s[k]
            } else if k == idx {
                p@
            } else {
                s[k - idx - 1 + end]
            }) by {}
            assert forall|i: int| 0 <= i < idx implies !(#[trigger] s[i]).starts_with(p@) by {
                if s[i].starts_with(p@) {
                    lemma_path_prefix_lt(p@, s[i]);
                    lemma_path_lt_total(p@, s[i]);
                }
            }
            assert(sorted(out));
            assert(prefix_free(out));
            assert(out[idx as int] == p@);
            assert(p@.starts_with(out[idx as int])) by {
                assert(p@.segments.take(p@.segments.len() as int) =~= p@.segments);
            }
            assert forall|q: PathView| out.contains(q) <==> (q == p@ || (s.contains(q) && !q.starts_with(p@))) by {
                if out.contains(q) {
                    let k = choose|k: int| 0 <= k < out.len() && out[k] == q;
                    if k < idx {
                        assert(s[k] == q);
                    } else if k > idx {
                        assert(s[k - idx - 1 + end] == q);
                    }
                }
                if s.contains(q) && !q.starts_with(p@) {
                    let k = choose|k: int| 0 <= k < s.len() && s[k] == q;
                    if k < idx {
                        assert(out[k] == q);
                    } else {
                        assert(k >= end);
                        assert(out[k - end + idx + 1] == q);
                    }
                }
            }
            assert forall|q: PathView| covered(s, q) implies covered(out, q) by {
                let i = choose|i: int| 0 <= i < s.len() && q.starts_with(#[trigger] s[i]);
                if i < idx {
                    assert(out[i] == s[i]);
                } else if i >= end {
                    assert(out[i - end + idx + 1] == s[i]);
                } else {
                    lemma_starts_with_transitive(p@, s[i], q);
                    assert(q.starts_with(out[idx as int]));
                }
            }
            assert(is_marked(s, p@, out));
            lemma_sorted_unique(marked(s, p@), out);
        }
        self.paths = kept;
    }
}

} // verus!
