//! What holds of the order of paths and of their written form.

use vstd::prelude::*;
use crate::order::{lemma_bytes_lt_irreflexive, lemma_bytes_lt_total, lemma_bytes_lt_transitive};
use crate::path::{
    flush, is_prefix, is_segment, parse, render, render_segments, scan, segs_lt, PathView, SEPARATOR,
};

verus! {

/// No list of segments comes before itself.
pub proof fn lemma_segs_lt_irreflexive(a: Seq<Seq<u8>>)
    ensures
        !segs_lt(a, a),
    decreases a.len(),
{
    if a.len() > 0 {
        lemma_segs_lt_irreflexive(a.skip(1));
    }
}

/// Of two different lists of segments exactly one comes before the other.
pub proof fn lemma_segs_lt_total(a: Seq<Seq<u8>>, b: Seq<Seq<u8>>)
    ensures
        a == b || segs_lt(a, b) || segs_lt(b, a),
        !(segs_lt(a, b) && segs_lt(b, a)),
    decreases a.len(),
{
    if a.len() == 0 || b.len() == 0 {
        if a.len() == 0 && b.len() == 0 {
            assert(a =~= b);
        }
    } else if a[0] == b[0] {
        lemma_segs_lt_total(a.skip(1), b.skip(1));
        if a.skip(1) == b.skip(1) {
            assert(a =~= seq![a[0]] + a.skip(1));
            assert(b =~= seq![b[0]] + b.skip(1));
        }
    } else {
        lemma_bytes_lt_total(a[0], b[0]);
    }
}

/// The order on lists of segments is transitive.
pub proof fn lemma_segs_lt_transitive(a: Seq<Seq<u8>>, b: Seq<Seq<u8>>, c: Seq<Seq<u8>>)
    requires
        segs_lt(a, b),
        segs_lt(b, c),
    ensures
        segs_lt(a, c),
    decreases a.len(),
{
    if a.len() > 0 {
        if a[0] == b[0] && b[0] == c[0] {
            lemma_segs_lt_transitive(a.skip(1), b.skip(1), c.skip(1));
        } else if a[0] != b[0] && b[0] != c[0] {
            lemma_bytes_lt_transitive(a[0], b[0], c[0]);
            lemma_bytes_lt_irreflexive(a[0]);
        }
    }
}

/// No path comes before itself.
pub proof fn lemma_path_lt_irreflexive(a: PathView)
    ensures
        !a.lt(a),
{
    lemma_segs_lt_irreflexive(a.segments);
}

/// Of two different paths exactly one comes before the other.
pub proof fn lemma_path_lt_total(a: PathView, b: PathView)
    ensures
        a == b || a.lt(b) || b.lt(a),
        !(a.lt(b) && b.lt(a)),
{
    lemma_segs_lt_total(a.segments, b.segments);
}

/// The order on paths is transitive.
pub proof fn lemma_path_lt_transitive(a: PathView, b: PathView, c: PathView)
    requires
        a.lt(b),
        b.lt(c),
    ensures
        a.lt(c),
{
    if a.absolute == b.absolute && b.absolute == c.absolute {
        lemma_segs_lt_transitive(a.segments, b.segments, c.segments);
    }
}

/// A path comes before every path that lies strictly below it.
pub proof fn lemma_prefix_lt(a: Seq<Seq<u8>>, b: Seq<Seq<u8>>)
    requires
        is_prefix(a, b),
        a != b,
    ensures
        segs_lt(a, b),
    decreases a.len(),
{
    if a.len() == b.len() {
        assert(b.take(a.len() as int) =~= b);
    }
    if a.len() > 0 {
        assert(b.take(a.len() as int)[0] == b[0]);
        assert(b.skip(1).take(a.len() - 1) =~= b.take(a.len() as int).skip(1));
        lemma_prefix_lt(a.skip(1), b.skip(1));
        if a.skip(1) == b.skip(1) {
            assert(a =~= seq![a[0]] + a.skip(1));
            assert(b =~= seq![b[0]] + b.skip(1));
        }
    }
}

/// What lies in the order between a path and a path below it lies below that
/// path too.
pub proof fn lemma_between_prefix(a: Seq<Seq<u8>>, x: Seq<Seq<u8>>, b: Seq<Seq<u8>>)
    requires
        is_prefix(a, b),
        segs_lt(a, x),
        segs_lt(x, b),
    ensures
        is_prefix(a, x),
    decreases a.len(),
{
    if a.len() == 0 {
        assert(x.take(0) =~= a);
    } else {
        assert(b.take(a.len() as int)[0] == b[0]);
        lemma_bytes_lt_irreflexive(a[0]);
        if a[0] != x[0] {
            lemma_bytes_lt_total(a[0], x[0]);
        }
        assert(b.skip(1).take(a.len() - 1) =~= b.take(a.len() as int).skip(1));
        lemma_between_prefix(a.skip(1), x.skip(1), b.skip(1));
        assert(x.take(a.len() as int) =~= seq![x[0]] + x.skip(1).take(a.len() - 1));
        assert(a =~= seq![a[0]] + a.skip(1));
    }
}

/// Being a prefix is transitive.
pub proof fn lemma_prefix_transitive(a: Seq<Seq<u8>>, b: Seq<Seq<u8>>, c: Seq<Seq<u8>>)
    requires
        is_prefix(a, b),
        is_prefix(b, c),
    ensures
        is_prefix(a, c),
{
    assert(c.take(a.len() as int) =~= c.take(b.len() as int).take(a.len() as int));
}

/// A name that can stand in a written path: it is not empty, is not the
/// name `.`, and holds no separator.
pub open spec fn plain_name(name: Seq<u8>) -> bool {
    is_segment(name) && forall|i: int| 0 <= i < name.len() ==> name[i] != SEPARATOR
}

/// Every segment of the path can stand in a written path.
pub open spec fn plain_names(segments: Seq<Seq<u8>>) -> bool {
    forall|i: int| 0 <= i < segments.len() ==> plain_name(#[trigger] segments[i])
}

/// Reading bytes that hold no separator adds them to the bytes after the
/// last separator.
pub proof fn lemma_scan_name(prefix: Seq<u8>, name: Seq<u8>)
    requires
        forall|i: int| 0 <= i < name.len() ==> name[i] != SEPARATOR,
    ensures
        scan(prefix + name) == (scan(prefix).0, scan(prefix).1 + name),
    decreases name.len(),
{
    if name.len() == 0 {
        assert(prefix + name =~= prefix);
        assert(scan(prefix).1 + name =~= scan(prefix).1);
    } else {
        let front = name.drop_last();
        lemma_scan_name(prefix, front);
        assert((prefix + name).drop_last() =~= prefix + front);
        assert((prefix + name).last() == name.last());
        assert((scan(prefix).1 + front).push(name.last()) =~= scan(prefix).1 + name);
    }
}

/// What is read after two byte strings that were read to the same effect is
/// read to the same effect.
pub proof fn lemma_scan_same(a: Seq<u8>, b: Seq<u8>, rest: Seq<u8>)
    requires
        scan(a) == scan(b),
    ensures
        scan(a + rest) == scan(b + rest),
    decreases rest.len(),
{
    if rest.len() == 0 {
        assert(a + rest =~= a);
        assert(b + rest =~= b);
    } else {
        lemma_scan_same(a, b, rest.drop_last());
        assert((a + rest).drop_last() =~= a + rest.drop_last());
        assert((b + rest).drop_last() =~= b + rest.drop_last());
        assert((a + rest).last() == rest.last());
        assert((b + rest).last() == rest.last());
    }
}

/// Reading the written form of a list of names gives the names: all but the
/// last one are complete, and the last one is what follows the last
/// separator.
pub proof fn lemma_scan_render(segments: Seq<Seq<u8>>)
    requires
        plain_names(segments),
        segments.len() > 0,
    ensures
        scan(render_segments(segments)) == (segments.drop_last(), segments.last()),
    decreases segments.len(),
{
    let empty = Seq::<u8>::empty();
    if segments.len() == 1 {
        assert(plain_name(segments[0]));
        lemma_scan_name(empty, segments[0]);
        assert(empty + segments[0] =~= segments[0]);
        assert(segments.drop_last() =~= Seq::<Seq<u8>>::empty());
    } else {
        let front = segments.drop_last();
        assert(plain_names(front)) by {
            assert forall|i: int| 0 <= i < front.len() implies plain_name(#[trigger] front[i]) by {
                assert(front[i] == segments[i]);
            }
        }
        lemma_scan_render(front);
        assert(plain_name(front[front.len() - 1]));
        assert(plain_name(segments[segments.len() - 1]));
        let head = render_segments(front) + seq![SEPARATOR];
        assert(head.drop_last() =~= render_segments(front));
        assert(head.last() == SEPARATOR);
        assert(flush(front.drop_last(), front.last()) =~= front);
        assert(scan(head) == (front, empty));
        lemma_scan_name(head, segments.last());
        assert(empty + segments.last() =~= segments.last());
    }
}

/// The written form of a list of names begins with the first byte of the
/// first name.
pub proof fn lemma_render_first(segments: Seq<Seq<u8>>)
    requires
        plain_names(segments),
        segments.len() > 0,
    ensures
        render_segments(segments).len() > 0,
        render_segments(segments)[0] == segments[0][0],
    decreases segments.len(),
{
    assert(plain_name(segments[0]));
    if segments.len() > 1 {
        let front = segments.drop_last();
        assert(plain_names(front)) by {
            assert forall|i: int| 0 <= i < front.len() implies plain_name(#[trigger] front[i]) by {
                assert(front[i] == segments[i]);
            }
        }
        lemma_render_first(front);
        assert(front[0] == segments[0]);
    }
}

/// Reading the written form of a path gives the path back, where every
/// segment of the path can stand in a written path.
pub proof fn lemma_parse_render(p: PathView)
    requires
        plain_names(p.segments),
    ensures
        parse(render(p)) == p,
{
    let empty = Seq::<u8>::empty();
    let body = render_segments(p.segments);
    let lead = seq![SEPARATOR];
    assert(lead.drop_last() =~= empty);
    assert(scan(lead) == scan(empty));
    lemma_scan_same(lead, empty, body);
    assert(empty + body =~= body);
    if p.segments.len() == 0 {
        assert(lead + body =~= lead);
        assert(parse(render(p)).segments =~= p.segments);
    } else {
        lemma_scan_render(p.segments);
        assert(plain_name(p.segments[p.segments.len() - 1]));
        assert(flush(p.segments.drop_last(), p.segments.last()) =~= p.segments);
        assert(plain_name(p.segments[0]));
        lemma_render_first(p.segments);
    }
}

} // verus!
