//! Paths as lists of names.
//!
//! A [`SyncPath`] is a list of entry names, read from the top down, and a flag
//! that says whether the path starts at the filesystem root. The empty
//! relative path names the directory that a tree mirrors. Names are raw byte
//! strings; in the written form of a path they are separated by `/`.

use vstd::prelude::*;
use vstd::string::StringSliceAdditionalSpecFns;
use crate::order::{bytes_lt, compare_bytes, lemma_bytes_lt_irreflexive, lemma_bytes_lt_total, Order};

verus! {

/// The byte that separates the names of a written path, `/`.
pub const SEPARATOR: u8 = 0x2f;

/// The byte `.`, with which the names of hidden entries begin.
pub const DOT: u8 = 0x2e;

/// A path: its segments from the top down.
#[derive(Debug, PartialEq, Eq)]
pub struct SyncPath {
    /// The path starts at the filesystem root.
    pub absolute: bool,
    /// The names along the path.
    pub segments: Vec<Vec<u8>>,
}

/// The mathematical value of a [`SyncPath`].
pub ghost struct PathView {
    pub absolute: bool,
    pub segments: Seq<Seq<u8>>,
}

/// The byte strings that a list of names holds, in the same order.
pub open spec fn names_view(names: Seq<Vec<u8>>) -> Seq<Seq<u8>> {
    Seq::new(names.len(), |i: int| names[i]@)
}

impl View for SyncPath {
    type V = PathView;

    open spec fn view(&self) -> PathView {
        PathView { absolute: self.absolute, segments: names_view(self.segments@) }
    }
}

/// The empty relative path.
pub open spec fn root_path() -> PathView {
    PathView { absolute: false, segments: Seq::empty() }
}

/// The suffix that the names of encrypted files carry, `.gpg`.
pub open spec fn gpg_suffix() -> Seq<u8> {
    seq![0x2eu8, 0x67u8, 0x70u8, 0x67u8]
}

/// `name` ends in `.gpg`.
pub open spec fn ends_with_gpg(name: Seq<u8>) -> bool {
    name.len() >= 4 && name.subrange(name.len() - 4, name.len() as int) == gpg_suffix()
}

/// The name `.`, which stands for the directory itself.
pub open spec fn dot_name() -> Seq<u8> {
    seq![0x2eu8]
}

/// The name `..`, which stands for the directory above.
pub open spec fn dot_dot_name() -> Seq<u8> {
    seq![0x2eu8, 0x2eu8]
}

/// `name` begins with `.` and is neither `.` nor `..`.
pub open spec fn hidden_name(name: Seq<u8>) -> bool {
    name.len() > 0 && name[0] == DOT && name != dot_name() && name != dot_dot_name()
}

/// `a` is `b` or a path above `b`: the segments of `a` are the first segments
/// of `b`.
pub open spec fn is_prefix(a: Seq<Seq<u8>>, b: Seq<Seq<u8>>) -> bool {
    a.len() <= b.len() && b.take(a.len() as int) == a
}

/// `a` comes strictly before `b`: segment by segment, each pair of segments
/// in byte order.
pub open spec fn segs_lt(a: Seq<Seq<u8>>, b: Seq<Seq<u8>>) -> bool
    decreases a.len(),
{
    if b.len() == 0 {
        false
    } else if a.len() == 0 {
        true
    } else if a[0] != b[0] {
        bytes_lt(a[0], b[0])
    } else {
        segs_lt(a.skip(1), b.skip(1))
    }
}

impl PathView {
    /// This path is `other` or lies below it.
    pub open spec fn starts_with(self, other: PathView) -> bool {
        self.absolute == other.absolute && is_prefix(other.segments, self.segments)
    }

    /// This path comes strictly before `other`. Absolute paths come before
    /// relative ones.
    pub open spec fn lt(self, other: PathView) -> bool {
        if self.absolute != other.absolute {
            self.absolute
        } else {
            segs_lt(self.segments, other.segments)
        }
    }

    /// What a comparison of this path with `other` yields.
    pub open spec fn order(self, other: PathView) -> Order {
        if self == other {
            Order::Equal
        } else if self.lt(other) {
            Order::Less
        } else {
            Order::Greater
        }
    }

    /// Some segment of the path is the name of a hidden entry.
    pub open spec fn is_hidden(self) -> bool {
        exists|i: int| 0 <= i < self.segments.len() && hidden_name(#[trigger] self.segments[i])
    }

    /// The path with `name` as a further segment.
    pub open spec fn push(self, name: Seq<u8>) -> PathView {
        PathView { absolute: self.absolute, segments: self.segments.push(name) }
    }

    /// The path that `other` names when it is read from this path: `other`
    /// itself where it is absolute, else this path followed by `other`.
    pub open spec fn join(self, other: PathView) -> PathView {
        if other.absolute {
            other
        } else {
            PathView { absolute: self.absolute, segments: self.segments + other.segments }
        }
    }

    /// The path with `.gpg` added to its last segment.
    pub open spec fn with_gpg_suffix(self) -> PathView {
        PathView {
            absolute: self.absolute,
            segments: self.segments.drop_last().push(self.segments.last() + gpg_suffix()),
        }
    }

    /// The path with the last four bytes of its last segment taken off.
    pub open spec fn without_gpg_suffix(self) -> PathView {
        PathView {
            absolute: self.absolute,
            segments: self.segments.drop_last().push(
                self.segments.last().take(self.segments.last().len() - 4),
            ),
        }
    }
}

/// A run of bytes between two separators is a segment unless it is empty or
/// is the name `.`.
pub open spec fn is_segment(piece: Seq<u8>) -> bool {
    piece.len() > 0 && piece != dot_name()
}

/// `done` with `piece` added where `piece` is a segment.
pub open spec fn flush(done: Seq<Seq<u8>>, piece: Seq<u8>) -> Seq<Seq<u8>> {
    if is_segment(piece) {
        done.push(piece)
    } else {
        done
    }
}

/// The segments that `bytes` holds before its last separator, and the bytes
/// after that separator.
pub open spec fn scan(bytes: Seq<u8>) -> (Seq<Seq<u8>>, Seq<u8>)
    decreases bytes.len(),
{
    if bytes.len() == 0 {
        (Seq::empty(), Seq::empty())
    } else {
        let (done, piece) = scan(bytes.drop_last());
        if bytes.last() == SEPARATOR {
            (flush(done, piece), Seq::empty())
        } else {
            (done, piece.push(bytes.last()))
        }
    }
}

/// The path that `bytes` spells: it is absolute where `bytes` begins with a
/// separator, and its segments are the runs of bytes between separators,
/// without the empty runs and without the runs that are the name `.`.
pub open spec fn parse(bytes: Seq<u8>) -> PathView {
    PathView {
        absolute: bytes.len() > 0 && bytes[0] == SEPARATOR,
        segments: flush(scan(bytes).0, scan(bytes).1),
    }
}

/// The segments joined by separators.
pub open spec fn render_segments(segments: Seq<Seq<u8>>) -> Seq<u8>
    decreases segments.len(),
{
    if segments.len() == 0 {
        Seq::empty()
    } else if segments.len() == 1 {
        segments[0]
    } else {
        render_segments(segments.drop_last()) + seq![SEPARATOR] + segments.last()
    }
}

/// The written form of a path: its segments joined by separators, after a
/// separator where the path is absolute.
pub open spec fn render(p: PathView) -> Seq<u8> {
    if p.absolute {
        seq![SEPARATOR] + render_segments(p.segments)
    } else {
        render_segments(p.segments)
    }
}

/// Compares two lists of names segment by segment.
pub fn compare_segments(a: &Vec<Vec<u8>>, b: &Vec<Vec<u8>>) -> (r: Order)
    ensures
        r == (if names_view(a@) == names_view(b@) {
            Order::Equal
        } else if segs_lt(names_view(a@), names_view(b@)) {
            Order::Less
        } else {
            Order::Greater
        }),
{
    let ghost sa = names_view(a@);
    let ghost sb = names_view(b@);
    let mut i: usize = 0;
    proof {
        assert(sa.skip(0) =~= sa);
        assert(sb.skip(0) =~= sb);
    }
    while i < a.len() && i < b.len()
        invariant
            sa == names_view(a@),
            sb == names_view(b@),
            i <= sa.len(),
            i <= sb.len(),
            sa.take(i as int) == sb.take(i as int),
            segs_lt(sa, sb) == segs_lt(sa.skip(i as int), sb.skip(i as int)),
            segs_lt(sb, sa) == segs_lt(sb.skip(i as int), sa.skip(i as int)),
        decreases sa.len() - i,
    {
        proof {
            assert(sa.skip(i as int)[0] == sa[i as int]);
            assert(sb.skip(i as int)[0] == sb[i as int]);
            lemma_bytes_lt_total(sa[i as int], sb[i as int]);
        }
        match compare_bytes(a[i].as_slice(), b[i].as_slice()) {
            Order::Less => {
                assert(sa != sb);
                return Order::Less;
            },
            Order::Greater => {
                assert(sa != sb);
                return Order::Greater;
            },
            Order::Equal => {},
        }
        proof {
            assert(sa.skip(i as int).skip(1) =~= sa.skip(i + 1));
            assert(sb.skip(i as int).skip(1) =~= sb.skip(i + 1));
            assert(sa.take(i + 1) =~= sa.take(i as int).push(sa[i as int]));
            assert(sb.take(i + 1) =~= sb.take(i as int).push(sb[i as int]));
        }
        i += 1;
    }
    if i < b.len() {
        assert(sa.len() != sb.len());
        Order::Less
    } else if i < a.len() {
        assert(sa.len() != sb.len());
        Order::Greater
    } else {
        assert(sa =~= sa.take(i as int));
        assert(sb =~= sb.take(i as int));
        Order::Equal
    }
}

/// A copy of a name.
pub fn clone_name(name: &Vec<u8>) -> (r: Vec<u8>)
    ensures
        r@ == name@,
{
    name.clone()
}

/// Whether `name` ends in `.gpg`.
pub fn has_gpg_suffix(name: &[u8]) -> (r: bool)
    ensures
        r == ends_with_gpg(name@),
{
    let n = name.len();
    if n < 4 {
        return false;
    }
    let r = name[n - 4] == 0x2e && name[n - 3] == 0x67 && name[n - 2] == 0x70 && name[n - 1] == 0x67;
    proof {
        let tail = name@.subrange(n - 4, n as int);
        assert(tail[0] == name@[n - 4] && tail[1] == name@[n - 3] && tail[2] == name@[n - 2] && tail[3]
            == name@[n - 1]);
        if r {
            assert(tail =~= gpg_suffix());
        }
    }
    r
}

/// Whether `name` is the name of a hidden entry: it begins with `.` and is
/// neither `.` nor `..`.
pub fn is_hidden_name(name: &[u8]) -> (r: bool)
    ensures
        r == hidden_name(name@),
{
    let n = name.len();
    if n == 0 || name[0] != DOT {
        return false;
    }
    if n == 1 {
        assert(name@ =~= dot_name());
        return false;
    }
    if n == 2 && name[1] == DOT {
        assert(name@ =~= dot_dot_name());
        return false;
    }
    proof {
        if n == 2 {
            assert(dot_dot_name()[1] == DOT);
        }
    }
    true
}

impl SyncPath {
    /// The segments of the path.
    pub open spec fn segs(&self) -> Seq<Seq<u8>> {
        names_view(self.segments@)
    }

    /// The empty relative path.
    pub fn new() -> (p: SyncPath)
        ensures
            p@ == root_path(),
    {
        let p = SyncPath { absolute: false, segments: Vec::new() };
        assert(p.segs() =~= Seq::empty());
        p
    }

    /// Reads a path from its written form.
    pub fn from_bytes(bytes: &[u8]) -> (p: SyncPath)
        ensures
            p@ == parse(bytes@),
    {
        let mut segments: Vec<Vec<u8>> = Vec::new();
        let mut piece: Vec<u8> = Vec::new();
        let mut i: usize = 0;
        proof {
            assert(names_view(segments@) =~= Seq::<Seq<u8>>::empty());
            assert(bytes@.take(0) =~= Seq::<u8>::empty());
        }
        while i < bytes.len()
            invariant
                i <= bytes@.len(),
                (names_view(segments@), piece@) == scan(bytes@.take(i as int)),
            decreases bytes@.len() - i,
        {
            let b = bytes[i];
            proof {
                assert(bytes@.take(i + 1).drop_last() =~= bytes@.take(i as int));
                assert(bytes@.take(i + 1).last() == b);
            }
            if b == SEPARATOR {
                SyncPath::flush_piece(&mut segments, piece);
                piece = Vec::new();
            } else {
                piece.push(b);
            }
            i += 1;
        }
        proof {
            assert(bytes@.take(bytes@.len() as int) =~= bytes@);
        }
        SyncPath::flush_piece(&mut segments, piece);
        SyncPath { absolute: bytes.len() > 0 && bytes[0] == SEPARATOR, segments }
    }

    /// Adds `piece` to `segments` where it is a segment.
    fn flush_piece(segments: &mut Vec<Vec<u8>>, piece: Vec<u8>)
        ensures
            names_view(final(segments)@) == flush(names_view(old(segments)@), piece@),
    {
        let n = piece.len();
        if n == 0 {
            return ;
        }
        if n == 1 && piece[0] == DOT {
            assert(piece@ =~= dot_name());
            return ;
        }
        proof {
            if n == 1 {
                assert(dot_name()[0] == DOT);
            }
        }
        segments.push(piece);
        assert(names_view(segments@) =~= names_view(old(segments)@).push(piece@));
    }

    /// Reads a path from its written form.
    pub fn from_str(s: &str) -> (p: SyncPath)
        ensures
            p@ == parse(s.spec_bytes()),
    {
        SyncPath::from_bytes(s.as_bytes())
    }

    /// The written form of the path.
    pub fn to_bytes(&self) -> (bytes: Vec<u8>)
        ensures
            bytes@ == render(self@),
    {
        let mut out: Vec<u8> = Vec::new();
        if self.absolute {
            out.push(SEPARATOR);
        }
        let ghost lead = out@;
        let mut i: usize = 0;
        proof {
            assert(self@.segments.take(0) =~= Seq::<Seq<u8>>::empty());
            assert(out@ =~= lead + render_segments(self@.segments.take(0)));
        }
        while i < self.segments.len()
            invariant
                i <= self.segments@.len(),
                out@ == lead + render_segments(self@.segments.take(i as int)),
            decreases self.segments@.len() - i,
        {
            if i > 0 {
                out.push(SEPARATOR);
            }
            let name = &self.segments[i];
            let mut k: usize = 0;
            let ghost start = out@;
            while k < name.len()
                invariant
                    k <= name@.len(),
                    out@ == start + name@.take(k as int),
                decreases name@.len() - k,
            {
                out.push(name[k]);
                proof {
                    assert(name@.take(k + 1) =~= name@.take(k as int).push(name@[k as int]));
                    assert(out@ =~= start + name@.take(k + 1));
                }
                k += 1;
            }
            proof {
                assert(name@.take(name@.len() as int) =~= name@);
                let t = self@.segments.take(i + 1);
                assert(t.drop_last() =~= self@.segments.take(i as int));
                assert(t.last() == name@);
                assert(out@ =~= lead + render_segments(t));
            }
            i += 1;
        }
        proof {
            assert(self@.segments.take(self@.segments.len() as int) =~= self@.segments);
            if !self.absolute {
                assert(lead + render_segments(self@.segments) =~= render_segments(self@.segments));
            }
        }
        out
    }

    /// The number of segments.
    pub fn len(&self) -> (n: usize)
        ensures
            n == self@.segments.len(),
    {
        self.segments.len()
    }

    /// Whether the path does not start at the filesystem root.
    pub fn is_relative(&self) -> (r: bool)
        ensures
            r == !self@.absolute,
    {
        !self.absolute
    }

    /// A copy of the path.
    pub fn clone_path(&self) -> (r: SyncPath)
        ensures
            r@ == self@,
    {
        let mut segments: Vec<Vec<u8>> = Vec::new();
        let mut i: usize = 0;
        while i < self.segments.len()
            invariant
                i <= self.segments@.len(),
                segments@.len() == i,
                forall|k: int| 0 <= k < i ==> (#[trigger] segments@[k])@ == self.segments@[k]@,
            decreases self.segments@.len() - i,
        {
            segments.push(clone_name(&self.segments[i]));
            i += 1;
        }
        let r = SyncPath { absolute: self.absolute, segments };
        assert(r.segs() =~= self.segs());
        r
    }

    /// Adds `name` as a further segment.
    pub fn push(&mut self, name: &[u8])
        ensures
            final(self)@ == old(self)@.push(name@),
    {
        self.segments.push(vstd::slice::slice_to_vec(name));
        assert(self.segs() =~= old(self).segs().push(name@));
    }

    /// The path with `name` as a further segment.
    pub fn join_name(&self, name: &[u8]) -> (r: SyncPath)
        ensures
            r@ == self@.push(name@),
    {
        let mut r = self.clone_path();
        r.push(name);
        r
    }

    /// Takes the last segment off. A path without segments stays as it is.
    pub fn pop(&mut self) -> (r: bool)
        ensures
            r == (old(self)@.segments.len() > 0),
            final(self)@.absolute == old(self)@.absolute,
            r ==> final(self)@.segments == old(self)@.segments.drop_last(),
            !r ==> final(self)@ == old(self)@,
    {
        match self.segments.pop() {
            Some(_) => {
                assert(self.segs() =~= old(self).segs().drop_last());
                true
            },
            None => false,
        }
    }

    /// The last segment, if there is one.
    pub fn file_name(&self) -> (r: Option<&Vec<u8>>)
        ensures
            match r {
                Some(name) => self@.segments.len() > 0 && name@ == self@.segments.last(),
                None => self@.segments.len() == 0,
            },
    {
        let n = self.segments.len();
        if n == 0 {
            None
        } else {
            Some(&self.segments[n - 1])
        }
    }

    /// The path that `other` names when it is read from this path.
    pub fn join(&self, other: &SyncPath) -> (r: SyncPath)
        ensures
            r@ == self@.join(other@),
    {
        if other.absolute {
            return other.clone_path();
        }
        let mut r = self.clone_path();
        let mut i: usize = 0;
        while i < other.segments.len()
            invariant
                i <= other.segments@.len(),
                r@.absolute == self@.absolute,
                r@.segments == self@.segments + other@.segments.take(i as int),
            decreases other.segments@.len() - i,
        {
            r.push(other.segments[i].as_slice());
            proof {
                assert(other@.segments.take(i + 1) =~= other@.segments.take(i as int).push(
                    other@.segments[i as int],
                ));
                assert(r@.segments =~= self@.segments + other@.segments.take(i + 1));
            }
            i += 1;
        }
        proof {
            assert(other@.segments.take(other@.segments.len() as int) =~= other@.segments);
        }
        r
    }

    /// Whether the path is `base` or lies below it.
    pub fn starts_with(&self, base: &SyncPath) -> (r: bool)
        ensures
            r == self@.starts_with(base@),
    {
        if self.absolute != base.absolute || base.segments.len() > self.segments.len() {
            return false;
        }
        let mut i: usize = 0;
        while i < base.segments.len()
            invariant
                i <= base.segments@.len() <= self.segments@.len(),
                self@.segments.take(i as int) == base@.segments.take(i as int),
            decreases base.segments@.len() - i,
        {
            match compare_bytes(self.segments[i].as_slice(), base.segments[i].as_slice()) {
                Order::Equal => {},
                _ => {
                    proof {
                        lemma_bytes_lt_irreflexive(self@.segments[i as int]);
                        if is_prefix(base@.segments, self@.segments) {
                            assert(self@.segments.take(base@.segments.len() as int)[i as int]
                                == base@.segments[i as int]);
                        }
                    }
                    return false;
                },
            }
            proof {
                assert(self@.segments.take(i + 1) =~= self@.segments.take(i as int).push(
                    self@.segments[i as int],
                ));
                assert(base@.segments.take(i + 1) =~= base@.segments.take(i as int).push(
                    base@.segments[i as int],
                ));
            }
            i += 1;
        }
        proof {
            assert(base@.segments.take(i as int) =~= base@.segments);
        }
        true
    }

    /// The rest of the path below `base`, as a relative path, where the path
    /// is `base` or lies below it.
    pub fn strip_prefix(&self, base: &SyncPath) -> (r: Option<SyncPath>)
        ensures
            match r {
                Some(rest) => self@.starts_with(base@) && rest@ == (PathView {
                    absolute: false,
                    segments: self@.segments.skip(base@.segments.len() as int),
                }),
                None => !self@.starts_with(base@),
            },
    {
        if !self.starts_with(base) {
            return None;
        }
        let mut rest = SyncPath::new();
        let mut i: usize = base.segments.len();
        let ghost from = base@.segments.len() as int;
        while i < self.segments.len()
            invariant
                0 <= from <= i <= self.segments@.len(),
                !rest@.absolute,
                rest@.segments == self@.segments.subrange(from, i as int),
            decreases self.segments@.len() - i,
        {
            rest.push(self.segments[i].as_slice());
            proof {
                assert(rest@.segments =~= self@.segments.subrange(from, i + 1));
            }
            i += 1;
        }
        proof {
            assert(self@.segments.subrange(from, self@.segments.len() as int) =~= self@.segments.skip(from));
        }
        Some(rest)
    }

    /// Compares the path with `other`. Absolute paths come before relative
    /// ones; otherwise the segments decide, one after the other, by byte
    /// order.
    pub fn compare(&self, other: &SyncPath) -> (r: Order)
        ensures
            r == self@.order(other@),
    {
        if self.absolute != other.absolute {
            if self.absolute {
                Order::Less
            } else {
                Order::Greater
            }
        } else {
            compare_segments(&self.segments, &other.segments)
        }
    }

    /// Whether some segment other than `.` and `..` begins with `.`.
    pub fn is_hidden(&self) -> (r: bool)
        ensures
            r == self@.is_hidden(),
    {
        let mut i: usize = 0;
        while i < self.segments.len()
            invariant
                i <= self.segments@.len(),
                forall|k: int| 0 <= k < i ==> !hidden_name(#[trigger] self@.segments[k]),
            decreases self.segments@.len() - i,
        {
            if is_hidden_name(self.segments[i].as_slice()) {
                assert(hidden_name(self@.segments[i as int]));
                return true;
            }
            i += 1;
        }
        false
    }
}

/// The path `p` with `.gpg` added to its last segment.
pub fn add_gpg_suffix(p: &SyncPath) -> (r: SyncPath)
    requires
        p@.segments.len() > 0,
    ensures
        r@ == p@.with_gpg_suffix(),
{
    let mut r = p.clone_path();
    let last = r.segments.pop();
    match last {
        Some(mut name) => {
            name.push(0x2e);
            name.push(0x67);
            name.push(0x70);
            name.push(0x67);
            proof {
                assert(name@ =~= p@.segments.last() + gpg_suffix());
            }
            r.segments.push(name);
        },
        None => {},
    }
    proof {
        assert(r@.segments =~= p@.with_gpg_suffix().segments);
    }
    r
}

/// The path `p` with the `.gpg` at the end of its last segment taken off.
pub fn remove_gpg_suffix(p: &SyncPath) -> (r: SyncPath)
    requires
        p@.segments.len() > 0,
        ends_with_gpg(p@.segments.last()),
    ensures
        r@ == p@.without_gpg_suffix(),
{
    let mut r = p.clone_path();
    let last = r.segments.pop();
    match last {
        Some(mut name) => {
            let n = name.len();
            name.truncate(n - 4);
            proof {
                assert(name@ =~= p@.segments.last().take(p@.segments.last().len() - 4));
            }
            r.segments.push(name);
        },
        None => {},
    }
    proof {
        assert(r@.segments =~= p@.without_gpg_suffix().segments);
    }
    r
}

impl Clone for SyncPath {
    fn clone(&self) -> (r: SyncPath)
        ensures
            r@ == self@,
    {
        self.clone_path()
    }
}

} // verus!
