//! Names for conflict copies.
//!
//! Where an entry is about to be overwritten or deleted although it was
//! changed, it is copied first. The copy stands beside the entry, under a
//! name that tells when the entry was last changed.

use vstd::prelude::*;
use crate::tree::Mtime;

verus! {

/// The decimal digits of `n`, as bytes.
pub open spec fn decimal(n: nat) -> Seq<u8>
    decreases n,
{
    if n < 10 {
        seq![(0x30 + n) as u8]
    } else {
        decimal(n / 10).push((0x30 + n % 10) as u8)
    }
}

/// The bytes of `conflict_`.
pub open spec fn conflict_prefix() -> Seq<u8> {
    seq![0x63u8, 0x6fu8, 0x6eu8, 0x66u8, 0x6cu8, 0x69u8, 0x63u8, 0x74u8, 0x5fu8]
}

/// The name of the conflict copy of an entry called `name` that was last
/// changed `secs` seconds after the Unix epoch: `conflict_`, the seconds in
/// decimal, `_`, and `name`.
pub open spec fn conflict_name(secs: u64, name: Seq<u8>) -> Seq<u8> {
    conflict_prefix() + decimal(secs as nat) + seq![0x5fu8] + name
}

/// Appends the decimal digits of `n` to `out`.
pub fn push_decimal(out: &mut Vec<u8>, n: u64)
    ensures
        final(out)@ == old(out)@ + decimal(n as nat),
    decreases n,
{
    if n >= 10 {
        push_decimal(out, n / 10);
    }
    let digit: u8 = (n % 10) as u8;
    out.push(0x30 + digit);
    assert(out@ =~= old(out)@ + decimal(n as nat));
}

/// The name of the conflict copy of the entry called `name` with the
/// modification time `mtime`.
pub fn make_conflict_name(mtime: &Mtime, name: &[u8]) -> (r: Vec<u8>)
    ensures
        r@ == conflict_name(mtime.secs, name@),
{
    let mut out: Vec<u8> = Vec::new();
    out.push(0x63);
    out.push(0x6f);
    out.push(0x6e);
    out.push(0x66);
    out.push(0x6c);
    out.push(0x69);
    out.push(0x63);
    out.push(0x74);
    out.push(0x5f);
    assert(out@ =~= conflict_prefix());
    push_decimal(&mut out, mtime.secs);
    out.push(0x5f);
    let ghost head = out@;
    let mut i: usize = 0;
    while i < name.len()
        invariant
            i <= name@.len(),
            out@ == head + name@.take(i as int),
        decreases name@.len() - i,
    {
        out.push(name[i]);
        proof {
            assert(out@ =~= head + name@.take(i + 1));
        }
        i += 1;
    }
    proof {
        assert(name@.take(name@.len() as int) =~= name@);
        assert(out@ =~= conflict_name(mtime.secs, name@));
    }
    out
}

} // verus!
