//! Big-endian encodings of the scalar fields used by the on-disk records.
//!
//! All multi-byte scalars are stored big-endian so that files are portable
//! and readable in a hex dump.

use vstd::prelude::*;

verus! {

/// The eight big-endian bytes of `x`, most significant first.
#[verifier::opaque]
pub open spec fn be64(x: u64) -> Seq<u8> {
    seq![
        ((x >> 56) & 0xff) as u8,
        ((x >> 48) & 0xff) as u8,
        ((x >> 40) & 0xff) as u8,
        ((x >> 32) & 0xff) as u8,
        ((x >> 24) & 0xff) as u8,
        ((x >> 16) & 0xff) as u8,
        ((x >> 8) & 0xff) as u8,
        (x & 0xff) as u8,
    ]
}

/// The value read from eight big-endian bytes.
#[verifier::opaque]
pub open spec fn be64_val(s: Seq<u8>) -> u64
    recommends
        s.len() == 8,
{
    ((s[0] as u64) << 56) | ((s[1] as u64) << 48) | ((s[2] as u64) << 40) | ((s[3] as u64) << 32)
        | ((s[4] as u64) << 24) | ((s[5] as u64) << 16) | ((s[6] as u64) << 8) | (s[7] as u64)
}

/// The four big-endian bytes of `x`, most significant first.
#[verifier::opaque]
pub open spec fn be32(x: u32) -> Seq<u8> {
    seq![
        ((x >> 24) & 0xff) as u8,
        ((x >> 16) & 0xff) as u8,
        ((x >> 8) & 0xff) as u8,
        (x & 0xff) as u8,
    ]
}

/// The value read from four big-endian bytes.
#[verifier::opaque]
pub open spec fn be32_val(s: Seq<u8>) -> u32
    recommends
        s.len() == 4,
{
    ((s[0] as u32) << 24) | ((s[1] as u32) << 16) | ((s[2] as u32) << 8) | (s[3] as u32)
}

/// Reading back the encoding of `x` yields `x`, and encoding the value read
/// from any eight bytes yields those bytes again.
pub proof fn lemma_be64(x: u64, s: Seq<u8>)
    requires
        s.len() == 8,
    ensures
        be64(x).len() == 8,
        be64_val(be64(x)) == x,
        be64(be64_val(s)) == s,
{
    reveal(be64);
    reveal(be64_val);
    assert(((x >> 56) & 0xff) < 256 && ((x >> 48) & 0xff) < 256 && ((x >> 40) & 0xff) < 256 && ((x
        >> 32) & 0xff) < 256 && ((x >> 24) & 0xff) < 256 && ((x >> 16) & 0xff) < 256 && ((x >> 8)
        & 0xff) < 256 && (x & 0xff) < 256) by (bit_vector);
    assert((((x >> 56) & 0xff) << 56) | (((x >> 48) & 0xff) << 48) | (((x >> 40) & 0xff) << 40) | (
    ((x >> 32) & 0xff) << 32) | (((x >> 24) & 0xff) << 24) | (((x >> 16) & 0xff) << 16) | (((x >> 8)
        & 0xff) << 8) | (x & 0xff) == x) by (bit_vector);
    let b0 = s[0] as u64;
    let b1 = s[1] as u64;
    let b2 = s[2] as u64;
    let b3 = s[3] as u64;
    let b4 = s[4] as u64;
    let b5 = s[5] as u64;
    let b6 = s[6] as u64;
    let b7 = s[7] as u64;
    let v = be64_val(s);
    assert(b0 < 256 && b1 < 256 && b2 < 256 && b3 < 256 && b4 < 256 && b5 < 256 && b6 < 256 && b7
        < 256);
    assert((b0 < 256 && b1 < 256 && b2 < 256 && b3 < 256 && b4 < 256 && b5 < 256 && b6 < 256 && b7
        < 256 && v == (b0 << 56) | (b1 << 48) | (b2 << 40) | (b3 << 32) | (b4 << 24) | (b5 << 16)
        | (b6 << 8) | b7) ==> ((v >> 56) & 0xff == b0 && (v >> 48) & 0xff == b1 && (v >> 40) & 0xff
        == b2 && (v >> 32) & 0xff == b3 && (v >> 24) & 0xff == b4 && (v >> 16) & 0xff == b5 && (v
        >> 8) & 0xff == b6 && v & 0xff == b7)) by (bit_vector);
    assert(be64(be64_val(s)) =~= s);
}

/// Reading back the encoding of `x` yields `x`, and encoding the value read
/// from any four bytes yields those bytes again.
pub proof fn lemma_be32(x: u32, s: Seq<u8>)
    requires
        s.len() == 4,
    ensures
        be32(x).len() == 4,
        be32_val(be32(x)) == x,
        be32(be32_val(s)) == s,
{
    reveal(be32);
    reveal(be32_val);
    assert(((x >> 24) & 0xff) < 256 && ((x >> 16) & 0xff) < 256 && ((x >> 8) & 0xff) < 256 && (x
        & 0xff) < 256) by (bit_vector);
    assert((((x >> 24) & 0xff) << 24) | (((x >> 16) & 0xff) << 16) | (((x >> 8) & 0xff) << 8) | (x
        & 0xff) == x) by (bit_vector);
    let b0 = s[0] as u32;
    let b1 = s[1] as u32;
    let b2 = s[2] as u32;
    let b3 = s[3] as u32;
    let v = be32_val(s);
    assert(b0 < 256 && b1 < 256 && b2 < 256 && b3 < 256);
    assert((b0 < 256 && b1 < 256 && b2 < 256 && b3 < 256 && v == (b0 << 24) | (b1 << 16) | (b2
        << 8) | b3) ==> ((v >> 24) & 0xff == b0 && (v >> 16) & 0xff == b1 && (v >> 8) & 0xff == b2
        && v & 0xff == b3)) by (bit_vector);
    assert(be32(be32_val(s)) =~= s);
}

/// Appends the eight big-endian bytes of `x` to `out`.
pub fn push_be64(out: &mut Vec<u8>, x: u64)
    ensures
        final(out)@ == old(out)@ + be64(x),
{
    proof {
        reveal(be64);
        lemma_be64(x, seq![0u8, 0, 0, 0, 0, 0, 0, 0]);
    }
    out.push(((x >> 56) & 0xff) as u8);
    out.push(((x >> 48) & 0xff) as u8);
    out.push(((x >> 40) & 0xff) as u8);
    out.push(((x >> 32) & 0xff) as u8);
    out.push(((x >> 24) & 0xff) as u8);
    out.push(((x >> 16) & 0xff) as u8);
    out.push(((x >> 8) & 0xff) as u8);
    out.push((x & 0xff) as u8);
    assert(final(out)@ =~= old(out)@ + be64(x)) by {
        reveal(be64);
    }
}

/// Appends the four big-endian bytes of `x` to `out`.
pub fn push_be32(out: &mut Vec<u8>, x: u32)
    ensures
        final(out)@ == old(out)@ + be32(x),
{
    proof {
        reveal(be32);
        lemma_be32(x, seq![0u8, 0, 0, 0]);
    }
    out.push(((x >> 24) & 0xff) as u8);
    out.push(((x >> 16) & 0xff) as u8);
    out.push(((x >> 8) & 0xff) as u8);
    out.push((x & 0xff) as u8);
    assert(final(out)@ =~= old(out)@ + be32(x)) by {
        reveal(be32);
    }
}

/// Reads the big-endian `u64` stored at `at`.
pub fn read_be64(s: &[u8], at: usize) -> (r: u64)
    requires
        at + 8 <= s@.len(),
    ensures
        r == be64_val(s@.subrange(at as int, at as int + 8)),
{
    let r = ((s[at] as u64) << 56) | ((s[at + 1] as u64) << 48) | ((s[at + 2] as u64) << 40) | ((s[
        at + 3] as u64) << 32) | ((s[at + 4] as u64) << 24) | ((s[at + 5] as u64) << 16) | ((s[at
        + 6] as u64) << 8) | (s[at + 7] as u64);
    proof {
        reveal(be64_val);
        let sub = s@.subrange(at as int, at as int + 8);
        assert(sub[0] == s@[at as int] && sub[1] == s@[at as int + 1] && sub[2] == s@[at as int + 2]
            && sub[3] == s@[at as int + 3] && sub[4] == s@[at as int + 4] && sub[5] == s@[at as int
            + 5] && sub[6] == s@[at as int + 6] && sub[7] == s@[at as int + 7]);
    }
    r
}

/// Reads the big-endian `u32` stored at `at`.
pub fn read_be32(s: &[u8], at: usize) -> (r: u32)
    requires
        at + 4 <= s@.len(),
    ensures
        r == be32_val(s@.subrange(at as int, at as int + 4)),
{
    let r = ((s[at] as u32) << 24) | ((s[at + 1] as u32) << 16) | ((s[at + 2] as u32) << 8) | (s[at
        + 3] as u32);
    proof {
        reveal(be32_val);
        let sub = s@.subrange(at as int, at as int + 4);
        assert(sub[0] == s@[at as int] && sub[1] == s@[at as int + 1] && sub[2] == s@[at as int + 2]
            && sub[3] == s@[at as int + 3]);
    }
    r
}

} // verus!
