//! Byte-level encoding primitives of the patch format: wrapping byte
//! arithmetic for mix blocks, and 64-bit integer fields in little-endian
//! (unsigned and sign-magnitude) and big-endian form.
//!
//! The seek field of a control record uses the legacy sign-magnitude
//! encoding: the top bit of the 64-bit little-endian word carries the sign,
//! the low 63 bits the magnitude.

use vstd::bytes::spec_u64_from_le_bytes;
use vstd::bytes::spec_u64_to_le_bytes;
use vstd::bytes::lemma_auto_spec_u64_to_from_le_bytes;
use vstd::bytes::u64_from_le_bytes;
use vstd::bytes::u64_to_le_bytes;
use vstd::prelude::*;
use vstd::slice::slice_subrange;

verus! {

pub const TOP_BIT: u64 = 0x8000_0000_0000_0000;

/// Byte addition modulo 256, as used when replaying a mix block.
pub open spec fn spec_wrap_add(a: u8, b: u8) -> u8 {
    ((a + b) % 256) as u8
}

/// Byte subtraction modulo 256, as used when emitting a mix block.
pub open spec fn spec_wrap_sub(a: u8, b: u8) -> u8 {
    (((a + 256) - b) % 256) as u8
}

/// Adding back the byte that was subtracted restores the original byte.
pub proof fn lemma_wrap_sub_add(a: u8, b: u8)
    ensures
        spec_wrap_add(spec_wrap_sub(a, b), b) == a,
{
}

pub fn wrap_add(a: u8, b: u8) -> (r: u8)
    ensures
        r == spec_wrap_add(a, b),
{
    let s: u16 = a as u16 + b as u16;
    (s % 256) as u8
}

pub fn wrap_sub(a: u8, b: u8) -> (r: u8)
    ensures
        r == spec_wrap_sub(a, b),
{
    let s: u16 = (a as u16 + 256) - b as u16;
    (s % 256) as u8
}

/// The unsigned 64-bit little-endian field starting at byte `off` of `p`.
pub open spec fn le64_at(p: Seq<u8>, off: int) -> u64
    recommends
        0 <= off,
        off + 8 <= p.len(),
{
    spec_u64_from_le_bytes(p.subrange(off, off + 8))
}

/// The sign-magnitude 64-bit field starting at byte `off` of `p`.
pub open spec fn sign_mag_at(p: Seq<u8>, off: int) -> int {
    let v = le64_at(p, off);
    if v < TOP_BIT {
        v as int
    } else {
        -((v - TOP_BIT) as int)
    }
}

/// The 8-byte sign-magnitude encoding of `x`, for |x| below 2^63.
pub open spec fn sign_mag_bytes(x: int) -> Seq<u8>
    recommends
        -(TOP_BIT as int) < x < TOP_BIT as int,
{
    if x >= 0 {
        spec_u64_to_le_bytes(x as u64)
    } else {
        spec_u64_to_le_bytes(((-x) + TOP_BIT) as u64)
    }
}

/// A little-endian field read back from its own encoding gives the value
/// that was written.
pub proof fn lemma_le64_at_of_bytes(p: Seq<u8>, off: int, x: u64)
    requires
        0 <= off,
        off + 8 <= p.len(),
        p.subrange(off, off + 8) == spec_u64_to_le_bytes(x),
    ensures
        le64_at(p, off) == x,
{
    lemma_auto_spec_u64_to_from_le_bytes();
}

/// A sign-magnitude field read back from its own encoding gives the value
/// that was written.
pub proof fn lemma_sign_mag_at_of_bytes(p: Seq<u8>, off: int, x: int)
    requires
        0 <= off,
        off + 8 <= p.len(),
        -(TOP_BIT as int) < x < TOP_BIT as int,
        p.subrange(off, off + 8) == sign_mag_bytes(x),
    ensures
        sign_mag_at(p, off) == x,
{
    lemma_auto_spec_u64_to_from_le_bytes();
    if x >= 0 {
        lemma_le64_at_of_bytes(p, off, x as u64);
    } else {
        lemma_le64_at_of_bytes(p, off, ((-x) + TOP_BIT) as u64);
    }
}

/// Reads the unsigned little-endian field at `off`.
pub fn read_u64_le(p: &[u8], off: usize) -> (r: u64)
    requires
        off + 8 <= p@.len(),
    ensures
        r == le64_at(p@, off as int),
{
    let plen: usize = p.len();
    assert(off + 8 <= plen);
    let s = slice_subrange(p, off, off + 8);
    u64_from_le_bytes(s)
}

/// Reads the sign-magnitude field at `off`.
pub fn read_sign_mag(p: &[u8], off: usize) -> (r: i64)
    requires
        off + 8 <= p@.len(),
    ensures
        r as int == sign_mag_at(p@, off as int),
        r > i64::MIN,
{
    let v = read_u64_le(p, off);
    if v < TOP_BIT {
        v as i64
    } else {
        let m = v - TOP_BIT;
        -(m as i64)
    }
}

/// Appends the 8-byte little-endian encoding of `x`.
pub fn push_u64_le(out: &mut Vec<u8>, x: u64)
    ensures
        final(out)@ == old(out)@ + spec_u64_to_le_bytes(x),
{
    let mut b = u64_to_le_bytes(x);
    out.append(&mut b);
}

/// Appends the 8-byte sign-magnitude encoding of `x`.
pub fn push_sign_mag(out: &mut Vec<u8>, x: i64)
    requires
        x > i64::MIN,
    ensures
        final(out)@ == old(out)@ + sign_mag_bytes(x as int),
{
    if x >= 0 {
        push_u64_le(out, x as u64);
    } else {
        let m = (-x) as u64;
        push_u64_le(out, m + TOP_BIT);
    }
}

/// The unsigned 64-bit big-endian field starting at byte `off` of `p`:
/// the network byte order used by the length footer of the compressed
/// container.
pub open spec fn be64_at(p: Seq<u8>, off: int) -> u64
    recommends
        0 <= off,
        off + 8 <= p.len(),
{
    spec_u64_from_le_bytes(Seq::new(8, |i: int| p[off + 7 - i]))
}

/// The 8-byte big-endian encoding of `x`.
pub open spec fn be64_bytes(x: u64) -> Seq<u8> {
    Seq::new(8, |i: int| spec_u64_to_le_bytes(x)[7 - i])
}

/// A big-endian field read back from its own encoding gives the value
/// that was written.
pub proof fn lemma_be64_at_of_bytes(p: Seq<u8>, off: int, x: u64)
    requires
        0 <= off,
        off + 8 <= p.len(),
        p.subrange(off, off + 8) == be64_bytes(x),
    ensures
        be64_at(p, off) == x,
{
    lemma_auto_spec_u64_to_from_le_bytes();
    assert forall|i: int| 0 <= i < 8 implies Seq::new(8, |j: int| p[off + 7 - j])[i]
        == spec_u64_to_le_bytes(x)[i] by {
        assert(p[off + (7 - i)] == p.subrange(off, off + 8)[7 - i]);
    }
    assert(Seq::new(8, |j: int| p[off + 7 - j]) =~= spec_u64_to_le_bytes(x));
}

/// Reads the big-endian field at `off`.
pub fn read_u64_be(p: &[u8], off: usize) -> (r: u64)
    requires
        off + 8 <= p@.len(),
    ensures
        r == be64_at(p@, off as int),
{
    let plen: usize = p.len();
    let mut b: Vec<u8> = Vec::new();
    let mut i: usize = 0;
    while i < 8
        invariant
            i <= 8,
            off + 8 <= plen,
            plen == p@.len(),
            b@.len() == i,
            forall|j: int| 0 <= j < i ==> b@[j] == p@[off + 7 - j],
        decreases 8 - i,
    {
        b.push(p[off + 7 - i]);
        i += 1;
    }
    assert(b@ =~= Seq::new(8, |j: int| p@[off as int + 7 - j]));
    u64_from_le_bytes(b.as_slice())
}

/// Appends the 8-byte big-endian encoding of `x`.
pub fn push_u64_be(out: &mut Vec<u8>, x: u64)
    ensures
        final(out)@ == old(out)@ + be64_bytes(x),
{
    let b = u64_to_le_bytes(x);
    let mut i: usize = 0;
    while i < 8
        invariant
            i <= 8,
            b@ == spec_u64_to_le_bytes(x),
            b@.len() == 8,
            out@.len() == old(out)@.len() + i,
            out@ == old(out)@ + Seq::new(i as nat, |j: int| b@[7 - j]),
        decreases 8 - i,
    {
        out.push(b[7 - i]);
        assert(out@ =~= old(out)@ + Seq::new((i + 1) as nat, |j: int| b@[7 - j]));
        i += 1;
    }
    assert(out@ =~= old(out)@ + be64_bytes(x));
}

} // verus!
