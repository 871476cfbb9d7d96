//! Applying a patch stream to an old buffer.
//!
//! `patch` replays a stream into a growable destination and accepts exactly
//! the streams the model replays to completion; `bspatch` replays into a
//! destination of known final length, rejecting any record that would
//! overflow the remaining capacity before taking a single byte of it.

use crate::format::le64_at;
use crate::format::read_sign_mag;
use crate::format::read_u64_le;
use crate::format::wrap_add;
use crate::model::apply_from;
use crate::model::mix_seq;
use crate::model::replay_upto;
use crate::model::ApplyResult;
use vstd::prelude::*;

verus! {

/// Why applying a patch failed.
#[derive(Clone, Copy, Debug, PartialEq, Eq, Structural)]
pub enum PatchError {
    /// The patch stream ended inside a record, or before the destination
    /// was fully written.
    UnexpectedEof,
    /// A record declared lengths that overflow 64-bit address arithmetic
    /// or the destination's remaining capacity.
    InvalidData,
}

impl PatchError {
    /// A short description of the failure.
    pub fn describe(&self) -> (r: &'static str)
        ensures
            self is UnexpectedEof ==> r@ == "unexpected end of patch stream"@,
            self is InvalidData ==> r@ == "invalid length in patch record"@,
    {
        match self {
            PatchError::UnexpectedEof => "unexpected end of patch stream",
            PatchError::InvalidData => "invalid length in patch record",
        }
    }
}

/// Appends to `new` the mix block at `delta[base..base + mix_len]` combined
/// byte-wise, modulo 256, with `old` at offset `oldpos`; positions outside
/// `old` take the patch byte unchanged.
fn append_mixed(
    new: &mut Vec<u8>,
    old_buf: &[u8],
    delta: &[u8],
    base: usize,
    mix_len: usize,
    oldpos: i64,
) -> (next: usize)
    requires
        base + mix_len <= delta@.len(),
        mix_len <= i64::MAX,
        oldpos + mix_len <= i64::MAX,
    ensures
        final(new)@ == old(new)@ + mix_seq(
            old_buf@,
            oldpos as int,
            delta@.subrange(base as int, base + mix_len),
        ),
        next == base + mix_len,
{
    let dlen: usize = delta.len();
    let ghost pre = new@;
    let mut i: usize = 0;
    while i < mix_len
        invariant
            i <= mix_len,
            base + mix_len <= dlen,
            dlen == delta@.len(),
            mix_len <= i64::MAX,
            oldpos + mix_len <= i64::MAX,
            new@ == pre + mix_seq(old_buf@, oldpos as int, delta@.subrange(base as int, base + i)),
        decreases mix_len - i,
    {
        let b = delta[base + i];
        let pos: i64 = oldpos + (i as i64);
        let v = if 0 <= pos && (pos as u64) < old_buf.len() as u64 {
            wrap_add(b, old_buf[pos as usize])
        } else {
            b
        };
        new.push(v);
        assert(new@ =~= pre + mix_seq(
            old_buf@,
            oldpos as int,
            delta@.subrange(base as int, base + i + 1),
        ));
        i += 1;
    }
    base + mix_len
}

/// Appends to `new` the `copy_len` literal bytes at `delta[base..]`.
fn append_literal(new: &mut Vec<u8>, delta: &[u8], base: usize, copy_len: usize) -> (next: usize)
    requires
        base + copy_len <= delta@.len(),
    ensures
        final(new)@ == old(new)@ + delta@.subrange(base as int, base + copy_len),
        next == base + copy_len,
{
    let dlen: usize = delta.len();
    let ghost pre = new@;
    let mut i: usize = 0;
    while i < copy_len
        invariant
            i <= copy_len,
            base + copy_len <= dlen,
            dlen == delta@.len(),
            new@ == pre + delta@.subrange(base as int, base + i),
        decreases copy_len - i,
    {
        new.push(delta[base + i]);
        assert(new@ =~= pre + delta@.subrange(base as int, base + i + 1));
        i += 1;
    }
    base + copy_len
}

/// Applies a patch to an "old" buffer, appending the reconstructed "new"
/// buffer to `new`.
///
/// The stream is consumed record by record until it is exhausted; ending
/// exactly at a record boundary is the one clean termination.  A stream
/// that ends inside a record yields `UnexpectedEof`; a record whose
/// declared lengths overflow 64-bit arithmetic yields `InvalidData`, and
/// is rejected before any of its bytes are taken.  In every case `new`
/// receives exactly the output of the complete records that were replayed.
pub fn patch(old_buf: &[u8], delta: &[u8], new: &mut Vec<u8>) -> (r: Result<(), PatchError>)
    ensures
        ({
            let a = apply_from(old_buf@, delta@, 0, Seq::empty());
            match a {
                ApplyResult::Done { out, .. } => r == Ok::<(), PatchError>(()) && final(new)@
                    == old(new)@ + out,
                ApplyResult::Eof { out } => r == Err::<(), PatchError>(PatchError::UnexpectedEof)
                    && final(new)@ == old(new)@ + out,
                ApplyResult::Invalid { out } => r == Err::<(), PatchError>(PatchError::InvalidData)
                    && final(new)@ == old(new)@ + out,
            }
        }),
{
    let ghost init = new@;
    let n: usize = delta.len();
    let mut off: usize = 0;
    let mut oldpos: i64 = 0;
    proof {
        assert(delta@.skip(0) =~= delta@);
        assert(new@.skip(init.len() as int) =~= Seq::<u8>::empty());
        assert(new@.subrange(0, init.len() as int) =~= init);
    }
    loop
        invariant
            off <= n,
            n == delta@.len(),
            init == old(new)@,
            init.len() <= new@.len(),
            new@.subrange(0, init.len() as int) == init,
            apply_from(old_buf@, delta@, 0, Seq::empty()) == apply_from(
                old_buf@,
                delta@.skip(off as int),
                oldpos as int,
                new@.skip(init.len() as int),
            ),
        decreases n - off,
    {
        let ghost q = delta@.skip(off as int);
        let ghost prod = new@.skip(init.len() as int);
        proof {
            assert(new@ =~= init + prod);
        }
        if off == n {
            proof {
                assert(q =~= Seq::<u8>::empty());
            }
            return Ok(());
        }
        let rem: usize = n - off;
        if rem < 24 {
            return Err(PatchError::UnexpectedEof);
        }
        let mix64 = read_u64_le(delta, off);
        let copy64 = read_u64_le(delta, off + 8);
        let seek = read_sign_mag(delta, off + 16);
        proof {
            assert(q.subrange(0, 8) =~= delta@.subrange(off as int, off + 8));
            assert(q.subrange(8, 16) =~= delta@.subrange(off + 8, off + 16));
            assert(q.subrange(16, 24) =~= delta@.subrange(off + 16, off + 24));
            assert(le64_at(q, 0) == mix64);
            assert(le64_at(q, 8) == copy64);
            assert(crate::format::sign_mag_at(q, 16) == seek as int);
        }
        let total = match mix64.checked_add(copy64) {
            Some(t) => t,
            None => {
                return Err(PatchError::InvalidData);
            },
        };
        if mix64 > i64::MAX as u64 {
            return Err(PatchError::InvalidData);
        }
        let after_mix = match oldpos.checked_add(mix64 as i64) {
            Some(t) => t,
            None => {
                return Err(PatchError::InvalidData);
            },
        };
        let next_oldpos = match after_mix.checked_add(seek) {
            Some(t) => t,
            None => {
                return Err(PatchError::InvalidData);
            },
        };
        if total > (rem - 24) as u64 {
            return Err(PatchError::UnexpectedEof);
        }
        let mix_len = mix64 as usize;
        let copy_len = copy64 as usize;
        let mid = append_mixed(new, old_buf, delta, off + 24, mix_len, oldpos);
        let end = append_literal(new, delta, mid, copy_len);
        proof {
            let rl = 24 + mix64 as int + copy64 as int;
            assert(q.subrange(24, 24 + mix64 as int) =~= delta@.subrange(
                off + 24,
                off + 24 + mix64 as int,
            ));
            assert(q.subrange(24 + mix64 as int, rl) =~= delta@.subrange(
                off + 24 + mix64 as int,
                off as int + rl,
            ));
            assert(q.skip(rl) =~= delta@.skip(off as int + rl));
            assert(new@.skip(init.len() as int) =~= prod + mix_seq(
                old_buf@,
                oldpos as int,
                q.subrange(24, 24 + mix64 as int),
            ) + q.subrange(24 + mix64 as int, rl));
            assert(new@.subrange(0, init.len() as int) =~= init);
        }
        off = end;
        oldpos = next_oldpos;
    }
}

/// Applies a patch to an "old" buffer, reconstructing a "new" buffer of
/// exactly `new_len` bytes.
///
/// The replay stops as soon as the destination is full.  A record whose
/// mix and copy lengths would overflow the remaining destination capacity
/// is rejected, with `InvalidData`, before any of its bytes are written;
/// a stream that ends before the destination is full yields
/// `UnexpectedEof`.
pub fn bspatch(old_buf: &[u8], delta: &[u8], new_len: u64) -> (r: Result<Vec<u8>, PatchError>)
    ensures
        ({
            let a = replay_upto(old_buf@, delta@, 0, Seq::empty(), new_len as int);
            match a {
                ApplyResult::Done { out, .. } => r matches Ok(v) && v@ == out,
                ApplyResult::Eof { .. } => r == Err::<Vec<u8>, PatchError>(
                    PatchError::UnexpectedEof,
                ),
                ApplyResult::Invalid { .. } => r == Err::<Vec<u8>, PatchError>(
                    PatchError::InvalidData,
                ),
            }
        }),
{
    let n: usize = delta.len();
    let mut off: usize = 0;
    let mut oldpos: i64 = 0;
    let mut out: Vec<u8> = Vec::new();
    proof {
        assert(delta@.skip(0) =~= delta@);
    }
    loop
        invariant
            off <= n,
            n == delta@.len(),
            replay_upto(old_buf@, delta@, 0, Seq::empty(), new_len as int) == replay_upto(
                old_buf@,
                delta@.skip(off as int),
                oldpos as int,
                out@,
                new_len as int,
            ),
        decreases n - off,
    {
        let ghost q = delta@.skip(off as int);
        if out.len() as u64 >= new_len {
            return Ok(out);
        }
        if n - off < 24 {
            return Err(PatchError::UnexpectedEof);
        }
        let rem: usize = n - off;
        let mix64 = read_u64_le(delta, off);
        let copy64 = read_u64_le(delta, off + 8);
        let seek = read_sign_mag(delta, off + 16);
        proof {
            assert(q.subrange(0, 8) =~= delta@.subrange(off as int, off + 8));
            assert(q.subrange(8, 16) =~= delta@.subrange(off + 8, off + 16));
            assert(q.subrange(16, 24) =~= delta@.subrange(off + 16, off + 24));
            assert(le64_at(q, 0) == mix64);
            assert(le64_at(q, 8) == copy64);
            assert(crate::format::sign_mag_at(q, 16) == seek as int);
        }
        let total = match mix64.checked_add(copy64) {
            Some(t) => t,
            None => {
                return Err(PatchError::InvalidData);
            },
        };
        if mix64 > i64::MAX as u64 {
            return Err(PatchError::InvalidData);
        }
        if total > new_len - out.len() as u64 {
            return Err(PatchError::InvalidData);
        }
        let after_mix = match oldpos.checked_add(mix64 as i64) {
            Some(t) => t,
            None => {
                return Err(PatchError::InvalidData);
            },
        };
        let next_oldpos = match after_mix.checked_add(seek) {
            Some(t) => t,
            None => {
                return Err(PatchError::InvalidData);
            },
        };
        if total > (rem - 24) as u64 {
            return Err(PatchError::UnexpectedEof);
        }
        let mix_len = mix64 as usize;
        let copy_len = copy64 as usize;
        let mid = append_mixed(&mut out, old_buf, delta, off + 24, mix_len, oldpos);
        let end = append_literal(&mut out, delta, mid, copy_len);
        proof {
            let rl = 24 + mix64 as int + copy64 as int;
            assert(q.subrange(24, 24 + mix64 as int) =~= delta@.subrange(
                off + 24,
                off + 24 + mix64 as int,
            ));
            assert(q.subrange(24 + mix64 as int, rl) =~= delta@.subrange(
                off + 24 + mix64 as int,
                off as int + rl,
            ));
            assert(q.skip(rl) =~= delta@.skip(off as int + rl));
        }
        off = end;
        oldpos = next_oldpos;
    }
}

} // verus!
