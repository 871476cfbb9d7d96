//! The mathematical model of the patch stream.
//!
//! A patch stream is a sequence of control records.  Each record is a
//! 24-byte header — mix length and copy length as unsigned 64-bit
//! little-endian fields, then a seek field in sign-magnitude form — followed
//! by `mix` bytes that are added (modulo 256) to the old buffer at the
//! current old pointer, and `copy` literal bytes.  `apply_from` gives the
//! meaning of such a stream; the executable `patch` and `bspatch` functions
//! are proved against it, and `diff` is proved to emit streams that it maps
//! back to the new buffer.

use crate::format::le64_at;
use crate::format::sign_mag_at;
use crate::format::sign_mag_bytes;
use crate::format::spec_wrap_add;
use crate::format::spec_wrap_sub;
use crate::format::lemma_le64_at_of_bytes;
use crate::format::lemma_sign_mag_at_of_bytes;
use crate::format::lemma_wrap_sub_add;
use crate::format::TOP_BIT;
use vstd::bytes::spec_u64_to_le_bytes;
use vstd::bytes::lemma_auto_spec_u64_to_from_le_bytes;
use vstd::prelude::*;

verus! {

/// Outcome of replaying a patch stream.
pub enum ApplyResult {
    /// The stream was consumed whole (or, for a fixed-length destination,
    /// the destination was filled): `oldpos` is the final old-buffer
    /// pointer and `out` the bytes produced.
    Done { oldpos: int, out: Seq<u8> },
    /// The stream ended inside a record header or payload, or before a
    /// fixed-length destination was full; `out` holds the output of the
    /// complete records that preceded the break.
    Eof { out: Seq<u8> },
    /// A record declared lengths that overflow 64-bit address arithmetic
    /// or the capacity of a fixed-length destination; `out` holds the
    /// output of the records that preceded it.
    Invalid { out: Seq<u8> },
}

pub open spec fn out_of(r: ApplyResult) -> Seq<u8> {
    match r {
        ApplyResult::Done { out, .. } => out,
        ApplyResult::Eof { out } => out,
        ApplyResult::Invalid { out } => out,
    }
}

pub open spec fn oldpos_of(r: ApplyResult) -> int {
    match r {
        ApplyResult::Done { oldpos, .. } => oldpos,
        ApplyResult::Eof { .. } => 0,
        ApplyResult::Invalid { .. } => 0,
    }
}

/// A mix block combined with the old buffer: each byte of `mix` is added,
/// modulo 256, to the old byte at the corresponding position, where that
/// position lies inside `old`; bytes whose position falls outside `old`
/// are taken unchanged.
pub open spec fn mix_seq(old: Seq<u8>, oldpos: int, mix: Seq<u8>) -> Seq<u8> {
    Seq::new(
        mix.len(),
        |i: int|
            if 0 <= oldpos + i < old.len() {
                spec_wrap_add(mix[i], old[oldpos + i])
            } else {
                mix[i]
            },
    )
}

/// Replays the patch stream `p` against `old`, with the old-buffer pointer
/// at `oldpos` and `acc` already produced by earlier records.
pub open spec fn apply_from(old: Seq<u8>, p: Seq<u8>, oldpos: int, acc: Seq<u8>) -> ApplyResult
    decreases p.len(),
{
    if p.len() == 0 {
        ApplyResult::Done { oldpos, out: acc }
    } else if p.len() < 24 {
        ApplyResult::Eof { out: acc }
    } else {
        let mix = le64_at(p, 0) as int;
        let copy = le64_at(p, 8) as int;
        let seek = sign_mag_at(p, 16);
        if mix + copy > u64::MAX || mix > i64::MAX {
            ApplyResult::Invalid { out: acc }
        } else if oldpos + mix > i64::MAX || oldpos + mix + seek > i64::MAX || oldpos + mix + seek
            < i64::MIN {
            ApplyResult::Invalid { out: acc }
        } else if p.len() < 24 + mix + copy {
            ApplyResult::Eof { out: acc }
        } else {
            let acc2 = acc + mix_seq(old, oldpos, p.subrange(24, 24 + mix)) + p.subrange(
                24 + mix,
                24 + mix + copy,
            );
            apply_from(old, p.skip(24 + mix + copy), oldpos + mix + seek, acc2)
        }
    }
}

/// The meaning of a whole patch stream: replay from the start of `old`
/// into an empty destination.
pub open spec fn apply_patch(old: Seq<u8>, p: Seq<u8>) -> ApplyResult {
    apply_from(old, p, 0, Seq::empty())
}

/// Replays `p` against `old` into a destination of exactly `target` bytes:
/// the replay stops as soon as the destination is full, rejects a record
/// that would overflow the remaining capacity before taking any of its
/// bytes, and reports an unexpected end if the stream runs out first.
pub open spec fn replay_upto(
    old: Seq<u8>,
    p: Seq<u8>,
    oldpos: int,
    acc: Seq<u8>,
    target: int,
) -> ApplyResult
    decreases p.len(),
{
    if acc.len() >= target {
        ApplyResult::Done { oldpos, out: acc }
    } else if p.len() < 24 {
        ApplyResult::Eof { out: acc }
    } else {
        let mix = le64_at(p, 0) as int;
        let copy = le64_at(p, 8) as int;
        let seek = sign_mag_at(p, 16);
        if mix + copy > u64::MAX || mix > i64::MAX {
            ApplyResult::Invalid { out: acc }
        } else if acc.len() + mix + copy > target {
            ApplyResult::Invalid { out: acc }
        } else if oldpos + mix > i64::MAX || oldpos + mix + seek > i64::MAX || oldpos + mix + seek
            < i64::MIN {
            ApplyResult::Invalid { out: acc }
        } else if p.len() < 24 + mix + copy {
            ApplyResult::Eof { out: acc }
        } else {
            let acc2 = acc + mix_seq(old, oldpos, p.subrange(24, 24 + mix)) + p.subrange(
                24 + mix,
                24 + mix + copy,
            );
            replay_upto(old, p.skip(24 + mix + copy), oldpos + mix + seek, acc2, target)
        }
    }
}

/// Whatever a replay produces extends the bytes it started from.
pub proof fn lemma_apply_extends(old: Seq<u8>, p: Seq<u8>, oldpos: int, acc: Seq<u8>)
    ensures
        out_of(apply_from(old, p, oldpos, acc)).len() >= acc.len(),
        out_of(apply_from(old, p, oldpos, acc)).subrange(0, acc.len() as int) == acc,
    decreases p.len(),
{
    let r = apply_from(old, p, oldpos, acc);
    if p.len() == 0 || p.len() < 24 {
        assert(out_of(r).subrange(0, acc.len() as int) =~= acc);
    } else {
        let mix = le64_at(p, 0) as int;
        let copy = le64_at(p, 8) as int;
        let seek = sign_mag_at(p, 16);
        if mix + copy > u64::MAX || mix > i64::MAX || oldpos + mix > i64::MAX || oldpos + mix
            + seek > i64::MAX || oldpos + mix + seek < i64::MIN || p.len() < 24 + mix + copy {
            assert(out_of(r).subrange(0, acc.len() as int) =~= acc);
        } else {
            let acc2 = acc + mix_seq(old, oldpos, p.subrange(24, 24 + mix)) + p.subrange(
                24 + mix,
                24 + mix + copy,
            );
            lemma_apply_extends(old, p.skip(24 + mix + copy), oldpos + mix + seek, acc2);
            assert(out_of(r).subrange(0, acc2.len() as int).subrange(0, acc.len() as int) =~= out_of(
                r,
            ).subrange(0, acc.len() as int));
            assert(acc2.subrange(0, acc.len() as int) =~= acc);
        }
    }
}

/// Replaying a concatenation of two streams, the first of which replays
/// to completion, is replaying the second from where the first ended.
pub proof fn lemma_apply_append(old: Seq<u8>, p1: Seq<u8>, p2: Seq<u8>, oldpos: int, acc: Seq<u8>)
    requires
        apply_from(old, p1, oldpos, acc) matches ApplyResult::Done { .. },
    ensures
        apply_from(old, p1 + p2, oldpos, acc) == apply_from(
            old,
            p2,
            oldpos_of(apply_from(old, p1, oldpos, acc)),
            out_of(apply_from(old, p1, oldpos, acc)),
        ),
    decreases p1.len(),
{
    if p1.len() == 0 {
        assert(p1 + p2 =~= p2);
    } else {
        // A stream shorter than a header cannot have replayed to completion.
        assert(p1.len() >= 24);
        let q = p1 + p2;
        assert(q.subrange(0, 8) =~= p1.subrange(0, 8));
        assert(q.subrange(8, 16) =~= p1.subrange(8, 16));
        assert(q.subrange(16, 24) =~= p1.subrange(16, 24));
        assert(le64_at(q, 0) == le64_at(p1, 0));
        assert(le64_at(q, 8) == le64_at(p1, 8));
        assert(le64_at(q, 16) == le64_at(p1, 16));
        let mix = le64_at(p1, 0) as int;
        let copy = le64_at(p1, 8) as int;
        let seek = sign_mag_at(p1, 16);
        assert(!(mix + copy > u64::MAX || mix > i64::MAX || oldpos + mix > i64::MAX || oldpos + mix
            + seek > i64::MAX || oldpos + mix + seek < i64::MIN || p1.len() < 24 + mix + copy));
        let rl = 24 + mix + copy;
        assert(q.subrange(24, 24 + mix) =~= p1.subrange(24, 24 + mix));
        assert(q.subrange(24 + mix, rl) =~= p1.subrange(24 + mix, rl));
        let acc2 = acc + mix_seq(old, oldpos, p1.subrange(24, 24 + mix)) + p1.subrange(
            24 + mix,
            rl,
        );
        assert(q.skip(rl) =~= p1.skip(rl) + p2);
        lemma_apply_append(old, p1.skip(rl), p2, oldpos + mix + seek, acc2);
    }
}

/// Truncating a stream that replays to completion never yields a wrong
/// result: the truncated stream either stops with an unexpected end of
/// input, or replays cleanly to a prefix of the full output.  It is never
/// rejected as invalid, and it never produces bytes the full stream would
/// not have produced.
pub proof fn lemma_apply_truncated(old: Seq<u8>, p: Seq<u8>, oldpos: int, acc: Seq<u8>, k: int)
    requires
        apply_from(old, p, oldpos, acc) matches ApplyResult::Done { .. },
        0 <= k < p.len(),
    ensures
        !(apply_from(old, p.subrange(0, k), oldpos, acc) matches ApplyResult::Invalid { .. }),
        out_of(apply_from(old, p.subrange(0, k), oldpos, acc)).len() <= out_of(
            apply_from(old, p, oldpos, acc),
        ).len(),
        out_of(apply_from(old, p.subrange(0, k), oldpos, acc)) == out_of(
            apply_from(old, p, oldpos, acc),
        ).subrange(0, out_of(apply_from(old, p.subrange(0, k), oldpos, acc)).len() as int),
    decreases p.len(),
{
    let t = p.subrange(0, k);
    let full = out_of(apply_from(old, p, oldpos, acc));
    // The full stream replays to completion, so it starts with a whole header.
    assert(p.len() >= 24);
    let mix = le64_at(p, 0) as int;
    let copy = le64_at(p, 8) as int;
    let seek = sign_mag_at(p, 16);
    assert(!(mix + copy > u64::MAX || mix > i64::MAX || oldpos + mix > i64::MAX || oldpos + mix
        + seek > i64::MAX || oldpos + mix + seek < i64::MIN || p.len() < 24 + mix + copy));
    let rl = 24 + mix + copy;
    let acc2 = acc + mix_seq(old, oldpos, p.subrange(24, 24 + mix)) + p.subrange(24 + mix, rl);
    lemma_apply_extends(old, p.skip(rl), oldpos + mix + seek, acc2);
    lemma_apply_extends(old, p, oldpos, acc);
    if k == 0 {
        // Nothing left: a clean stop with the bytes produced so far.
        assert(apply_from(old, t, oldpos, acc) == ApplyResult::Done { oldpos, out: acc });
        assert(acc2.subrange(0, acc.len() as int) =~= acc);
        assert(full.subrange(0, acc2.len() as int).subrange(0, acc.len() as int) =~= full.subrange(
            0,
            acc.len() as int,
        ));
    } else if k < 24 {
        // The cut lands inside the header.
        assert(apply_from(old, t, oldpos, acc) == ApplyResult::Eof { out: acc });
        assert(acc2.subrange(0, acc.len() as int) =~= acc);
        assert(full.subrange(0, acc2.len() as int).subrange(0, acc.len() as int) =~= full.subrange(
            0,
            acc.len() as int,
        ));
    } else {
        assert(t.subrange(0, 8) =~= p.subrange(0, 8));
        assert(t.subrange(8, 16) =~= p.subrange(8, 16));
        assert(t.subrange(16, 24) =~= p.subrange(16, 24));
        if k < rl {
            // The cut lands inside this record's payload.
            assert(apply_from(old, t, oldpos, acc) == ApplyResult::Eof { out: acc });
            assert(acc2.subrange(0, acc.len() as int) =~= acc);
            assert(full.subrange(0, acc2.len() as int).subrange(0, acc.len() as int)
                =~= full.subrange(0, acc.len() as int));
        } else {
            // The first record survives whole; recurse on the rest.
            assert(t.subrange(24, 24 + mix) =~= p.subrange(24, 24 + mix));
            assert(t.subrange(24 + mix, rl) =~= p.subrange(24 + mix, rl));
            assert(t.skip(rl) =~= p.skip(rl).subrange(0, k - rl));
            lemma_apply_truncated(old, p.skip(rl), oldpos + mix + seek, acc2, k - rl);
        }
    }
}

/// A stream that replays whole to an output of exactly `target` bytes also
/// replays into a fixed destination of `target` bytes, producing the same
/// output: the capacity checks of the fixed-length replay never fire on it.
pub proof fn lemma_replay_of_apply(old: Seq<u8>, p: Seq<u8>, oldpos: int, acc: Seq<u8>, target: int)
    requires
        apply_from(old, p, oldpos, acc) matches ApplyResult::Done { .. },
        out_of(apply_from(old, p, oldpos, acc)).len() == target,
    ensures
        replay_upto(old, p, oldpos, acc, target) matches ApplyResult::Done { out, .. } && out
            == out_of(apply_from(old, p, oldpos, acc)),
    decreases p.len(),
{
    let full = out_of(apply_from(old, p, oldpos, acc));
    lemma_apply_extends(old, p, oldpos, acc);
    if acc.len() >= target {
        // The destination is already full; the remaining records add nothing.
        assert(acc =~= full);
    } else {
        assert(p.len() >= 24);
        let mix = le64_at(p, 0) as int;
        let copy = le64_at(p, 8) as int;
        let seek = sign_mag_at(p, 16);
        assert(!(mix + copy > u64::MAX || mix > i64::MAX || oldpos + mix > i64::MAX || oldpos + mix
            + seek > i64::MAX || oldpos + mix + seek < i64::MIN || p.len() < 24 + mix + copy));
        let rl = 24 + mix + copy;
        let acc2 = acc + mix_seq(old, oldpos, p.subrange(24, 24 + mix)) + p.subrange(24 + mix, rl);
        lemma_apply_extends(old, p.skip(rl), oldpos + mix + seek, acc2);
        lemma_replay_of_apply(old, p.skip(rl), oldpos + mix + seek, acc2, target);
    }
}

/// Every record of `p` keeps the old pointer inside the old buffer: the
/// pointer enters and leaves each record within `[0, old.len()]`, the mix
/// region lies wholly inside `old`, and every record is complete — so a
/// replay of the stream reads the old buffer only in bounds.  The encoder
/// emits only such streams (from pointer 0).
pub open spec fn stream_in_bounds(old: Seq<u8>, p: Seq<u8>, oldpos: int) -> bool
    decreases p.len(),
{
    if p.len() == 0 {
        true
    } else if p.len() < 24 {
        false
    } else {
        let mix = le64_at(p, 0) as int;
        let copy = le64_at(p, 8) as int;
        let seek = sign_mag_at(p, 16);
        &&& 0 <= oldpos
        &&& oldpos + mix <= old.len()
        &&& 0 <= oldpos + mix + seek <= old.len()
        &&& 24 + mix + copy <= p.len()
        &&& stream_in_bounds(old, p.skip(24 + mix + copy), oldpos + mix + seek)
    }
}

/// Appending a bounds-respecting stream to a bounds-respecting stream
/// that replays to completion keeps the whole bounds-respecting.
pub proof fn lemma_stream_in_bounds_append(
    old: Seq<u8>,
    p1: Seq<u8>,
    p2: Seq<u8>,
    oldpos: int,
    acc: Seq<u8>,
)
    requires
        stream_in_bounds(old, p1, oldpos),
        apply_from(old, p1, oldpos, acc) matches ApplyResult::Done { .. },
        stream_in_bounds(old, p2, oldpos_of(apply_from(old, p1, oldpos, acc))),
    ensures
        stream_in_bounds(old, p1 + p2, oldpos),
    decreases p1.len(),
{
    if p1.len() == 0 {
        assert(p1 + p2 =~= p2);
    } else {
        assert(p1.len() >= 24);
        let q = p1 + p2;
        assert(q.subrange(0, 8) =~= p1.subrange(0, 8));
        assert(q.subrange(8, 16) =~= p1.subrange(8, 16));
        assert(q.subrange(16, 24) =~= p1.subrange(16, 24));
        let mix = le64_at(p1, 0) as int;
        let copy = le64_at(p1, 8) as int;
        let seek = sign_mag_at(p1, 16);
        assert(!(mix + copy > u64::MAX || mix > i64::MAX || oldpos + mix > i64::MAX || oldpos + mix
            + seek > i64::MAX || oldpos + mix + seek < i64::MIN || p1.len() < 24 + mix + copy));
        let rl = 24 + mix + copy;
        let acc2 = acc + mix_seq(old, oldpos, p1.subrange(24, 24 + mix)) + p1.subrange(
            24 + mix,
            rl,
        );
        assert(q.subrange(24, 24 + mix) =~= p1.subrange(24, 24 + mix));
        assert(q.subrange(24 + mix, rl) =~= p1.subrange(24 + mix, rl));
        assert(q.skip(rl) =~= p1.skip(rl) + p2);
        lemma_stream_in_bounds_append(old, p1.skip(rl), p2, oldpos + mix + seek, acc2);
    }
}

/// Truncation safety for a whole patch stream: cutting a stream that
/// replays to completion at any byte offset leaves a stream that is never
/// rejected as invalid and never produces wrong bytes — it either stops
/// with an unexpected end of input, or replays cleanly to a prefix of the
/// full output.  (A cut exactly at a record boundary is the one case that
/// replays cleanly; every cut inside a record stops with an unexpected
/// end.)
pub proof fn lemma_patch_truncation(old: Seq<u8>, p: Seq<u8>, k: int)
    requires
        apply_patch(old, p) matches ApplyResult::Done { .. },
        0 <= k < p.len(),
    ensures
        !(apply_patch(old, p.subrange(0, k)) matches ApplyResult::Invalid { .. }),
        out_of(apply_patch(old, p.subrange(0, k))).len() <= out_of(apply_patch(old, p)).len(),
        out_of(apply_patch(old, p.subrange(0, k))) == out_of(apply_patch(old, p)).subrange(
            0,
            out_of(apply_patch(old, p.subrange(0, k))).len() as int,
        ),
{
    lemma_apply_truncated(old, p, 0, Seq::empty(), k);
}

/// The bytes of one control record of the stream that `diff` emits when it
/// commits an anchor: the region `new[lastscan..lastscan+lenf]` as a mix
/// block against `old[lastpos..]`, the region up to `newend` as literal
/// bytes, and a seek field that moves the old pointer to `oldpos2`.
pub open spec fn record_bytes(
    old: Seq<u8>,
    new: Seq<u8>,
    lastscan: int,
    lastpos: int,
    lenf: int,
    newend: int,
    oldpos2: int,
) -> Seq<u8> {
    let copy = newend - (lastscan + lenf);
    let seek = oldpos2 - (lastpos + lenf);
    spec_u64_to_le_bytes(lenf as u64) + spec_u64_to_le_bytes(copy as u64) + sign_mag_bytes(seek)
        + Seq::new(lenf as nat, |i: int| spec_wrap_sub(new[lastscan + i], old[lastpos + i]))
        + new.subrange(lastscan + lenf, newend)
}

/// Replaying one record emitted by the encoder advances the output from
/// `new[..lastscan]` to `new[..newend]` and the old pointer from `lastpos`
/// to `oldpos2`.
pub proof fn lemma_apply_record(
    old: Seq<u8>,
    new: Seq<u8>,
    lastscan: int,
    lastpos: int,
    lenf: int,
    newend: int,
    oldpos2: int,
)
    requires
        0 <= lastscan,
        0 <= lenf,
        lastscan + lenf <= newend <= new.len(),
        0 <= lastpos,
        lastpos + lenf <= old.len(),
        0 <= oldpos2 <= old.len(),
        old.len() < TOP_BIT,
        new.len() < TOP_BIT,
    ensures
        apply_from(
            old,
            record_bytes(old, new, lastscan, lastpos, lenf, newend, oldpos2),
            lastpos,
            new.subrange(0, lastscan),
        ) == (ApplyResult::Done { oldpos: oldpos2, out: new.subrange(0, newend) }),
        stream_in_bounds(old, record_bytes(old, new, lastscan, lastpos, lenf, newend, oldpos2), lastpos),
{
    lemma_auto_spec_u64_to_from_le_bytes();
    let copy = newend - (lastscan + lenf);
    let seek = oldpos2 - (lastpos + lenf);
    let p = record_bytes(old, new, lastscan, lastpos, lenf, newend, oldpos2);
    assert(spec_u64_to_le_bytes(lenf as u64).len() == 8);
    assert(spec_u64_to_le_bytes(copy as u64).len() == 8);
    assert(sign_mag_bytes(seek).len() == 8) by {
        if seek >= 0 {
            assert(spec_u64_to_le_bytes(seek as u64).len() == 8);
        } else {
            assert(spec_u64_to_le_bytes(((-seek) + TOP_BIT) as u64).len() == 8);
        }
    }
    assert(p.len() == 24 + lenf + copy);
    assert(p.subrange(0, 8) =~= spec_u64_to_le_bytes(lenf as u64));
    assert(p.subrange(8, 16) =~= spec_u64_to_le_bytes(copy as u64));
    assert(p.subrange(16, 24) =~= sign_mag_bytes(seek));
    lemma_le64_at_of_bytes(p, 0, lenf as u64);
    lemma_le64_at_of_bytes(p, 8, copy as u64);
    lemma_sign_mag_at_of_bytes(p, 16, seek);
    let mix = le64_at(p, 0) as int;
    assert(mix == lenf);
    assert(le64_at(p, 8) as int == copy);
    assert(sign_mag_at(p, 16) == seek);
    let rl = 24 + lenf + copy;
    assert(p.subrange(24, 24 + lenf) =~= Seq::new(
        lenf as nat,
        |i: int| spec_wrap_sub(new[lastscan + i], old[lastpos + i]),
    ));
    assert(p.subrange(24 + lenf, rl) =~= new.subrange(lastscan + lenf, newend));
    let acc = new.subrange(0, lastscan);
    let mixed = mix_seq(old, lastpos, p.subrange(24, 24 + lenf));
    assert forall|i: int| 0 <= i < lenf implies mixed[i] == new[lastscan + i] by {
        assert(0 <= lastpos + i < old.len());
        lemma_wrap_sub_add(new[lastscan + i], old[lastpos + i]);
    }
    let acc2 = acc + mixed + p.subrange(24 + lenf, rl);
    assert(acc2 =~= new.subrange(0, newend));
    assert(p.skip(rl) =~= Seq::<u8>::empty());
    assert(apply_from(old, p.skip(rl), oldpos2, acc2) == (ApplyResult::Done {
        oldpos: oldpos2,
        out: acc2,
    }));
    assert(stream_in_bounds(old, p.skip(rl), oldpos2));
}

} // verus!
