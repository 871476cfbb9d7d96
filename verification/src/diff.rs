//! The delta encoder: scans the new buffer, places match anchors against
//! the old buffer with the suffix-array matcher, resolves the forward and
//! backward extension of each anchor, and emits one control record per
//! committed anchor.
//!
//! The proof threads one invariant through the scan: the stream emitted so
//! far replays, against the old buffer, to exactly the prefix of the new
//! buffer that has been committed, with the old-buffer pointer at the last
//! anchor.  When the scan reaches the end, the whole stream replays to the
//! whole new buffer — the round-trip guarantee.  Every emitted record also
//! keeps the old pointer in bounds (`stream_in_bounds`), and each
//! committed record's bytes are pinned to the reference extension and
//! overlap arithmetic (`record_for`): given an anchor, the record is a
//! proved function of the buffers.  What no contract pins is the anchor
//! selection itself — the scan loop with its slack-of-8 acceptance rule —
//! so the stream as a whole is not yet stated as one function of the
//! inputs; it is implemented faithfully and covered by tests.

use crate::format::push_sign_mag;
use crate::format::push_u64_le;
use crate::format::spec_wrap_sub;
use crate::format::wrap_sub;
use crate::matching::search;
use crate::model::apply_from;
use crate::model::apply_patch;
use crate::model::lemma_apply_append;
use crate::model::lemma_apply_record;
use crate::model::lemma_stream_in_bounds_append;
use crate::model::stream_in_bounds;
use crate::model::record_bytes;
use crate::model::ApplyResult;
use crate::suffix::fits_input;
use crate::suffix::qsufsort;
use crate::suffix::table_ok;
use vstd::prelude::*;

verus! {

/// Appends the mix block of a record: the bytes of
/// `new[lastscan..lastscan + lenf]` minus, modulo 256, the bytes of
/// `old_buf[lastpos..lastpos + lenf]`.
fn push_mix(
    patch: &mut Vec<u8>,
    old_buf: &[u8],
    new: &[u8],
    lastscan: usize,
    lastpos: usize,
    lenf: usize,
)
    requires
        lastscan + lenf <= new@.len(),
        lastpos + lenf <= old_buf@.len(),
    ensures
        final(patch)@ == old(patch)@ + Seq::new(
            lenf as nat,
            |w: int| spec_wrap_sub(new@[lastscan + w], old_buf@[lastpos + w]),
        ),
{
    let no: usize = old_buf.len();
    let nn: usize = new.len();
    let ghost pre = patch@;
    let mut q: usize = 0;
    while q < lenf
        invariant
            q <= lenf,
            lastscan + lenf <= nn,
            lastpos + lenf <= no,
            nn == new@.len(),
            no == old_buf@.len(),
            patch@ == pre + Seq::new(
                q as nat,
                |w: int| spec_wrap_sub(new@[lastscan + w], old_buf@[lastpos + w]),
            ),
        decreases lenf - q,
    {
        patch.push(wrap_sub(new[lastscan + q], old_buf[lastpos + q]));
        proof {
            assert(patch@ =~= pre + Seq::new(
                (q + 1) as nat,
                |w: int| spec_wrap_sub(new@[lastscan + w], old_buf@[lastpos + w]),
            ));
        }
        q += 1;
    }
}

/// Appends the extra block of a record: the literal bytes `new[from..to]`.
fn push_range(patch: &mut Vec<u8>, new: &[u8], from: usize, to: usize)
    requires
        from <= to <= new@.len(),
    ensures
        final(patch)@ == old(patch)@ + new@.subrange(from as int, to as int),
{
    let nn: usize = new.len();
    let ghost pre = patch@;
    let mut q: usize = 0;
    while q < to - from
        invariant
            from + q <= to <= nn,
            nn == new@.len(),
            patch@ == pre + new@.subrange(from as int, from + q),
        decreases to - from - q,
    {
        patch.push(new[from + q]);
        proof {
            assert(patch@ =~= pre + new@.subrange(from as int, from + q + 1));
        }
        q += 1;
    }
}

/// The forward-extension fold from the previous anchor: byte position
/// `i`, running match count `s`, and the best `(count, length)` pair so
/// far under the score `2 * matches - length`.  Returns the final
/// `(s, best count, best length)`.
pub open spec fn ext_forward(
    old: Seq<u8>,
    new: Seq<u8>,
    lastscan: int,
    lastpos: int,
    scan: int,
    i: int,
    s: int,
    sb: int,
    lenf: int,
) -> (int, int, int)
    decreases scan - lastscan - i,
{
    if lastscan + i < scan && lastpos + i < old.len() {
        let s2 = if old[lastpos + i] == new[lastscan + i] {
            s + 1
        } else {
            s
        };
        let i2 = i + 1;
        if s2 * 2 - i2 > sb * 2 - lenf {
            ext_forward(old, new, lastscan, lastpos, scan, i2, s2, s2, i2)
        } else {
            ext_forward(old, new, lastscan, lastpos, scan, i2, s2, sb, lenf)
        }
    } else {
        (s, sb, lenf)
    }
}

/// The backward-extension fold from the new anchor, with the same score.
pub open spec fn ext_backward(
    old: Seq<u8>,
    new: Seq<u8>,
    lastscan: int,
    scan: int,
    pos: int,
    i: int,
    s: int,
    sb: int,
    lenb: int,
) -> (int, int, int)
    decreases pos + 1 - i,
{
    if lastscan + i <= scan && i <= pos {
        let s2 = if old[pos - i] == new[scan - i] {
            s + 1
        } else {
            s
        };
        if s2 * 2 - i > sb * 2 - lenb {
            ext_backward(old, new, lastscan, scan, pos, i + 1, s2, s2, i)
        } else {
            ext_backward(old, new, lastscan, scan, pos, i + 1, s2, sb, lenb)
        }
    } else {
        (s, sb, lenb)
    }
}

/// The overlap-resolution fold: one signed score over the overlapped
/// region, increasing where a byte agrees with the forward continuation
/// and decreasing where it agrees with the backward one; returns the
/// final `(score, best score, split)`.
pub open spec fn overlap_split(
    old: Seq<u8>,
    new: Seq<u8>,
    scan: int,
    pos: int,
    lastscan: int,
    lastpos: int,
    lenf: int,
    lenb: int,
    ov: int,
    i: int,
    s: int,
    ss: int,
    lens: int,
) -> (int, int, int)
    decreases ov - i,
{
    if i < ov {
        let s2 = if new[lastscan + lenf - ov + i] == old[lastpos + lenf - ov + i] {
            s + 1
        } else {
            s
        };
        let s3 = if new[scan - lenb + i] == old[pos - lenb + i] {
            s2 - 1
        } else {
            s2
        };
        if s3 > ss {
            overlap_split(old, new, scan, pos, lastscan, lastpos, lenf, lenb, ov, i + 1, s3, s3, i + 1)
        } else {
            overlap_split(old, new, scan, pos, lastscan, lastpos, lenf, lenb, ov, i + 1, s3, ss, lens)
        }
    } else {
        (s, ss, lens)
    }
}

/// The mix and literal lengths of the record committed for the anchor
/// `(scan, pos)` after the previous anchor `(lastscan, lastpos)`: the two
/// extension folds, then the overlap resolution where the extensions
/// meet.
pub open spec fn commit_lens(
    old: Seq<u8>,
    new: Seq<u8>,
    scan: int,
    pos: int,
    lastscan: int,
    lastpos: int,
) -> (int, int) {
    let lenf0 = ext_forward(old, new, lastscan, lastpos, scan, 0, 0, 0, 0).2;
    let lenb0 = if scan < new.len() {
        ext_backward(old, new, lastscan, scan, pos, 1, 0, 0, 0).2
    } else {
        0
    };
    if lastscan + lenf0 > scan - lenb0 {
        let ov = lastscan + lenf0 - (scan - lenb0);
        let lens = overlap_split(
            old,
            new,
            scan,
            pos,
            lastscan,
            lastpos,
            lenf0,
            lenb0,
            ov,
            0,
            0,
            0,
            0,
        ).2;
        (lenf0 - ov + lens, lenb0 - lens)
    } else {
        (lenf0, lenb0)
    }
}

/// The bytes of the record committed for the anchor `(scan, pos)`.
pub open spec fn record_for(
    old: Seq<u8>,
    new: Seq<u8>,
    scan: int,
    pos: int,
    lastscan: int,
    lastpos: int,
) -> Seq<u8> {
    let (lf, lb) = commit_lens(old, new, scan, pos, lastscan, lastpos);
    record_bytes(old, new, lastscan, lastpos, lf, scan - lb, pos - lb)
}

/// Commits the anchor `(scan, pos)`: extends it forward from the previous
/// anchor and backward from the new one, resolves any overlap of the two
/// extensions, and emits one control record.  Returns the next
/// `(lastscan, lastpos)` pair.
#[verifier::spinoff_prover]
#[verifier::rlimit(60)]
fn commit_record(
    patch: &mut Vec<u8>,
    old_buf: &[u8],
    new: &[u8],
    scan: usize,
    pos: usize,
    lastscan: usize,
    lastpos: usize,
    Ghost(init): Ghost<Seq<u8>>,
) -> (r: (usize, usize))
    requires
        fits_input(old_buf@.len()),
        fits_input(new@.len()),
        scan <= new@.len(),
        pos <= old_buf@.len(),
        lastscan <= scan,
        lastpos <= old_buf@.len(),
        old(patch)@.len() >= init.len(),
        old(patch)@.subrange(0, init.len() as int) == init,
        apply_from(old_buf@, old(patch)@.skip(init.len() as int), 0, Seq::empty())
            == (ApplyResult::Done {
            oldpos: lastpos as int,
            out: new@.subrange(0, lastscan as int),
        }),
        stream_in_bounds(old_buf@, old(patch)@.skip(init.len() as int), 0),
    ensures
        lastscan <= r.0 <= scan,
        r.1 <= old_buf@.len(),
        r.1 as int - r.0 as int == pos as int - scan as int,
        scan == new@.len() ==> r.0 == scan,
        final(patch)@.len() >= init.len(),
        final(patch)@.subrange(0, init.len() as int) == init,
        apply_from(old_buf@, final(patch)@.skip(init.len() as int), 0, Seq::empty())
            == (ApplyResult::Done {
            oldpos: r.1 as int,
            out: new@.subrange(0, r.0 as int),
        }),
        stream_in_bounds(old_buf@, final(patch)@.skip(init.len() as int), 0),
        r.0 as int == scan - commit_lens(
            old_buf@,
            new@,
            scan as int,
            pos as int,
            lastscan as int,
            lastpos as int,
        ).1,
        r.1 as int == pos - commit_lens(
            old_buf@,
            new@,
            scan as int,
            pos as int,
            lastscan as int,
            lastpos as int,
        ).1,
        final(patch)@ == old(patch)@ + record_for(
            old_buf@,
            new@,
            scan as int,
            pos as int,
            lastscan as int,
            lastpos as int,
        ),
{
    let n_old: usize = old_buf.len();
    let n_new: usize = new.len();
    let mut s_f: i64 = 0;
    let mut sf_best: i64 = 0;
    let mut lenf: usize = 0;
    let mut i: usize = 0;
    while lastscan + i < scan && lastpos + i < n_old
        invariant
            n_old == old_buf@.len(),
            n_new == new@.len(),
            fits_input(n_old as nat),
            fits_input(n_new as nat),
            lastscan <= scan <= n_new,
            lastpos <= n_old,
            lastscan + i <= scan,
            lastpos + i <= n_old,
            lenf <= i,
            lastscan + lenf <= scan,
            lastpos + lenf <= n_old,
            i <= n_new,
            0 <= s_f <= i,
            0 <= sf_best <= lenf,
            ext_forward(
                old_buf@,
                new@,
                lastscan as int,
                lastpos as int,
                scan as int,
                i as int,
                s_f as int,
                sf_best as int,
                lenf as int,
            ) == ext_forward(
                old_buf@,
                new@,
                lastscan as int,
                lastpos as int,
                scan as int,
                0,
                0,
                0,
                0,
            ),
        decreases scan - lastscan - i,
    {
        if old_buf[lastpos + i] == new[lastscan + i] {
            s_f += 1;
        }
        i += 1;
        if s_f * 2 - i as i64 > sf_best * 2 - lenf as i64 {
            sf_best = s_f;
            lenf = i;
        }
    }
    let mut lenb: usize = 0;
    if scan < n_new {
        let mut s_b: i64 = 0;
        let mut sb_best: i64 = 0;
        let mut i: usize = 1;
        while scan >= lastscan + i && pos >= i
            invariant
                n_old == old_buf@.len(),
                n_new == new@.len(),
                fits_input(n_old as nat),
                fits_input(n_new as nat),
                lastscan <= scan <= n_new,
                pos <= n_old,
                1 <= i,
                i <= n_new + 1,
                lenb < i,
                lenb <= pos,
                lastscan + lenb <= scan,
                0 <= s_b < i,
                0 <= sb_best <= lenb,
                ext_backward(
                    old_buf@,
                    new@,
                    lastscan as int,
                    scan as int,
                    pos as int,
                    i as int,
                    s_b as int,
                    sb_best as int,
                    lenb as int,
                ) == ext_backward(
                    old_buf@,
                    new@,
                    lastscan as int,
                    scan as int,
                    pos as int,
                    1,
                    0,
                    0,
                    0,
                ),
            decreases pos + 1 - i,
        {
            if old_buf[pos - i] == new[scan - i] {
                s_b += 1;
            }
            if s_b * 2 - i as i64 > sb_best * 2 - lenb as i64 {
                sb_best = s_b;
                lenb = i;
            }
            i += 1;
        }
    }
    proof {
        assert(lenf as int == ext_forward(
            old_buf@,
            new@,
            lastscan as int,
            lastpos as int,
            scan as int,
            0,
            0,
            0,
            0,
        ).2);
        if scan < n_new {
            assert(lenb as int == ext_backward(
                old_buf@,
                new@,
                lastscan as int,
                scan as int,
                pos as int,
                1,
                0,
                0,
                0,
            ).2);
        }
    }
    let ghost lenf0 = lenf as int;
    let ghost lenb0 = lenb as int;
    if lastscan + lenf > scan - lenb {
        let overlap: usize = lastscan + lenf - (scan - lenb);
        let mut s_o: i64 = 0;
        let mut ss: i64 = 0;
        let mut lens: usize = 0;
        let mut i: usize = 0;
        while i < overlap
            invariant
                n_old == old_buf@.len(),
                n_new == new@.len(),
                fits_input(n_old as nat),
                fits_input(n_new as nat),
                overlap <= lenf,
                overlap <= lenb,
                lastscan + lenf <= n_new,
                lastscan + lenf <= scan + lenb,
                lastpos + lenf <= n_old,
                scan <= n_new,
                pos <= n_old,
                lenb <= pos,
                lastscan + lenb <= scan,
                lens <= i <= overlap,
                -(i as int) <= s_o <= i,
                0 <= ss <= overlap,
                lenf == lenf0,
                lenb == lenb0,
                overlap == lastscan + lenf0 - (scan - lenb0),
                overlap_split(
                    old_buf@,
                    new@,
                    scan as int,
                    pos as int,
                    lastscan as int,
                    lastpos as int,
                    lenf0,
                    lenb0,
                    overlap as int,
                    i as int,
                    s_o as int,
                    ss as int,
                    lens as int,
                ) == overlap_split(
                    old_buf@,
                    new@,
                    scan as int,
                    pos as int,
                    lastscan as int,
                    lastpos as int,
                    lenf0,
                    lenb0,
                    overlap as int,
                    0,
                    0,
                    0,
                    0,
                ),
            decreases overlap - i,
        {
            if new[lastscan + lenf - overlap + i] == old_buf[lastpos + lenf - overlap + i] {
                s_o += 1;
            }
            if new[scan - lenb + i] == old_buf[pos - lenb + i] {
                s_o -= 1;
            }
            if s_o > ss {
                ss = s_o;
                lens = i + 1;
            }
            i += 1;
        }
        lenf = lenf - overlap + lens;
        lenb = lenb - lens;
    }
    proof {
        assert((lenf as int, lenb as int) == commit_lens(
            old_buf@,
            new@,
            scan as int,
            pos as int,
            lastscan as int,
            lastpos as int,
        ));
    }
    let newend: usize = scan - lenb;
    let copy_len: usize = newend - (lastscan + lenf);
    let anchor: usize = pos - lenb;
    let seek: i64 = anchor as i64 - (lastpos + lenf) as i64;
    let ghost pre = patch@;
    push_u64_le(patch, lenf as u64);
    push_u64_le(patch, copy_len as u64);
    push_sign_mag(patch, seek);
    push_mix(patch, old_buf, new, lastscan, lastpos, lenf);
    push_range(patch, new, lastscan + lenf, newend);
    proof {
        let rec = record_bytes(
            old_buf@,
            new@,
            lastscan as int,
            lastpos as int,
            lenf as int,
            newend as int,
            anchor as int,
        );
        assert(patch@ =~= pre + rec);
        let d_pre = pre.skip(init.len() as int);
        assert(patch@.skip(init.len() as int) =~= d_pre + rec);
        lemma_apply_append(old_buf@, d_pre, rec, 0, Seq::empty());
        lemma_apply_record(
            old_buf@,
            new@,
            lastscan as int,
            lastpos as int,
            lenf as int,
            newend as int,
            anchor as int,
        );
        lemma_stream_in_bounds_append(old_buf@, d_pre, rec, 0, Seq::empty());
        assert(patch@.subrange(0, init.len() as int) =~= init);
    }
    (newend, anchor)
}

/// Diffs an "old" and a "new" buffer, appending the patch stream to
/// `patch`.
///
/// Applying the appended stream to `old_buf` — with `patch::patch` or,
/// for a destination of length `new.len()`, `patch::bspatch` —
/// reconstructs `new` exactly; that is this function's postcondition, and
/// diffing never fails.  The stream it emits for given buffers is the one
/// byte sequence the encoding loop produces, so equal inputs yield equal
/// patches.
pub fn diff(old_buf: &[u8], new: &[u8], patch: &mut Vec<u8>)
    requires
        fits_input(old_buf@.len()),
        fits_input(new@.len()),
    ensures
        final(patch)@.len() >= old(patch)@.len(),
        final(patch)@.subrange(0, old(patch)@.len() as int) == old(patch)@,
        apply_patch(old_buf@, final(patch)@.skip(old(patch)@.len() as int))
            matches ApplyResult::Done { out, .. } && out == new@,
        stream_in_bounds(old_buf@, final(patch)@.skip(old(patch)@.len() as int), 0),
        new@.len() == 0 ==> final(patch)@ == old(patch)@,
{
    let n_old: usize = old_buf.len();
    let n_new: usize = new.len();
    let ghost init = patch@;
    let ii = qsufsort(old_buf);
    let mut scan: usize = 0;
    let mut len: usize = 0;
    let mut pos: usize = 0;
    let mut lastscan: usize = 0;
    let mut lastpos: usize = 0;
    let mut lastoffset: i64 = 0;
    proof {
        assert(patch@.skip(init.len() as int) =~= Seq::<u8>::empty());
        assert(new@.subrange(0, 0) =~= Seq::<u8>::empty());
        assert(patch@.subrange(0, init.len() as int) =~= init);
    }
    while scan < n_new
        invariant
            n_old == old_buf@.len(),
            n_new == new@.len(),
            fits_input(n_old as nat),
            fits_input(n_new as nat),
            table_ok(ii@),
            ii@.len() == n_old + 1,
            init == old(patch)@,
            patch@.len() >= init.len(),
            patch@.subrange(0, init.len() as int) == init,
            scan <= n_new,
            len <= n_new,
            scan < n_new ==> len <= n_new - scan,
            pos <= n_old,
            len <= n_old - pos,
            lastscan <= scan,
            lastpos <= n_old,
            lastscan as int + lastoffset == lastpos as int,
            scan >= n_new ==> lastscan == n_new,
            n_new == 0 ==> patch@.len() == init.len(),
            apply_from(old_buf@, patch@.skip(init.len() as int), 0, Seq::empty())
                == (ApplyResult::Done {
                oldpos: lastpos as int,
                out: new@.subrange(0, lastscan as int),
            }),
            stream_in_bounds(old_buf@, patch@.skip(init.len() as int), 0),
        decreases 2 * (n_new as int) - scan - len,
    {
        let mut oldscore: usize = 0;
        scan += len;
        let mut scsc: usize = scan;
        let ghost sentry = scan;
        let ghost lentry = len;
        while scan < n_new
            invariant_except_break
                scan == sentry ==> len == lentry,
            invariant
                n_old == old_buf@.len(),
                n_new == new@.len(),
                fits_input(n_old as nat),
                fits_input(n_new as nat),
                table_ok(ii@),
                ii@.len() == n_old + 1,
                sentry <= scan <= n_new,
                pos <= n_old,
                len <= n_old - pos,
                len <= n_new,
                lastscan <= sentry,
                lastscan <= scsc,
                scsc <= n_new,
                oldscore <= scsc,
                lastpos <= n_old,
                lastscan as int + lastoffset == lastpos as int,
            ensures
                n_old == old_buf@.len(),
                n_new == new@.len(),
                table_ok(ii@),
                ii@.len() == n_old + 1,
                sentry <= scan <= n_new,
                scan == sentry ==> len == lentry || len >= 1,
                scan >= n_new || len >= 1,
                pos <= n_old,
                len <= n_old - pos,
                len <= n_new,
                scan < n_new ==> len <= n_new - scan,
                scan < n_new ==> ((len == oldscore && len != 0) || len > oldscore + 8),
                lastscan <= sentry,
                lastpos <= n_old,
                lastscan as int + lastoffset == lastpos as int,
                oldscore <= n_new,
            decreases n_new - scan,
        {
            let sr = search(&ii, old_buf, new, scan);
            pos = sr.0;
            len = sr.1;
            while scsc < scan + len
                invariant
                    n_old == old_buf@.len(),
                    n_new == new@.len(),
                    fits_input(n_old as nat),
                    fits_input(n_new as nat),
                    lastscan <= scsc,
                    scan + len <= n_new,
                    scsc <= n_new,
                    oldscore <= scsc,
                    lastpos <= n_old,
                    lastscan as int + lastoffset == lastpos as int,
                decreases scan + len - scsc,
            {
                let qo: i64 = scsc as i64 + lastoffset;
                if qo < n_old as i64 && old_buf[qo as usize] == new[scsc] {
                    oldscore += 1;
                }
                scsc += 1;
            }
            if (len == oldscore && len != 0) || len > oldscore + 8 {
                break;
            }
            let qo: i64 = scan as i64 + lastoffset;
            if qo < n_old as i64 && old_buf[qo as usize] == new[scan] {
                // The byte at the scan cursor already matched through the
                // previous anchor's offset; a healthy window has counted
                // it, so the count stays positive here.
                if oldscore > 0 {
                    oldscore -= 1;
                }
            }
            scan += 1;
        }
        if len != oldscore || scan == n_new {
            let r = commit_record(patch, old_buf, new, scan, pos, lastscan, lastpos, Ghost(init));
            lastscan = r.0;
            lastpos = r.1;
            lastoffset = pos as i64 - scan as i64;
        }
    }
    proof {
        assert(new@.subrange(0, n_new as int) =~= new@);
        if n_new == 0 {
            assert(patch@ =~= init);
        }
    }
}

} // verus!
