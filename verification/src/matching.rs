//! The matcher: given the suffix array of the old buffer, finds for a
//! cursor into the new buffer the suffix of the old buffer, among the two
//! candidates that a binary search narrows to, with the longer shared byte
//! prefix.  The narrowing to two candidates is a deliberate speed trade-off
//! of the format: the returned match is not always the globally longest
//! one, and the round-trip theorem does not depend on it being long — any
//! position within the old buffer yields a correct, if larger, patch.

use crate::suffix::fits_input;
use crate::suffix::spec_slot_pos;
use crate::suffix::suffix_at;
use crate::suffix::table_ok;
use vstd::prelude::*;

verus! {

/// The length of the longest shared prefix of `a` and `b`.
pub open spec fn match_len(a: Seq<u8>, b: Seq<u8>) -> nat
    decreases a.len(),
{
    if a.len() == 0 || b.len() == 0 || a[0] != b[0] {
        0
    } else {
        1 + match_len(a.skip(1), b.skip(1))
    }
}

/// A shared prefix of `r` bytes followed by a mismatch (or the end of
/// either sequence) pins the matched length at exactly `r`.
pub proof fn lemma_match_len_from_bytes(a: Seq<u8>, b: Seq<u8>, r: int)
    requires
        0 <= r <= a.len(),
        r <= b.len(),
        forall|q: int| 0 <= q < r ==> a[q] == b[q],
        r == a.len() || r == b.len() || a[r] != b[r],
    ensures
        match_len(a, b) == r,
    decreases r,
{
    if r == 0 {
    } else {
        lemma_match_len_from_bytes(a.skip(1), b.skip(1), r - 1);
    }
}

/// The number of leading bytes `old_buf[i..]` and `new[j..]` share.
pub fn matchlen(old_buf: &[u8], i: usize, new: &[u8], j: usize) -> (r: usize)
    requires
        i <= old_buf@.len(),
        j <= new@.len(),
    ensures
        r == match_len(old_buf@.skip(i as int), new@.skip(j as int)),
        i + r <= old_buf@.len(),
        j + r <= new@.len(),
{
    let no: usize = old_buf.len();
    let nn: usize = new.len();
    let mut r: usize = 0;
    while i + r < no && j + r < nn && old_buf[i + r] == new[j + r]
        invariant
            i + r <= no,
            j + r <= nn,
            no == old_buf@.len(),
            nn == new@.len(),
            forall|q: int| 0 <= q < r ==> #[trigger] old_buf@[i + q] == new@[j + q],
        decreases no - i - r,
    {
        r += 1;
    }
    proof {
        let a = old_buf@.skip(i as int);
        let b = new@.skip(j as int);
        assert forall|q: int| 0 <= q < r implies a[q] == b[q] by {
            assert(old_buf@[i + q] == new@[j + q]);
        }
        lemma_match_len_from_bytes(a, b, r as int);
    }
    r
}

/// Lexicographic order of two byte sequences truncated to their shorter
/// length: true when the first differing byte is smaller in `a`; equal
/// prefixes compare as not-less.
pub open spec fn prefix_less(a: Seq<u8>, b: Seq<u8>) -> bool
    decreases a.len(),
{
    if a.len() == 0 || b.len() == 0 {
        false
    } else if a[0] != b[0] {
        a[0] < b[0]
    } else {
        prefix_less(a.skip(1), b.skip(1))
    }
}

/// A shared prefix of `q` bytes followed by a mismatch (or the end of
/// either sequence) decides the truncated lexicographic order.
pub proof fn lemma_prefix_less_from_bytes(a: Seq<u8>, b: Seq<u8>, q: int)
    requires
        0 <= q <= a.len(),
        q <= b.len(),
        forall|w: int| 0 <= w < q ==> a[w] == b[w],
    ensures
        q == a.len() || q == b.len() ==> !prefix_less(a, b),
        q < a.len() && q < b.len() && a[q] != b[q] ==> prefix_less(a, b) == (a[q] < b[q]),
    decreases q,
{
    if q == 0 {
    } else {
        lemma_prefix_less_from_bytes(a.skip(1), b.skip(1), q - 1);
    }
}

/// Compares `old_buf[st..]` with `new[scan..]`, each truncated to the
/// shorter of the two, in lexicographic order.
fn suffix_less(old_buf: &[u8], st: usize, new: &[u8], scan: usize) -> (r: bool)
    requires
        st <= old_buf@.len(),
        scan <= new@.len(),
    ensures
        r == prefix_less(old_buf@.skip(st as int), new@.skip(scan as int)),
{
    let no: usize = old_buf.len();
    let nn: usize = new.len();
    let la: usize = no - st;
    let lb: usize = nn - scan;
    let m: usize = if la < lb {
        la
    } else {
        lb
    };
    let mut q: usize = 0;
    while q < m && old_buf[st + q] == new[scan + q]
        invariant
            q <= m,
            st + m <= no,
            scan + m <= nn,
            m == la || m == lb,
            la == no - st,
            lb == nn - scan,
            no == old_buf@.len(),
            nn == new@.len(),
            forall|w: int| 0 <= w < q ==> #[trigger] old_buf@[st + w] == new@[scan + w],
        decreases m - q,
    {
        q += 1;
    }
    proof {
        let a = old_buf@.skip(st as int);
        let b = new@.skip(scan as int);
        assert forall|w: int| 0 <= w < q implies a[w] == b[w] by {
            assert(old_buf@[st + w] == new@[scan + w]);
        }
        lemma_prefix_less_from_bytes(a, b, q as int);
    }
    if q == m {
        false
    } else {
        old_buf[st + q] < new[scan + q]
    }
}

/// The slot pair the binary search narrows to: starting from the whole
/// table, the range keeps the half beyond the probed suffix while that
/// suffix compares below the cursor, until two candidates remain.
pub open spec fn bracket(
    t: Seq<i64>,
    old: Seq<u8>,
    new: Seq<u8>,
    scan: int,
    lo: int,
    hi: int,
) -> (int, int)
    decreases hi - lo,
{
    if hi - lo >= 2 {
        let mid = lo + (hi - lo) / 2;
        if prefix_less(old.skip(spec_slot_pos(t, mid, old.len() as int)), new.skip(scan)) {
            bracket(t, old, new, scan, mid, hi)
        } else {
            bracket(t, old, new, scan, lo, mid)
        }
    } else {
        (lo, hi)
    }
}

/// What the matcher returns: the final two candidates' positions, each
/// measured against the cursor, the longer match winning and the second
/// candidate breaking a tie.
pub open spec fn search_spec(t: Seq<i64>, old: Seq<u8>, new: Seq<u8>, scan: int) -> (int, int) {
    let br = bracket(t, old, new, scan, 0, old.len() as int);
    let pa = spec_slot_pos(t, br.0, old.len() as int);
    let pb = spec_slot_pos(t, br.1, old.len() as int);
    let la = match_len(old.skip(pa), new.skip(scan));
    let lb = match_len(old.skip(pb), new.skip(scan));
    if la > lb {
        (pa, la as int)
    } else {
        (pb, lb as int)
    }
}

/// Binary-searches the suffix array for a match against `new[scan..]`:
/// returns an old-buffer position and the length of the byte prefix it
/// shares with the cursor, taking the longer of the final two candidates.
/// The result is pinned to `search_spec`: a function of the table and the
/// buffers alone, preserving the narrowing-to-two-candidates tie-break
/// exactly — deliberately not the globally longest match.
pub fn search(ii: &Vec<i64>, old_buf: &[u8], new: &[u8], scan: usize) -> (r: (usize, usize))
    requires
        table_ok(ii@),
        ii@.len() == old_buf@.len() + 1,
        fits_input(old_buf@.len()),
        scan <= new@.len(),
    ensures
        r.0 + r.1 <= old_buf@.len(),
        scan + r.1 <= new@.len(),
        r.1 == match_len(old_buf@.skip(r.0 as int), new@.skip(scan as int)),
        (r.0 as int, r.1 as int) == search_spec(ii@, old_buf@, new@, scan as int),
{
    let n: usize = old_buf.len();
    let mut lo: usize = 0;
    let mut hi: usize = n;
    while hi - lo >= 2
        invariant
            lo <= hi <= n,
            n == old_buf@.len(),
            ii@.len() == n + 1,
            table_ok(ii@),
            fits_input(n as nat),
            scan <= new@.len(),
            bracket(ii@, old_buf@, new@, scan as int, lo as int, hi as int) == bracket(
                ii@,
                old_buf@,
                new@,
                scan as int,
                0,
                n as int,
            ),
        decreases hi - lo,
    {
        let mid = lo + (hi - lo) / 2;
        let st = suffix_at(ii, mid, n);
        if suffix_less(old_buf, st, new, scan) {
            lo = mid;
        } else {
            hi = mid;
        }
    }
    let sa = suffix_at(ii, lo, n);
    let sb = suffix_at(ii, hi, n);
    let x = matchlen(old_buf, sa, new, scan);
    let y = matchlen(old_buf, sb, new, scan);
    proof {
        assert(bracket(ii@, old_buf@, new@, scan as int, lo as int, hi as int) == (
        lo as int,
        hi as int,
        ));
    }
    if x > y {
        (sa, x)
    } else {
        (sb, y)
    }
}

} // verus!
