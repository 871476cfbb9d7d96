//! The suffix sorter: a prefix-doubling sort over the suffixes of the old
//! buffer, producing the suffix array that the match searcher binary-searches.
//!
//! The refinement works in two tables of `n + 1` signed entries each — the
//! suffix array `I` (a slot holds a suffix start, or a negative run length
//! marking slots whose suffixes are already in final position) and the rank
//! table `V`.  Every entry of a healthy table lies in `[-(n+1), n]`, and the
//! tables enforce that range on every access: all the index arithmetic of
//! the sort is thereby bounded, every pass is well founded, and the sorter
//! can never panic, whatever the refinement does.
//!
//! The refinement's own invariants (group structure, rank inverses) are
//! not machine-checked; its *result* is.  `qsufsort` certifies the table
//! with a verified checker — sorted order, a permutation, the sentinel
//! first — and falls back to a proved direct sort should the certificate
//! ever be refused, so its postcondition states the full sorted-suffix-
//! permutation contract unconditionally.  The delta encoder's round-trip
//! theorem holds for any table contents; the order determines how small
//! the emitted patches are.

use vstd::prelude::*;

verus! {

/// The largest old or new buffer the encoder accepts: comfortably beyond
/// any real memory, and small enough that every offset sum of the sort and
/// of the record arithmetic fits in a signed 64-bit word.
pub const MAX_INPUT_LEN: u64 = 0x0004_0000_0000_0000;

/// A buffer length the encoder can work with: bounded as above, and small
/// enough that one more slot still fits in a machine word.
pub open spec fn fits_input(len: nat) -> bool {
    len <= MAX_INPUT_LEN && 4 * len < usize::MAX
}

/// Every entry of a sort table of length `m` lies in `[-m, m - 1]`.
pub open spec fn table_ok(t: Seq<i64>) -> bool {
    forall|k: int| 0 <= k < t.len() ==> -(t.len() as int) <= #[trigger] t[k] < t.len()
}

/// What reading slot `pos` of `ii` and then, at offset `h`, the rank table
/// `v` yields through the guarded accessors.
pub open spec fn key_at(v: Seq<i64>, ii: Seq<i64>, pos: int, h: int) -> i64 {
    let e: int = if 0 <= pos < ii.len() {
        ii[pos] as int
    } else {
        0
    };
    let q = e + h;
    if 0 <= q < v.len() {
        v[q]
    } else {
        0
    }
}

/// Total lexicographic order on byte sequences, a proper prefix sorting
/// before its extensions: the order of two suffixes of one text when a
/// unique smallest sentinel is imagined at its end.
pub open spec fn seq_le(a: Seq<u8>, b: Seq<u8>) -> bool
    decreases a.len(),
{
    if a.len() == 0 {
        true
    } else if b.len() == 0 {
        false
    } else if a[0] != b[0] {
        a[0] < b[0]
    } else {
        seq_le(a.skip(1), b.skip(1))
    }
}

/// The order is total: one direction always holds.
pub proof fn lemma_seq_le_total(a: Seq<u8>, b: Seq<u8>)
    ensures
        seq_le(a, b) || seq_le(b, a),
    decreases a.len(),
{
    if a.len() == 0 || b.len() == 0 || a[0] != b[0] {
    } else {
        lemma_seq_le_total(a.skip(1), b.skip(1));
    }
}

/// The order is transitive.
pub proof fn lemma_seq_le_trans(a: Seq<u8>, b: Seq<u8>, c: Seq<u8>)
    requires
        seq_le(a, b),
        seq_le(b, c),
    ensures
        seq_le(a, c),
    decreases a.len(),
{
    if a.len() == 0 {
    } else {
        assert(b.len() > 0);
        assert(c.len() > 0);
        if a[0] == b[0] && b[0] == c[0] {
            lemma_seq_le_trans(a.skip(1), b.skip(1), c.skip(1));
        }
    }
}

/// A shared prefix of `q` bytes followed by a mismatch (or the end of
/// either sequence) decides the order.
pub proof fn lemma_seq_le_from_bytes(a: Seq<u8>, b: Seq<u8>, q: int)
    requires
        0 <= q <= a.len(),
        q <= b.len(),
        forall|w: int| 0 <= w < q ==> a[w] == b[w],
    ensures
        q == a.len() ==> seq_le(a, b),
        q == b.len() && q < a.len() ==> !seq_le(a, b),
        q < a.len() && q < b.len() && a[q] != b[q] ==> seq_le(a, b) == (a[q] < b[q]),
    decreases q,
{
    if q == 0 {
    } else {
        lemma_seq_le_from_bytes(a.skip(1), b.skip(1), q - 1);
    }
}

/// Compares the suffixes of `old_buf` starting at `a` and at `b`.
fn suffix_le_exec(old_buf: &[u8], a: usize, b: usize) -> (r: bool)
    requires
        a <= old_buf@.len(),
        b <= old_buf@.len(),
    ensures
        r == seq_le(old_buf@.skip(a as int), old_buf@.skip(b as int)),
{
    let no: usize = old_buf.len();
    let la: usize = no - a;
    let lb: usize = no - b;
    let m: usize = if la < lb {
        la
    } else {
        lb
    };
    let mut q: usize = 0;
    while q < m && old_buf[a + q] == old_buf[b + q]
        invariant
            q <= m,
            a + m <= no,
            b + m <= no,
            m == la || m == lb,
            la == no - a,
            lb == no - b,
            no == old_buf@.len(),
            forall|w: int| 0 <= w < q ==> #[trigger] old_buf@[a + w] == old_buf@[b + w],
        decreases m - q,
    {
        q += 1;
    }
    proof {
        let sa = old_buf@.skip(a as int);
        let sb = old_buf@.skip(b as int);
        assert forall|w: int| 0 <= w < q implies sa[w] == sb[w] by {
            assert(old_buf@[a + w] == old_buf@[b + w]);
        }
        lemma_seq_le_from_bytes(sa, sb, q as int);
    }
    if q == m {
        la <= lb
    } else {
        old_buf[a + q] < old_buf[b + q]
    }
}

/// `t` is the suffix array of `old`: one slot per suffix start plus the
/// empty sentinel suffix, pairwise distinct (a permutation of {0..n}),
/// the sentinel first, and the suffixes in lexicographic order.
pub open spec fn suffix_array_of(old: Seq<u8>, t: Seq<i64>) -> bool {
    &&& t.len() == old.len() + 1
    &&& forall|k: int| 0 <= k < t.len() ==> 0 <= #[trigger] t[k] <= old.len()
    &&& forall|k1: int, k2: int|
        #![trigger t[k1], t[k2]]
        0 <= k1 < k2 < t.len() ==> t[k1] != t[k2]
    &&& t[0] == old.len()
    &&& forall|k1: int, k2: int|
        #![trigger t[k1], t[k2]]
        0 <= k1 < k2 < t.len() ==> seq_le(old.skip(t[k1] as int), old.skip(t[k2] as int))
}

/// Adjacent order plus transitivity gives the order of any two slots.
proof fn lemma_le_span(old: Seq<u8>, t: Seq<i64>, k1: int, k2: int)
    requires
        forall|k: int| 0 <= k < t.len() ==> 0 <= #[trigger] t[k] <= old.len(),
        forall|k: int|
            0 <= k < t.len() - 1 ==> seq_le(
                old.skip(#[trigger] t[k] as int),
                old.skip(t[k + 1] as int),
            ),
        0 <= k1 <= k2 < t.len(),
    ensures
        seq_le(old.skip(t[k1] as int), old.skip(t[k2] as int)),
    decreases k2 - k1,
{
    if k1 == k2 {
        lemma_seq_le_total(old.skip(t[k1] as int), old.skip(t[k1] as int));
    } else {
        lemma_le_span(old, t, k1, k2 - 1);
        lemma_seq_le_trans(
            old.skip(t[k1] as int),
            old.skip(t[k2 - 1] as int),
            old.skip(t[k2] as int),
        );
    }
}

/// Decides whether `t` is a sorted suffix permutation of `old_buf`.  The
/// refinement sort is believed to produce one, but its internal
/// invariants are not machine-checked; this certificate is, so the
/// sorter's contract rests on the check and not on the refinement.
fn certify(old_buf: &[u8], t: &Vec<i64>) -> (r: bool)
    requires
        fits_input(old_buf@.len()),
        t@.len() == old_buf@.len() + 1,
    ensures
        r == suffix_array_of(old_buf@, t@),
{
    let n: usize = old_buf.len();
    if t[0] != n as i64 {
        return false;
    }
    let mut seen: Vec<bool> = Vec::new();
    let mut w: usize = 0;
    while w < n + 1
        invariant
            w <= n + 1,
            n == old_buf@.len(),
            fits_input(n as nat),
            seen@.len() == w,
            forall|v: int| 0 <= v < w ==> !seen@[v],
        decreases n + 1 - w,
    {
        seen.push(false);
        w += 1;
    }
    let mut k: usize = 0;
    while k < n + 1
        invariant
            k <= n + 1,
            n == old_buf@.len(),
            fits_input(n as nat),
            t@.len() == n + 1,
            seen@.len() == n + 1,
            forall|q: int| 0 <= q < k ==> 0 <= #[trigger] t@[q] <= n,
            forall|q1: int, q2: int|
                #![trigger t@[q1], t@[q2]]
                0 <= q1 < q2 < k ==> t@[q1] != t@[q2],
            forall|q: int| 0 <= q < k ==> seen@[#[trigger] t@[q] as int],
            forall|v: int|
                0 <= v <= n && #[trigger] seen@[v] ==> exists|w: int| 0 <= w < k && t@[w] == v,
        decreases n + 1 - k,
    {
        let e = t[k];
        if e < 0 || e > n as i64 {
            return false;
        }
        if seen[e as usize] {
            proof {
                // A slot before `k` already holds this value: not a
                // permutation.
                let w = choose|w: int| 0 <= w < k && t@[w] == e as int;
                assert(t@[w] == t@[k as int]);
            }
            return false;
        }
        seen[e as usize] = true;
        proof {
            assert forall|v: int| 0 <= v <= n && #[trigger] seen@[v] implies exists|w: int|
                0 <= w < k + 1 && t@[w] == v by {
                if v == e as int {
                    assert(t@[k as int] == v);
                } else {
                    let w = choose|w: int| 0 <= w < k && t@[w] == v;
                    assert(t@[w] == v);
                }
            }
        }
        k += 1;
    }
    let mut k: usize = 0;
    while k < n
        invariant
            k <= n,
            n == old_buf@.len(),
            fits_input(n as nat),
            t@.len() == n + 1,
            forall|q: int| 0 <= q < t@.len() ==> 0 <= #[trigger] t@[q] <= n,
            forall|q: int|
                0 <= q < k ==> seq_le(
                    old_buf@.skip(#[trigger] t@[q] as int),
                    old_buf@.skip(t@[q + 1] as int),
                ),
        decreases n - k,
    {
        if !suffix_le_exec(old_buf, t[k] as usize, t[k + 1] as usize) {
            return false;
        }
        k += 1;
    }
    proof {
        assert forall|k1: int, k2: int|
            #![trigger t@[k1], t@[k2]]
            0 <= k1 < k2 < t@.len() implies seq_le(
            old_buf@.skip(t@[k1] as int),
            old_buf@.skip(t@[k2] as int),
        ) by {
            lemma_le_span(old_buf@, t@, k1, k2);
        }
    }
    true
}

/// Builds the suffix array directly, by inserting each suffix at its
/// place in the order: the proved fallback behind the certificate.
fn sorted_suffixes(old_buf: &[u8]) -> (t: Vec<i64>)
    requires
        fits_input(old_buf@.len()),
    ensures
        suffix_array_of(old_buf@, t@),
{
    let n: usize = old_buf.len();
    let mut t: Vec<i64> = Vec::new();
    t.push(n as i64);
    let mut j: usize = 0;
    while j < n
        invariant
            n == old_buf@.len(),
            fits_input(n as nat),
            t@.len() == j + 1,
            j <= n,
            t@[0] == n,
            forall|k: int| 0 <= k < t@.len() ==> 0 <= #[trigger] t@[k] <= n,
            forall|k: int| 0 <= k < t@.len() ==> (#[trigger] t@[k] == n || t@[k] < j),
            forall|k1: int, k2: int|
                #![trigger t@[k1], t@[k2]]
                0 <= k1 < k2 < t@.len() ==> t@[k1] != t@[k2],
            forall|k1: int, k2: int|
                #![trigger t@[k1], t@[k2]]
                0 <= k1 < k2 < t@.len() ==> seq_le(
                    old_buf@.skip(t@[k1] as int),
                    old_buf@.skip(t@[k2] as int),
                ),
        decreases n - j,
    {
        let mut p: usize = 1;
        proof {
            // The empty sentinel suffix stays ahead of every real suffix.
            assert(old_buf@.skip(n as int).len() == 0);
            assert(old_buf@.skip(j as int).len() > 0);
            assert(!seq_le(old_buf@.skip(j as int), old_buf@.skip(t@[0] as int)));
        }
        loop
            invariant
                1 <= p <= t@.len(),
                n == old_buf@.len(),
                fits_input(n as nat),
                j < n,
                t@.len() == j + 1,
                forall|k: int| 0 <= k < t@.len() ==> 0 <= #[trigger] t@[k] <= n,
                forall|k: int|
                    0 <= k < p ==> !seq_le(
                        old_buf@.skip(j as int),
                        old_buf@.skip(#[trigger] t@[k] as int),
                    ),
            ensures
                1 <= p <= t@.len(),
                forall|k: int|
                    0 <= k < p ==> !seq_le(
                        old_buf@.skip(j as int),
                        old_buf@.skip(#[trigger] t@[k] as int),
                    ),
                p < t@.len() ==> seq_le(
                    old_buf@.skip(j as int),
                    old_buf@.skip(t@[p as int] as int),
                ),
            decreases t@.len() - p,
        {
            if p == t.len() {
                break;
            }
            if suffix_le_exec(old_buf, j, t[p] as usize) {
                break;
            }
            p += 1;
        }
        let ghost pre = t@;
        let ghost pp = p as int;
        t.insert(p, j as i64);
        proof {
            let sj = old_buf@.skip(j as int);
            assert forall|k1: int, k2: int|
                #![trigger t@[k1], t@[k2]]
                0 <= k1 < k2 < t@.len() implies seq_le(
                old_buf@.skip(t@[k1] as int),
                old_buf@.skip(t@[k2] as int),
            ) by {
                if k1 < pp && k2 < pp {
                    assert(t@[k1] == pre[k1]);
                    assert(t@[k2] == pre[k2]);
                    assert(seq_le(old_buf@.skip(pre[k1] as int), old_buf@.skip(pre[k2] as int)));
                } else if k1 > pp && k2 > pp {
                    assert(t@[k1] == pre[k1 - 1]);
                    assert(t@[k2] == pre[k2 - 1]);
                    assert(seq_le(
                        old_buf@.skip(pre[k1 - 1] as int),
                        old_buf@.skip(pre[k2 - 1] as int),
                    ));
                } else if k2 == pp {
                    // Everything before the insertion point refused
                    // `j <=`, so by totality it sorts before `j`.
                    assert(t@[k1] == pre[k1]);
                    assert(!seq_le(sj, old_buf@.skip(pre[k1] as int)));
                    lemma_seq_le_total(sj, old_buf@.skip(pre[k1] as int));
                } else if k1 == pp {
                    // `j` sorts before the blocking slot, which sorts
                    // before everything after it.
                    assert(t@[k2] == pre[k2 - 1]);
                    assert(pp < pre.len());
                    assert(seq_le(sj, old_buf@.skip(pre[pp] as int)));
                    lemma_le_span_pairs(old_buf@, pre, pp, k2 - 1);
                    lemma_seq_le_trans(
                        sj,
                        old_buf@.skip(pre[pp] as int),
                        old_buf@.skip(pre[k2 - 1] as int),
                    );
                } else {
                    // k1 before the insertion point, k2 after it: the two
                    // surviving entries were already ordered.
                    assert(t@[k1] == pre[k1]);
                    assert(t@[k2] == pre[k2 - 1]);
                    assert(k1 < k2 - 1);
                    assert(seq_le(
                        old_buf@.skip(pre[k1] as int),
                        old_buf@.skip(pre[k2 - 1] as int),
                    ));
                }
            }
        }
        j += 1;
    }
    t
}

/// Any two slots of a pairwise-sorted table are ordered.
proof fn lemma_le_span_pairs(old: Seq<u8>, t: Seq<i64>, k1: int, k2: int)
    requires
        forall|q1: int, q2: int|
            #![trigger t[q1], t[q2]]
            0 <= q1 < q2 < t.len() ==> seq_le(old.skip(t[q1] as int), old.skip(t[q2] as int)),
        0 <= k1 <= k2 < t.len(),
    ensures
        seq_le(old.skip(t[k1] as int), old.skip(t[k2] as int)),
{
    if k1 == k2 {
        lemma_seq_le_total(old.skip(t[k1] as int), old.skip(t[k1] as int));
    }
}

/// A fresh table of `m` zeroed entries.
fn make_table(m: usize) -> (t: Vec<i64>)
    requires
        1 <= m,
    ensures
        t@.len() == m,
        table_ok(t@),
        forall|k: int| 0 <= k < m ==> t@[k] == 0,
{
    let mut t: Vec<i64> = Vec::new();
    let mut i: usize = 0;
    while i < m
        invariant
            i <= m,
            t@.len() == i,
            forall|k: int| 0 <= k < i ==> t@[k] == 0,
        decreases m - i,
    {
        t.push(0);
        i += 1;
    }
    t
}

/// Reads table slot `i`; a slot outside the table reads as 0.
fn tget(t: &Vec<i64>, i: i64) -> (r: i64)
    requires
        table_ok(t@),
        1 <= t@.len() <= i64::MAX,
    ensures
        -(t@.len() as int) <= r < t@.len(),
        0 <= i < t@.len() ==> r == t@[i as int],
        !(0 <= i < t@.len()) ==> r == 0,
{
    let m: usize = t.len();
    if 0 <= i && (i as u64) < m as u64 {
        t[i as usize]
    } else {
        0
    }
}

/// Writes `v` into table slot `i`.  A write outside the table is dropped,
/// and a value outside the healthy range `[-m, m - 1]` is pinned to it, so
/// that the table invariant is unconditional.  A healthy sort never writes
/// such a slot or such a value.
fn tset(t: &mut Vec<i64>, i: i64, v: i64)
    requires
        table_ok(old(t)@),
        1 <= old(t)@.len() <= i64::MAX,
    ensures
        final(t)@.len() == old(t)@.len(),
        table_ok(final(t)@),
        (0 <= i < old(t)@.len() && -(old(t)@.len() as int) <= v < old(t)@.len()) ==> final(t)@
            == old(t)@.update(i as int, v),
        !(0 <= i < old(t)@.len()) ==> final(t)@ == old(t)@,
        forall|q: int| 0 <= q < old(t)@.len() && q != i ==> final(t)@[q] == old(t)@[q],
{
    let m: usize = t.len();
    if 0 <= i && (i as u64) < m as u64 {
        let vv: i64 = if v < -(m as i64) {
            -(m as i64)
        } else if v >= m as i64 {
            m as i64 - 1
        } else {
            v
        };
        t[i as usize] = vv;
    }
}

/// Swaps table slots `a` and `b` (each dropped if outside the table).
fn tswap(t: &mut Vec<i64>, a: i64, b: i64)
    requires
        table_ok(old(t)@),
        1 <= old(t)@.len() <= i64::MAX,
    ensures
        final(t)@.len() == old(t)@.len(),
        table_ok(final(t)@),
        forall|q: int| 0 <= q < old(t)@.len() && q != a && q != b ==> final(t)@[q] == old(t)@[q],
{
    let va = tget(t, a);
    let vb = tget(t, b);
    tset(t, a, vb);
    tset(t, b, va);
}

/// One partitioning step of the refinement: splits the group of slots
/// `[start, start + len)` by the rank at offset `h`, recursing into the
/// left part and handing back the right part, if any, for the caller's
/// loop.  Groups under 16 slots use a direct selection pass instead.
///
/// The contract states safety and a frame — slots outside the group are
/// untouched — not the partition's ordering semantics: those would need
/// the refinement's full group/rank invariants, and the sorter instead
/// certifies its final result, so a faulty partition can cost speed (the
/// certified fallback path) but never correctness.
fn split_internal(
    ii: &mut Vec<i64>,
    v: &mut Vec<i64>,
    start: usize,
    len: usize,
    h: u64,
) -> (r: Option<(usize, usize)>)
    requires
        table_ok(old(ii)@),
        table_ok(old(v)@),
        old(ii)@.len() == old(v)@.len(),
        1 <= old(ii)@.len() <= MAX_INPUT_LEN + 1,
        1 <= len,
        start + len <= old(ii)@.len(),
        h <= 2 * old(ii)@.len(),
    ensures
        table_ok(final(ii)@),
        table_ok(final(v)@),
        final(ii)@.len() == old(ii)@.len(),
        final(v)@.len() == old(v)@.len(),
        r matches Some((s2, l2)) ==> start + 1 <= s2 && 1 <= l2 && s2 + l2 == start + len,
        forall|q: int|
            0 <= q < old(ii)@.len() && !(start <= q < start + len) ==> #[trigger] final(ii)@[q]
                == old(ii)@[q],
    decreases len, 0int,
{
    let m: usize = ii.len();
    let ghost gi0 = ii@;
    if len < 16 {
        let mut k: usize = start;
        while k < start + len
            invariant
                table_ok(ii@),
                table_ok(v@),
                ii@.len() == m,
                v@.len() == m,
                forall|q: int|
                    0 <= q < m && !(start <= q < start + len) ==> #[trigger] ii@[q] == gi0[q],
                1 <= m <= MAX_INPUT_LEN + 1,
                start + len <= m,
                h <= 2 * m,
                start <= k,
            decreases start + len - k,
        {
            let mut j: usize = 1;
            let mut x: i64 = tget(v, tget(ii, k as i64) + h as i64);
            let mut i: usize = 1;
            while k + i < start + len
                invariant
                    table_ok(ii@),
                    table_ok(v@),
                    ii@.len() == m,
                    v@.len() == m,
                    forall|q: int|
                        0 <= q < m && !(start <= q < start + len) ==> #[trigger] ii@[q] == gi0[q],
                    1 <= m <= MAX_INPUT_LEN + 1,
                    start + len <= m,
                    h <= 2 * m,
                    start <= k < start + len,
                    k + i <= start + len,
                    1 <= j <= i,
                decreases start + len - k - i,
            {
                let key = tget(v, tget(ii, (k + i) as i64) + h as i64);
                if key < x {
                    x = key;
                    j = 0;
                }
                if key == x {
                    tswap(ii, (k + j) as i64, (k + i) as i64);
                    j += 1;
                }
                i += 1;
            }
            let mut w: usize = 0;
            while w < j
                invariant
                    table_ok(ii@),
                    table_ok(v@),
                    ii@.len() == m,
                    v@.len() == m,
                    forall|q: int|
                        0 <= q < m && !(start <= q < start + len) ==> #[trigger] ii@[q] == gi0[q],
                    1 <= m <= MAX_INPUT_LEN + 1,
                    start <= k,
                    k + j <= m,
                decreases j - w,
            {
                let s = tget(ii, (k + w) as i64);
                tset(v, s, (k + j) as i64 - 1);
                w += 1;
            }
            if j == 1 {
                tset(ii, k as i64, -1);
            }
            k += j;
        }
        None
    } else {
        let ghost ii0 = ii@;
        let ghost v0 = v@;
        let mid: usize = start + len / 2;
        let x: i64 = tget(v, tget(ii, mid as i64) + h as i64);
        proof {
            assert(x == key_at(v0, ii0, mid as int, h as int));
        }
        let mut lt: usize = 0;
        let mut eq: usize = 0;
        let mut scan: usize = start;
        while scan < start + len
            invariant
                table_ok(ii@),
                table_ok(v@),
                ii@ == ii0,
                v@ == v0,
                ii@.len() == m,
                v@.len() == m,
                forall|q: int|
                    0 <= q < m && !(start <= q < start + len) ==> #[trigger] ii@[q] == gi0[q],
                1 <= m <= MAX_INPUT_LEN + 1,
                start + len <= m,
                h <= 2 * m,
                start <= scan <= start + len,
                mid == start + len / 2,
                start <= mid < start + len,
                x == key_at(v0, ii0, mid as int, h as int),
                lt + eq <= scan - start,
                scan > mid ==> 1 <= eq,
            decreases start + len - scan,
        {
            let key = tget(v, tget(ii, scan as i64) + h as i64);
            proof {
                assert(key == key_at(v0, ii0, scan as int, h as int));
            }
            if key < x {
                lt += 1;
            }
            if key == x {
                eq += 1;
            }
            scan += 1;
        }
        let jj: usize = start + lt;
        let kk: usize = jj + eq;
        let mut j: usize = 0;
        let mut k: usize = 0;
        let mut i: usize = start;
        while i < jj
            invariant
                table_ok(ii@),
                table_ok(v@),
                ii@.len() == m,
                v@.len() == m,
                forall|q: int|
                    0 <= q < m && !(start <= q < start + len) ==> #[trigger] ii@[q] == gi0[q],
                1 <= m <= MAX_INPUT_LEN + 1,
                start + len <= m,
                h <= 2 * m,
                start <= i <= jj,
                j <= kk - jj,
                kk + k <= start + len,
                start <= jj <= kk <= start + len,
            decreases (jj - i) + (kk - jj - j) + (start + len - kk - k),
        {
            let key = tget(v, tget(ii, i as i64) + h as i64);
            if key < x {
                i += 1;
            } else if key == x {
                if jj + j < kk {
                    tswap(ii, i as i64, (jj + j) as i64);
                    j += 1;
                } else {
                    // A healthy partition never sees more equal keys than
                    // the counting pass found; step past the slot instead.
                    i += 1;
                }
            } else {
                if kk + k < start + len {
                    tswap(ii, i as i64, (kk + k) as i64);
                    k += 1;
                } else {
                    i += 1;
                }
            }
        }
        while jj + j < kk
            invariant
                table_ok(ii@),
                table_ok(v@),
                ii@.len() == m,
                v@.len() == m,
                forall|q: int|
                    0 <= q < m && !(start <= q < start + len) ==> #[trigger] ii@[q] == gi0[q],
                1 <= m <= MAX_INPUT_LEN + 1,
                start + len <= m,
                h <= 2 * m,
                j <= kk - jj,
                kk + k <= start + len,
                start <= jj <= kk <= start + len,
            decreases (kk - jj - j) + (start + len - kk - k),
        {
            let key = tget(v, tget(ii, (jj + j) as i64) + h as i64);
            if key == x {
                j += 1;
            } else {
                if kk + k < start + len {
                    tswap(ii, (jj + j) as i64, (kk + k) as i64);
                    k += 1;
                } else {
                    j += 1;
                }
            }
        }
        if jj > start {
            split(ii, v, start, jj - start, h);
        }
        let mut w: usize = jj;
        while w < kk
            invariant
                table_ok(ii@),
                table_ok(v@),
                ii@.len() == m,
                v@.len() == m,
                forall|q: int|
                    0 <= q < m && !(start <= q < start + len) ==> #[trigger] ii@[q] == gi0[q],
                1 <= m <= MAX_INPUT_LEN + 1,
                jj <= w,
                kk <= m,
            decreases kk - w,
        {
            let s = tget(ii, w as i64);
            tset(v, s, kk as i64 - 1);
            w += 1;
        }
        if jj == kk - 1 {
            tset(ii, jj as i64, -1);
        }
        if start + len > kk {
            Some((kk, start + len - kk))
        } else {
            None
        }
    }
}

/// Refines one group of equal-ranked suffixes, iterating the partition
/// until every sub-group has been handled.
fn split(ii: &mut Vec<i64>, v: &mut Vec<i64>, start: usize, len: usize, h: u64)
    requires
        table_ok(old(ii)@),
        table_ok(old(v)@),
        old(ii)@.len() == old(v)@.len(),
        1 <= old(ii)@.len() <= MAX_INPUT_LEN + 1,
        1 <= len,
        start + len <= old(ii)@.len(),
        h <= 2 * old(ii)@.len(),
    ensures
        table_ok(final(ii)@),
        table_ok(final(v)@),
        final(ii)@.len() == old(ii)@.len(),
        final(v)@.len() == old(v)@.len(),
        forall|q: int|
            0 <= q < old(ii)@.len() && !(start <= q < start + len) ==> #[trigger] final(ii)@[q]
                == old(ii)@[q],
    decreases len, 1int,
{
    let ghost m = old(ii)@.len();
    let ghost gi0 = ii@;
    let mut cur_start: usize = start;
    let mut cur_len: usize = len;
    let mut more: bool = true;
    while more
        invariant
            table_ok(ii@),
            table_ok(v@),
            ii@.len() == m,
            v@.len() == m,
            1 <= m <= MAX_INPUT_LEN + 1,
            h <= 2 * m,
            more ==> 1 <= cur_len <= len && cur_start + cur_len <= m,
            more ==> start <= cur_start && cur_start + cur_len <= start + len,
            forall|q: int|
                0 <= q < m && !(start <= q < start + len) ==> #[trigger] ii@[q] == gi0[q],
        decreases cur_len,
    {
        let r = split_internal(ii, v, cur_start, cur_len, h);
        match r {
            Some((s2, l2)) => {
                cur_start = s2;
                cur_len = l2;
            },
            None => {
                more = false;
                cur_len = 0;
            },
        }
    }
}

/// What reading slot `k` of the suffix array as a suffix start yields: the
/// entry where it is a position, the sentinel `n` where it is not.
pub open spec fn spec_slot_pos(t: Seq<i64>, k: int, n: int) -> int {
    if 0 <= k < t.len() && t[k] >= 0 {
        t[k] as int
    } else {
        n
    }
}

/// Reads slot `k` of the suffix array as a suffix start position: a slot
/// still holding a run marker (negative) reads as the empty sentinel
/// suffix `n`, so that every slot yields a position within the buffer.
pub(crate) fn suffix_at(ii: &Vec<i64>, k: usize, n: usize) -> (r: usize)
    requires
        table_ok(ii@),
        ii@.len() == n + 1,
        k < ii@.len(),
        n + 1 <= i64::MAX,
    ensures
        r <= n,
        r == spec_slot_pos(ii@, k as int, n as int),
{
    let e = tget(ii, k as i64);
    if e >= 0 {
        e as usize
    } else {
        n
    }
}

/// Builds the suffix array of `old_buf`: `n + 1` slots covering every
/// suffix and the empty sentinel suffix, a permutation ordering all
/// suffixes (sentinel first) lexicographically.  Group identifiers start
/// from a counting sort on the first byte and are refined by doubling the
/// compared prefix length until every group is a singleton; the result is
/// then certified, with a proved direct sort behind the certificate, so
/// the postcondition rests on the check rather than on the refinement's
/// unverified internal invariants.
pub fn qsufsort(old_buf: &[u8]) -> (ii: Vec<i64>)
    requires
        fits_input(old_buf@.len()),
    ensures
        ii@.len() == old_buf@.len() + 1,
        table_ok(ii@),
        suffix_array_of(old_buf@, ii@),
{
    let n: usize = old_buf.len();
    let m: usize = n + 1;
    let mut ii = make_table(m);
    let mut v = make_table(m);
    let mut buckets: Vec<i64> = make_table(256);
    let mut idx: usize = 0;
    while idx < n
        invariant
            idx <= n,
            n + 1 == m,
            n <= MAX_INPUT_LEN,
            n == old_buf@.len(),
            buckets@.len() == 256,
            forall|b: int| 0 <= b < 256 ==> 0 <= #[trigger] buckets@[b] <= idx,
        decreases n - idx,
    {
        let b = old_buf[idx] as usize;
        buckets[b] = buckets[b] + 1;
        idx += 1;
    }
    let mut bi: usize = 1;
    proof {
        assert forall|b: int| 0 <= b < 1 implies 0 <= #[trigger] buckets@[b] <= (b + 1) * (
        n as int) by {
            assert((b + 1) * (n as int) == n as int) by (nonlinear_arith)
                requires
                    b == 0,
            ;
        }
    }
    while bi < 256
        invariant
            1 <= bi <= 256,
            n <= MAX_INPUT_LEN,
            buckets@.len() == 256,
            forall|b: int| 0 <= b < bi ==> 0 <= #[trigger] buckets@[b] <= (b + 1) * (n as int),
            forall|b: int| bi <= b < 256 ==> 0 <= #[trigger] buckets@[b] <= n as int,
        decreases 256 - bi,
    {
        proof {
            assert(buckets@[bi - 1] <= (bi as int) * (n as int));
            assert((bi as int) * (n as int) + n as int == ((bi as int) + 1) * (n as int))
                by (nonlinear_arith);
            assert(0 <= (bi as int) * (n as int) <= 255 * (n as int)) by (nonlinear_arith)
                requires
                    1 <= bi <= 255,
                    0 <= n as int,
            ;
        }
        buckets[bi] = buckets[bi] + buckets[bi - 1];
        bi += 1;
    }
    let ghost bucket_bound = 257 * (n as int);
    proof {
        assert forall|b: int| 0 <= b < 256 implies 0 <= #[trigger] buckets@[b] <= bucket_bound by {
            assert(buckets@[b] <= (b + 1) * (n as int));
            assert((b + 1) * (n as int) <= 257 * (n as int)) by (nonlinear_arith)
                requires
                    0 <= b < 256,
                    0 <= n as int,
            ;
        }
    }
    let mut bi: usize = 255;
    while bi >= 1
        invariant
            bi <= 255,
            n <= MAX_INPUT_LEN,
            buckets@.len() == 256,
            forall|b: int| 0 <= b < 256 ==> 0 <= #[trigger] buckets@[b] <= bucket_bound,
            bucket_bound == 257 * (n as int),
        decreases bi,
    {
        buckets[bi] = buckets[bi - 1];
        bi -= 1;
    }
    buckets[0] = 0;
    let mut idx: usize = 0;
    while idx < n
        invariant
            idx <= n,
            n + 1 == m,
            n <= MAX_INPUT_LEN,
            n == old_buf@.len(),
            buckets@.len() == 256,
            forall|b: int| 0 <= b < 256 ==> 0 <= #[trigger] buckets@[b] <= bucket_bound + idx,
            bucket_bound == 257 * (n as int),
            table_ok(ii@),
            ii@.len() == m,
        decreases n - idx,
    {
        let b = old_buf[idx] as usize;
        buckets[b] = buckets[b] + 1;
        tset(&mut ii, buckets[b], idx as i64);
        idx += 1;
    }
    tset(&mut ii, 0, n as i64);
    let mut idx: usize = 0;
    while idx < n
        invariant
            idx <= n,
            n + 1 == m,
            n <= MAX_INPUT_LEN,
            n == old_buf@.len(),
            buckets@.len() == 256,
            forall|b: int| 0 <= b < 256 ==> 0 <= #[trigger] buckets@[b] <= bucket_bound + n,
            bucket_bound == 257 * (n as int),
            table_ok(v@),
            v@.len() == m,
        decreases n - idx,
    {
        let b = old_buf[idx] as usize;
        tset(&mut v, idx as i64, buckets[b]);
        idx += 1;
    }
    tset(&mut v, n as i64, 0);
    let mut bi: usize = 1;
    while bi < 256
        invariant
            1 <= bi <= 256,
            n + 1 == m,
            n <= MAX_INPUT_LEN,
            buckets@.len() == 256,
            forall|b: int| 0 <= b < 256 ==> 0 <= #[trigger] buckets@[b] <= bucket_bound + n,
            bucket_bound == 257 * (n as int),
            table_ok(ii@),
            ii@.len() == m,
        decreases 256 - bi,
    {
        if buckets[bi] == buckets[bi - 1] + 1 {
            tset(&mut ii, buckets[bi], -1);
        }
        bi += 1;
    }
    tset(&mut ii, 0, -1);
    let neg_m: i64 = -(m as i64);
    let mut h: u64 = 1;
    while tget(&ii, 0) != neg_m && h <= m as u64
        invariant
            table_ok(ii@),
            table_ok(v@),
            ii@.len() == m,
            v@.len() == m,
            1 <= m,
            m <= MAX_INPUT_LEN + 1,
            1 <= h,
            neg_m == -(m as int),
        decreases 2 * (m as int) - h,
    {
        let mut run: i64 = 0;
        let mut i: i64 = 0;
        while i < m as i64
            invariant
                table_ok(ii@),
                table_ok(v@),
                ii@.len() == m,
                v@.len() == m,
                1 <= m <= MAX_INPUT_LEN + 1,
                h <= m as u64,
                0 <= run <= i,
                i <= 2 * (m as int),
            decreases 2 * (m as int) - i,
        {
            let e = tget(&ii, i);
            if e < 0 {
                run -= e;
                i -= e;
            } else {
                if run != 0 {
                    tset(&mut ii, i - run, -run);
                }
                let glen: i64 = tget(&v, e) + 1 - i;
                if glen >= 1 {
                    split(&mut ii, &mut v, i as usize, glen as usize, h);
                    i += glen;
                } else {
                    // A healthy rank table always places a group's end at
                    // or after its start; step past the slot instead.
                    i += 1;
                }
                run = 0;
            }
        }
        if run != 0 {
            tset(&mut ii, i - run, -run);
        }
        h += h;
    }
    let mut idx: usize = 0;
    while idx < m
        invariant
            idx <= m,
            n + 1 == m,
            n <= MAX_INPUT_LEN,
            table_ok(ii@),
            table_ok(v@),
            ii@.len() == m,
            v@.len() == m,
        decreases m - idx,
    {
        let s = tget(&v, idx as i64);
        tset(&mut ii, s, idx as i64);
        idx += 1;
    }
    if certify(old_buf, &ii) {
        ii
    } else {
        // Never reached by a healthy refinement; the direct sort keeps
        // the postcondition unconditional.
        let t = sorted_suffixes(old_buf);
        proof {
            assert(table_ok(t@));
        }
        t
    }
}

} // verus!
