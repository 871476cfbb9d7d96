//! The suffix sorter's output on concrete buffers: a permutation of all
//! suffix start positions (plus the empty sentinel suffix) in lexicographic
//! order.  The library's round-trip proofs hold for any table contents;
//! these tests check the ordering itself, which determines patch size.

use bsdiff::suffix;

fn check_sorted(old: &[u8]) {
    let ii = suffix::qsufsort(old);
    let n = old.len();
    assert_eq!(ii.len(), n + 1);
    let mut seen = vec![false; n + 1];
    for &e in &ii {
        assert!(0 <= e && e <= n as i64);
        assert!(!seen[e as usize]);
        seen[e as usize] = true;
    }
    for w in ii.windows(2) {
        let a = &old[w[0] as usize..];
        let b = &old[w[1] as usize..];
        assert!(a <= b);
    }
}

#[test]
fn test_suffix_array_is_sorted_permutation() {
    check_sorted(&[]);
    check_sorted(&[7]);
    check_sorted(&[5, 5, 5, 5, 5, 5, 5]);
    check_sorted(&[2, 1, 255, 0, 3, 1, 2, 1]);
    let mut text: Vec<u8> = Vec::new();
    text.extend_from_slice(&[98, 97, 110, 97, 110, 97]);
    text.extend_from_slice(&[98, 97, 110, 100, 97, 110, 97]);
    check_sorted(&text);
}

#[test]
fn test_suffix_array_sorted_on_pseudorandom_input() {
    let mut seed: u32 = 0xdead_beef;
    let mut old: Vec<u8> = Vec::new();
    for _ in 0..1500 {
        seed = seed.wrapping_mul(1664525).wrapping_add(1013904223);
        // A small alphabet forces long equal runs through the refinement.
        old.push(((seed >> 28) & 0x3) as u8);
    }
    check_sorted(&old);
}
