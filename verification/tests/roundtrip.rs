//! Round trips of `diff` and the two patch functions on whole buffers.

use bsdiff::diff;
use bsdiff::patch;

fn round_trip(old: &[u8], new: &[u8]) {
    let mut delta: Vec<u8> = Vec::new();
    bsdiff::diff(old, new, &mut delta);
    let mut out: Vec<u8> = Vec::new();
    patch::patch(old, &delta, &mut out).unwrap();
    assert_eq!(out.as_slice(), new);
    let fixed = bsdiff::bspatch(old, &delta, new.len() as u64).unwrap();
    assert_eq!(fixed.as_slice(), new);
}

#[test]
fn test_round_trip_empty_to_empty() {
    round_trip(&[], &[]);
}

#[test]
fn test_round_trip_empty_old() {
    round_trip(&[], &[1, 2, 3]);
}

#[test]
fn test_round_trip_empty_new() {
    round_trip(&[1, 2, 3], &[]);
}

#[test]
fn test_round_trip_single_byte() {
    round_trip(&[7], &[9]);
    round_trip(&[7], &[7]);
}

#[test]
fn test_round_trip_equal_buffers() {
    let b = [3u8, 1, 4, 1, 5, 9, 2, 6, 5, 3, 5, 8, 9, 7, 9, 3];
    round_trip(&b, &b);
}

#[test]
fn test_round_trip_new_longer() {
    round_trip(&[1, 2, 3], &[1, 2, 3, 4, 5, 6, 7, 8]);
}

#[test]
fn test_round_trip_new_shorter() {
    round_trip(&[1, 2, 3, 4, 5, 6, 7, 8], &[2, 3]);
}

#[test]
fn test_round_trip_shifted_block() {
    let mut old: Vec<u8> = Vec::new();
    let mut new: Vec<u8> = Vec::new();
    for i in 0..200u8 {
        old.push(i.wrapping_mul(17).wrapping_add(3));
    }
    new.extend_from_slice(&[9, 9, 9]);
    new.extend_from_slice(&old[40..180]);
    new.extend_from_slice(&[1, 1]);
    round_trip(&old, &new);
}

#[test]
fn test_round_trip_repetitive_input() {
    let old = vec![42u8; 300];
    let mut new = vec![42u8; 280];
    new[100] = 7;
    round_trip(&old, &new);
}

#[test]
fn test_round_trip_pseudorandom() {
    let mut seed: u32 = 0x1234_5678;
    let mut old: Vec<u8> = Vec::new();
    for _ in 0..3000 {
        seed = seed.wrapping_mul(1664525).wrapping_add(1013904223);
        old.push((seed >> 24) as u8);
    }
    let mut new = old.clone();
    new.drain(100..140);
    for b in new[500..600].iter_mut() {
        *b = b.wrapping_add(1);
    }
    new.extend_from_slice(&old[2000..2500]);
    round_trip(&old, &new);
}

#[test]
fn test_diff_appends_to_existing_buffer() {
    let old = [1u8, 2, 3];
    let new = [4u8, 5];
    let mut buf = vec![0xaau8];
    bsdiff::diff(&old, &new, &mut buf);
    assert_eq!(buf[0], 0xaa);
    let mut out: Vec<u8> = Vec::new();
    patch::patch(&old, &buf[1..], &mut out).unwrap();
    assert_eq!(out.as_slice(), &new);
}

#[test]
fn test_diff_empty_new_writes_nothing() {
    let old = [1u8, 2, 3];
    let mut delta: Vec<u8> = Vec::new();
    bsdiff::diff(&old, &[], &mut delta);
    assert!(delta.is_empty());
}

#[test]
fn test_noop_patch_restores_old() {
    let old = [10u8, 20, 30, 40, 50, 60];
    let mut delta: Vec<u8> = Vec::new();
    bsdiff::diff(&old, &old, &mut delta);
    let mut out: Vec<u8> = Vec::new();
    patch::patch(&old, &delta, &mut out).unwrap();
    assert_eq!(out.as_slice(), &old);
}

#[test]
fn test_length_change_grow() {
    round_trip(&[1, 2, 3], &[1, 2, 3, 4]);
}

#[test]
fn test_length_change_shrink() {
    round_trip(&[1, 2, 3, 4, 6, 7, 2, 4], &[1]);
}

#[test]
fn test_deterministic_diff() {
    let old = [5u8, 4, 3, 2, 1, 0, 1, 2, 3, 4, 5];
    let new = [5u8, 4, 4, 2, 1, 9, 1, 2, 3];
    let mut first: Vec<u8> = Vec::new();
    let mut second: Vec<u8> = Vec::new();
    bsdiff::diff(&old, &new, &mut first);
    bsdiff::diff(&old, &new, &mut second);
    assert_eq!(first, second);
}

#[test]
fn test_concrete_scenario() {
    let old = [1u8, 2, 3, 4, 5];
    let new = [1u8, 2, 4, 6];
    let mut delta: Vec<u8> = Vec::new();
    diff::diff(&old, &new, &mut delta);
    let mut out: Vec<u8> = Vec::new();
    patch::patch(&old, &delta, &mut out).unwrap();
    assert_eq!(out, vec![1u8, 2, 4, 6]);
}
