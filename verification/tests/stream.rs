//! Record-level behavior of the patch appliers, on hand-built streams.

use bsdiff::diff;
use bsdiff::patch;
use bsdiff::PatchError;

fn header(mix: u64, copy: u64, seek: i64) -> Vec<u8> {
    let mut h = Vec::new();
    h.extend_from_slice(&mix.to_le_bytes());
    h.extend_from_slice(&copy.to_le_bytes());
    let sm: u64 = if seek >= 0 {
        seek as u64
    } else {
        (-seek) as u64 | 0x8000_0000_0000_0000
    };
    h.extend_from_slice(&sm.to_le_bytes());
    h
}

#[test]
fn test_truncated_patch() {
    let one = vec![1, 2, 3];
    let two = [1, 2, 3, 4];
    let mut buf = Vec::new();

    diff::diff(&one, &two, &mut buf);

    let mut patched = Vec::new();
    while buf.len() > 1 {
        buf.pop();
        let error = patch::patch(&one, &buf, &mut patched).unwrap_err();
        assert_eq!(error, PatchError::UnexpectedEof);
    }
}

#[test]
fn test_patch_empty_stream_is_clean() {
    let mut out: Vec<u8> = Vec::new();
    patch::patch(&[1, 2, 3], &[], &mut out).unwrap();
    assert!(out.is_empty());
}

#[test]
fn test_patch_mix_beyond_old_end_left_unmodified() {
    let old = [5u8];
    let mut stream = header(3, 0, 0);
    stream.extend_from_slice(&[1, 2, 3]);
    let mut out: Vec<u8> = Vec::new();
    patch::patch(&old, &stream, &mut out).unwrap();
    assert_eq!(out, vec![6u8, 2, 3]);
}

#[test]
fn test_patch_negative_seek() {
    let old = [1u8, 2, 3, 4, 5];
    let mut stream = header(2, 0, -2);
    stream.extend_from_slice(&[0, 0]);
    stream.extend_from_slice(&header(2, 0, 0));
    stream.extend_from_slice(&[0, 0]);
    let mut out: Vec<u8> = Vec::new();
    patch::patch(&old, &stream, &mut out).unwrap();
    assert_eq!(out, vec![1u8, 2, 1, 2]);
}

#[test]
fn test_patch_copy_block_is_literal() {
    let old = [9u8, 9];
    let mut stream = header(0, 3, 0);
    stream.extend_from_slice(&[7, 8, 9]);
    let mut out: Vec<u8> = Vec::new();
    patch::patch(&old, &stream, &mut out).unwrap();
    assert_eq!(out, vec![7u8, 8, 9]);
}

#[test]
fn test_patch_length_overflow_rejected_before_write() {
    let stream = header(u64::MAX, 1, 0);
    let mut out: Vec<u8> = Vec::new();
    let error = patch::patch(&[1, 2, 3], &stream, &mut out).unwrap_err();
    assert_eq!(error, PatchError::InvalidData);
    assert_eq!(error.describe(), "invalid length in patch record");
    assert!(out.is_empty());
}

#[test]
fn test_patch_short_header() {
    let mut out: Vec<u8> = Vec::new();
    let error = patch::patch(&[1, 2, 3], &[0, 0, 0, 0, 0], &mut out).unwrap_err();
    assert_eq!(error, PatchError::UnexpectedEof);
    assert_eq!(error.describe(), "unexpected end of patch stream");
    assert!(out.is_empty());
}

#[test]
fn test_patch_missing_payload() {
    let old = [1u8, 2, 3, 4];
    let mut stream = header(4, 0, 0);
    stream.extend_from_slice(&[0, 0]);
    let mut out: Vec<u8> = Vec::new();
    let error = patch::patch(&old, &stream, &mut out).unwrap_err();
    assert_eq!(error, PatchError::UnexpectedEof);
    assert!(out.is_empty());
}

#[test]
fn test_truncation_at_record_boundary_is_clean_prefix() {
    let old = [1u8, 2, 3, 4];
    let mut stream = header(2, 0, 0);
    stream.extend_from_slice(&[0, 0]);
    let boundary = stream.len();
    stream.extend_from_slice(&header(2, 0, 0));
    stream.extend_from_slice(&[0, 0]);
    let mut whole: Vec<u8> = Vec::new();
    patch::patch(&old, &stream, &mut whole).unwrap();
    assert_eq!(whole, vec![1u8, 2, 3, 4]);
    let mut prefix: Vec<u8> = Vec::new();
    patch::patch(&old, &stream[..boundary], &mut prefix).unwrap();
    assert_eq!(prefix, vec![1u8, 2]);
}

#[test]
fn test_bspatch_oversized_record_rejected() {
    let old = [1u8, 2, 3, 4, 5];
    let mut stream = header(5, 0, 0);
    stream.extend_from_slice(&[0, 0, 0, 0, 0]);
    let error = bsdiff::bspatch(&old, &stream, 3).unwrap_err();
    assert_eq!(error, PatchError::InvalidData);
}

#[test]
fn test_bspatch_short_stream() {
    let old = [1u8, 2, 3, 4];
    let mut stream = header(2, 0, 0);
    stream.extend_from_slice(&[0, 0]);
    let error = bsdiff::bspatch(&old, &stream, 4).unwrap_err();
    assert_eq!(error, PatchError::UnexpectedEof);
}

#[test]
fn test_bspatch_stops_at_full_destination() {
    let old = [1u8, 2];
    let mut stream = header(2, 0, 0);
    stream.extend_from_slice(&[0, 0]);
    stream.push(0xee);
    let out = bsdiff::bspatch(&old, &stream, 2).unwrap();
    assert_eq!(out, vec![1u8, 2]);
}
