//! The bzip2-compressed container around the core patch stream.

use bsdiff::bzip2_diff;
use bsdiff::bzip2_patch;
use bsdiff::PatchError;

#[test]
fn lib_test_it() {
    let one = vec![1, 2, 3, 4, 6, 7, 2, 4];
    let two = vec![1];
    let result = bzip2_diff(&one, &two);
    assert!(result.is_some());
    let result = result.unwrap();
    let result2 = bzip2_patch(&one, &result);
    assert!(result2.is_ok());
    assert!(result2.unwrap() == two);
}

#[test]
fn test_container_round_trip_larger() {
    let mut old: Vec<u8> = Vec::new();
    for i in 0..500u32 {
        old.push((i % 251) as u8);
    }
    let mut new = old.clone();
    new[17] = 0xab;
    new.extend_from_slice(&[1, 2, 3, 4, 5]);
    let packed = bzip2_diff(&old, &new).unwrap();
    let out = bzip2_patch(&old, &packed).unwrap();
    assert_eq!(out, new);
}

#[test]
fn test_container_too_short() {
    let error = bzip2_patch(&[1, 2, 3], &[1, 2, 3]).unwrap_err();
    assert_eq!(error, PatchError::UnexpectedEof);
}

#[test]
fn test_container_undecodable_body() {
    let container = [0xffu8; 20];
    let error = bzip2_patch(&[1, 2, 3], &container).unwrap_err();
    assert_eq!(error, PatchError::InvalidData);
}

#[test]
fn test_container_footer_longer_than_stream() {
    let old = [1u8, 2, 3];
    let new = [1u8, 2, 3, 4];
    let mut packed = bzip2_diff(&old, &new).unwrap();
    // Raise the length footer beyond what the stream reconstructs.
    let end = packed.len();
    packed[end - 1] = new.len() as u8 + 3;
    let error = bzip2_patch(&old, &packed).unwrap_err();
    assert_eq!(error, PatchError::UnexpectedEof);
}
