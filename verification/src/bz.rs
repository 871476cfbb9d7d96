//! The compressed patch container: the core patch stream compressed with
//! bzip2, followed by an 8-byte big-endian footer holding the length of
//! the buffer the patch reconstructs.
//!
//! Compression is opaque to the verifier: the two calls into the bzip2
//! crate stand behind trusted wrappers whose contract is losslessness —
//! decompressing what the compressor produced yields the original bytes —
//! stated over the uninterpreted `bz_inflate`.  Everything around them,
//! the footer encoding and the replay of the decompressed stream, is
//! verified.

use crate::diff::diff;
use crate::format::be64_at;
use crate::format::be64_bytes;
use crate::format::push_u64_be;
use crate::format::read_u64_be;
use crate::format::lemma_be64_at_of_bytes;
use crate::model::apply_patch;
use crate::model::lemma_replay_of_apply;
use crate::model::out_of;
use crate::model::replay_upto;
use crate::model::ApplyResult;
use crate::patch::bspatch;
use crate::patch::PatchError;
use crate::suffix::fits_input;
use std::io::Read;
use vstd::prelude::*;
use vstd::slice::slice_subrange;

verus! {

/// What bzip2 decompression yields on a byte stream: a function of the
/// bytes alone, `None` where they are not a complete valid stream.
pub uninterp spec fn bz_inflate(s: Seq<u8>) -> Option<Seq<u8>>;

/// Relies on bzip2's `read::BzEncoder` at the default level: compression
/// is lossless, so decompressing its output yields the input again, and
/// reading the encoder over an in-memory slice cannot return an error, so
/// the call always yields a stream.
#[verifier::external_body]
fn bz_compress(data: &[u8]) -> (r: Option<Vec<u8>>)
    ensures
        r is Some,
        r matches Some(v) ==> bz_inflate(v@) == Some(data@),
{
    let mut enc = bzip2::read::BzEncoder::new(data, bzip2::Compression::default());
    let mut out = Vec::new();
    match enc.read_to_end(&mut out) {
        Ok(_) => Some(out),
        Err(_) => None,
    }
}

/// Relies on bzip2's `read::BzDecoder`: decoding is a function of the
/// input bytes alone, and fails exactly where they are not a valid
/// stream.
#[verifier::external_body]
fn bz_decompress(data: &[u8]) -> (r: Option<Vec<u8>>)
    ensures
        r matches Some(v) ==> bz_inflate(data@) == Some(v@),
        r is None ==> bz_inflate(data@) is None,
{
    let mut dec = bzip2::read::BzDecoder::new(data);
    let mut out = Vec::new();
    match dec.read_to_end(&mut out) {
        Ok(_) => Some(out),
        Err(_) => None,
    }
}

/// The compressed part of a container: everything before the footer.
pub open spec fn container_body(c: Seq<u8>) -> Seq<u8> {
    c.subrange(0, c.len() - 8)
}

/// The length footer of a container: its last 8 bytes, big-endian.
pub open spec fn container_len(c: Seq<u8>) -> u64 {
    be64_at(c, c.len() - 8)
}

/// A well-formed container for reconstructing `new` from `old`: the body
/// decompresses to a core patch stream that replays to exactly `new`, and
/// the footer holds `new`'s length.
pub open spec fn container_for(old: Seq<u8>, c: Seq<u8>, new: Seq<u8>) -> bool {
    &&& c.len() >= 8
    &&& container_len(c) == new.len()
    &&& bz_inflate(container_body(c)) matches Some(d) && apply_patch(old, d)
        matches ApplyResult::Done { out, .. } && out == new
}

/// Diffs two buffers and wraps the patch stream in the compressed
/// container.  The call always succeeds: diffing is total, and the
/// compressor, reading from memory, cannot fail.  (The `Option` shape is
/// the container API's, whose callers treat `None` as failure.)
pub fn bzip2_diff(old_buf: &[u8], new: &[u8]) -> (r: Option<Vec<u8>>)
    requires
        fits_input(old_buf@.len()),
        fits_input(new@.len()),
    ensures
        r matches Some(v) && container_for(old_buf@, v@, new@),
{
    let mut raw: Vec<u8> = Vec::new();
    diff(old_buf, new, &mut raw);
    proof {
        assert(raw@.skip(0) =~= raw@);
    }
    match bz_compress(raw.as_slice()) {
        Some(mut packed) => {
            let ghost body = packed@;
            push_u64_be(&mut packed, new.len() as u64);
            proof {
                assert(container_body(packed@) =~= body);
                assert(packed@.subrange(packed@.len() - 8, packed@.len() as int) =~= be64_bytes(
                    new@.len() as u64,
                ));
                lemma_be64_at_of_bytes(packed@, packed@.len() - 8, new@.len() as u64);
            }
            Some(packed)
        },
        None => None,
    }
}

/// Unwraps a compressed container and reconstructs the new buffer: the
/// footer gives the destination length, the body decompresses to the core
/// patch stream, and the stream is replayed into a destination of exactly
/// that length.  A container shorter than its footer yields
/// `UnexpectedEof`; a body that does not decode yields `InvalidData`; and
/// an inner stream is accepted or rejected exactly as `bspatch` decides.
pub fn bzip2_patch(old_buf: &[u8], container: &[u8]) -> (r: Result<Vec<u8>, PatchError>)
    ensures
        container@.len() < 8 ==> r == Err::<Vec<u8>, PatchError>(PatchError::UnexpectedEof),
        container@.len() >= 8 && bz_inflate(container_body(container@)) is None ==> r == Err::<
            Vec<u8>,
            PatchError,
        >(PatchError::InvalidData),
        container@.len() >= 8 ==> (bz_inflate(container_body(container@)) matches Some(d) ==> ({
            let a = replay_upto(old_buf@, d, 0, Seq::empty(), container_len(container@) as int);
            match a {
                ApplyResult::Done { out, .. } => r matches Ok(v) && v@ == out,
                ApplyResult::Eof { .. } => r == Err::<Vec<u8>, PatchError>(
                    PatchError::UnexpectedEof,
                ),
                ApplyResult::Invalid { .. } => r == Err::<Vec<u8>, PatchError>(
                    PatchError::InvalidData,
                ),
            }
        })),
{
    let clen: usize = container.len();
    if clen < 8 {
        return Err(PatchError::UnexpectedEof);
    }
    let n64 = read_u64_be(container, clen - 8);
    let body = slice_subrange(container, 0, clen - 8);
    match bz_decompress(body) {
        None => Err(PatchError::InvalidData),
        Some(d) => bspatch(old_buf, d.as_slice(), n64),
    }
}

/// The container round trip: a well-formed container for `new` — in
/// particular any container `bzip2_diff` produces — replays, through the
/// fixed-length replay that `bzip2_patch` performs, to exactly `new`.
pub proof fn lemma_container_round_trip(old: Seq<u8>, c: Seq<u8>, new: Seq<u8>)
    requires
        container_for(old, c, new),
    ensures
        bz_inflate(container_body(c)) matches Some(d) && replay_upto(
            old,
            d,
            0,
            Seq::empty(),
            container_len(c) as int,
        ) matches ApplyResult::Done { out, .. } && out == new,
{
    let d = bz_inflate(container_body(c)).unwrap();
    lemma_replay_of_apply(old, d, 0, Seq::empty(), new.len() as int);
    assert(out_of(apply_patch(old, d)) == new);
}

} // verus!
