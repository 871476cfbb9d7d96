//! Binary delta encoding and patching.
//!
//! `diff` computes a compact binary delta between two byte buffers, and
//! `patch` replays such a delta against the old buffer to reconstruct the
//! new one; `bspatch` does the same into a destination of known final
//! length, and `bzip2_diff` / `bzip2_patch` wrap the stream in a
//! bzip2-compressed container with a length footer.
//!
//! The patch stream is a sequence of control records: a triple of 64-bit
//! little-endian fields — mix length, copy length, and a seek offset in
//! sign-magnitude form — followed by a "mix" block of byte-wise
//! differences against the old buffer and an "extra" block of literal
//! bytes.  The meaning of a stream is given by the specification function
//! `model::apply_from`; `diff` is proved to emit streams that replay to
//! exactly the new buffer, and the patch functions are proved to accept
//! exactly the streams the model accepts, so the round trip is a theorem
//! of the library rather than a hope.  The suffix sorter certifies its
//! result — its postcondition is the sorted suffix permutation, not only
//! safety — and the matcher and the per-anchor record arithmetic are
//! pinned to specification functions of their inputs.

pub mod bz;
pub mod diff;
pub mod format;
pub mod matching;
pub mod model;
pub mod patch;
pub mod suffix;

pub use bz::bzip2_diff;
pub use bz::bzip2_patch;
pub use diff::diff;
pub use patch::bspatch;
pub use patch::patch;
pub use patch::PatchError;
