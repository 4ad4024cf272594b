//! The compression boundary: single-shot zstd decompression.
//!
//! What a zstd frame decompresses to takes pages to state, but it is a
//! function of the input bytes alone, so the result is given a name,
//! [`zstd_decoded`], and every contract above this boundary speaks of that
//! name. A failed decompression is likewise a property of the bytes.

use vstd::prelude::*;

verus! {

/// What single-shot zstd decompression yields for the given bytes: the
/// decompressed bytes, or nothing when the input is not a valid zstd frame.
pub uninterp spec fn zstd_decoded(s: Seq<u8>) -> Option<Seq<u8>>;

/// Relies on `zstd::stream::decode_all`: single-shot decompression of a
/// byte slice, a deterministic function of the input bytes that errs exactly
/// on inputs that are not a complete zstd frame.
#[verifier::external_body]
pub(crate) fn zstd_decode_all(data: &[u8]) -> (r: Result<Vec<u8>, ()>)
    ensures
        match r {
            Ok(v) => zstd_decoded(data@) == Some(v@),
            Err(_) => zstd_decoded(data@) is None,
        },
{
    zstd::decode_all(data).map_err(|_| ())
}

} // verus!
