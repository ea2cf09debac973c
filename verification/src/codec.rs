//! The byte-stream compressor behind the leaf blocks.
//!
//! The log treats the codec abstractly: all it relies on is that compression
//! is deterministic in its input and that decompression inverts it.

use vstd::prelude::*;
use crate::error::Error;

verus! {

/// The compressed form that the codec produces for `data` at `level`.
pub uninterp spec fn zstd_of(level: int, data: Seq<u8>) -> Seq<u8>;

/// What decompressing `data` yields: the original bytes for anything the
/// codec produced, nothing for malformed input.
pub uninterp spec fn zstd_inv(data: Seq<u8>) -> Option<Seq<u8>>;

/// Relies on `zstd::stream::encode_all`: for a fixed level the compressed
/// form is a function of the input bytes alone, and `decode_all` recovers
/// exactly the input bytes from it.  Over an in-memory slice the encoder
/// cannot fail short of allocation failure, which this library treats as it
/// treats a failing `Vec` growth: it aborts rather than returning.
#[verifier::external_body]
pub(crate) fn zstd_compress(data: &[u8], level: i32) -> (r: Vec<u8>)
    ensures
        r@ == zstd_of(level as int, data@),
        zstd_inv(r@) == Some(data@),
{
    zstd::stream::encode_all(data, level).expect("compressing")
}

/// Relies on `zstd::stream::decode_all`: decompression is a function of its
/// input bytes; it recovers what was compressed and fails on malformed
/// input.
#[verifier::external_body]
pub(crate) fn zstd_decompress(data: &[u8]) -> (r: Result<Vec<u8>, Error>)
    ensures
        r matches Ok(v) ==> zstd_inv(data@) == Some(v@),
        r matches Err(e) ==> zstd_inv(data@) is None && e == Error::Io("decompressing"),
{
    zstd::stream::decode_all(data).map_err(|_| Error::Io("decompressing"))
}

} // verus!
