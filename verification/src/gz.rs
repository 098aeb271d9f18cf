//! Gzip compression of byte buffers.

use vstd::prelude::*;
use flate2::read::GzDecoder;
use flate2::write::GzEncoder;
use flate2::Compression;
use std::io::Read;
use std::io::Write;

verus! {

/// The gzip stream that `flate2` writes for `data` at its default compression
/// level.
pub uninterp spec fn gzip(data: Seq<u8>) -> Seq<u8>;

/// What `flate2` reads out of the gzip stream `bytes`, or `None` where it
/// reports an error.
pub uninterp spec fn gunzip(bytes: Seq<u8>) -> Option<Seq<u8>>;

/// Appends the gzip stream of `data` to `out`.
///
/// Runs `flate2::write::GzEncoder` over `out` at `Compression::default()`,
/// writes all of `data` and finishes the stream. The stream depends on `data`
/// alone, and `flate2::read::GzDecoder` reads `data` back out of it.
#[verifier::external_body]
pub(crate) fn compress(out: &mut Vec<u8>, data: &[u8])
    ensures
        final(out)@ == old(out)@ + gzip(data@),
        gunzip(final(out)@.skip(old(out)@.len() as int)) == Some(data@),
{
    let mut gz = GzEncoder::new(out, Compression::default());
    let _ = gz.write_all(data);
    let _ = gz.finish();
}

/// Reads the gzip stream `bytes` to its end.
///
/// Runs `flate2::read::GzDecoder` over `bytes`. What it yields, or that it
/// fails, depends on `bytes` alone; the error is given as its message.
#[verifier::external_body]
pub(crate) fn expand(bytes: &[u8]) -> (r: Result<Vec<u8>, String>)
    ensures
        match r {
            Ok(data) => gunzip(bytes@) == Some(data@),
            Err(_) => gunzip(bytes@) is None,
        },
{
    let mut data = Vec::new();
    match GzDecoder::new(bytes).read_to_end(&mut data) {
        Ok(_) => Ok(data),
        Err(e) => Err(e.to_string()),
    }
}

} // verus!
