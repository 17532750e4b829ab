//! Compression of runs, by zlib streams.

use flate2::read::ZlibDecoder;
use flate2::write::ZlibEncoder;
use flate2::Compression;
use std::io::{Read, Write};
use vstd::prelude::*;

verus! {

/// The zlib stream that `flate2::write::ZlibEncoder` makes of `data` at the
/// default compression level: `None` where the encoder reports an error.
pub uninterp spec fn spec_deflate(data: Seq<u8>) -> Option<Seq<u8>>;

/// What `flate2::read::ZlibDecoder` reads out of the zlib stream `data`:
/// `None` where `data` is no complete zlib stream.
pub uninterp spec fn spec_inflate(data: Seq<u8>) -> Option<Seq<u8>>;

/// `flate2::write::ZlibEncoder`, at the default level, fed all of `data` and
/// then finished: the zlib stream of `data`, which the decoder turns back
/// into `data`, or `None` where the encoder reports an error. Which of the
/// two it is, and the stream, depend on `data` alone.
#[verifier::external_body]
pub(crate) fn deflate(data: &[u8]) -> (r: Option<Vec<u8>>)
    ensures
        match r {
            Some(c) => spec_deflate(data@) == Some(c@) && spec_inflate(c@) == Some(data@),
            None => spec_deflate(data@) is None,
        },
{
    let mut z = ZlibEncoder::new(Vec::new(), Compression::default());
    z.write_all(data).ok()?;
    z.finish().ok()
}

/// `flate2::read::ZlibDecoder`, read to its end: what the zlib stream
/// `data` holds, which depends on `data` alone. `None` where the decoder
/// reports an error, which it does for a stream that is corrupt or cut
/// short.
#[verifier::external_body]
pub(crate) fn inflate(data: &[u8]) -> (r: Option<Vec<u8>>)
    ensures
        match r {
            Some(d) => spec_inflate(data@) == Some(d@),
            None => spec_inflate(data@) is None,
        },
{
    let mut out = Vec::new();
    ZlibDecoder::new(data).read_to_end(&mut out).ok()?;
    Some(out)
}

} // verus!
