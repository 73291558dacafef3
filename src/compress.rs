//! Gzip compression of a frame's payload body, by the flate2 crate.
use vstd::prelude::*;

verus! {

#[verifier::external_type_specification]
#[verifier::external_body]
pub struct ExIoError(std::io::Error);

/// The gzip member that flate2 writes for `s` at the best compression
/// level.
pub uninterp spec fn gzip_best(s: Seq<u8>) -> Seq<u8>;

/// The bytes that flate2 reads out of the gzip member at the front of `s`,
/// or `None` when it is truncated or corrupt.
pub uninterp spec fn gunzip(s: Seq<u8>) -> Option<Seq<u8>>;

/// Relies on flate2's `write::GzEncoder` at `Compression::best()`, written
/// into a `Vec` and finished: its header carries no time stamp and a fixed
/// OS byte, so the member depends on the bytes written alone.
#[verifier::external_body]
pub(crate) fn gzip_compress(body: &[u8]) -> (r: Result<Vec<u8>, std::io::Error>)
    ensures
        r matches Ok(z) ==> z@ == gzip_best(body@),
{
    let mut gz = flate2::write::GzEncoder::new(Vec::new(), flate2::Compression::best());
    std::io::Write::write_all(&mut gz, body)?;
    gz.finish()
}

/// Relies on flate2's `read::GzDecoder` read to the end: what it yields, or
/// whether it fails, depends on the bytes given alone.
#[verifier::external_body]
pub(crate) fn gzip_decompress(z: &[u8]) -> (r: Result<Vec<u8>, std::io::Error>)
    ensures
        r is Ok <==> gunzip(z@) is Some,
        r matches Ok(b) ==> b@ == gunzip(z@).unwrap(),
{
    let mut out = Vec::new();
    std::io::Read::read_to_end(&mut flate2::read::GzDecoder::new(z), &mut out)?;
    Ok(out)
}

} // verus!
