//! Zlib streams, compressed and expanded in one piece.

use vstd::prelude::*;

verus! {

/// What a zlib decoder makes of `input`: the bytes that the zlib stream at
/// the start of `input` expands to and the number of bytes of `input` that
/// the stream occupies, or `None` where `input` does not start with a
/// complete, intact zlib stream.
pub uninterp spec fn zlib_stream(input: Seq<u8>) -> Option<(Seq<u8>, int)>;

/// Expands the zlib stream at the start of `input` by reading a
/// `flate2::bufread::ZlibDecoder` to its end. The result is what this module
/// calls `zlib_stream(input@)`; the decoder consumes no more than it is given.
#[verifier::external_body]
pub(crate) fn inflate(input: &[u8]) -> (r: Option<(Vec<u8>, usize)>)
    ensures
        r is Some <==> zlib_stream(input@) is Some,
        r matches Some((data, used)) ==> zlib_stream(input@) == Some((data@, used as int)),
        r matches Some((data, used)) ==> used <= input@.len(),
{
    let mut decoder = flate2::bufread::ZlibDecoder::new(input);
    let mut data = Vec::new();
    match std::io::Read::read_to_end(&mut decoder, &mut data) {
        Ok(_) => Some((data, decoder.total_in() as usize)),
        Err(_) => None,
    }
}

/// What the file of an object expands to: `None` where the file does not
/// start with an intact zlib stream.
pub open spec fn inflated(file: Seq<u8>) -> Option<Seq<u8>> {
    match zlib_stream(file) {
        Some((stream, _)) => Some(stream),
        None => None,
    }
}

/// Compresses `data` into one zlib stream with `flate2::write::ZlibEncoder`
/// at the default level. The result is a single stream that expands to
/// `data` and that a decoder consumes whole.
#[verifier::external_body]
pub(crate) fn deflate(data: &[u8]) -> (r: Vec<u8>)
    ensures
        zlib_stream(r@) == Some((data@, r@.len() as int)),
{
    let mut encoder = flate2::write::ZlibEncoder::new(Vec::new(), flate2::Compression::default());
    std::io::Write::write_all(&mut encoder, data).unwrap();
    encoder.finish().unwrap()
}

} // verus!
