//! The universe description is stored gzip-compressed; its bytes are
//! decompressed here before they are parsed.

use std::io::Read;
use vstd::prelude::*;

verus! {

/// What gzip decompression makes of `data`: the decompressed bytes, or none
/// where `data` is not a well-formed gzip stream.
pub uninterp spec fn gunzip_of(data: Seq<u8>) -> Option<Seq<u8>>;

/// `r` is what decompressing `data` gives.
pub open spec fn decompressed(data: Seq<u8>, r: Option<Vec<u8>>) -> bool {
    match r {
        Some(v) => gunzip_of(data) == Some(v@),
        None => gunzip_of(data) is None,
    }
}

/// Relies on libflate's `gzip::Decoder` read to its end: the bytes that the
/// gzip stream `data` holds, or an error where the stream is malformed.
#[verifier::external_body]
fn decode_gzip(data: &[u8]) -> (r: Option<Vec<u8>>)
    ensures
        r matches Some(v) ==> gunzip_of(data@) == Some(v@),
        r is None ==> gunzip_of(data@) is None,
{
    let mut decoder = libflate::gzip::Decoder::new(data).ok()?;
    let mut out = Vec::new();
    decoder.read_to_end(&mut out).ok()?;
    Some(out)
}

/// Decompresses a gzip-compressed universe description; none where the
/// bytes are not a gzip stream.
pub fn decompress_map_data(data: &Vec<u8>) -> (r: Option<Vec<u8>>)
    ensures
        decompressed(data@, r),
{
    decode_gzip(data.as_slice())
}

} // verus!
