//! Map tile payloads: vector tiles may arrive gzip-compressed or raw.
use vstd::prelude::*;

verus! {

/// What decoding `data` with flate2's gzip reader yields: the bytes of the
/// gzip member it holds, or `None` when `data` is not a valid gzip stream.
pub uninterp spec fn gunzip_of(data: Seq<u8>) -> Option<Seq<u8>>;

/// Decodes gzip data with `flate2::read::GzDecoder` and `read_to_end`:
/// `Some` with the decoded bytes when the read succeeds, `None` when it
/// fails. Reading from memory, the outcome is a function of the bytes alone.
#[verifier::external_body]
fn gunzip(data: &[u8]) -> (r: Option<Vec<u8>>)
    ensures
        match r {
            Some(v) => gunzip_of(data@) == Some(v@),
            None => gunzip_of(data@) == None::<Seq<u8>>,
        },
{
    let mut decoder = flate2::read::GzDecoder::new(data);
    let mut out: Vec<u8> = Vec::new();
    match std::io::Read::read_to_end(&mut decoder, &mut out) {
        Ok(_) => Some(out),
        Err(_) => None,
    }
}

/// The payload of a tile: the decoded bytes when decoding succeeded, the
/// raw bytes otherwise.
pub fn tile_payload(data: &[u8], decoded: Option<Vec<u8>>) -> (r: Vec<u8>)
    ensures
        r@ == match decoded {
            Some(d) => d@,
            None => data@,
        },
{
    match decoded {
        Some(d) => d,
        None => vstd::slice::slice_to_vec(data),
    }
}

/// Try gzip decompression of a tile; data that is not gzip-compressed
/// passes through unchanged.
pub fn decompress_tile(data: &[u8]) -> (r: Vec<u8>)
    ensures
        r@ == match gunzip_of(data@) {
            Some(d) => d,
            None => data@,
        },
{
    let decoded = gunzip(data);
    tile_payload(data, decoded)
}

} // verus!
