//! The compression codec, behind two trusted adapters.  The stream format is
//! opaque to the library: the compressed image of a byte string is only named,
//! and everything proved about payloads goes through these two contracts.

use vstd::prelude::*;

verus! {

/// The compressed image of a byte string.  `lzma_rs::lzma_compress` computes
/// it from its input alone, so equal inputs give equal images everywhere.
pub uninterp spec fn lzma_of(s: Seq<u8>) -> Seq<u8>;

/// What decompression yields on a byte string: the original content for a
/// compressed image, `None` for bytes no compression produced and the decoder
/// rejects.  `lzma_rs::lzma_decompress` computes it from its input alone.
pub uninterp spec fn unlzma_of(s: Seq<u8>) -> Option<Seq<u8>>;

/// Relies on `lzma_rs::lzma_compress`: it encodes exactly the input bytes,
/// deterministically, and `lzma_rs::lzma_decompress` recovers them — the codec
/// is lossless.  With in-memory input and output the call cannot fail.
#[verifier::external_body]
pub fn compress(data: &[u8]) -> (r: Vec<u8>)
    ensures
        r@ == lzma_of(data@),
        unlzma_of(r@) == Some(data@),
{
    let mut input = std::io::Cursor::new(data);
    let mut out: Vec<u8> = Vec::new();
    lzma_rs::lzma_compress(&mut input, &mut out).unwrap();
    out
}

/// Relies on `lzma_rs::lzma_decompress`: its result depends on the input bytes
/// alone; it reports an error on bytes it cannot decode.
#[verifier::external_body]
pub fn decompress(data: &[u8]) -> (r: Option<Vec<u8>>)
    ensures
        match r {
            Some(v) => unlzma_of(data@) == Some(v@),
            None => unlzma_of(data@) is None,
        },
{
    let mut input = std::io::Cursor::new(data);
    let mut out: Vec<u8> = Vec::new();
    match lzma_rs::lzma_decompress(&mut input, &mut out) {
        Ok(()) => Some(out),
        Err(_) => None,
    }
}

} // verus!
