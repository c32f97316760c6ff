//! The payload of a record: the encoded value, compressed.

use flate2::read::DeflateDecoder;
use flate2::write::DeflateEncoder;
use flate2::Compression;
use std::io::{Read, Write};
use vstd::prelude::*;

verus! {

/// The compressed form of `raw`.
pub uninterp spec fn deflated(raw: Seq<u8>) -> Seq<u8>;

/// The bytes that the decoder yields for `payload`, where it yields any.
pub uninterp spec fn inflated(payload: Seq<u8>) -> Option<Seq<u8>>;

/// Runs `raw` through `flate2::write::DeflateEncoder` at the level
/// `flate2::Compression::fast` and finishes the stream. Trusted: the output
/// depends on `raw` alone, and the decoder gives `raw` back for it.
#[verifier::external_body]
pub(crate) fn deflate(raw: &Vec<u8>) -> (payload: Vec<u8>)
    ensures
        payload@ == deflated(raw@),
        inflated(payload@) == Some(raw@),
{
    let mut encoder = DeflateEncoder::new(Vec::with_capacity(64), Compression::fast());
    encoder.write_all(raw).expect("a vector takes every write");
    encoder.finish().expect("a vector takes every write")
}

/// Reads `flate2::read::DeflateDecoder` over `payload` to its end. Trusted:
/// whether that fails, and what it yields if not, depends on `payload`
/// alone.
#[verifier::external_body]
pub(crate) fn inflate(payload: &Vec<u8>) -> (raw: Result<Vec<u8>, std::io::Error>)
    ensures
        raw matches Ok(bytes) ==> inflated(payload@) == Some(bytes@),
        raw is Err ==> inflated(payload@).is_none(),
{
    let mut decoder = DeflateDecoder::new(&payload[..]);
    let mut bytes = Vec::new();
    match decoder.read_to_end(&mut bytes) {
        Ok(_) => Ok(bytes),
        Err(e) => Err(e),
    }
}

} // verus!
