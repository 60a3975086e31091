//! Optional transparent compression between plaintext and the chunk layer.
//!
//! Only a boolean "was compression used" is stored in the archive header:
//! the quality level is a per-run encoder setting that decoding does not
//! need.

use vstd::prelude::*;
use crate::error::Error;

verus! {

/// Least quality level the compressor accepts.
pub const MIN_COMPRESS_LEVEL: u32 = 0;

/// Greatest quality level the compressor accepts.
pub const MAX_COMPRESS_LEVEL: u32 = 11;

/// The quality level used when the caller names none.
pub const DEFAULT_COMPRESS_LEVEL: u32 = MIN_COMPRESS_LEVEL;

/// What the compressor emits for a quality level and an input: a function
/// of both alone, with the window size fixed by this crate.
pub uninterp spec fn brotli_of(q: int, data: Seq<u8>) -> Seq<u8>;

/// Relies on brotli's `CompressorReader` (quality as given, 22-bit
/// window): deterministic in quality and input, and total on these
/// inputs — reading from a byte slice cannot fail, and no other error
/// path of the compressor is reachable from this driver.
#[verifier::external_body]
fn brotli_compress(q: u32, data: &[u8]) -> (r: Vec<u8>)
    requires
        q <= 11,
    ensures
        r@ == brotli_of(q as int, data@),
{
    let mut reader = brotli::CompressorReader::new(data, 8192, q, 22);
    let mut out = Vec::new();
    std::io::Read::read_to_end(&mut reader, &mut out).expect("in-memory compression");
    out
}

/// Relies on brotli's `DecompressorWriter`: decompression inverts
/// compression, so on what the compressor emitted — at any quality — it
/// succeeds and returns the original bytes, and it cannot fail there.
#[verifier::external_body]
fn brotli_decompress(data: &[u8]) -> (r: Result<Vec<u8>, ()>)
    ensures
        r matches Ok(v) ==> forall|q: int, orig: Seq<u8>|
            data@ == brotli_of(q, orig) ==> v@ == orig,
        r is Err ==> forall|q: int, orig: Seq<u8>| data@ != brotli_of(q, orig),
{
    let mut w = brotli::DecompressorWriter::new(Vec::new(), 8192);
    if std::io::Write::write_all(&mut w, data).is_err() {
        return Err(());
    }
    if w.close().is_err() {
        return Err(());
    }
    match w.into_inner() {
        Ok(v) => Ok(v),
        Err(v) => Ok(v),
    }
}

/// The bytes the encoding side hands to the chunk layer.
pub open spec fn spec_encoded(compress: Option<u32>, data: Seq<u8>) -> Seq<u8> {
    match compress {
        None => data,
        Some(q) => brotli_of(q as int, data),
    }
}

/// Encodes a whole plaintext for the archive: pass-through, or the
/// compressor at the chosen quality.  Encoding never fails.
pub fn encode_data(compress: &Option<u32>, data: &[u8]) -> (r: Result<Vec<u8>, Error>)
    requires
        *compress matches Some(q) ==> q <= 11,
    ensures
        r is Ok,
        r matches Ok(v) ==> v@ == spec_encoded(*compress, data@),
{
    match compress {
        None => Ok(vstd::slice::slice_to_vec(data)),
        Some(q) => Ok(brotli_compress(*q, data)),
    }
}

/// Decodes what the chunk layer yielded: pass-through, or decompression.
/// Whenever the input is what the encoding side produced, decoding
/// succeeds and returns the original bytes.
pub fn decode_data(compressed: bool, data: &[u8]) -> (r: Result<Vec<u8>, Error>)
    ensures
        !compressed ==> (r matches Ok(v) && v@ == data@),
        compressed ==> (r matches Ok(v) ==> forall|q: int, orig: Seq<u8>|
            data@ == brotli_of(q, orig) ==> v@ == orig),
        compressed ==> (r matches Err(e) ==> e == Error::Io && forall|q: int, orig: Seq<u8>|
            data@ != brotli_of(q, orig)),
{
    if !compressed {
        return Ok(vstd::slice::slice_to_vec(data));
    }
    match brotli_decompress(data) {
        Ok(v) => Ok(v),
        Err(_) => Err(Error::Io),
    }
}

/// Compression round trip: for every input — the empty sequence included
/// — and at every accepted quality, encoding then decoding succeeds and
/// returns the original bytes exactly.
pub fn compress_round_trip(compress: Option<u32>, data: &[u8]) -> (r: Result<Vec<u8>, Error>)
    requires
        compress matches Some(q) ==> q <= 11,
    ensures
        r is Ok,
        r matches Ok(v) ==> v@ == data@,
{
    let encoded = match encode_data(&compress, data) {
        Ok(v) => v,
        Err(e) => {
            return Err(e);
        },
    };
    decode_data(compress.is_some(), encoded.as_slice())
}

} // verus!
