//! The compressed archive of the reference entries.

use flate2::read::GzDecoder;
use std::io::{ErrorKind, Read};
use vstd::prelude::*;

verus! {

/// Why an archive was not decompressed.
#[derive(Debug)]
pub enum DecompressError {
    /// The bytes are not a whole gzip member.
    Malformed,
    /// There was no memory for what they hold.
    OutOfMemory,
}

/// What the first gzip member of some bytes decompresses to, and `None` if they do
/// not start with a whole member.
pub uninterp spec fn gunzipped(data: Seq<u8>) -> Option<Seq<u8>>;

/// Calls `flate2`: `read::GzDecoder::new` on the bytes, and `read_to_end` on the
/// decoder.
///
/// What is claimed of them is that the outcome is a function of the bytes, named
/// `gunzipped`: the bytes it holds on success, and nothing on an error. The one
/// error that is not a matter of the bytes, a lack of memory for the output, is
/// told apart, and nothing is said of when it comes.
#[verifier::external_body]
fn gunzip(data: &[u8]) -> (r: Result<Vec<u8>, DecompressError>)
    ensures
        match r {
            Ok(out) => gunzipped(data@) == Some(out@),
            Err(DecompressError::Malformed) => gunzipped(data@) is None,
            Err(DecompressError::OutOfMemory) => true,
        },
{
    let mut out: Vec<u8> = Vec::new();
    match GzDecoder::new(data).read_to_end(&mut out) {
        Ok(_) => Ok(out),
        Err(e) => match e.kind() {
            ErrorKind::OutOfMemory => Err(DecompressError::OutOfMemory),
            _ => Err(DecompressError::Malformed),
        },
    }
}

/// Whether the decoder returned `r` when it was called on the bytes.
pub closed spec fn decoder_returned(data: &[u8], r: Result<Vec<u8>, DecompressError>) -> bool {
    call_ensures(gunzip, (data,), r)
}

/// Decompresses an archive: the first gzip member of its bytes.
pub fn decompress(gz: &[u8]) -> (json: Result<Vec<u8>, DecompressError>)
    ensures
        json matches Ok(out) ==> gunzipped(gz@) == Some(out@),
        json matches Err(DecompressError::Malformed) ==> gunzipped(gz@) is None,
        decoder_returned(gz, json),
{
    gunzip(gz)
}

/// The outcome of `decompress` is one that the decoder returned on the same bytes: the
/// text is handed on as it is, and a lack of memory is reported only where the decoder
/// reported it.
pub proof fn decompress_hands_on_what_the_decoder_returned(
    gz: &[u8],
    json: Result<Vec<u8>, DecompressError>,
)
    requires
        call_ensures(decompress, (gz,), json),
    ensures
        call_requires(decompress, (gz,)),
        decoder_returned(gz, json),
{
}

/// What the decoder returned is what the call of `flate2` returned.
proof fn decompress_returns_the_result_of_the_call(
    gz: &[u8],
    json: Result<Vec<u8>, DecompressError>,
)
    requires
        call_ensures(decompress, (gz,), json),
    ensures
        call_ensures(gunzip, (gz,), json),
{
}

/// An archive holds one text: what decompresses once never turns out malformed, and
/// two texts of the same bytes are the same.
pub proof fn an_archive_holds_one_text(
    a: &[u8],
    b: &[u8],
    text: Vec<u8>,
    again: Result<Vec<u8>, DecompressError>,
)
    requires
        a@ == b@,
        call_ensures(decompress, (a,), Ok::<Vec<u8>, DecompressError>(text)),
        call_ensures(decompress, (b,), again),
    ensures
        again !== Err(DecompressError::Malformed),
        again matches Ok(other) ==> other@ == text@,
{
}

} // verus!
