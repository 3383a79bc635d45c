//! Reading a stored model payload: a gzip stream of JSON text.
use vstd::prelude::*;
use crate::model_error::ModelError;

verus! {

/// The text that the gzip stream `b` decompresses to, if `b` is a valid gzip
/// stream of UTF-8 text.
pub uninterp spec fn gunzipped(b: Seq<u8>) -> Option<Seq<char>>;

/// Relies on flate2::bufread::GzDecoder::new and std::io::Read::read_to_string:
/// the UTF-8 text compressed in `gzip`, or `None` when the stream or its text is
/// invalid. The outcome depends on the bytes alone.
#[verifier::external_body]
fn gunzip(gzip: &[u8]) -> (r: Option<String>)
    ensures
        r matches Some(s) ==> gunzipped(gzip@) == Some(s@),
        r is None ==> gunzipped(gzip@) is None,
{
    let mut decoder = flate2::bufread::GzDecoder::new(gzip);
    let mut text = String::new();
    match std::io::Read::read_to_string(&mut decoder, &mut text) {
        Ok(_) => Some(text),
        Err(_) => None,
    }
}

/// The JSON text stored in the payload `gzip`; a decode error when the
/// payload is not a gzip stream of UTF-8 text.
pub fn decompress_gzip_to_string(gzip: &[u8]) -> (r: Result<String, ModelError>)
    ensures
        gunzipped(gzip@) matches Some(t) ==> (r matches Ok(s) && s@ == t),
        gunzipped(gzip@) is None ==> (r matches Err(ModelError::DecodeError)),
{
    match gunzip(gzip) {
        Some(text) => Ok(text),
        None => Err(ModelError::DecodeError),
    }
}

/// Whether `s` is a UUID in one of the forms that uuid's parser reads.
pub uninterp spec fn uuid_text(s: Seq<char>) -> bool;

/// Relies on uuid::Uuid::parse_str: whether `s` is a UUID in one of the forms
/// it reads (simple, hyphenated, urn, braced). The answer depends on the text
/// alone.
#[verifier::external_body]
pub(crate) fn is_uuid(s: &str) -> (r: bool)
    ensures
        r == uuid_text(s@),
{
    uuid::Uuid::parse_str(s).is_ok()
}

} // verus!
