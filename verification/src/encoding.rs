//! Base64 (the `base64` crate, standard alphabet with padding).
use base64::Engine;
use vstd::prelude::*;

verus! {

/// `STANDARD.encode(bytes)`.
pub uninterp spec fn base64_encoded(bytes: Seq<u8>) -> Seq<char>;

/// `STANDARD.decode(text)`: `None` where the text is not valid base64.
pub uninterp spec fn base64_decoded(text: Seq<char>) -> Option<Seq<u8>>;

/// `base64::engine::general_purpose::STANDARD.encode(bytes)`; its result is
/// named by `base64_encoded`.  The crate panics when the encoded length
/// overflows `usize`, which the bound on the input rules out.
#[verifier::external_body]
pub(crate) fn encode_base64(bytes: &[u8]) -> (r: String)
    requires
        bytes@.len() <= usize::MAX / 2,
    ensures
        r@ == base64_encoded(bytes@),
{
    base64::engine::general_purpose::STANDARD.encode(bytes)
}

/// `base64::engine::general_purpose::STANDARD.decode(text)`, with the error
/// dropped; its result is named by `base64_decoded`.
#[verifier::external_body]
pub(crate) fn decode_base64(text: &str) -> (r: Option<Vec<u8>>)
    ensures
        r matches Some(v) ==> base64_decoded(text@) == Some(v@),
        r is None ==> base64_decoded(text@) is None,
{
    base64::engine::general_purpose::STANDARD.decode(text).ok()
}

} // verus!
