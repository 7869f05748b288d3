//! The boundary between `String` values and the raw UTF-8 bytes the
//! tokenizer works on.

use vstd::prelude::*;
use vstd::string::StrSliceExecFns;
use vstd::string::StringSliceAdditionalSpecFns;
use vstd::utf8::decode_utf8;
use vstd::utf8::encode_utf8;
use vstd::utf8::valid_utf8;

verus! {

/// The raw UTF-8 bytes of `text`, as an owned vector.
pub(crate) fn text_bytes(text: &String) -> (r: Vec<u8>)
    ensures
        r@ == encode_utf8(text@),
{
    text.as_str().as_bytes_vec()
}

/// Relies on `String::from_utf8`: it returns `Ok` exactly when the bytes
/// are a valid UTF-8 encoding, and the returned string's characters are
/// the decoded Unicode scalars of those bytes.
#[verifier::external_body]
pub(crate) fn bytes_into_string(bytes: Vec<u8>) -> (r: Option<String>)
    ensures
        r is Some <==> valid_utf8(bytes@),
        r matches Some(s) ==> s@ == decode_utf8(bytes@),
{
    match String::from_utf8(bytes) {
        Ok(s) => Some(s),
        Err(_) => None,
    }
}

} // verus!
