//! Binary values carried as text: signatures and public keys travel in
//! padded standard Base64.

use base64ct::Base64;
use base64ct::Encoding;
use vstd::prelude::*;

verus! {

/// The Base64 text of a byte string.
pub uninterp spec fn base64_text(bytes: Seq<u8>) -> Seq<char>;

/// The bytes that a Base64 text stands for, if it is well formed.
pub uninterp spec fn base64_bytes(text: Seq<char>) -> Option<Seq<u8>>;

/// Calls `Base64::encode_string`, which panics on inputs longer than a quarter
/// of the address space. Trusted: the text is a function of the bytes alone,
/// it has four characters for every three bytes or part of three bytes, and
/// decoding it gives the bytes back.
#[verifier::external_body]
pub(crate) fn base64_encode(bytes: &[u8]) -> (text: String)
    requires
        bytes@.len() <= usize::MAX / 4,
    ensures
        text@ == base64_text(bytes@),
        text@.len() == (bytes@.len() + 2) / 3 * 4,
        base64_bytes(text@) == Some(bytes@),
{
    Base64::encode_string(bytes)
}

/// Calls `Base64::decode_vec`. Trusted: whether a text decodes, and to which
/// bytes, is a function of the text alone. A text that the decoder rejects
/// gives `None`.
#[verifier::external_body]
pub(crate) fn base64_decode(text: &str) -> (bytes: Option<Vec<u8>>)
    ensures
        match bytes {
            Some(decoded) => base64_bytes(text@) == Some(decoded@),
            None => base64_bytes(text@) is None,
        },
{
    Base64::decode_vec(text).ok()
}

} // verus!
