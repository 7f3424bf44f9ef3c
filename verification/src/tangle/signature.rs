//! Signatures as they are carried by a block.

use crate::tangle::encoding::base64_bytes;
use crate::tangle::encoding::base64_decode;
use crate::tangle::keys::ed25519_verifies;
use crate::tangle::keys::ed25519_verify;
use vstd::prelude::*;

verus! {

/// Whether the signature text, read as Base64, is accepted for `payload`
/// under the public key that `public_key`, read as Base64, stands for.
/// An empty text is never accepted, nor a text that is not Base64, nor a
/// key that is not of 32 bytes, nor a signature that is not of 64 bytes.
pub open spec fn signature_accepts(signature: Seq<char>, public_key: Seq<char>, payload: Seq<u8>) -> bool {
    &&& signature.len() > 0
    &&& public_key.len() > 0
    &&& match (base64_bytes(public_key), base64_bytes(signature)) {
        (Some(key), Some(raw)) => key.len() == 32 && raw.len() == 64 && ed25519_verifies(key, payload, raw),
        _ => false,
    }
}

/// An Ed25519 signature in Base64.
#[derive(Debug, Clone)]
pub struct Signature(pub String);

impl View for Signature {
    type V = Seq<char>;

    open spec fn view(&self) -> Seq<char> {
        self.0@
    }
}

impl Signature {
    /// Checks the signature over `payload` against a public key in Base64.
    pub fn verify(&self, public_key: &str, payload: &[u8]) -> (accepted: bool)
        ensures
            accepted == signature_accepts(self@, public_key@, payload@),
    {
        if self.0.as_str().is_empty() || public_key.is_empty() {
            return false;
        }
        let key = match base64_decode(public_key) {
            Some(key) => key,
            None => {
                return false;
            },
        };
        let raw = match base64_decode(self.0.as_str()) {
            Some(raw) => raw,
            None => {
                return false;
            },
        };
        if key.len() != 32 || raw.len() != 64 {
            return false;
        }
        ed25519_verify(key.as_slice(), payload, raw.as_slice())
    }
}

} // verus!
