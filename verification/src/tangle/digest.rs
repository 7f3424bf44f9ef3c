//! Content identifiers: the BLAKE3 digest of a byte string, written in
//! lowercase hexadecimal.

use vstd::prelude::*;

verus! {

/// The digest that BLAKE3 assigns to a byte string.
pub uninterp spec fn blake3_digest(input: Seq<u8>) -> Seq<u8>;

/// The lowercase hexadecimal digit for a value below sixteen.
pub open spec fn hex_digit(nibble: int) -> char {
    seq!['0', '1', '2', '3', '4', '5', '6', '7', '8', '9', 'a', 'b', 'c', 'd', 'e', 'f'][nibble]
}

/// Two lowercase hexadecimal digits for each byte, the high half first.
pub open spec fn hex_lower(bytes: Seq<u8>) -> Seq<char> {
    Seq::new(
        2 * bytes.len(),
        |i: int|
            if i % 2 == 0 {
                hex_digit(bytes[i / 2] as int / 16)
            } else {
                hex_digit(bytes[i / 2] as int % 16)
            },
    )
}

/// The identifier of the content with the given canonical bytes.
pub open spec fn content_id_of(bytes: Seq<u8>) -> Seq<char> {
    hex_lower(blake3_digest(bytes))
}

/// Calls `blake3::hash` and copies the 32 bytes out of the `Hash` it returns.
/// The digest is taken on trust as a function of the input alone.
#[verifier::external_body]
fn blake3_hash(input: &[u8]) -> (digest: [u8; 32])
    ensures
        digest@ == blake3_digest(input@),
{
    *blake3::hash(input).as_bytes()
}

/// Calls `blake3::Hash::to_hex` on a `Hash` made of the given bytes. Trusted:
/// the text holds, for each byte in order, the digit of its high half and then
/// the digit of its low half, taken from `0123456789abcdef`.
#[verifier::external_body]
fn blake3_hex(digest: &[u8; 32]) -> (text: String)
    ensures
        text@ == hex_lower(digest@),
{
    blake3::Hash::from_bytes(*digest).to_hex().to_string()
}

/// The hexadecimal form keeps the bytes apart: equal texts come from equal bytes.
pub proof fn lemma_hex_lower_injective(a: Seq<u8>, b: Seq<u8>)
    requires
        hex_lower(a) == hex_lower(b),
    ensures
        a == b,
{
    assert(hex_lower(a).len() == 2 * a.len());
    assert(hex_lower(b).len() == 2 * b.len());
    assert forall|i: int| 0 <= i < a.len() implies a[i] == b[i] by {
        let high_a = a[i] as int / 16;
        let high_b = b[i] as int / 16;
        let low_a = a[i] as int % 16;
        let low_b = b[i] as int % 16;
        assert(hex_lower(a)[2 * i] == hex_digit(high_a));
        assert(hex_lower(b)[2 * i] == hex_digit(high_b));
        assert(hex_lower(a)[2 * i + 1] == hex_digit(low_a));
        assert(hex_lower(b)[2 * i + 1] == hex_digit(low_b));
        assert(high_a == high_b);
        assert(low_a == low_b);
    }
    assert(a =~= b);
}

/// Computes the identifier of a content from its canonical bytes.
pub fn content_id(bytes: &[u8]) -> (id: String)
    ensures
        id@ == content_id_of(bytes@),
        id@.len() == 64,
{
    let digest = blake3_hash(bytes);
    blake3_hex(&digest)
}

} // verus!
