//! Blocks: a payload, the blocks it refers to, the identifier derived from
//! both, and the proof of who wrote it.

use crate::tangle::canonical::canonical_bytes;
use crate::tangle::canonical::canonical_payload;
use crate::tangle::canonical::ids_of;
use crate::tangle::digest::blake3_digest;
use crate::tangle::digest::content_id;
use crate::tangle::digest::content_id_of;
use crate::tangle::digest::lemma_hex_lower_injective;
use crate::tangle::encoding::base64_bytes;
use crate::tangle::encoding::base64_encode;
use crate::tangle::encoding::base64_text;
use crate::tangle::keys::ed25519_public_key;
use crate::tangle::keys::ed25519_signature;
use crate::tangle::keys::CryptoKeypair;
use crate::tangle::signature::signature_accepts;
use crate::tangle::signature::Signature;
use vstd::prelude::*;
use vstd::string::*;

verus! {

/// What a block says: the blocks it builds on and an opaque payload.
#[derive(Debug, Clone)]
pub struct TangleBlockData {
    pub parents: Vec<String>,
    pub data: Vec<u8>,
}

/// A block of the ledger.
#[derive(Debug, Clone)]
pub struct TangleBlock {
    pub id: String,
    pub parents: Vec<String>,
    pub data: Vec<u8>,
    pub signature: Signature,
    pub public_key: String,
}

/// The text that the standard `Debug` formatting writes for a list of
/// strings: the strings between brackets, each between double quotes and
/// with its special characters escaped.
pub uninterp spec fn debug_list(items: Seq<Seq<char>>) -> Seq<char>;

/// Formats the list with `format!` and `{:?}`, that is with the `Debug`
/// implementation of `Vec<String>`. Trusted: the text is a function of the
/// strings alone.
#[verifier::external_body]
fn format_list(items: &Vec<String>) -> (text: String)
    ensures
        text@ == debug_list(ids_of(items@)),
{
    format!("{:?}", items)
}

/// A block as a mathematical value.
pub struct BlockView {
    pub id: Seq<char>,
    pub parents: Seq<Seq<char>>,
    pub data: Seq<u8>,
    pub signature: Seq<char>,
    pub public_key: Seq<char>,
}

impl BlockView {
    /// The bytes that the identifier and the signature are computed over.
    pub open spec fn payload(self) -> Seq<u8> {
        canonical_bytes(self.parents, self.data)
    }

    /// The signature is one that the block's public key accepts for the
    /// block's own parents and payload.
    pub open spec fn is_authentic(self) -> bool {
        signature_accepts(self.signature, self.public_key, self.payload())
    }

    /// The identifier is the one derived from the block's parents and payload.
    pub open spec fn is_content_addressed(self) -> bool {
        self.id == content_id_of(self.payload())
    }

    /// The block carries the signature and the public key of the identity
    /// with the given secret: its two texts decode to the signature that
    /// the identity makes of the block's own payload, and to the
    /// identity's public key.
    pub open spec fn carries_proof_of(self, seed: Seq<u8>) -> bool {
        &&& base64_bytes(self.signature) == Some(ed25519_signature(seed, self.payload()))
        &&& base64_bytes(self.public_key) == Some(ed25519_public_key(seed))
    }

    /// The block was built from the given content by the identity with the
    /// given secret.
    pub open spec fn signed_from(self, parents: Seq<Seq<char>>, data: Seq<u8>, seed: Seq<u8>) -> bool {
        &&& self.parents == parents
        &&& self.data == data
        &&& self.id == content_id_of(canonical_bytes(parents, data))
        &&& self.signature == base64_text(ed25519_signature(seed, canonical_bytes(parents, data)))
        &&& self.public_key == base64_text(ed25519_public_key(seed))
    }

    /// One line that names the block and says what it builds on, where
    /// `list` is the text that stands for the parents.
    pub open spec fn label_with(self, list: Seq<char>) -> Seq<char> {
        if self.parents.len() == 0 {
            "Block "@ + self.id + " (genesis)"@
        } else {
            "Block "@ + self.id + " \u{2192} "@ + list
        }
    }

    /// One line that names the block and says what it builds on: that it is
    /// a genesis block, or the list of its parents in `Debug` formatting.
    pub open spec fn label(self) -> Seq<char> {
        self.label_with(debug_list(self.parents))
    }

    /// The block was built from the given content without a signature.
    pub open spec fn unsigned_from(self, parents: Seq<Seq<char>>, data: Seq<u8>) -> bool {
        &&& self.parents == parents
        &&& self.data == data
        &&& self.id == content_id_of(canonical_bytes(parents, data))
        &&& self.signature == Seq::<char>::empty()
        &&& self.public_key == Seq::<char>::empty()
    }
}

impl View for TangleBlock {
    type V = BlockView;

    open spec fn view(&self) -> BlockView {
        BlockView {
            id: self.id@,
            parents: ids_of(self.parents@),
            data: self.data@,
            signature: self.signature@,
            public_key: self.public_key@,
        }
    }
}

impl TangleBlockData {
    /// The canonical bytes of this content.
    pub fn payload(&self) -> (bytes: Vec<u8>)
        ensures
            bytes@ == canonical_bytes(ids_of(self.parents@), self.data@),
    {
        canonical_payload(&self.parents, &self.data)
    }
}

impl TangleBlock {
    /// Builds the block for `data` and signs it as `keypair`.
    ///
    /// The identifier depends on the content alone; signature and public key
    /// depend on the signer. The signature is one that the block's own public
    /// key accepts.
    pub fn new(data: TangleBlockData, keypair: &CryptoKeypair) -> (block: TangleBlock)
        ensures
            block@.signed_from(ids_of(data.parents@), data.data@, keypair@),
            block@.is_content_addressed(),
            block@.id.len() == 64,
            block@.carries_proof_of(keypair@),
            block@.is_authentic(),
    {
        let payload = data.payload();
        let id = content_id(payload.as_slice());
        let raw = keypair.sign(payload.as_slice());
        let signature = Signature(base64_encode(raw.as_slice()));
        let public = keypair.public_key();
        let public_key = base64_encode(public.as_slice());
        TangleBlock::from_parts(id, data, signature, public_key)
    }

    /// Builds the block for `data` with an empty signature and an empty
    /// public key. The identifier is the one a signed block would get. Such
    /// a block is not authentic: a ledger does not accept it.
    pub fn new_unsigned(data: TangleBlockData) -> (block: TangleBlock)
        ensures
            block@.unsigned_from(ids_of(data.parents@), data.data@),
            block@.is_content_addressed(),
            block@.id.len() == 64,
            !block@.is_authentic(),
    {
        let payload = data.payload();
        let id = content_id(payload.as_slice());
        TangleBlock::from_parts(id, data, Signature(String::new()), String::new())
    }

    /// Puts a block together from an identifier, a content and a proof of
    /// authorship, as they are.
    pub fn from_parts(id: String, data: TangleBlockData, signature: Signature, public_key: String) -> (block: TangleBlock)
        ensures
            block@ == (BlockView {
                id: id@,
                parents: ids_of(data.parents@),
                data: data.data@,
                signature: signature@,
                public_key: public_key@,
            }),
    {
        TangleBlock { id, parents: data.parents, data: data.data, signature, public_key }
    }

    /// The canonical bytes of the block's own parents and payload.
    pub fn payload(&self) -> (bytes: Vec<u8>)
        ensures
            bytes@ == self@.payload(),
    {
        canonical_payload(&self.parents, &self.data)
    }

    /// One line that names the block and says what it builds on: that it
    /// is a genesis block, or the list of its parents as the standard
    /// `Debug` formatting writes it.
    pub fn label(&self) -> (line: String)
        ensures
            line@ == self@.label(),
    {
        if self.parents.len() == 0 {
            self.label_with_list("")
        } else {
            let list = format_list(&self.parents);
            self.label_with_list(list.as_str())
        }
    }

    /// The line for the block when `list` is the text that stands for its
    /// parents. A genesis block has no use for the list.
    pub fn label_with_list(&self, list: &str) -> (line: String)
        ensures
            line@ == self@.label_with(list@),
    {
        let mut line = String::from_str("Block ");
        line.append(self.id.as_str());
        if self.parents.len() == 0 {
            line.append(" (genesis)");
        } else {
            line.append(" \u{2192} ");
            line.append(list);
        }
        line
    }

    /// Whether the block's signature is accepted by the block's public key
    /// for the block's own parents and payload.
    pub fn verify(&self) -> (authentic: bool)
        ensures
            authentic == self@.is_authentic(),
    {
        let payload = self.payload();
        self.signature.verify(self.public_key.as_str(), payload.as_slice())
    }
}

/// Building a block twice from one content gives one identifier, whoever signs.
pub proof fn lemma_id_depends_on_content_only(
    first: BlockView,
    second: BlockView,
    parents: Seq<Seq<char>>,
    data: Seq<u8>,
    first_seed: Seq<u8>,
    second_seed: Seq<u8>,
)
    requires
        first.signed_from(parents, data, first_seed),
        second.signed_from(parents, data, second_seed),
    ensures
        first.id == second.id,
{
}

/// Blocks that carry the proof of identities with different public keys
/// carry different public key texts; and where the identities make
/// different signatures of the two payloads, the blocks carry different
/// signature texts.
pub proof fn lemma_signers_are_told_apart(
    first: BlockView,
    second: BlockView,
    first_seed: Seq<u8>,
    second_seed: Seq<u8>,
)
    requires
        first.carries_proof_of(first_seed),
        second.carries_proof_of(second_seed),
    ensures
        ed25519_public_key(first_seed) != ed25519_public_key(second_seed) ==> first.public_key
            != second.public_key,
        ed25519_signature(first_seed, first.payload()) != ed25519_signature(second_seed, second.payload())
            ==> first.signature != second.signature,
{
}

/// A block without a signature is not authentic, whatever it holds.
pub proof fn lemma_unsigned_is_not_authentic(block: BlockView)
    requires
        block.signature.len() == 0 || block.public_key.len() == 0,
    ensures
        !block.is_authentic(),
{
}

/// Blocks with one identifier, each derived from its content, have contents
/// of one digest.
pub proof fn lemma_equal_ids_equal_digests(first: BlockView, second: BlockView)
    requires
        first.is_content_addressed(),
        second.is_content_addressed(),
        first.id == second.id,
    ensures
        blake3_digest(first.payload()) == blake3_digest(second.payload()),
{
    lemma_hex_lower_injective(blake3_digest(first.payload()), blake3_digest(second.payload()));
}

/// Building a block twice from one content as one identity gives one block.
pub proof fn lemma_construction_is_deterministic(
    first: BlockView,
    second: BlockView,
    parents: Seq<Seq<char>>,
    data: Seq<u8>,
    seed: Seq<u8>,
)
    requires
        first.signed_from(parents, data, seed),
        second.signed_from(parents, data, seed),
    ensures
        first == second,
{
}

} // verus!
