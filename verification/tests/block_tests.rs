use base64ct::Encoding;
use ecoblock_storage::tangle::block::TangleBlock;
use ecoblock_storage::tangle::block::TangleBlockData;
use ecoblock_storage::tangle::canonical::canonical_payload;
use ecoblock_storage::tangle::digest::content_id;
use ecoblock_storage::tangle::keys::CryptoKeypair;
use ecoblock_storage::tangle::signature::Signature;

fn unhex(text: &str) -> Vec<u8> {
    let digits: Vec<u8> = text
        .bytes()
        .map(|c| match c {
            b'0'..=b'9' => c - b'0',
            b'a'..=b'f' => c - b'a' + 10,
            _ => panic!("not a lowercase hex digit"),
        })
        .collect();
    digits.chunks(2).map(|pair| pair[0] * 16 + pair[1]).collect()
}

fn seed_of(text: &str) -> [u8; 32] {
    let bytes = unhex(text);
    let mut seed = [0u8; 32];
    seed.copy_from_slice(&bytes);
    seed
}

const SECRET: &str = "9d61b19deffd5a60ba844af492ec2cc44449c5697b326919703bac031cae7f60";
const PUBLIC: &str = "d75a980182b10ab7d54bfed3c964073a0ee172f3daa62325af021a68f707511a";
const SIGNATURE_OF_NOTHING: &str = "e5564300c360ac729086e2cc806e828a84877f1eb8e5d974d873e065224901555fb8821590a33bacc61e39701cf9b46bd25bf5f0595bbe24655141438e7a100b";

fn content(parents: &[&str], data: &[u8]) -> TangleBlockData {
    TangleBlockData {
        parents: parents.iter().map(|p| p.to_string()).collect(),
        data: data.to_vec(),
    }
}

#[test]
fn canonical_bytes_of_an_empty_content() {
    let bytes = canonical_payload(&vec![], &vec![]);
    assert_eq!(bytes, vec![0u8; 8]);
}

#[test]
fn canonical_bytes_frame_each_parent() {
    let parents = vec!["ab".to_string(), "".to_string(), "\u{e9}".to_string()];
    let bytes = canonical_payload(&parents, &vec![1, 2, 255]);
    let expected: Vec<u8> = vec![
        3, 0, 0, 0, 0, 0, 0, 0, // three parents
        2, 0, 0, 0, 0, 0, 0, 0, b'a', b'b', // "ab"
        0, 0, 0, 0, 0, 0, 0, 0, // ""
        2, 0, 0, 0, 0, 0, 0, 0, 0xc3, 0xa9, // e acute in UTF-8
        1, 2, 255, // payload
    ];
    assert_eq!(bytes, expected);
}

#[test]
fn canonical_bytes_tell_contents_apart() {
    let moved = canonical_payload(&vec!["a".to_string()], &vec![b'b']);
    let joined = canonical_payload(&vec!["ab".to_string()], &vec![]);
    let split = canonical_payload(&vec!["a".to_string(), "b".to_string()], &vec![]);
    let payload_only = canonical_payload(&vec![], &vec![b'a', b'b']);
    assert_ne!(moved, joined);
    assert_ne!(joined, split);
    assert_ne!(split, payload_only);
    assert_ne!(moved, payload_only);
}

#[test]
fn payload_of_data_and_of_block_agree() {
    let keypair = CryptoKeypair::from_seed([9u8; 32]);
    let data = content(&["p", "q"], &[7, 8]);
    let expected = canonical_payload(&data.parents, &data.data);
    assert_eq!(data.payload(), expected);
    let block = TangleBlock::new(data, &keypair);
    assert_eq!(block.payload(), expected);
}

#[test]
fn content_id_of_nothing_is_the_known_digest() {
    assert_eq!(
        content_id(&[]),
        "af1349b9f5f9a1a6a0404dea36dcc9499bcb25c9adc112b7cc9a93cae41f3262"
    );
}

#[test]
fn content_id_is_64_lowercase_hex_digits() {
    let id = content_id(b"some payload");
    assert_eq!(id.len(), 64);
    assert!(id.bytes().all(|c| c.is_ascii_digit() || (b'a'..=b'f').contains(&c)));
    assert_ne!(id, content_id(b"some payloae"));
}

#[test]
fn block_id_is_the_digest_of_the_canonical_bytes() {
    let keypair = CryptoKeypair::from_seed([1u8; 32]);
    let block = TangleBlock::new(content(&[], &[]), &keypair);
    // The canonical bytes of the empty content are eight zero bytes.
    assert_eq!(block.id, content_id(&[0u8; 8]));
    assert_eq!(block.id, content_id(&block.payload()));
}

#[test]
fn public_key_follows_the_reference_vector() {
    let keypair = CryptoKeypair::from_seed(seed_of(SECRET));
    assert_eq!(keypair.public_key().to_vec(), unhex(PUBLIC));
}

#[test]
fn signature_follows_the_reference_vector() {
    let keypair = CryptoKeypair::from_seed(seed_of(SECRET));
    assert_eq!(keypair.sign(&[]).to_vec(), unhex(SIGNATURE_OF_NOTHING));
}

#[test]
fn new_block_carries_content_signature_and_key() {
    let keypair = CryptoKeypair::from_seed(seed_of(SECRET));
    let block = TangleBlock::new(content(&["x", "y"], &[1, 2, 3]), &keypair);
    assert_eq!(block.parents, vec!["x".to_string(), "y".to_string()]);
    assert_eq!(block.data, vec![1, 2, 3]);
    assert_eq!(block.public_key, base64ct::Base64::encode_string(&unhex(PUBLIC)));
    assert_eq!(block.public_key, "11qYAYKxCrfVS/7TyWQHOg7hcvPapiMlrwIaaPcHURo=");
    let raw = keypair.sign(&block.payload());
    assert_eq!(block.signature.0, base64ct::Base64::encode_string(&raw));
    assert_eq!(block.signature.0.len(), 88);
    assert!(block.verify());
}

#[test]
fn construction_is_deterministic() {
    let keypair = CryptoKeypair::from_seed([11u8; 32]);
    let first = TangleBlock::new(content(&["p"], &[4, 5, 6]), &keypair);
    let second = TangleBlock::new(content(&["p"], &[4, 5, 6]), &keypair);
    assert_eq!(first.id, second.id);
    assert_eq!(first.signature.0, second.signature.0);
    assert_eq!(first.public_key, second.public_key);
}

#[test]
fn id_does_not_depend_on_the_signer() {
    let one = CryptoKeypair::from_seed([12u8; 32]);
    let other = CryptoKeypair::from_seed([13u8; 32]);
    let first = TangleBlock::new(content(&["p"], &[4, 5, 6]), &one);
    let second = TangleBlock::new(content(&["p"], &[4, 5, 6]), &other);
    assert_eq!(first.id, second.id);
    assert_ne!(first.signature.0, second.signature.0);
    assert_ne!(first.public_key, second.public_key);
}

#[test]
fn id_depends_on_parents_and_payload() {
    let keypair = CryptoKeypair::from_seed([14u8; 32]);
    let base = TangleBlock::new(content(&["p"], &[1]), &keypair);
    let other_payload = TangleBlock::new(content(&["p"], &[2]), &keypair);
    let other_parent = TangleBlock::new(content(&["q"], &[1]), &keypair);
    let no_parent = TangleBlock::new(content(&[], &[1]), &keypair);
    assert_ne!(base.id, other_payload.id);
    assert_ne!(base.id, other_parent.id);
    assert_ne!(base.id, no_parent.id);
}

#[test]
fn unsigned_block_has_the_same_id_and_no_proof() {
    let keypair = CryptoKeypair::from_seed([15u8; 32]);
    let signed = TangleBlock::new(content(&["p"], &[1, 2]), &keypair);
    let unsigned = TangleBlock::new_unsigned(content(&["p"], &[1, 2]));
    assert_eq!(unsigned.id, signed.id);
    assert_eq!(unsigned.parents, vec!["p".to_string()]);
    assert_eq!(unsigned.data, vec![1, 2]);
    assert_eq!(unsigned.signature.0, "");
    assert_eq!(unsigned.public_key, "");
    assert!(!unsigned.verify());
}

#[test]
fn from_parts_keeps_what_it_is_given() {
    let block = TangleBlock::from_parts(
        "id".to_string(),
        content(&["p"], &[9]),
        Signature("sig".to_string()),
        "key".to_string(),
    );
    assert_eq!(block.id, "id");
    assert_eq!(block.parents, vec!["p".to_string()]);
    assert_eq!(block.data, vec![9]);
    assert_eq!(block.signature.0, "sig");
    assert_eq!(block.public_key, "key");
}

#[test]
fn signature_verifies_the_reference_vector() {
    let signature = Signature(base64ct::Base64::encode_string(&unhex(SIGNATURE_OF_NOTHING)));
    let public_key = base64ct::Base64::encode_string(&unhex(PUBLIC));
    assert!(signature.verify(&public_key, &[]));
    assert!(!signature.verify(&public_key, &[0]));
}

#[test]
fn signature_is_refused_for_another_key_or_payload() {
    let keypair = CryptoKeypair::from_seed([16u8; 32]);
    let stranger = CryptoKeypair::from_seed([17u8; 32]);
    let message = b"reading".to_vec();
    let signature = Signature(base64ct::Base64::encode_string(&keypair.sign(&message)));
    let own = base64ct::Base64::encode_string(&keypair.public_key());
    let other = base64ct::Base64::encode_string(&stranger.public_key());
    assert!(signature.verify(&own, &message));
    assert!(!signature.verify(&other, &message));
    assert!(!signature.verify(&own, b"readinh"));
}

#[test]
fn signature_is_refused_when_text_is_not_base64() {
    let keypair = CryptoKeypair::from_seed([18u8; 32]);
    let message = b"reading".to_vec();
    let good = base64ct::Base64::encode_string(&keypair.sign(&message));
    let own = base64ct::Base64::encode_string(&keypair.public_key());
    assert!(!Signature("not base64!".to_string()).verify(&own, &message));
    assert!(!Signature(good.clone()).verify("not base64!", &message));
    assert!(!Signature(String::new()).verify(&own, &message));
    assert!(!Signature(good.clone()).verify("", &message));
    // Well-formed Base64 of the wrong length is no key and no signature.
    assert!(!Signature(good).verify("AAAA", &message));
    assert!(!Signature("AAAA".to_string()).verify(&own, &message));
}

#[test]
fn tampering_with_a_block_breaks_its_signature() {
    let keypair = CryptoKeypair::from_seed([19u8; 32]);
    let block = TangleBlock::new(content(&["p"], &[1, 2, 3]), &keypair);
    assert!(block.verify());

    let mut other_payload = block.clone();
    other_payload.data = vec![1, 2, 4];
    assert!(!other_payload.verify());

    let mut other_parents = block.clone();
    other_parents.parents = vec!["q".to_string()];
    assert!(!other_parents.verify());

    let mut other_id = block.clone();
    other_id.id = "something else".to_string();
    assert!(other_id.verify());
}

#[test]
fn label_of_a_genesis_block() {
    let block = TangleBlock::from_parts(
        "abc".to_string(),
        content(&[], &[1]),
        Signature(String::new()),
        String::new(),
    );
    assert_eq!(block.label(), "Block abc (genesis)");
}

#[test]
fn label_lists_the_parents() {
    let one = TangleBlock::from_parts(
        "abc".to_string(),
        content(&["p"], &[1]),
        Signature(String::new()),
        String::new(),
    );
    assert_eq!(one.label(), "Block abc \u{2192} [\"p\"]");
    let three = TangleBlock::from_parts(
        "abc".to_string(),
        content(&["p", "q", "r"], &[1]),
        Signature(String::new()),
        String::new(),
    );
    assert_eq!(three.label(), "Block abc \u{2192} [\"p\", \"q\", \"r\"]");
    assert_eq!(three.label(), format!("Block {} \u{2192} {:?}", three.id, three.parents));
}

#[test]
fn label_escapes_quotes_backslashes_and_control_characters() {
    let block = TangleBlock::from_parts(
        "X".to_string(),
        content(&["\"", "a\\b", "line\nbreak"], &[1]),
        Signature(String::new()),
        String::new(),
    );
    assert_eq!(block.label(), "Block X \u{2192} [\"\\\"\", \"a\\\\b\", \"line\\nbreak\"]");
    assert_eq!(block.label(), format!("Block {} \u{2192} {:?}", block.id, block.parents));
}

#[test]
fn label_with_list_puts_the_list_after_the_arrow() {
    let child = TangleBlock::from_parts(
        "abc".to_string(),
        content(&["p"], &[1]),
        Signature(String::new()),
        String::new(),
    );
    assert_eq!(child.label_with_list("<the list>"), "Block abc \u{2192} <the list>");
    let genesis = TangleBlock::from_parts(
        "abc".to_string(),
        content(&[], &[1]),
        Signature(String::new()),
        String::new(),
    );
    assert_eq!(genesis.label_with_list("<the list>"), "Block abc (genesis)");
}

#[test]
fn new_block_texts_decode_to_key_and_signature() {
    let keypair = CryptoKeypair::from_seed([21u8; 32]);
    let block = TangleBlock::new(content(&["p"], &[1, 2, 3]), &keypair);
    assert_eq!(block.id.len(), 64);
    let key = base64ct::Base64::decode_vec(&block.public_key).unwrap();
    assert_eq!(key, keypair.public_key().to_vec());
    let raw = base64ct::Base64::decode_vec(&block.signature.0).unwrap();
    assert_eq!(raw, keypair.sign(&block.payload()).to_vec());
}
