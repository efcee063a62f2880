use aegisrlib::codec::EncryptedBlobCodec;
use aegisrlib::crypto::{decode_authorization_key, AegCrypto, AuthorizationKey};
use aegisrlib::errors::AegError;
use aegisrlib::jsonfmt::{parse_registry, parse_store, render_registry, render_store};
use aegisrlib::memory_engine::AegMemoryEngine;

fn test_key() -> AuthorizationKey {
    let text = AegCrypto::create_authorization_key().expect("randomness source");
    decode_authorization_key(&text).expect("fresh key decodes")
}

#[test]
fn encrypt_then_decrypt_returns_payload() {
    let key = test_key();
    let payload: Vec<u8> = vec![0, 1, 2, 3, 255, 128, 7, 42];
    let blob = EncryptedBlobCodec::encode(&payload, &key).unwrap();
    let decoded = EncryptedBlobCodec::decode(&blob, &key).unwrap();
    assert_eq!(decoded, payload);
}

#[test]
fn empty_payload_round_trips() {
    let key = test_key();
    let payload: Vec<u8> = Vec::new();
    let blob = EncryptedBlobCodec::encode(&payload, &key).unwrap();
    assert_eq!(EncryptedBlobCodec::decode(&blob, &key).unwrap(), payload);
}

#[test]
fn two_encodings_differ_but_both_decode() {
    // fresh random nonce per call: the same payload must not produce the
    // same blob twice
    let key = test_key();
    let payload: Vec<u8> = vec![9, 9, 9];
    let blob1 = EncryptedBlobCodec::encode(&payload, &key).unwrap();
    let blob2 = EncryptedBlobCodec::encode(&payload, &key).unwrap();
    assert_ne!(blob1, blob2);
    assert_eq!(EncryptedBlobCodec::decode(&blob1, &key).unwrap(), payload);
    assert_eq!(EncryptedBlobCodec::decode(&blob2, &key).unwrap(), payload);
}

#[test]
fn wrong_key_is_decryption_error() {
    let key = test_key();
    let other = test_key();
    let payload: Vec<u8> = vec![1, 2, 3];
    let blob = EncryptedBlobCodec::encode(&payload, &key).unwrap();
    assert_eq!(
        EncryptedBlobCodec::decode(&blob, &other).err(),
        Some(AegError::Decryption)
    );
}

#[test]
fn tampered_blob_is_decryption_error() {
    let key = test_key();
    let payload: Vec<u8> = vec![1, 2, 3, 4, 5];
    let blob = EncryptedBlobCodec::encode(&payload, &key).unwrap();

    // truncation
    let truncated: String = blob.chars().take(blob.chars().count() - 4).collect();
    assert!(EncryptedBlobCodec::decode(&truncated, &key).is_err());

    // mutation of one character
    let mut chars: Vec<char> = blob.chars().collect();
    let flipped = if chars[20] == 'A' { 'B' } else { 'A' };
    chars[20] = flipped;
    let mutated: String = chars.into_iter().collect();
    assert!(EncryptedBlobCodec::decode(&mutated, &key).is_err());

    // not base64 at all
    assert_eq!(
        EncryptedBlobCodec::decode("@@@@", &key).err(),
        Some(AegError::Decryption)
    );
}

#[test]
fn base64_wrapper_is_real_base64() {
    assert_eq!(AegCrypto::encode_base64(b"hello"), "aGVsbG8=");
    assert_eq!(AegCrypto::encode_base64(b""), "");
    // the decoder inverts the encoder: a known 32-byte value survives the
    // trip through the key file's text form
    let bytes = [7u8; 32];
    let text = AegCrypto::encode_base64(&bytes);
    let key = decode_authorization_key(&text).unwrap();
    assert_eq!(key.bytes, bytes.to_vec());
}

#[test]
fn random_bytes_have_requested_length() {
    let a = AegCrypto::generate_random_bytes(32).unwrap();
    let b = AegCrypto::generate_random_bytes(32).unwrap();
    assert_eq!(a.len(), 32);
    assert_eq!(b.len(), 32);
    assert_ne!(a, b);
}

#[test]
fn authorization_key_text_decodes_to_32_bytes() {
    let text = AegCrypto::create_authorization_key().unwrap();
    assert_eq!(text.len(), 44);
    let key = decode_authorization_key(&text).unwrap();
    assert_eq!(key.bytes.len(), 32);
}

#[test]
fn bad_key_text_is_key_decode_error() {
    assert_eq!(
        decode_authorization_key("not base64!").err(),
        Some(AegError::KeyDecode)
    );
    // valid base64, wrong decoded length
    assert_eq!(
        decode_authorization_key("aGVsbG8=").err(),
        Some(AegError::KeyDecode)
    );
}

#[test]
fn registry_document_has_canonical_form() {
    let collections = vec![String::from("default"), String::from("secondary")];
    let doc = render_registry("default", &collections);
    assert_eq!(
        doc,
        "{\"active\":\"default\",\"collections\":[\"default\",\"secondary\"]}"
    );
    let (active, cols) = parse_registry(&doc).unwrap();
    assert_eq!(active, "default");
    assert_eq!(cols, collections);
}

#[test]
fn store_document_has_canonical_form() {
    let entries = vec![
        (String::from("greeting"), String::from("hello world")),
        (String::from("role"), String::from("admin")),
    ];
    let doc = render_store("default", &entries);
    assert_eq!(
        doc,
        "{\"collection_name\":\"default\",\"store\":{\"greeting\":\"hello world\",\"role\":\"admin\"}}"
    );
    let (name, parsed) = parse_store(&doc).unwrap();
    assert_eq!(name, "default");
    assert_eq!(parsed, entries);
}

#[test]
fn awkward_characters_round_trip_through_document() {
    let entries = vec![
        (
            String::from("quote\"and\\slash"),
            String::from("line\nbreak\ttab"),
        ),
        (String::from("unicode \u{1F680} key"), String::from("\u{0001}\u{001f}")),
        (String::from(""), String::from("")),
    ];
    let doc = render_store("wei\"rd", &entries);
    let (name, parsed) = parse_store(&doc).unwrap();
    assert_eq!(name, "wei\"rd");
    assert_eq!(parsed, entries);
}

#[test]
fn empty_store_document_round_trips() {
    let entries: Vec<(String, String)> = Vec::new();
    let doc = render_store("default", &entries);
    assert_eq!(doc, "{\"collection_name\":\"default\",\"store\":{}}");
    let (name, parsed) = parse_store(&doc).unwrap();
    assert_eq!(name, "default");
    assert!(parsed.is_empty());
}

#[test]
fn non_canonical_documents_are_rejected() {
    assert!(parse_registry("{\"active\": \"a\",\"collections\":[\"a\"]}").is_none());
    assert!(parse_registry("").is_none());
    assert!(parse_store("{\"store\":{},\"collection_name\":\"x\"}").is_none());
}

#[test]
fn store_blob_reveals_flushed_key() {
    // the on-disk unit, inspected directly: decrypt and parse
    let key = test_key();
    let mut engine = AegMemoryEngine::new("default");
    engine.insert("greeting", "hello world");
    let (file, blob) = engine.save_to_disk(&key).unwrap();
    assert_eq!(file, "collection_default.aekv");
    let payload = EncryptedBlobCodec::decode(&blob, &key).unwrap();
    let text = String::from_utf8(payload).unwrap();
    let (name, entries) = parse_store(&text).unwrap();
    assert_eq!(name, "default");
    assert_eq!(entries.len(), 1);
    assert_eq!(entries[0].0, "greeting");
    assert_eq!(entries[0].1, "hello world");
}

#[test]
fn engine_reloads_from_its_own_blob() {
    let key = test_key();
    let mut engine = AegMemoryEngine::new("default");
    engine.insert("username", "harold");
    engine.insert("role", "admin");
    let (_file, blob) = engine.save_to_disk(&key).unwrap();
    let reloaded = AegMemoryEngine::load("default", Some(&blob), &key);
    assert_eq!(reloaded.get("username").unwrap(), "harold");
    assert_eq!(reloaded.get("role").unwrap(), "admin");
    assert!(reloaded.get("greeting").is_none());
}
