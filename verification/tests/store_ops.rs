use aegisrlib::codec::EncryptedBlobCodec;
use aegisrlib::memory_engine::AegMemoryEngine;
use aegisrlib::crypto::{decode_authorization_key, AegCrypto, AuthorizationKey};
use aegisrlib::errors::AegError;
use aegisrlib::saver::SaverAction;
use aegisrlib::store::AegCore;

fn test_key() -> AuthorizationKey {
    let text = AegCrypto::create_authorization_key().expect("randomness source");
    decode_authorization_key(&text).expect("fresh key decodes")
}

#[test]
fn put_then_get_returns_value() {
    let mut core = AegCore::new_default();
    core.put_value("greeting", "hello world");
    assert_eq!(core.get_value("greeting").unwrap(), "hello world");

    core.put_value("greeting", "new value");
    assert_eq!(core.get_value("greeting").unwrap(), "new value");
}

#[test]
fn delete_then_get_is_absent() {
    let mut core = AegCore::new_default();
    core.put_value("greeting", "hello world");
    let existed = core.delete_value("greeting");
    assert!(existed);
    assert!(core.get_value("greeting").is_none());

    let existed_again = core.delete_value("greeting");
    assert!(!existed_again);
}

#[test]
fn clear_empties_every_key() {
    let mut core = AegCore::new_default();
    core.put_value("username", "harold");
    core.put_value("password", "super_secret");
    core.put_value("role", "admin");
    core.clear_values();
    assert!(core.get_value("username").is_none());
    assert!(core.get_value("password").is_none());
    assert!(core.get_value("role").is_none());
}

#[test]
fn collections_isolate_keys() {
    let mut core = AegCore::new_default();
    core.put_value("greeting", "hello world");
    core.create_collection("secondary").unwrap();
    core.set_active_collection("secondary").unwrap();
    assert!(core.get_value("greeting").is_none());
    core.put_value("session_token", "abcd1234");
    core.set_active_collection("default").unwrap();
    assert!(core.get_value("session_token").is_none());
    assert_eq!(core.get_value("greeting").unwrap(), "hello world");
}

#[test]
fn registry_invariants_hold() {
    let mut core = AegCore::new_default();
    assert_eq!(
        core.delete_collection("default"),
        Err(AegError::CannotDeleteLastCollection)
    );
    core.create_collection("secondary").unwrap();
    assert_eq!(
        core.create_collection("secondary"),
        Err(AegError::CollectionAlreadyExists)
    );
    assert_eq!(
        core.set_active_collection("missing"),
        Err(AegError::CollectionNotFound)
    );
    assert_eq!(core.get_active_collection(), "default");
    assert_eq!(
        core.delete_collection("missing"),
        Err(AegError::CollectionNotFound)
    );
}

#[test]
fn delete_active_falls_back_to_first() {
    let mut core = AegCore::new_default();
    core.create_collection("secondary").unwrap();
    core.set_active_collection("secondary").unwrap();
    core.delete_collection("secondary").unwrap();
    assert_eq!(core.get_active_collection(), "default");
}

#[test]
fn rename_moves_active_pointer_and_data() {
    let mut core = AegCore::new_default();
    core.put_value("greeting", "hello world");
    core.rename_collection("default", "primary").unwrap();
    assert_eq!(core.get_active_collection(), "primary");
    assert_eq!(core.get_value("greeting").unwrap(), "hello world");

    core.create_collection("other").unwrap();
    assert_eq!(
        core.rename_collection("primary", "other"),
        Err(AegError::CollectionAlreadyExists)
    );
    assert_eq!(
        core.rename_collection("missing", "fresh"),
        Err(AegError::CollectionNotFound)
    );
}

#[test]
fn saver_lifecycle_is_idempotent() {
    let mut core = AegCore::new_default();
    let first = core.start_background_saver(60);
    assert_eq!(
        first,
        SaverAction::Spawn {
            interval_seconds: 60
        }
    );
    let second = core.start_background_saver(60);
    assert_eq!(second, SaverAction::Stay);
    core.stop_background_saver();
    let third = core.start_background_saver(0);
    assert_eq!(
        third,
        SaverAction::Spawn {
            interval_seconds: 1
        }
    );
}

#[test]
fn stop_when_never_started_is_noop() {
    let mut core = AegCore::new_default();
    core.stop_background_saver();
    assert!(!core.saver.running);
    assert!(!core.saver.started);
}

#[test]
fn registry_save_load_round_trip() {
    let key = test_key();
    let mut core = AegCore::new_default();
    core.create_collection("secondary").unwrap();
    core.set_active_collection("secondary").unwrap();
    let blob = core.save(&key).unwrap();
    let reloaded = AegCore::load(Some(&blob), &key).unwrap();
    assert_eq!(reloaded.get_active_collection(), "secondary");
    assert_eq!(reloaded.collections.len(), 2);
    assert_eq!(reloaded.collections[0], "default");
    assert_eq!(reloaded.collections[1], "secondary");
}

#[test]
fn registry_load_without_blob_is_default() {
    let key = test_key();
    let core = AegCore::load(None, &key).unwrap();
    assert_eq!(core.get_active_collection(), "default");
    assert_eq!(core.collections.len(), 1);
}

#[test]
fn registry_load_with_wrong_key_is_fatal() {
    let key = test_key();
    let other = test_key();
    let core = AegCore::new_default();
    let blob = core.save(&key).unwrap();
    assert_eq!(
        AegCore::load(Some(&blob), &other).err(),
        Some(AegError::Decryption)
    );
}

#[test]
fn flush_then_reload_keeps_the_value() {
    let key = test_key();
    let mut core = AegCore::new_default();
    core.put_value("greeting", "hello world");
    let writes = core.flush_now(&key);
    assert_eq!(writes.len(), 1);
    let (file, outcome) = &writes[0];
    assert_eq!(file, "collection_default.aekv");
    let blob = outcome.as_ref().unwrap();

    // a fresh process image: nothing cached, the store comes from the blob
    let mut fresh = AegCore::new_default();
    fresh.install_store("default", Some(blob), &key);
    assert_eq!(fresh.get_value("greeting").unwrap(), "hello world");
}

#[test]
fn install_store_without_file_is_fresh_and_cached() {
    let key = test_key();
    let mut core = AegCore::new_default();
    core.install_store("default", None, &key);
    assert!(core.get_value("anything").is_none());
}

#[test]
fn corrupted_store_blob_degrades_to_empty() {
    let key = test_key();
    let mut core = AegCore::new_default();
    let garbled = String::from("not base64 at all!");
    core.install_store("default", Some(&garbled), &key);
    assert!(core.get_value("greeting").is_none());
}

#[test]
fn non_utf8_registry_payload_is_serialization_error() {
    let key = test_key();
    let not_text: Vec<u8> = vec![0xff, 0xfe, 0x00, 0x80];
    let blob = EncryptedBlobCodec::encode(&not_text, &key).unwrap();
    assert_eq!(
        AegCore::load(Some(&blob), &key).err(),
        Some(AegError::Serialization)
    );
}

#[test]
fn legacy_registry_blob_migrates_through_load() {
    let key = test_key();
    let legacy: Vec<u8> = "\"notes\"".bytes().collect();
    let blob = EncryptedBlobCodec::encode(&legacy, &key).unwrap();
    let core = AegCore::load(Some(&blob), &key).unwrap();
    assert_eq!(core.get_active_collection(), "notes");
    assert_eq!(core.collections.len(), 1);
}

#[test]
fn list_collections_reports_registry_order() {
    let mut core = AegCore::new_default();
    core.create_collection("secondary").unwrap();
    core.create_collection("archive").unwrap();
    assert_eq!(core.list_collections(), vec!["default", "secondary", "archive"]);
}

#[test]
fn engine_lists_its_entries() {
    let mut engine = AegMemoryEngine::new("default");
    engine.insert("username", "harold");
    engine.insert("role", "admin");
    let listed = engine.list();
    assert_eq!(listed.len(), 2);
    assert!(listed.contains(&(String::from("username"), String::from("harold"))));
    assert!(listed.contains(&(String::from("role"), String::from("admin"))));
    assert!(engine.delete("username"));
    assert!(!engine.delete("username"));
    engine.clear();
    assert!(engine.list().is_empty());
}

#[test]
fn legacy_registry_payload_migrates() {
    let migrated = AegCore::migrate_legacy_record("  \"notes\"  ");
    assert_eq!(migrated.get_active_collection(), "notes");
    assert_eq!(migrated.collections.len(), 1);
    assert_eq!(migrated.collections[0], "notes");

    // repeated surrounding quotes are all stripped; inner quotes stay
    let nested = AegCore::migrate_legacy_record("\t\"\"no\"tes\"\"\n");
    assert_eq!(nested.get_active_collection(), "no\"tes");

    // bare unquoted text is taken as the name
    let bare = AegCore::migrate_legacy_record("archive");
    assert_eq!(bare.get_active_collection(), "archive");
}
