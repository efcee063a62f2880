use aegisrlib::crypto::{decode_authorization_key, AegCrypto, AuthorizationKey};
use aegisrlib::store::AegCore;

fn test_key() -> AuthorizationKey {
    let text = AegCrypto::create_authorization_key().expect("randomness source");
    decode_authorization_key(&text).expect("fresh key decodes")
}

#[test]
fn e2e_test() {
    let key = test_key();
    let mut engine: AegCore = AegCore::load(None, &key).unwrap();

    assert!(!engine.collections.is_empty());
    assert!(!engine.active_collection.is_empty());

    let registry_blob = engine.save(&key).unwrap();
    assert!(!registry_blob.is_empty());

    engine.start_background_saver(60);

    engine.put_value("greeting", "hello world");
    assert_eq!(engine.get_value("greeting").unwrap(), "hello world");

    engine.put_value("greeting", "new value");
    assert_eq!(engine.get_value("greeting").unwrap(), "new value");

    engine.delete_value("greeting");
    assert!(engine.get_value("greeting").is_none());

    engine.put_value("username", "harold");
    engine.put_value("password", "super_secret");
    engine.put_value("role", "admin");

    assert_eq!(engine.get_value("username").unwrap(), "harold");
    assert_eq!(engine.get_value("password").unwrap(), "super_secret");
    assert_eq!(engine.get_value("role").unwrap(), "admin");

    engine.clear_values();
    assert!(engine.get_value("username").is_none());

    let new_collection = "secondary";
    engine.create_collection(new_collection).unwrap();
    engine.set_active_collection(new_collection).unwrap();

    engine.put_value("session_token", "abcd1234");
    engine.put_value("user_email", "harold@example.com");

    assert_eq!(engine.get_value("session_token").unwrap(), "abcd1234");
    assert_eq!(engine.get_value("user_email").unwrap(), "harold@example.com");

    engine.set_active_collection("default").unwrap();
    assert!(engine.get_value("username").is_none());

    engine.save(&key).unwrap();
    engine.stop_background_saver();
    engine.flush_now(&key);
}
