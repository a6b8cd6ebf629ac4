use base64::prelude::BASE64_STANDARD;
use base64::Engine;
use pasta::crypto::{decrypt, decrypt_would_panic, encrypt, encrypt_with, try_decrypt, DecryptError};
use serde_json::Value;

fn content_json(content_type: Option<&str>, content: &str) -> Vec<u8> {
    let mut map = serde_json::Map::new();
    map.insert(
        "content_type".to_string(),
        match content_type {
            Some(t) => Value::String(t.to_string()),
            None => Value::Null,
        },
    );
    map.insert("content".to_string(), Value::String(content.to_string()));
    serde_json::to_vec(&Value::Object(map)).unwrap()
}

// content encoded from the web side
#[test]
fn from_web() {
    let password = "password";
    let encrypted = "MKW8K63HT9e2YUixkCR7RA==:HeznX7lggJYjAY9l:/NbVBddqxtnpke4cJAhkzrsTgKVE/Ll4txamNugIq5tSx9j8dk+Qj9rvN2SBzRAYRSNuiPaaG27kkOQjrkz/75DWpdUWy+tb2sp8mmXm6eZJ7T2Yjz9ZmVzePG+uDbIwB+xueD16K1QKEz1FfswDWI5oTd5eBVpVBNuJTiKzioOp";
    let decrypted = try_decrypt(encrypted, password).unwrap().unwrap().unwrap();
    let decrypted: Value = serde_json::from_slice(&decrypted).unwrap();

    let content = BASE64_STANDARD
        .decode(decrypted["content"].as_str().unwrap())
        .unwrap();
    let content = String::from_utf8(content).unwrap();

    assert_eq!(
        decrypted["content_type"].as_str().unwrap(),
        "text/plain; charset=utf-8"
    );
    assert_eq!(content, "This is a formerly-encrypted message! :D");
}

#[test]
fn roundtrip() {
    let password = "my_password_123!";
    let content = "some very secret string that nobody is allowed to know (except me)";

    let plain = content_json(Some("text/plain"), content);

    let encrypted = encrypt(&plain, password);

    let decrypted = decrypt(&encrypted, password).unwrap().unwrap();

    let plain: Value = serde_json::from_slice(&plain).unwrap();
    let decrypted: Value = serde_json::from_slice(&decrypted).unwrap();
    assert_eq!(plain, decrypted);
}

#[test]
fn roundtrip_invalid_password() {
    let password = "my_password_123!";
    let content = "some very secret string that nobody is allowed to know (except me)";

    let plain = content_json(Some("text/plain"), content);

    let encrypted = encrypt(&plain, password);

    let decrypted = decrypt(&encrypted, "my_password_124!").unwrap();

    assert_eq!(decrypted, None);
}

#[test]
fn encrypted_text_has_three_base64_sections() {
    let encrypted = encrypt(b"hello", "pw");
    let parts: Vec<&str> = encrypted.split(':').collect();
    assert_eq!(parts.len(), 3);
    assert_eq!(parts[0].len(), 24);
    assert_eq!(parts[1].len(), 16);
    assert_eq!(BASE64_STANDARD.decode(parts[0]).unwrap().len(), 16);
    assert_eq!(BASE64_STANDARD.decode(parts[1]).unwrap().len(), 12);
    // 5 bytes of plaintext and a 16 byte tag
    assert_eq!(BASE64_STANDARD.decode(parts[2]).unwrap().len(), 21);
}

#[test]
fn encrypt_with_is_deterministic_and_depends_on_salt() {
    let salt = [7u8; 16];
    let iv = [9u8; 12];
    let a = encrypt_with(b"data", "pw", &salt, &iv);
    let b = encrypt_with(b"data", "pw", &salt, &iv);
    assert_eq!(a, b);
    assert!(a.starts_with(&BASE64_STANDARD.encode(salt)));
    let other_salt = [8u8; 16];
    let c = encrypt_with(b"data", "pw", &other_salt, &iv);
    assert_ne!(a, c);
    // the cipher section is not the plaintext itself
    let cipher = a.rsplit(':').next().unwrap();
    assert_ne!(BASE64_STANDARD.decode(cipher).unwrap(), b"data".to_vec());
    assert_eq!(decrypt(&a, "pw").unwrap(), Some(b"data".to_vec()));
}

#[test]
fn empty_plaintext_roundtrips() {
    let encrypted = encrypt(b"", "");
    assert_eq!(decrypt(&encrypted, "").unwrap(), Some(Vec::new()));
}

#[test]
fn decrypt_rejects_missing_separators() {
    assert_eq!(decrypt("abc", "pw"), Err(DecryptError::InvalidFormat));
    assert_eq!(decrypt("abc:def", "pw"), Err(DecryptError::InvalidFormat));
    assert_eq!(DecryptError::InvalidFormat.message(), "Invalid content format");
}

#[test]
fn decrypt_rejects_bad_salt() {
    // not base64
    assert_eq!(
        decrypt("!!!!:HeznX7lggJYjAY9l:AAAA", "pw"),
        Err(DecryptError::InvalidSalt)
    );
    // base64 of more than 16 bytes
    let long_salt = BASE64_STANDARD.encode([1u8; 20]);
    assert_eq!(
        decrypt(&format!("{long_salt}:HeznX7lggJYjAY9l:AAAA"), "pw"),
        Err(DecryptError::InvalidSalt)
    );
    assert_eq!(DecryptError::InvalidSalt.message(), "Improperly formatted salt string");
}

#[test]
fn decrypt_rejects_bad_iv_and_cipher() {
    let salt = BASE64_STANDARD.encode([1u8; 16]);
    let iv = BASE64_STANDARD.encode([2u8; 12]);
    assert_eq!(
        decrypt(&format!("{salt}:@@@@:AAAA"), "pw"),
        Err(DecryptError::InvalidIv)
    );
    assert_eq!(
        decrypt(&format!("{salt}:{iv}:***"), "pw"),
        Err(DecryptError::InvalidCipher)
    );
    // a cipher shorter than a tag does not authenticate
    assert_eq!(decrypt(&format!("{salt}:{iv}:AAAA"), "pw"), Ok(None));
    assert_eq!(DecryptError::InvalidIv.message(), "Improperly formatted iv string");
    assert_eq!(DecryptError::InvalidCipher.message(), "Improperly formatted cipher string");
}

#[test]
fn short_salt_or_iv_is_refused_by_try_decrypt() {
    let short_salt = BASE64_STANDARD.encode([1u8; 3]);
    let iv = BASE64_STANDARD.encode([2u8; 12]);
    let text = format!("{short_salt}:{iv}:AAAA");
    assert!(decrypt_would_panic(&text));
    assert!(try_decrypt(&text, "pw").is_none());

    let salt = BASE64_STANDARD.encode([1u8; 16]);
    let short_iv = BASE64_STANDARD.encode([2u8; 6]);
    let text = format!("{salt}:{short_iv}:AAAA");
    assert!(decrypt_would_panic(&text));
    assert!(try_decrypt(&text, "pw").is_none());

    let good = format!("{salt}:{iv}:AAAA");
    assert!(!decrypt_would_panic(&good));
    assert_eq!(try_decrypt(&good, "pw"), Some(Ok(None)));
}
