use oifs::encryption::{decrypt_data, derive_key, encrypt_data, generate_nonce, generate_salt, EncryptionError, EncryptionKey};

#[test]
fn test_key_derivation_deterministic() {
    let password = "test_password_123";
    let salt = [42u8; 16];

    let key1 = derive_key(password, &salt).unwrap();
    let key2 = derive_key(password, &salt).unwrap();

    // Same password + salt should derive same key
    assert_eq!(key1.as_bytes(), key2.as_bytes());
}

#[test]
fn test_key_derivation_different_salts() {
    let password = "test_password_123";
    let salt1 = [42u8; 16];
    let salt2 = [43u8; 16];

    let key1 = derive_key(password, &salt1).unwrap();
    let key2 = derive_key(password, &salt2).unwrap();

    // Different salts should derive different keys
    assert_ne!(key1.as_bytes(), key2.as_bytes());
}

#[test]
fn test_encrypt_decrypt_roundtrip() {
    let key = EncryptionKey::from_bytes([1u8; 32]);
    let nonce = [2u8; 24];
    let plaintext = b"Hello, encryption!";

    let ciphertext = encrypt_data(plaintext, &key, &nonce).unwrap();
    assert_ne!(ciphertext.as_slice(), plaintext); // Should be encrypted

    let decrypted = decrypt_data(&ciphertext, &key, &nonce).unwrap();
    assert_eq!(decrypted.as_slice(), plaintext);
}

#[test]
fn test_wrong_key_fails() {
    let key1 = EncryptionKey::from_bytes([1u8; 32]);
    let key2 = EncryptionKey::from_bytes([2u8; 32]);
    let nonce = [3u8; 24];
    let plaintext = b"Secret data";

    let ciphertext = encrypt_data(plaintext, &key1, &nonce).unwrap();

    // Decryption with wrong key should fail
    let result = decrypt_data(&ciphertext, &key2, &nonce);
    assert!(result.is_err());
}

#[test]
fn test_nonce_generation_unique() {
    let nonce1 = generate_nonce().unwrap();
    let nonce2 = generate_nonce().unwrap();

    // Very unlikely to generate same nonce twice
    assert_ne!(nonce1, nonce2);
}

#[test]
fn ciphertext_carries_a_tag() {
    let key = EncryptionKey::from_bytes([9u8; 32]);
    let nonce = [4u8; 24];
    let c = encrypt_data(b"abc", &key, &nonce).unwrap();
    assert_eq!(c.len(), 3 + 16);
}

#[test]
fn tampered_ciphertext_is_refused() {
    let key = EncryptionKey::from_bytes([9u8; 32]);
    let nonce = [4u8; 24];
    let mut c = encrypt_data(b"abc", &key, &nonce).unwrap();
    c[0] ^= 1;
    assert!(matches!(decrypt_data(&c, &key, &nonce), Err(EncryptionError::DecryptionFailed)));
}

#[test]
fn salts_are_random() {
    assert_ne!(generate_salt().unwrap(), generate_salt().unwrap());
}

#[test]
fn key_round_trips_bytes() {
    let bytes = [7u8; 32];
    assert_eq!(EncryptionKey::from_bytes(bytes).as_bytes(), bytes);
}

#[test]
fn key_debug_text_hides_the_bytes() {
    let key = EncryptionKey::from_bytes([7u8; 32]);
    assert_eq!(key.redacted(), "EncryptionKey([REDACTED])");
}
