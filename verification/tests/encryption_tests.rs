use secrets_vault::encryption::{decrypt, encrypt, NONCE_SIZE};
use secrets_vault::error::VaultError;

#[test]
fn test_encrypt_decrypt() {
    let key = [42u8; 32];
    let plaintext = b"Hello, world!";

    let encrypted = encrypt(&key, plaintext).unwrap();
    assert_ne!(&encrypted[NONCE_SIZE..], plaintext);

    let decrypted = decrypt(&key, &encrypted).unwrap();
    assert_eq!(decrypted, plaintext);
}

#[test]
fn test_invalid_key_size() {
    let key = [42u8; 31];
    let plaintext = b"Hello";
    let result = encrypt(&key, plaintext);
    assert!(matches!(result, Err(VaultError::InvalidKeySize { .. })));
}

#[test]
fn test_invalid_data_format() {
    let key = [42u8; 32];
    let short_data = vec![0u8; 5];
    let result = decrypt(&key, &short_data);
    assert!(matches!(result, Err(VaultError::InvalidDataFormat(_))));
}

#[test]
fn test_wrong_key_decryption() {
    let key1 = [42u8; 32];
    let key2 = [43u8; 32];
    let plaintext = b"Secret message";

    let encrypted = encrypt(&key1, plaintext).unwrap();
    let result = decrypt(&key2, &encrypted);
    assert!(matches!(result, Err(VaultError::DecryptionFailed(_))));
}

#[test]
fn test_nonce_uniqueness() {
    let key = [7u8; 32];
    let plaintext = b"same plaintext";

    let first = encrypt(&key, plaintext).unwrap();
    let second = encrypt(&key, plaintext).unwrap();
    assert_ne!(first, second);

    assert_eq!(decrypt(&key, &first).unwrap(), plaintext);
    assert_eq!(decrypt(&key, &second).unwrap(), plaintext);
}

#[test]
fn test_tamper_detection() {
    let key = [9u8; 32];
    let plaintext = b"v";
    let envelope = encrypt(&key, plaintext).unwrap();

    for byte_idx in NONCE_SIZE..envelope.len() {
        for bit in 0..8u8 {
            let mut tampered = envelope.clone();
            tampered[byte_idx] ^= 1u8 << bit;
            let result = decrypt(&key, &tampered);
            assert!(matches!(result, Err(VaultError::DecryptionFailed(_))));
        }
    }
}

#[test]
fn test_empty_plaintext_round_trip() {
    let key = [1u8; 32];
    let envelope = encrypt(&key, b"").unwrap();
    assert_eq!(envelope.len(), NONCE_SIZE + 16);
    assert_eq!(decrypt(&key, &envelope).unwrap(), b"");
}
