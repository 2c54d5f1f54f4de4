use base64::Engine;
use secrets_vault::encryption::encrypt;
use secrets_vault::error::VaultError;
use secrets_vault::keys::{decode_master_key, KeySource, MasterKey};
use secrets_vault::vault::{
    validate_secret_key, NamedHistory, SecretEntry, SecretVault, VaultData,
};

fn new_vault(key_byte: u8) -> SecretVault {
    let key = vec![key_byte; 32];
    let master_key = MasterKey::new(key).unwrap();
    SecretVault::new(master_key, VaultData::default()).unwrap()
}

fn opaque_entry(version: u32) -> SecretEntry {
    SecretEntry { encrypted_value: vec![0u8; 28], version, created_at: 0 }
}

#[test]
fn test_vault_builder() {
    let key = vec![42u8; 32];

    let builder = SecretVault::builder()
        .master_key(KeySource::Bytes(key))
        .vault_path("test.vault");

    let vault = match builder.master_key {
        Some(KeySource::Bytes(bytes)) => MasterKey::new(bytes)
            .and_then(|master_key| SecretVault::new(master_key, VaultData::default())),
        _ => unreachable!(),
    };

    assert!(vault.is_ok());
}

#[test]
fn test_get_version() {
    let mut vault = new_vault(42);

    vault.set("test", b"value1").unwrap();
    vault.set("test", b"value2").unwrap();
    vault.set("test", b"value3").unwrap();

    let v1 = vault.get_version("test", 1).unwrap().unwrap();
    let v2 = vault.get_version("test", 2).unwrap().unwrap();
    let v3 = vault.get_version("test", 3).unwrap().unwrap();

    assert_eq!(v1, b"value1");
    assert_eq!(v2, b"value2");
    assert_eq!(v3, b"value3");
}

#[test]
fn test_list_keys() {
    let mut vault = new_vault(42);

    vault.set("key1", b"value1").unwrap();
    vault.set("key2", b"value2").unwrap();
    vault.set("key3", b"value3").unwrap();

    let mut keys = vault.list_keys();
    keys.sort();

    assert_eq!(keys, vec!["key1", "key2", "key3"]);
}

#[test]
fn test_version_monotonicity() {
    let mut vault = new_vault(42);
    for i in 1..=5u32 {
        vault.set("name", format!("value{}", i).as_bytes()).unwrap();
    }
    assert_eq!(vault.list_versions("name").unwrap(), vec![1, 2, 3, 4, 5]);
    assert_eq!(vault.get("name").unwrap().unwrap(), b"value5");
    assert_eq!(vault.list_versions("absent").unwrap(), Vec::<u32>::new());
}

#[test]
fn test_example_scenario() {
    let mut vault = new_vault(42);
    vault.set("k", b"v1").unwrap();
    assert_eq!(vault.list_versions("k").unwrap(), vec![1]);
    vault.set("k", b"v2").unwrap();
    assert_eq!(vault.list_versions("k").unwrap(), vec![1, 2]);
    assert_eq!(vault.get("k").unwrap().unwrap(), b"v2");
    assert_eq!(vault.get_version("k", 1).unwrap().unwrap(), b"v1");

    let new_key = MasterKey::new(vec![43u8; 32]).unwrap();
    vault.rotate(new_key).unwrap();

    assert_eq!(vault.get("k").unwrap().unwrap(), b"v2");
    assert_eq!(vault.get_version("k", 1).unwrap().unwrap(), b"v1");
}

#[test]
fn test_rotation_all_versions() {
    let mut vault = new_vault(1);
    for name in ["s1", "s2", "s3"] {
        for ver in 1..=3u32 {
            vault.set(name, format!("{}-{}", name, ver).as_bytes()).unwrap();
        }
    }

    vault.rotate(MasterKey::new(vec![2u8; 32]).unwrap()).unwrap();

    for name in ["s1", "s2", "s3"] {
        assert_eq!(vault.list_versions(name).unwrap(), vec![1, 2, 3]);
        for ver in 1..=3u32 {
            assert_eq!(
                vault.get_version(name, ver).unwrap().unwrap(),
                format!("{}-{}", name, ver).as_bytes()
            );
        }
    }
}

#[test]
fn test_rotation_atomicity() {
    let master_key = MasterKey::new(vec![5u8; 32]).unwrap();
    let good_env = encrypt(&[5u8; 32], b"good value").unwrap();
    let data = VaultData {
        secrets: vec![
            NamedHistory {
                name: "good".to_string(),
                entries: vec![SecretEntry { encrypted_value: good_env, version: 1, created_at: 0 }],
            },
            NamedHistory { name: "bad".to_string(), entries: vec![opaque_entry(1)] },
        ],
    };
    let mut vault = SecretVault::new(master_key, data).unwrap();

    let result = vault.rotate(MasterKey::new(vec![6u8; 32]).unwrap());
    match result {
        Err(VaultError::DecryptionFailed(name)) => assert_eq!(name, "bad"),
        other => panic!("expected DecryptionFailed, got {:?}", other),
    }

    // the vault is unchanged: the good entry still decrypts under the old key
    assert_eq!(vault.get("good").unwrap().unwrap(), b"good value");
    assert_eq!(vault.list_versions("bad").unwrap(), vec![1]);
}

#[test]
fn test_delete_semantics() {
    let mut vault = new_vault(42);
    vault.set("name", b"value").unwrap();
    vault.delete("name").unwrap();
    assert!(vault.get("name").unwrap().is_none());
    assert!(vault.list_versions("name").unwrap().is_empty());
    vault.delete("missing").unwrap();
}

#[test]
fn test_validate_secret_key() {
    assert!(validate_secret_key("ok").is_ok());
    assert!(matches!(validate_secret_key(""), Err(VaultError::InvalidSecretKey(_))));
    assert!(matches!(validate_secret_key("a\0b"), Err(VaultError::InvalidSecretKey(_))));
    let too_long = "x".repeat(257);
    assert!(matches!(validate_secret_key(&too_long), Err(VaultError::InvalidSecretKey(_))));
    let at_limit = "x".repeat(256);
    assert!(validate_secret_key(&at_limit).is_ok());
}

#[test]
fn test_set_invalid_name() {
    let mut vault = new_vault(42);
    let result = vault.set("", b"value");
    assert!(matches!(result, Err(VaultError::InvalidSecretKey(_))));
    assert!(vault.list_keys().is_empty());
}

#[test]
fn test_master_key_size() {
    assert!(matches!(
        MasterKey::new(vec![1u8; 31]),
        Err(VaultError::InvalidKeySize { expected: 32, found: 31 })
    ));
    assert!(MasterKey::new(vec![1u8; 32]).is_ok());
}

#[test]
fn test_master_key_wipe() {
    let mut master_key = MasterKey::new(vec![9u8; 32]).unwrap();
    assert_eq!(master_key.as_bytes().len(), 32);
    master_key.wipe();
    assert!(master_key.as_bytes().is_empty());
    assert!(matches!(
        SecretVault::new(master_key, VaultData::default()),
        Err(VaultError::InvalidKeySize { .. })
    ));
}

#[test]
fn test_decode_master_key() {
    let key_bytes = vec![1u8; 32];
    let text = base64::engine::general_purpose::STANDARD.encode(&key_bytes);
    let master_key = decode_master_key(&text).unwrap();
    assert_eq!(master_key.as_bytes(), &key_bytes[..]);

    assert!(matches!(
        decode_master_key("!!not base64!!"),
        Err(VaultError::KeyLoadError(_))
    ));

    let short = base64::engine::general_purpose::STANDARD.encode([1u8; 16]);
    assert!(matches!(decode_master_key(&short), Err(VaultError::InvalidKeySize { .. })));
}

#[test]
fn test_malformed_data_rejected() {
    let duplicate_names = VaultData {
        secrets: vec![
            NamedHistory { name: "a".to_string(), entries: vec![opaque_entry(1)] },
            NamedHistory { name: "a".to_string(), entries: vec![opaque_entry(1)] },
        ],
    };
    assert!(matches!(
        SecretVault::new(MasterKey::new(vec![3u8; 32]).unwrap(), duplicate_names),
        Err(VaultError::InvalidDataFormat(_))
    ));

    let empty_history = VaultData {
        secrets: vec![NamedHistory { name: "a".to_string(), entries: vec![] }],
    };
    assert!(matches!(
        SecretVault::new(MasterKey::new(vec![3u8; 32]).unwrap(), empty_history),
        Err(VaultError::InvalidDataFormat(_))
    ));

    let bad_versions = VaultData {
        secrets: vec![NamedHistory {
            name: "a".to_string(),
            entries: vec![opaque_entry(2), opaque_entry(1)],
        }],
    };
    assert!(matches!(
        SecretVault::new(MasterKey::new(vec![3u8; 32]).unwrap(), bad_versions),
        Err(VaultError::InvalidDataFormat(_))
    ));

    let zero_version = VaultData {
        secrets: vec![NamedHistory { name: "a".to_string(), entries: vec![opaque_entry(0)] }],
    };
    assert!(matches!(
        SecretVault::new(MasterKey::new(vec![3u8; 32]).unwrap(), zero_version),
        Err(VaultError::InvalidDataFormat(_))
    ));
}

#[test]
fn test_get_missing_secret() {
    let vault = new_vault(42);
    assert!(vault.get("nothing").unwrap().is_none());
    assert!(vault.get_version("nothing", 1).unwrap().is_none());
    let mut vault = new_vault(42);
    vault.set("present", b"x").unwrap();
    assert!(vault.get_version("present", 9).unwrap().is_none());
}
