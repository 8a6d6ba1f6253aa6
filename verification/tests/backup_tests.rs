//! Backup and restore: round trips, large stores, sidecar passphrase
//! rotation, tamper detection, and the policy gate.

use cryptkv::config::StorageConfig;
use cryptkv::errors::StorageError;
use cryptkv::policy::PasswordPolicyConfig;
use cryptkv::storage::Storage;

fn permissive_policy() -> PasswordPolicyConfig {
    PasswordPolicyConfig {
        min_length: 1,
        min_number_of_special_chars: 0,
        min_number_of_uppercase: 0,
        min_number_of_digits: 0,
    }
}

fn plain_store(path: &str) -> Result<(StorageConfig, Storage), StorageError> {
    let config = StorageConfig {
        path: path.to_string(),
        password: None,
    };
    let storage = Storage::new_with_policy(&config, Some(permissive_policy()))?;
    Ok((config, storage))
}

#[test]
fn test_backup() -> Result<(), StorageError> {
    let password = "password".to_string();
    let (_, mut store) = plain_store("backup_src.db")?;
    store.write("test1", "test_value1")?;
    store.write("test2", "test_value2")?;
    let (backup_bytes, sidecar) = store.backup(&password)?;
    assert!(!backup_bytes.is_empty());
    assert!(!sidecar.is_empty());
    Ok(())
}

#[test]
fn test_restore_backup() -> Result<(), StorageError> {
    let password = "password".to_string();
    let (config, mut store) = plain_store("restore_src.db")?;
    store.write("test1", "test_value1")?;
    store.write("test2", "test_value2")?;
    let (backup_bytes, sidecar) = store.backup(&password)?;

    drop(store);
    let mut store = Storage::new_with_policy(&config, Some(permissive_policy()))?;
    store.restore_backup(&backup_bytes, &sidecar, &password)?;

    assert_eq!(store.read("test1")?, Some("test_value1".to_string()));
    assert_eq!(store.read("test2")?, Some("test_value2".to_string()));
    Ok(())
}

#[test]
fn test_more_than_1000_values_to_backup() -> Result<(), StorageError> {
    let quantity = 1500;
    let password = "password".to_string();
    let (config, mut store) = plain_store("restore_large.db")?;
    for i in 0..quantity {
        store.write(&format!("test{}", i), &format!("test_value{}", i))?;
    }
    let (backup_bytes, sidecar) = store.backup(&password)?;
    assert!(!backup_bytes.is_empty());

    drop(store);
    let mut store = Storage::new_with_policy(&config, Some(permissive_policy()))?;
    store.restore_backup(&backup_bytes, &sidecar, &password)?;

    for i in 0..quantity {
        assert_eq!(
            store.read(&format!("test{}", i))?,
            Some(format!("test_value{}", i).to_string())
        );
    }
    Ok(())
}

#[test]
fn test_change_backup_password() -> Result<(), StorageError> {
    let password = "password".to_string();
    let new_password = "new_password".to_string();
    let (config, mut store) = plain_store("rotate_sidecar.db")?;

    store.write("test1", "test_value1")?;
    let (backup_bytes, sidecar) = store.backup(&password)?;
    let sidecar = store.change_backup_password(&sidecar, &password, &new_password)?;
    drop(store);

    let mut store = Storage::new_with_policy(&config, Some(permissive_policy()))?;
    store.restore_backup(&backup_bytes, &sidecar, &new_password)?;

    assert_eq!(store.read("test1")?, Some("test_value1".to_string()));
    Ok(())
}

#[test]
fn encrypted_backup_preserves_envelopes() -> Result<(), StorageError> {
    // Backing up an encrypted store exports the stored envelopes verbatim;
    // restoring into a store opened with the same passphrase reads them back.
    let password = "password".to_string();
    let config = StorageConfig {
        path: "backup_encrypted.db".to_string(),
        password: Some(password.clone()),
    };
    let mut store = Storage::new_with_policy(&config, Some(permissive_policy()))?;
    store.write("k1", "v1")?;
    store.write("k2", "v2")?;
    let (backup_bytes, sidecar) = store.backup(&password)?;
    let entries = store.engine.snapshot();
    drop(store);

    // A fresh encrypted database must reuse the same wrapped key for its
    // envelopes to stay readable, so reopen over the exported entries first.
    let mut target = Storage::open_with_policy(&config, Some(permissive_policy()), entries)?;
    target.delete("k1")?;
    target.delete("k2")?;
    assert_eq!(target.read("k1")?, None);
    target.restore_backup(&backup_bytes, &sidecar, &password)?;
    assert_eq!(target.read("k1")?, Some("v1".to_string()));
    assert_eq!(target.read("k2")?, Some("v2".to_string()));
    Ok(())
}

#[test]
fn backup_tampering_is_detected() -> Result<(), StorageError> {
    let password = "password".to_string();
    let (config, mut store) = plain_store("tamper_src.db")?;
    store.write("test1", "test_value1")?;
    let (backup_bytes, sidecar) = store.backup(&password)?;
    drop(store);

    let mut target = Storage::new_with_policy(&config, Some(permissive_policy()))?;

    let mut bad_backup = backup_bytes.clone();
    let mid = bad_backup.len() / 2;
    bad_backup[mid] ^= 1;
    let r = target.restore_backup(&bad_backup, &sidecar, &password);
    assert!(matches!(
        r,
        Err(StorageError::FailedToDecryptData) | Err(StorageError::WrongPassword)
    ));
    assert_eq!(target.read("test1")?, None);

    let mut bad_sidecar = sidecar.clone();
    let mid = bad_sidecar.len() / 2;
    bad_sidecar[mid] ^= 1;
    let r = target.restore_backup(&backup_bytes, &bad_sidecar, &password);
    assert!(matches!(
        r,
        Err(StorageError::FailedToDecryptData) | Err(StorageError::WrongPassword)
    ));
    assert_eq!(target.read("test1")?, None);
    Ok(())
}

#[test]
fn backup_with_weak_password_is_rejected() -> Result<(), StorageError> {
    let config = StorageConfig {
        path: "backup_weak.db".to_string(),
        password: None,
    };
    let mut store = Storage::new(&config)?;
    store.write("test1", "test_value1")?;
    let r = store.backup("password");
    assert!(matches!(r, Err(StorageError::WeakPassword(_))));
    Ok(())
}

#[test]
fn backup_skips_reserved_entry() -> Result<(), StorageError> {
    let password = "backup_password".to_string();
    let config = StorageConfig {
        path: "backup_reserved.db".to_string(),
        password: Some("store_password".to_string()),
    };
    let mut store = Storage::new_with_policy(&config, Some(permissive_policy()))?;
    store.write("k", "v")?;
    let (backup_bytes, sidecar) = store.backup(&password)?;
    drop(store);

    // Restored into a plaintext store, only the user entry arrives; the
    // source's wrapped key entry was not exported.
    let plain_config = StorageConfig {
        path: "backup_reserved_target.db".to_string(),
        password: None,
    };
    let mut target = Storage::new_with_policy(&plain_config, Some(permissive_policy()))?;
    target.restore_backup(&backup_bytes, &sidecar, &password)?;
    let keys = target.keys()?;
    assert_eq!(keys, vec!["k".to_string()]);
    assert!(!target.has_key("DEK")?);
    Ok(())
}

#[test]
fn crafted_sidecar_is_rejected_not_panicking() -> Result<(), StorageError> {
    // A container whose declared payload length dwarfs the container itself
    // must be rejected as not verifying, before any buffer is sized by it.
    let password = "password".to_string();
    let (_, mut store) = plain_store("crafted_sidecar.db")?;
    store.write("test1", "test_value1")?;
    let (backup_bytes, _) = store.backup(&password)?;

    let huge_length_sidecar = vec![0xFF; 60];
    let r = store.restore_backup(&backup_bytes, &huge_length_sidecar, &password);
    assert!(matches!(r, Err(StorageError::WrongPassword)));

    let short_sidecar = vec![1, 2, 3];
    let r = store.restore_backup(&backup_bytes, &short_sidecar, &password);
    assert!(matches!(r, Err(StorageError::WrongPassword)));

    assert_eq!(store.read("test1")?, Some("test_value1".to_string()));
    Ok(())
}
