//! The storage facade end to end: point operations, prefix scans,
//! transactions, encryption, and reopening over exported entries.

use cryptkv::config::StorageConfig;
use cryptkv::errors::{NotFoundWhat, StorageError};
use cryptkv::policy::PasswordPolicyConfig;
use cryptkv::storage::Storage;

fn permissive_policy() -> PasswordPolicyConfig {
    PasswordPolicyConfig {
        min_length: 1,
        min_number_of_special_chars: 0,
        min_number_of_uppercase: 0,
        min_number_of_digits: 0,
    }
}

fn create_path_and_storage(
    is_encrypted: bool,
) -> Result<(String, StorageConfig, Storage), StorageError> {
    let path = "storage_test.db".to_string();
    let password = if is_encrypted {
        Some("password".to_string())
    } else {
        None
    };
    let config = StorageConfig {
        path: path.clone(),
        password,
    };
    let storage = Storage::new_with_policy(&config, Some(permissive_policy()))?;
    Ok((path, config, storage))
}

#[test]
fn test_new_storage_starts_empty() -> Result<(), StorageError> {
    let (_, _, store) = create_path_and_storage(false)?;
    assert!(store.is_empty());
    Ok(())
}

#[test]
fn test_add_value_to_storage() -> Result<(), StorageError> {
    let (_, _, mut store) = create_path_and_storage(false)?;
    store.write("test", "test_value")?;
    assert_eq!(store.read("test").unwrap(), Some("test_value".to_string()));
    Ok(())
}

#[test]
fn test_read_a_value() -> Result<(), StorageError> {
    let (_, _, mut store) = create_path_and_storage(false)?;
    store.write("test", "test_value")?;
    assert_eq!(store.read("test")?, Some("test_value".to_string()));
    Ok(())
}

#[test]
fn test_delete_value() -> Result<(), StorageError> {
    let (_, _, mut store) = create_path_and_storage(false)?;
    store.write("test", "test_value")?;
    assert_eq!(store.read("test")?, Some("test_value".to_string()));
    store.delete("test")?;
    assert_eq!(store.read("test")?, None);
    Ok(())
}

#[test]
fn test_find_multiple_answers() -> Result<(), StorageError> {
    let (_, _, mut store) = create_path_and_storage(false)?;
    store.write("test1", "test_value1")?;
    store.write("test2", "test_value2")?;
    store.write("test3", "test_value3")?;
    store.write("tes4", "test_value4")?;

    let result = store.partial_compare("test")?;
    assert_eq!(
        result,
        vec![
            ("test1".to_string(), "test_value1".to_string()),
            ("test2".to_string(), "test_value2".to_string()),
            ("test3".to_string(), "test_value3".to_string())
        ]
    );
    Ok(())
}

#[test]
fn test_partial_compare_keys_exact() -> Result<(), StorageError> {
    let (_, _, mut store) = create_path_and_storage(false)?;
    store.write("test1", "test_value1")?;
    store.write("test2", "test_value2")?;
    store.write("test3", "test_value3")?;
    store.write("tes4", "test_value4")?;

    let keys = store.partial_compare_keys("test")?;
    assert_eq!(
        keys,
        vec![
            "test1".to_string(),
            "test2".to_string(),
            "test3".to_string()
        ]
    );
    Ok(())
}

#[test]
fn test_has_key() -> Result<(), StorageError> {
    let (_, _, mut store) = create_path_and_storage(false)?;
    store.write("test1", "test_value1")?;
    assert!(store.has_key("test1")?);
    assert!(!store.has_key("test2")?);
    Ok(())
}

#[test]
fn test_open_storage() -> Result<(), StorageError> {
    let (_, config, mut store) = create_path_and_storage(false)?;
    store.write("test1", "test_value1")?;
    let entries = store.engine.snapshot();
    drop(store);

    let open_store = Storage::open(&config, entries);
    assert!(open_store.is_ok());
    assert_eq!(
        open_store.as_ref().unwrap().read("test1")?,
        Some("test_value1".to_string())
    );
    Ok(())
}

#[test]
fn test_open_inexistent_storage() -> Result<(), StorageError> {
    // Nothing was ever persisted, so the store opens over no entries; with a
    // passphrase this would create one, and the default policy rejects it.
    let config = StorageConfig {
        path: "storage_missing.db".to_string(),
        password: Some("password".to_string()),
    };
    let open_store = Storage::open(&config, Vec::new());
    assert!(open_store.is_err());
    Ok(())
}

#[test]
fn test_keys() -> Result<(), StorageError> {
    let (_, _, mut store) = create_path_and_storage(false)?;
    store.write("test1", "test_value1")?;
    store.write("test2", "test_value2")?;
    store.write("test3", "test_value3")?;
    store.write("tes4", "test_value4")?;

    let keys = store.keys()?;
    assert_eq!(keys.len(), 4);
    assert!(keys.contains(&"test1".to_string()));
    assert!(keys.contains(&"test2".to_string()));
    assert!(keys.contains(&"test3".to_string()));
    assert!(keys.contains(&"tes4".to_string()));
    Ok(())
}

#[test]
fn test_transaction_commit() -> Result<(), StorageError> {
    let (_, _, mut store) = create_path_and_storage(false)?;
    let transaction_id = store.begin_transaction();
    store.transactional_write("test1", "test_value1", transaction_id)?;
    store.transactional_write("test2", "test_value2", transaction_id)?;
    store.commit_transaction(transaction_id)?;

    assert_eq!(store.read("test1")?, Some("test_value1".to_string()));
    assert_eq!(store.read("test2")?, Some("test_value2".to_string()));
    assert_eq!(store.read("test3")?, None);
    Ok(())
}

#[test]
fn test_transaction_rollback() -> Result<(), StorageError> {
    let (_, _, mut store) = create_path_and_storage(false)?;
    let transaction_id = store.begin_transaction();
    store.transactional_write("test1", "test_value1", transaction_id)?;
    store.transactional_write("test2", "test_value2", transaction_id)?;
    store.rollback_transaction(transaction_id)?;

    assert_eq!(store.read("test1")?, None);
    assert_eq!(store.read("test2")?, None);
    Ok(())
}

#[test]
fn test_transactional_delete() -> Result<(), StorageError> {
    let (_, _, mut store) = create_path_and_storage(false)?;
    store.write("test1", "test_value1")?;
    let transaction_id = store.begin_transaction();
    store.transactional_delete("test1", transaction_id).unwrap();
    store.commit_transaction(transaction_id).unwrap();

    assert_eq!(store.read("test1").unwrap(), None);
    Ok(())
}

#[test]
fn test_non_commited_transactions_should_not_appear() -> Result<(), StorageError> {
    let (_, _, mut store) = create_path_and_storage(false)?;
    let transaction_id = store.begin_transaction();
    store
        .transactional_write("test1", "test_value1", transaction_id)
        .unwrap();
    store
        .transactional_write("test2", "test_value2", transaction_id)
        .unwrap();
    store.commit_transaction(transaction_id).unwrap();

    let second_transaction_id = store.begin_transaction();
    store
        .transactional_write("test3", "test_value3", second_transaction_id)
        .unwrap();

    assert_eq!(store.read("test1").unwrap(), Some("test_value1".to_string()));
    assert_eq!(store.read("test2").unwrap(), Some("test_value2".to_string()));
    assert_eq!(store.read("test3").unwrap(), None);
    store.rollback_transaction(second_transaction_id).unwrap();
    Ok(())
}

#[test]
fn test_encrypt_and_decrypt() -> Result<(), StorageError> {
    let (_, _, mut store) = create_path_and_storage(true)?;
    let encoded1 = serde_json::to_string(&"test_value1").unwrap();
    store.write("test1", &encoded1)?;
    let data = store.read("test1")?;
    assert!(data.is_some());
    let decoded1: String = serde_json::from_str(&data.unwrap()).unwrap();
    assert_eq!(decoded1, "test_value1");

    let encoded2 = serde_json::to_string(&"test_value2").unwrap();
    store.write("test1", &encoded2)?;
    let data = store.read("test1")?;
    assert!(data.is_some());
    let decoded2: String = serde_json::from_str(&data.unwrap()).unwrap();
    assert_eq!(decoded2, "test_value2");
    Ok(())
}

#[test]
fn test_change_password() -> Result<(), StorageError> {
    let (path, _, mut store) = create_path_and_storage(true)?;
    store.write("test1", "test_value1")?;

    store.change_password("password".to_string(), "new_password".to_string())?;

    let entries = store.engine.snapshot();
    drop(store);

    let store = Storage::open_with_policy(
        &StorageConfig {
            path,
            password: Some("new_password".to_string()),
        },
        Some(permissive_policy()),
        entries,
    )?;

    assert_eq!(store.read("test1")?, Some("test_value1".to_string()));
    Ok(())
}

#[test]
fn scenario_tx_rollback() -> Result<(), StorageError> {
    let (_, _, mut store) = create_path_and_storage(false)?;
    let h = store.begin_transaction();
    store.transactional_write("test1", "v1", h)?;
    store.transactional_write("test2", "v2", h)?;
    store.rollback_transaction(h)?;
    assert_eq!(store.read("test1")?, None);
    assert_eq!(store.read("test2")?, None);
    Ok(())
}

#[test]
fn scenario_tx_isolation() -> Result<(), StorageError> {
    let (_, _, mut store) = create_path_and_storage(false)?;
    let h1 = store.begin_transaction();
    store.transactional_write("a", "1", h1)?;
    store.commit_transaction(h1)?;
    let h2 = store.begin_transaction();
    store.transactional_write("b", "2", h2)?;
    assert_eq!(store.read("a")?, Some("1".to_string()));
    assert_eq!(store.read("b")?, None);
    store.rollback_transaction(h2)?;
    assert_eq!(store.read("b")?, None);
    Ok(())
}

#[test]
fn scenario_encrypted_reopen() -> Result<(), StorageError> {
    let (path, _, mut store) = create_path_and_storage(true)?;
    store.write("k", "v")?;
    let entries = store.engine.snapshot();
    drop(store);

    let reopened = Storage::open_with_policy(
        &StorageConfig {
            path: path.clone(),
            password: Some("password".to_string()),
        },
        Some(permissive_policy()),
        entries.clone(),
    )?;
    assert_eq!(reopened.read("k")?, Some("v".to_string()));

    let wrong = Storage::open_with_policy(
        &StorageConfig {
            path,
            password: Some("wrong".to_string()),
        },
        Some(permissive_policy()),
        entries,
    );
    assert!(matches!(wrong, Err(StorageError::WrongPassword)));
    Ok(())
}

#[test]
fn encrypted_store_never_keeps_plaintext() -> Result<(), StorageError> {
    let (_, _, mut store) = create_path_and_storage(true)?;
    store.write("k", "secret_value")?;
    let entries = store.engine.snapshot();
    let stored = entries
        .iter()
        .find(|(key, _)| key.as_slice() == b"k")
        .expect("entry stored");
    assert_ne!(stored.1.as_slice(), b"secret_value");
    Ok(())
}

#[test]
fn reserved_key_is_invisible() -> Result<(), StorageError> {
    let (_, _, store) = create_path_and_storage(true)?;
    // The wrapped key sits in the engine, yet no user-facing read shows it.
    assert!(!store.is_empty());
    assert_eq!(store.read("DEK")?, None);
    assert!(!store.has_key("DEK")?);
    assert_eq!(store.keys()?, Vec::<String>::new());
    assert_eq!(store.partial_compare_keys("")?, Vec::<String>::new());
    assert_eq!(store.partial_compare("")?, Vec::<(String, String)>::new());
    Ok(())
}

#[test]
fn unknown_transaction_handle_fails() -> Result<(), StorageError> {
    let (_, _, mut store) = create_path_and_storage(false)?;
    let h = store.begin_transaction();
    store.commit_transaction(h)?;
    assert!(matches!(
        store.transactional_write("x", "y", h),
        Err(StorageError::NotFound(NotFoundWhat::Transaction))
    ));
    assert!(matches!(
        store.transactional_delete("x", h),
        Err(StorageError::NotFound(NotFoundWhat::Transaction))
    ));
    assert!(matches!(
        store.commit_transaction(h),
        Err(StorageError::NotFound(NotFoundWhat::Transaction))
    ));
    assert!(matches!(
        store.rollback_transaction(h),
        Err(StorageError::NotFound(NotFoundWhat::Transaction))
    ));
    Ok(())
}

#[test]
fn change_password_error_cases() -> Result<(), StorageError> {
    let (_, _, mut plain) = create_path_and_storage(false)?;
    assert!(matches!(
        plain.change_password("a".to_string(), "b".to_string()),
        Err(StorageError::NoPasswordSet)
    ));

    let (_, _, mut enc) = create_path_and_storage(true)?;
    assert!(matches!(
        enc.change_password("wrong".to_string(), "new_password".to_string()),
        Err(StorageError::WrongPassword)
    ));
    Ok(())
}

#[test]
fn weak_password_is_rejected() {
    let config = StorageConfig {
        path: "storage_weak.db".to_string(),
        password: Some("abc".to_string()),
    };
    // The default policy wants 12 bytes and three each of special, upper
    // case and digit characters.
    let r = Storage::new(&config);
    assert!(matches!(r, Err(StorageError::WeakPassword(_))));

    let strong = StorageConfig {
        path: "storage_strong.db".to_string(),
        password: Some("Aa1!Bb2@Cc3#XYZ".to_string()),
    };
    assert!(Storage::new(&strong).is_ok());
}

#[test]
fn encrypted_prefix_scan_decrypts_values() -> Result<(), StorageError> {
    let (_, _, mut store) = create_path_and_storage(true)?;
    store.write("test1", "test_value1")?;
    store.write("test2", "test_value2")?;
    store.write("other", "x")?;

    let result = store.partial_compare("test")?;
    assert_eq!(
        result,
        vec![
            ("test1".to_string(), "test_value1".to_string()),
            ("test2".to_string(), "test_value2".to_string())
        ]
    );
    Ok(())
}

#[test]
fn empty_prefix_scans_every_user_entry() -> Result<(), StorageError> {
    let (_, _, mut store) = create_path_and_storage(true)?;
    store.write("b", "2")?;
    store.write("a", "1")?;

    let pairs = store.partial_compare("")?;
    assert_eq!(
        pairs,
        vec![
            ("a".to_string(), "1".to_string()),
            ("b".to_string(), "2".to_string())
        ]
    );
    let keys = store.partial_compare_keys("")?;
    assert_eq!(keys, vec!["a".to_string(), "b".to_string()]);
    Ok(())
}

#[test]
fn prefix_scan_without_matches_is_empty() -> Result<(), StorageError> {
    let (_, _, mut store) = create_path_and_storage(false)?;
    store.write("alpha", "1")?;
    store.write("beta", "2")?;
    assert_eq!(store.partial_compare_keys("zz")?, Vec::<String>::new());
    assert_eq!(store.partial_compare_keys("alphab")?, Vec::<String>::new());
    Ok(())
}
