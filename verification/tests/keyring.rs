use onchainos::credentials::{credentials_from_json, credentials_to_json, CredentialMap};
use onchainos::keyring_store::{
    after_file_read, after_os_read, after_os_write, clear_all_outcome, delete, get, get_opt,
    os_clear_outcome, store, AfterFileRead, AfterOsRead, AfterOsWrite, KeyringError,
    OsEntryDelete, OsEntryRead, OsEntryWrite, OsReadFailure,
};

#[test]
fn get_after_set_returns_value() {
    let mut m = CredentialMap::new();
    onchainos::keyring_store::set(&mut m, "token", "abc");
    onchainos::keyring_store::set(&mut m, "session", "s1");
    onchainos::keyring_store::set(&mut m, "token", "def");
    assert_eq!(get(&m, "token").unwrap(), "def");
    assert_eq!(get(&m, "session").unwrap(), "s1");
    assert_eq!(get_opt(&m, "missing"), None);
    match get(&m, "missing") {
        Err(KeyringError::NotFound { key }) => assert_eq!(key, "missing"),
        _ => panic!("expected NotFound"),
    }
}

#[test]
fn delete_removes_only_its_key() {
    let mut m = CredentialMap::new();
    store(&mut m, &[("a", "1"), ("b", "2"), ("a", "3")]);
    assert_eq!(get_opt(&m, "a"), Some("3".to_string()));
    delete(&mut m, "a");
    assert_eq!(get_opt(&m, "a"), None);
    assert_eq!(get_opt(&m, "b"), Some("2".to_string()));
    delete(&mut m, "a");
    assert!(!m.is_empty());
    delete(&mut m, "b");
    assert!(m.is_empty());
}

#[test]
fn json_round_trip() {
    let mut m = CredentialMap::new();
    store(&mut m, &[("k\"1", "v\n1"), ("k2", "\u{e9}")]);
    let text = credentials_to_json(&m);
    let back = credentials_from_json(&text).unwrap();
    assert_eq!(get_opt(&back, "k\"1"), Some("v\n1".to_string()));
    assert_eq!(get_opt(&back, "k2"), Some("\u{e9}".to_string()));
    assert!(credentials_from_json("[1,2]").is_none());
    assert!(credentials_from_json("{\"a\":1}").is_none());
    assert!(credentials_from_json("{}").unwrap().is_empty());
}

#[test]
fn os_keyring_with_credentials_is_used() {
    match after_os_read(OsEntryRead::Found("{\"t\":\"x\"}".to_string())) {
        AfterOsRead::Use(m) => assert_eq!(get_opt(&m, "t"), Some("x".to_string())),
        _ => panic!("expected the OS credentials to be used"),
    }
}

#[test]
fn empty_missing_or_broken_os_entry_falls_back_to_file() {
    assert!(matches!(
        after_os_read(OsEntryRead::Found("{}".to_string())),
        AfterOsRead::ReadFile { failure: None }
    ));
    assert!(matches!(
        after_os_read(OsEntryRead::NoEntry),
        AfterOsRead::ReadFile { failure: None }
    ));
    assert!(matches!(
        after_os_read(OsEntryRead::Found("not json".to_string())),
        AfterOsRead::ReadFile { failure: Some(OsReadFailure::Unparsable) }
    ));
    match after_os_read(OsEntryRead::Failed("no dbus".to_string())) {
        AfterOsRead::ReadFile { failure: Some(OsReadFailure::Keyring(m)) } => {
            assert_eq!(m, "no dbus")
        }
        _ => panic!("expected a fallback with the keyring failure"),
    }
}

#[test]
fn unreadable_file_is_purged() {
    match after_file_read(Err("failed to decrypt keyring.enc".to_string())) {
        AfterFileRead::PurgeAndStartEmpty { reason } => {
            assert_eq!(reason, "failed to decrypt keyring.enc")
        }
        _ => panic!("expected a purge"),
    }
    let mut m = CredentialMap::new();
    onchainos::keyring_store::set(&mut m, "a", "b");
    match after_file_read(Ok(m)) {
        AfterFileRead::Use(m) => assert_eq!(get_opt(&m, "a"), Some("b".to_string())),
        _ => panic!("expected the file credentials"),
    }
}

#[test]
fn os_write_decides_file_fallback() {
    assert!(matches!(after_os_write(OsEntryWrite::Written), AfterOsWrite::Done));
    match after_os_write(OsEntryWrite::Failed("no secret service".to_string())) {
        AfterOsWrite::WriteFile { failure } => assert_eq!(failure, "no secret service"),
        AfterOsWrite::Done => panic!("a failed write must go to the file"),
    }
}

#[test]
fn clearing_decisions() {
    assert_eq!(os_clear_outcome(OsEntryDelete::Deleted), Ok(()));
    assert_eq!(os_clear_outcome(OsEntryDelete::NoEntry), Ok(()));
    assert_eq!(os_clear_outcome(OsEntryDelete::Failed("dbus".to_string())), Err("dbus".to_string()));
    assert_eq!(clear_all_outcome(Err("dbus".to_string()), Ok(())), Ok(()));
    assert_eq!(clear_all_outcome(Ok(()), Err("io".to_string())), Err("io".to_string()));
}

#[test]
fn keyring_error_message() {
    let e = KeyringError::NotFound { key: "token".to_string() };
    assert_eq!(e.message(), "keyring key 'token' not found");
}
