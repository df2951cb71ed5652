use aes_gcm::aead::{Aead, KeyInit};
use aes_gcm::{Aes256Gcm, Nonce};
use onchainos::credentials::CredentialMap;
use onchainos::file_keyring::{
    decode_keyring_file, derive_key, dir_mode_fix, encode_keyring_file, file_mode_fix,
    first_nonempty_trimmed, hostname_text, keyring_file_bytes, machine_id_from, machine_identity,
    seal_keyring_file,
    split_keyring_file, FileKeyringError,
};
use onchainos::keyring_store::get_opt;

#[test]
fn machine_identity_contains_separator() {
    let id = machine_identity("0123abcd", Some("alice"), None);
    assert!(id.contains(':'), "expected colon separator in identity");
}

#[test]
fn machine_identity_not_empty() {
    let id = machine_identity("", None, None);
    assert!(!id.is_empty());
}

#[test]
fn machine_identity_user_fallbacks() {
    assert_eq!(machine_identity("m", Some("u"), Some("l")), "m:u");
    assert_eq!(machine_identity("m", None, Some("l")), "m:l");
    assert_eq!(machine_identity("m", None, None), "m:onchainos-user");
}

#[test]
fn machine_id_is_first_nonempty_trimmed_candidate() {
    let c = vec![None, Some("  \n".to_string()), Some(" abc\n".to_string()), Some("x".to_string())];
    assert_eq!(first_nonempty_trimmed(&c), Some("abc".to_string()));
    assert_eq!(first_nonempty_trimmed(&[None, Some(" ".to_string())]), None);
}

#[test]
fn derive_key_produces_32_bytes() {
    let key = derive_key("test-identity", b"test-salt-32-bytes-long-padding!");
    assert_eq!(key.len(), 32);
}

#[test]
fn derive_key_deterministic() {
    let salt = b"deterministic-salt-for-testing!!";
    let k1 = derive_key("identity", salt);
    let k2 = derive_key("identity", salt);
    assert_eq!(*k1, *k2);
}

#[test]
fn derive_key_different_identity_produces_different_key() {
    let salt = b"shared-salt-value-32-bytes-long!";
    let k1 = derive_key("alice", salt);
    let k2 = derive_key("bob", salt);
    assert_ne!(*k1, *k2);
}

#[test]
fn derive_key_different_salt_produces_different_key() {
    let k1 = derive_key("identity", b"salt-aaaaaaaaaaaaaaaaaaaaaaaaaaaa");
    let k2 = derive_key("identity", b"salt-bbbbbbbbbbbbbbbbbbbbbbbbbbbb");
    assert_ne!(*k1, *k2);
}

fn sample_map() -> CredentialMap {
    let mut m = CredentialMap::new();
    onchainos::keyring_store::set(&mut m, "key1", "value1");
    onchainos::keyring_store::set(&mut m, "key2", "value2");
    m
}

#[test]
fn sealed_file_reads_back() {
    let m = sample_map();
    let bytes = seal_keyring_file(&m, "machine:user").unwrap();
    assert!(bytes.len() > 32 + 12);
    let loaded = decode_keyring_file(&bytes, "machine:user").unwrap();
    assert_eq!(get_opt(&loaded, "key1"), Some("value1".to_string()));
    assert_eq!(get_opt(&loaded, "key2"), Some("value2".to_string()));
}

#[test]
fn sealed_file_hides_the_credentials() {
    let bytes = seal_keyring_file(&sample_map(), "machine:user").unwrap();
    let body = &bytes[44..];
    assert!(!body.windows(6).any(|w| w == b"value1"));
    assert!(!body.windows(4).any(|w| w == b"key1"));
}

#[test]
fn each_seal_draws_fresh_salt_and_nonce() {
    let a = seal_keyring_file(&sample_map(), "machine:user").unwrap();
    let b = seal_keyring_file(&sample_map(), "machine:user").unwrap();
    assert_ne!(&a[..32], &b[..32]);
    assert_ne!(&a[32..44], &b[32..44]);
}

#[test]
fn encoded_file_layout_is_salt_nonce_ciphertext() {
    let salt = [7u8; 32];
    let nonce = [9u8; 12];
    let bytes = encode_keyring_file(&sample_map(), "id", &salt, &nonce).unwrap();
    assert_eq!(&bytes[..32], &salt[..]);
    assert_eq!(&bytes[32..44], &nonce[..]);
    assert!(decode_keyring_file(&bytes, "id").is_ok());
}

#[test]
fn corrupted_file_returns_error() {
    assert_eq!(decode_keyring_file(b"short", "id").err(), Some(FileKeyringError::TooShort));
    assert_eq!(decode_keyring_file(&[0u8; 44], "id").err(), Some(FileKeyringError::TooShort));
}

#[test]
fn wrong_identity_cannot_decrypt() {
    let mut bytes = seal_keyring_file(&sample_map(), "machine:alice").unwrap();
    assert_eq!(
        decode_keyring_file(&bytes, "machine:bob").err(),
        Some(FileKeyringError::DecryptFailed)
    );
    bytes[0] ^= 0xFF;
    assert_eq!(
        decode_keyring_file(&bytes, "machine:alice").err(),
        Some(FileKeyringError::DecryptFailed)
    );
}

#[test]
fn file_permissions_are_0600() {
    assert_eq!(file_mode_fix(0o100644), Some(0o600));
    assert_eq!(file_mode_fix(0o100666), Some(0o600));
    assert_eq!(file_mode_fix(0o100600), None);
}

#[test]
fn dir_permissions_are_0700() {
    assert_eq!(dir_mode_fix(0o40755), Some(0o700));
    assert_eq!(dir_mode_fix(0o40777), Some(0o700));
    assert_eq!(dir_mode_fix(0o40700), None);
}

#[test]
fn file_bytes_split_back_into_parts() {
    let salt = [1u8; 32];
    let nonce = [2u8; 12];
    let ct = [3u8, 4, 5];
    let bytes = keyring_file_bytes(&salt, &nonce, &ct);
    assert_eq!(bytes.len(), 47);
    let parts = split_keyring_file(&bytes).unwrap();
    assert_eq!(parts.salt, salt.to_vec());
    assert_eq!(parts.nonce, nonce.to_vec());
    assert_eq!(parts.ciphertext, ct.to_vec());
    assert!(matches!(split_keyring_file(&bytes[..44]), Err(FileKeyringError::TooShort)));
}

#[test]
fn decrypted_non_json_is_unparsable() {
    let salt = [5u8; 32];
    let nonce = [6u8; 12];
    let key = derive_key("id", &salt);
    let cipher = Aes256Gcm::new_from_slice(&key).unwrap();
    let ct = cipher.encrypt(Nonce::from_slice(&nonce), b"not json".as_ref()).unwrap();
    let bytes = keyring_file_bytes(&salt, &nonce, &ct);
    assert_eq!(decode_keyring_file(&bytes, "id").err(), Some(FileKeyringError::Unparsable));
}

#[test]
fn hostname_buffer_is_cut_at_nul_and_decoded() {
    assert_eq!(hostname_text(b"box-1\0garbage"), Some("box-1".to_string()));
    assert_eq!(hostname_text(b"h\xc3\xa9te"), Some("h\u{e9}te".to_string()));
    assert_eq!(hostname_text(b"\0abc"), Some(String::new()));
    assert_eq!(hostname_text(b"bad\xff\0"), None);
    assert_eq!(hostname_text(b"ok\0\xff"), Some("ok".to_string()));
}

#[test]
fn machine_id_sources_in_priority_order() {
    let s = |t: &str| Some(t.to_string());
    assert_eq!(machine_id_from(s(" etc\n"), s("dbus"), s("proc"), Some(b"host\0".to_vec())), "etc");
    assert_eq!(machine_id_from(s("  "), s("dbus\n"), s("proc"), None), "dbus");
    assert_eq!(machine_id_from(None, None, s("proc\n"), Some(b"host\0".to_vec())), "proc");
    assert_eq!(machine_id_from(None, s(""), s(" "), Some(b" host \0x".to_vec())), "host");
    assert_eq!(machine_id_from(None, None, None, Some(b"\xff\0".to_vec())), "unknown-host");
    assert_eq!(machine_id_from(None, None, None, None), "unknown-host");
}

#[test]
fn ciphertext_is_json_length_plus_tag() {
    let m = sample_map();
    let json = onchainos::credentials::credentials_to_json_bytes(&m);
    let bytes = encode_keyring_file(&m, "id", &[1u8; 32], &[2u8; 12]).unwrap();
    assert_eq!(bytes.len(), 32 + 12 + json.len() + 16);
}

#[test]
fn read_machine_id_returns_nonempty() {
    let s = |t: &str| Some(t.to_string());
    assert!(!machine_id_from(s("0123abcd\n"), None, None, None).is_empty());
    assert!(!machine_id_from(s(" \n"), s(""), None, None).is_empty());
    assert!(!machine_id_from(None, None, None, None).is_empty());
}

#[test]
fn hostname_returns_nonempty() {
    let s = |t: &str| Some(t.to_string());
    assert_eq!(machine_id_from(None, None, s("devbox\n"), None), "devbox");
    assert_eq!(machine_id_from(None, None, s(" "), Some(b"devbox\0\0\0".to_vec())), "devbox");
    assert_eq!(machine_id_from(None, None, None, Some(b"\0".to_vec())), "unknown-host");
}

#[test]
fn file_keyring_error_messages() {
    assert_eq!(FileKeyringError::TooShort.message(), "keyring.enc is corrupted (too short)");
    assert_eq!(FileKeyringError::DecryptFailed.message(), "failed to decrypt keyring.enc");
}
