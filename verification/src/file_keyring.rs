//! Encrypted-file fallback for the keyring: `keyring.enc` holds
//! `salt (32 bytes) | nonce (12 bytes) | AES-256-GCM ciphertext` of the
//! credentials as JSON, under the key
//! `scrypt(machine identity, salt) -> 32 bytes` (log2 N = 15, r = 8, p = 1).
//! The machine identity is `<machine id>:<user name>`, where the machine id
//! is the first of `/etc/machine-id`, `/var/lib/dbus/machine-id`, the host
//! name in `/proc/sys/kernel/hostname` and the one `gethostname` gives
//! that is not empty once trimmed, else `unknown-host`.

use vstd::prelude::*;
use aes_gcm::aead::{Aead, KeyInit};
use aes_gcm::{Aes256Gcm, Nonce};
use rand::RngCore;
use crate::credentials::{
    CredentialMap, credentials_from_json_bytes, credentials_to_json_bytes, json_bytes_credentials,
    json_credentials_len,
};
use crate::text::{chars_of, same_text, substring, trim, trim_in};
use vstd::utf8::{decode_utf8, valid_utf8};

verus! {

broadcast use vstd::string::group_string_axioms;

/// Name of the encrypted keyring file in the onchainos home directory.
pub const KEYRING_FILE: &'static str = "keyring.enc";

pub const SALT_LEN: usize = 32;

pub const NONCE_LEN: usize = 12;

pub const KEY_LEN: usize = 32;

pub const SCRYPT_LOG_N: u8 = 15;

pub const SCRYPT_R: u32 = 8;

pub const SCRYPT_P: u32 = 1;

/// Permission bits of the keyring file.
pub const FILE_MODE: u32 = 0o600;

/// Permission bits of the directory that holds it.
pub const DIR_MODE: u32 = 0o700;

/// The longest plaintext, in bytes, that AES-GCM encrypts (2^36).
pub const MAX_PLAINTEXT_LEN: u64 = 0x10_0000_0000;

/// Why the keyring file could not be read or written.
#[derive(Debug, PartialEq, Eq, Structural)]
pub enum FileKeyringError {
    /// The file is shorter than a salt, a nonce and one byte.
    TooShort,
    /// The ciphertext does not decrypt under the key of this machine.
    DecryptFailed,
    /// The plaintext is not a JSON object of strings.
    Unparsable,
    /// Encryption failed: the credentials' JSON is longer than AES-GCM
    /// accepts.
    EncryptFailed,
    /// The system's random number source failed.
    NoRandomness,
}

impl FileKeyringError {
    /// The message reported for this error.
    pub fn message(&self) -> (r: String)
        ensures
            match self {
                FileKeyringError::TooShort => r@ == "keyring.enc is corrupted (too short)"@,
                FileKeyringError::DecryptFailed => r@ == "failed to decrypt keyring.enc"@,
                FileKeyringError::Unparsable => r@ == "failed to parse decrypted keyring.enc"@,
                FileKeyringError::EncryptFailed => r@ == "failed to encrypt keyring blob"@,
                FileKeyringError::NoRandomness => r@ == "failed to draw random salt and nonce"@,
            },
    {
        match self {
            FileKeyringError::TooShort => "keyring.enc is corrupted (too short)".to_owned(),
            FileKeyringError::DecryptFailed => "failed to decrypt keyring.enc".to_owned(),
            FileKeyringError::Unparsable => "failed to parse decrypted keyring.enc".to_owned(),
            FileKeyringError::EncryptFailed => "failed to encrypt keyring blob".to_owned(),
            FileKeyringError::NoRandomness => "failed to draw random salt and nonce".to_owned(),
        }
    }
}

// ---------------------------------------------------------------- identity

/// The user name part of the identity: `$USER`, else `$LOGNAME`, else a
/// fixed name.
pub open spec fn identity_user(user: Option<Seq<char>>, logname: Option<Seq<char>>) -> Seq<char> {
    match user {
        Some(u) => u,
        None => match logname {
            Some(l) => l,
            None => "onchainos-user"@,
        },
    }
}

/// The machine identity that the file key is derived from:
/// `<machine id>:<user name>`, where `user` and `logname` are the values of
/// `$USER` and `$LOGNAME` when set.
pub fn machine_identity(machine_id: &str, user: Option<&str>, logname: Option<&str>) -> (r: String)
    ensures
        r@ == machine_id@ + ":"@ + identity_user(
            match user {
                Some(u) => Some(u@),
                None => None,
            },
            match logname {
                Some(l) => Some(l@),
                None => None,
            },
        ),
{
    let mut id = machine_id.to_owned();
    id.append(":");
    match user {
        Some(u) => id.append(u),
        None => match logname {
            Some(l) => id.append(l),
            None => id.append("onchainos-user"),
        },
    }
    id
}

/// The first candidate that is not empty once trimmed of whitespace, trimmed.
pub open spec fn first_nonempty_trimmed_of(cands: Seq<Option<Seq<char>>>) -> Option<Seq<char>>
    decreases cands.len(),
{
    if cands.len() == 0 {
        None
    } else {
        match cands[0] {
            Some(c) => if trim(c).len() > 0 {
                Some(trim(c))
            } else {
                first_nonempty_trimmed_of(cands.drop_first())
            },
            None => first_nonempty_trimmed_of(cands.drop_first()),
        }
    }
}

/// A candidate that is absent or all whitespace.
pub open spec fn blank(c: Option<Seq<char>>) -> bool {
    match c {
        Some(x) => trim(x).len() == 0,
        None => true,
    }
}

/// The first candidate that is not blank wins, trimmed; when all are
/// blank there is none.
pub proof fn law_first_nonempty_trimmed(cands: Seq<Option<Seq<char>>>)
    ensures
        first_nonempty_trimmed_of(cands) is None <==> (forall|i: int|
            0 <= i < cands.len() ==> blank(#[trigger] cands[i])),
        first_nonempty_trimmed_of(cands) matches Some(c) ==> exists|i: int|
            0 <= i < cands.len() && #[trigger] cands[i] is Some && trim(cands[i]->0) == c && c.len() > 0
                && forall|j: int| 0 <= j < i ==> blank(#[trigger] cands[j]),
    decreases cands.len(),
{
    if cands.len() > 0 {
        let r = cands.drop_first();
        law_first_nonempty_trimmed(r);
        assert forall|i: int| 0 <= i < r.len() implies r[i] == cands[i + 1] by {}
        if !blank(cands[0]) {
            assert(first_nonempty_trimmed_of(cands) == Some(trim(cands[0]->0)));
        } else {
            assert(first_nonempty_trimmed_of(cands) == first_nonempty_trimmed_of(r));
            if forall|i: int| 0 <= i < r.len() ==> blank(#[trigger] r[i]) {
                assert forall|i: int| 0 <= i < cands.len() implies blank(#[trigger] cands[i]) by {
                    if i > 0 {
                        assert(cands[i] == r[i - 1]);
                    }
                }
            }
            if forall|i: int| 0 <= i < cands.len() ==> blank(#[trigger] cands[i]) {
                assert forall|i: int| 0 <= i < r.len() implies blank(#[trigger] r[i]) by {
                    assert(r[i] == cands[i + 1]);
                }
            }
            if first_nonempty_trimmed_of(r) is Some {
                let c = first_nonempty_trimmed_of(r)->0;
                let i = choose|i: int|
                    0 <= i < r.len() && #[trigger] r[i] is Some && trim(r[i]->0) == c && c.len() > 0
                        && forall|j: int| 0 <= j < i ==> blank(#[trigger] r[j]);
                assert(cands[i + 1] == r[i]);
                assert forall|j: int| 0 <= j < i + 1 implies blank(#[trigger] cands[j]) by {
                    if j > 0 {
                        assert(cands[j] == r[j - 1]);
                    }
                }
            }
        }
    }
}

pub open spec fn option_views(cands: Seq<Option<String>>) -> Seq<Option<Seq<char>>> {
    cands.map_values(
        |c: Option<String>|
            match c {
                Some(s) => Some(s@),
                None => None,
            },
    )
}

/// Of the candidate machine ids (the contents of the files that may hold
/// one, `None` where a file could not be read), the first that is not empty
/// once trimmed, trimmed.
pub fn first_nonempty_trimmed(cands: &[Option<String>]) -> (r: Option<String>)
    ensures
        match first_nonempty_trimmed_of(option_views(cands@)) {
            Some(c) => r matches Some(s) && s@ == c,
            None => r is None,
        },
{
    let ghost cs = option_views(cands@);
    assert(cs.skip(0) =~= cs);
    let mut i: usize = 0;
    while i < cands.len()
        invariant
            i <= cands.len(),
            cs == option_views(cands@),
            first_nonempty_trimmed_of(cs) == first_nonempty_trimmed_of(cs.skip(i as int)),
        decreases cands.len() - i,
    {
        assert(cs.skip(i as int).drop_first() =~= cs.skip(i + 1));
        assert(cs.skip(i as int)[0] == cs[i as int]);
        match &cands[i] {
            Some(c) => {
                let v = chars_of(c.as_str());
                let n = v.len();
                assert(v@.subrange(0, n as int) =~= c@);
                let (a, b) = trim_in(&v, 0, n);
                if a < b {
                    return Some(substring(c.as_str(), a, b));
                }
            },
            None => {},
        }
        i = i + 1;
    }
    assert(cs.skip(cands.len() as int).len() == 0);
    None
}

/// `b` up to its first NUL byte (all of `b` when it holds none).
pub open spec fn before_nul(b: Seq<u8>) -> Seq<u8>
    decreases b.len(),
{
    if b.len() == 0 {
        b
    } else if b[0] == 0 {
        Seq::empty()
    } else {
        seq![b[0]] + before_nul(b.drop_first())
    }
}

/// `before_nul(b)` is the start of `b` up to, not including, its first
/// NUL byte, or all of `b` when it holds none.
pub proof fn law_before_nul(b: Seq<u8>)
    ensures
        before_nul(b).len() <= b.len(),
        b.take(before_nul(b).len() as int) == before_nul(b),
        forall|j: int| 0 <= j < before_nul(b).len() ==> #[trigger] before_nul(b)[j] != 0,
        before_nul(b).len() < b.len() ==> b[before_nul(b).len() as int] == 0,
    decreases b.len(),
{
    if b.len() > 0 && b[0] != 0 {
        let r = b.drop_first();
        law_before_nul(r);
        let t = before_nul(r);
        assert(b.take(t.len() as int + 1) =~= seq![b[0]] + r.take(t.len() as int));
        assert forall|j: int| 0 <= j < before_nul(b).len() implies #[trigger] before_nul(b)[j] != 0 by {
            if j > 0 {
                assert(before_nul(b)[j] == t[j - 1]);
            }
        }
        if t.len() < r.len() {
            assert(b[t.len() as int + 1] == r[t.len() as int]);
        }
    } else {
        assert(b.take(0) =~= Seq::<u8>::empty());
    }
}

/// The text of a host name buffer as `gethostname` fills it: the bytes
/// before the first NUL, when they are UTF-8.
pub open spec fn buffer_text(b: Seq<u8>) -> Option<Seq<char>> {
    if valid_utf8(before_nul(b)) {
        Some(decode_utf8(before_nul(b)))
    } else {
        None
    }
}

/// Calls `std::str::from_utf8` and copies the text; the claim, from its
/// documentation, is that it succeeds exactly on valid UTF-8 and the text
/// is what the bytes encode.
#[verifier::external_body]
fn utf8_text(bytes: &[u8]) -> (r: Option<String>)
    ensures
        r is Some <==> valid_utf8(bytes@),
        r matches Some(s) ==> s@ == decode_utf8(bytes@),
{
    std::str::from_utf8(bytes).ok().map(str::to_owned)
}

/// The host name in a buffer that `gethostname` filled: the bytes before
/// the first NUL, when they are UTF-8.
pub fn hostname_text(buf: &[u8]) -> (r: Option<String>)
    ensures
        match buffer_text(buf@) {
            Some(t) => r matches Some(s) && s@ == t,
            None => r is None,
        },
{
    let mut cut: Vec<u8> = Vec::new();
    let mut i: usize = 0;
    assert(buf@.skip(0) =~= buf@);
    while i < buf.len() && buf[i] != 0
        invariant
            i <= buf.len(),
            before_nul(buf@) == cut@ + before_nul(buf@.skip(i as int)),
        decreases buf.len() - i,
    {
        assert(buf@.skip(i as int).drop_first() =~= buf@.skip(i + 1));
        assert(cut@.push(buf[i as int]) + before_nul(buf@.skip(i + 1)) =~= cut@ + (seq![buf[i as int]]
            + before_nul(buf@.skip(i + 1))));
        cut.push(buf[i]);
        i = i + 1;
    }
    assert(before_nul(buf@.skip(i as int)) =~= Seq::<u8>::empty());
    assert(before_nul(buf@) =~= cut@);
    utf8_text(cut.as_slice())
}

/// The machine id from its sources, in order: the contents of
/// `/etc/machine-id`, of `/var/lib/dbus/machine-id` and of
/// `/proc/sys/kernel/hostname`, and the buffer `gethostname` filled; `None`
/// where a source could not be read. The first that is not empty once
/// trimmed, trimmed; else `unknown-host`.
pub open spec fn machine_id_of(
    etc: Option<Seq<char>>,
    dbus: Option<Seq<char>>,
    proc_hostname: Option<Seq<char>>,
    host_buf: Option<Seq<u8>>,
) -> Seq<char> {
    let host = match host_buf {
        Some(b) => buffer_text(b),
        None => None,
    };
    match first_nonempty_trimmed_of(seq![etc, dbus, proc_hostname, host]) {
        Some(id) => id,
        None => "unknown-host"@,
    }
}

proof fn lemma_first_nonempty_is_nonempty(cands: Seq<Option<Seq<char>>>)
    ensures
        first_nonempty_trimmed_of(cands) matches Some(c) ==> c.len() > 0,
    decreases cands.len(),
{
    if cands.len() > 0 {
        lemma_first_nonempty_is_nonempty(cands.drop_first());
    }
}

/// The machine id is never empty, whatever its sources hold.
pub proof fn lemma_machine_id_nonempty(
    etc: Option<Seq<char>>,
    dbus: Option<Seq<char>>,
    proc_hostname: Option<Seq<char>>,
    host_buf: Option<Seq<u8>>,
)
    ensures
        machine_id_of(etc, dbus, proc_hostname, host_buf).len() > 0,
{
    let host = match host_buf {
        Some(b) => buffer_text(b),
        None => None,
    };
    lemma_first_nonempty_is_nonempty(seq![etc, dbus, proc_hostname, host]);
    reveal_strlit("unknown-host");
}

/// The machine id comes from the first source that is not blank, in the
/// order `/etc/machine-id`, `/var/lib/dbus/machine-id`, the kernel's host
/// name, the `gethostname` buffer, trimmed; `unknown-host` when all are
/// blank.
pub proof fn law_machine_id_priority(
    etc: Option<Seq<char>>,
    dbus: Option<Seq<char>>,
    proc_hostname: Option<Seq<char>>,
    host_buf: Option<Seq<u8>>,
)
    ensures
        !blank(etc) ==> machine_id_of(etc, dbus, proc_hostname, host_buf) == trim(etc->0),
        blank(etc) && !blank(dbus) ==> machine_id_of(etc, dbus, proc_hostname, host_buf) == trim(
            dbus->0,
        ),
        blank(etc) && blank(dbus) && !blank(proc_hostname) ==> machine_id_of(
            etc,
            dbus,
            proc_hostname,
            host_buf,
        ) == trim(proc_hostname->0),
        ({
            let host = match host_buf {
                Some(b) => buffer_text(b),
                None => None,
            };
            &&& blank(etc) && blank(dbus) && blank(proc_hostname) && !blank(host) ==> machine_id_of(
                etc,
                dbus,
                proc_hostname,
                host_buf,
            ) == trim(host->0)
            &&& blank(etc) && blank(dbus) && blank(proc_hostname) && blank(host) ==> machine_id_of(
                etc,
                dbus,
                proc_hostname,
                host_buf,
            ) == "unknown-host"@
        }),
{
    let host = match host_buf {
        Some(b) => buffer_text(b),
        None => None,
    };
    let cs = seq![etc, dbus, proc_hostname, host];
    law_first_nonempty_trimmed(cs);
    assert(cs[0] == etc && cs[1] == dbus && cs[2] == proc_hostname && cs[3] == host);
    if first_nonempty_trimmed_of(cs) is Some {
        let c = first_nonempty_trimmed_of(cs)->0;
        let i = choose|i: int|
            0 <= i < cs.len() && #[trigger] cs[i] is Some && trim(cs[i]->0) == c && c.len() > 0
                && forall|j: int| 0 <= j < i ==> blank(#[trigger] cs[j]);
        assert(!blank(cs[i]));
        if !blank(etc) {
            if i > 0 {
                assert(blank(cs[0]));
            }
        } else if !blank(dbus) {
            if i > 1 {
                assert(blank(cs[1]));
            }
        } else if !blank(proc_hostname) {
            if i > 2 {
                assert(blank(cs[2]));
            }
        }
    } else {
        assert(blank(cs[0]) && blank(cs[1]) && blank(cs[2]) && blank(cs[3]));
    }
}

pub open spec fn text_view(o: Option<String>) -> Option<Seq<char>> {
    match o {
        Some(s) => Some(s@),
        None => None,
    }
}

/// The machine id from its sources, as `machine_id_of` states.
pub fn machine_id_from(
    etc: Option<String>,
    dbus: Option<String>,
    proc_hostname: Option<String>,
    host_buf: Option<Vec<u8>>,
) -> (r: String)
    ensures
        r@ == machine_id_of(
            text_view(etc),
            text_view(dbus),
            text_view(proc_hostname),
            match host_buf {
                Some(b) => Some(b@),
                None => None,
            },
        ),
{
    let ghost g = (text_view(etc), text_view(dbus), text_view(proc_hostname));
    let host = match &host_buf {
        Some(b) => hostname_text(b.as_slice()),
        None => None,
    };
    let ghost hv = text_view(host);
    let cands = vec![etc, dbus, proc_hostname, host];
    assert(option_views(cands@) =~= seq![g.0, g.1, g.2, hv]);
    match first_nonempty_trimmed(cands.as_slice()) {
        Some(id) => id,
        None => "unknown-host".to_owned(),
    }
}

// ---------------------------------------------------------------- key derivation

/// The scrypt output of the given length for a password and salt under the
/// parameters log2 N, r and p.
pub uninterp spec fn scrypt_output(
    password: Seq<u8>,
    salt: Seq<u8>,
    log_n: u8,
    r: u32,
    p: u32,
    len: usize,
) -> Seq<u8>;

/// Calls `scrypt::scrypt` with `scrypt::Params::new(log_n, r, p, len)` into
/// a buffer of `len` bytes. The claim is that the key is a function of its
/// inputs, named `scrypt_output`, `len` bytes long. The `requires` keeps to
/// parameters that `Params::new` and `scrypt` accept (their source checks
/// `0 < r`, `0 < p`, `log_n < 16 r`, `10 <= len <= 64`, and sizes that these
/// bounds keep within a 32-bit `usize`), so neither fails.
#[verifier::external_body]
fn scrypt_derive(password: &[u8], salt: &[u8], log_n: u8, r: u32, p: u32, len: usize) -> (key: Vec<u8>)
    requires
        1 <= r <= 16,
        1 <= p <= 16,
        log_n <= 20,
        log_n < 16 * r,
        10 <= len <= 64,
    ensures
        key@ == scrypt_output(password@, salt@, log_n, r, p, len),
        key@.len() == len,
{
    let params = scrypt::Params::new(log_n, r, p, len).expect("valid scrypt params");
    let mut key = vec![0u8; len];
    scrypt::scrypt(password, salt, &params, &mut key).expect("scrypt output length is valid");
    key
}

/// The file key for a machine identity and salt.
pub open spec fn file_key(identity: Seq<char>, salt: Seq<u8>) -> Seq<u8> {
    scrypt_output(vstd::utf8::encode_utf8(identity), salt, SCRYPT_LOG_N, SCRYPT_R, SCRYPT_P, KEY_LEN)
}

/// The file key is scrypt with the UTF-8 bytes of the machine identity as
/// the password and the file's salt as the salt, at log2 N = 15, r = 8,
/// p = 1, 32 bytes long.
pub proof fn law_file_key_is_scrypt_of_identity(identity: Seq<char>, salt: Seq<u8>)
    ensures
        file_key(identity, salt) == scrypt_output(
            vstd::utf8::encode_utf8(identity),
            salt,
            15u8,
            8u32,
            1u32,
            32usize,
        ),
{
}

/// Derives the 32-byte file key from the machine identity and a salt:
/// scrypt with the identity's UTF-8 bytes as password.
pub fn derive_key(identity: &str, salt: &[u8]) -> (key: Vec<u8>)
    ensures
        key@ == file_key(identity@, salt@),
        key@ == scrypt_output(vstd::utf8::encode_utf8(identity@), salt@, 15u8, 8u32, 1u32, 32usize),
        key@.len() == KEY_LEN,
{
    scrypt_derive(identity.as_bytes(), salt, SCRYPT_LOG_N, SCRYPT_R, SCRYPT_P, KEY_LEN)
}

// ---------------------------------------------------------------- cipher

/// AES-256-GCM encryption, without associated data, of `plaintext` under
/// `key` and `nonce`: the ciphertext followed by the tag.
pub uninterp spec fn aes256gcm_seal(key: Seq<u8>, nonce: Seq<u8>, plaintext: Seq<u8>) -> Option<
    Seq<u8>,
>;

/// AES-256-GCM decryption, without associated data: the plaintext, or
/// `None` when the tag does not authenticate the ciphertext.
pub uninterp spec fn aes256gcm_open(key: Seq<u8>, nonce: Seq<u8>, ciphertext: Seq<u8>) -> Option<
    Seq<u8>,
>;

/// Calls `Aes256Gcm::new_from_slice` and `Aead::encrypt` with
/// `Nonce::from_slice`. The claims: the result is the named
/// `aes256gcm_seal`; it is there for every plaintext of at most
/// `MAX_PLAINTEXT_LEN` bytes (the source refuses only a key that is not
/// 32 bytes long and a longer plaintext); the ciphertext is the
/// plaintext's length plus the 16-byte tag; decrypting it under the same
/// key and nonce gives the plaintext back.
#[verifier::external_body]
fn aes_gcm_encrypt(key: &[u8], nonce: &[u8], plaintext: &[u8]) -> (r: Option<Vec<u8>>)
    requires
        key@.len() == KEY_LEN,
        nonce@.len() == NONCE_LEN,
    ensures
        r is Some <==> aes256gcm_seal(key@, nonce@, plaintext@) is Some,
        plaintext@.len() <= MAX_PLAINTEXT_LEN ==> r is Some,
        r matches Some(c) ==> c@ == aes256gcm_seal(key@, nonce@, plaintext@)->0,
        r matches Some(c) ==> c@.len() == plaintext@.len() + 16,
        r matches Some(c) ==> aes256gcm_open(key@, nonce@, c@) == Some(plaintext@),
{
    let cipher = match Aes256Gcm::new_from_slice(key) {
        Ok(c) => c,
        Err(_) => return None,
    };
    cipher.encrypt(Nonce::from_slice(nonce), plaintext).ok()
}

/// Calls `Aes256Gcm::new_from_slice` and `Aead::decrypt` with
/// `Nonce::from_slice`. The claim is that the result is the named
/// `aes256gcm_open`.
#[verifier::external_body]
fn aes_gcm_decrypt(key: &[u8], nonce: &[u8], ciphertext: &[u8]) -> (r: Option<Vec<u8>>)
    requires
        key@.len() == KEY_LEN,
        nonce@.len() == NONCE_LEN,
    ensures
        r is Some <==> aes256gcm_open(key@, nonce@, ciphertext@) is Some,
        r matches Some(p) ==> p@ == aes256gcm_open(key@, nonce@, ciphertext@)->0,
{
    let cipher = match Aes256Gcm::new_from_slice(key) {
        Ok(c) => c,
        Err(_) => return None,
    };
    cipher.decrypt(Nonce::from_slice(nonce), ciphertext).ok()
}

/// Calls `rand::rngs::OsRng` (`RngCore::try_fill_bytes`) on a buffer of
/// `len` bytes. The claim is only the length; the bytes are random, and
/// `None` comes when the system's random source fails.
#[verifier::external_body]
fn random_bytes(len: usize) -> (r: Option<Vec<u8>>)
    ensures
        r matches Some(b) ==> b@.len() == len,
{
    let mut bytes = vec![0u8; len];
    match rand::rngs::OsRng.try_fill_bytes(&mut bytes) {
        Ok(()) => Some(bytes),
        Err(_) => None,
    }
}

/// Calls `zeroize::Zeroize::zeroize`, which overwrites the bytes with zeros
/// and empties the vector; the claim is only that it is left empty.
#[verifier::external_body]
fn wipe(bytes: &mut Vec<u8>)
    ensures
        final(bytes)@.len() == 0,
{
    zeroize::Zeroize::zeroize(bytes)
}

// ---------------------------------------------------------------- file format

/// The credentials that the keyring file `data` holds for the machine
/// `identity`.
pub open spec fn keyring_file_contents(data: Seq<u8>, identity: Seq<char>) -> Result<
    Map<Seq<char>, Seq<char>>,
    FileKeyringError,
> {
    if data.len() < SALT_LEN + NONCE_LEN + 1 {
        Err(FileKeyringError::TooShort)
    } else {
        match aes256gcm_open(
            file_key(identity, data.take(SALT_LEN as int)),
            data.subrange(SALT_LEN as int, (SALT_LEN + NONCE_LEN) as int),
            data.skip((SALT_LEN + NONCE_LEN) as int),
        ) {
            None => Err(FileKeyringError::DecryptFailed),
            Some(p) => match json_bytes_credentials(p) {
                None => Err(FileKeyringError::Unparsable),
                Some(m) => Ok(m),
            },
        }
    }
}

/// Reading a keyring file `salt ‖ nonce ‖ ciphertext` (32, 12 and at least
/// one byte): the ciphertext is opened under the scrypt key of the
/// identity's UTF-8 bytes and that salt, with that nonce, and its
/// plaintext read as JSON; a file shorter than 45 bytes is refused.
pub proof fn law_keyring_file_format(
    salt: Seq<u8>,
    nonce: Seq<u8>,
    ciphertext: Seq<u8>,
    identity: Seq<char>,
)
    requires
        salt.len() == 32,
        nonce.len() == 12,
        ciphertext.len() >= 1,
    ensures
        keyring_file_contents(salt + nonce + ciphertext, identity) == match aes256gcm_open(
            scrypt_output(vstd::utf8::encode_utf8(identity), salt, 15u8, 8u32, 1u32, 32usize),
            nonce,
            ciphertext,
        ) {
            None => Err(FileKeyringError::DecryptFailed),
            Some(p) => match json_bytes_credentials(p) {
                None => Err(FileKeyringError::Unparsable),
                Some(m) => Ok(m),
            },
        },
        forall|data: Seq<u8>|
            #![trigger keyring_file_contents(data, identity)]
            data.len() < 45 ==> keyring_file_contents(data, identity) == Err::<
                Map<Seq<char>, Seq<char>>,
                FileKeyringError,
            >(FileKeyringError::TooShort),
{
    let data = salt + nonce + ciphertext;
    assert(data.take(32) =~= salt);
    assert(data.subrange(32, 44) =~= nonce);
    assert(data.skip(44) =~= ciphertext);
}

/// Decrypts credentials under a file key.
pub fn decrypt_credentials(key: &[u8], nonce: &[u8], ciphertext: &[u8]) -> (r: Result<
    CredentialMap,
    FileKeyringError,
>)
    requires
        key@.len() == KEY_LEN,
        nonce@.len() == NONCE_LEN,
    ensures
        match aes256gcm_open(key@, nonce@, ciphertext@) {
            None => r matches Err(FileKeyringError::DecryptFailed),
            Some(p) => match json_bytes_credentials(p) {
                None => r matches Err(FileKeyringError::Unparsable),
                Some(m) => r matches Ok(c) && c@ == m,
            },
        },
{
    match aes_gcm_decrypt(key, nonce, ciphertext) {
        None => Err(FileKeyringError::DecryptFailed),
        Some(plaintext) => {
            let mut plaintext = plaintext;
            let parsed = credentials_from_json_bytes(plaintext.as_slice());
            wipe(&mut plaintext);
            match parsed {
                Some(m) => Ok(m),
                None => Err(FileKeyringError::Unparsable),
            }
        },
    }
}

/// The parts of a keyring file: salt, nonce and ciphertext.
pub struct KeyringFileParts {
    pub salt: Vec<u8>,
    pub nonce: Vec<u8>,
    pub ciphertext: Vec<u8>,
}

/// Splits the bytes of a keyring file into salt, nonce and ciphertext; a
/// file shorter than a salt, a nonce and one byte is refused.
pub fn split_keyring_file(data: &[u8]) -> (r: Result<KeyringFileParts, FileKeyringError>)
    ensures
        data@.len() < SALT_LEN + NONCE_LEN + 1 ==> r matches Err(FileKeyringError::TooShort),
        data@.len() >= SALT_LEN + NONCE_LEN + 1 ==> (r matches Ok(p) && p.salt@ == data@.take(
            SALT_LEN as int,
        ) && p.nonce@ == data@.subrange(SALT_LEN as int, (SALT_LEN + NONCE_LEN) as int)
            && p.ciphertext@ == data@.skip((SALT_LEN + NONCE_LEN) as int)),
{
    if data.len() < SALT_LEN + NONCE_LEN + 1 {
        return Err(FileKeyringError::TooShort);
    }
    let (salt, rest) = data.split_at(SALT_LEN);
    let (nonce, ciphertext) = rest.split_at(NONCE_LEN);
    let mut parts = KeyringFileParts { salt: Vec::new(), nonce: Vec::new(), ciphertext: Vec::new() };
    append_bytes(&mut parts.salt, salt);
    append_bytes(&mut parts.nonce, nonce);
    append_bytes(&mut parts.ciphertext, ciphertext);
    assert(parts.nonce@ =~= data@.subrange(SALT_LEN as int, (SALT_LEN + NONCE_LEN) as int));
    assert(parts.ciphertext@ =~= data@.skip((SALT_LEN + NONCE_LEN) as int));
    Ok(parts)
}

/// The bytes of a keyring file: salt, nonce, then ciphertext.
pub fn keyring_file_bytes(salt: &[u8], nonce: &[u8], ciphertext: &[u8]) -> (r: Vec<u8>)
    ensures
        r@ == salt@ + nonce@ + ciphertext@,
{
    let mut out: Vec<u8> = Vec::new();
    append_bytes(&mut out, salt);
    append_bytes(&mut out, nonce);
    append_bytes(&mut out, ciphertext);
    out
}

/// Reads the credentials from the bytes of the keyring file, with the key
/// of the machine `identity`.
pub fn decode_keyring_file(data: &[u8], identity: &str) -> (r: Result<CredentialMap, FileKeyringError>)
    ensures
        match keyring_file_contents(data@, identity@) {
            Ok(m) => r matches Ok(c) && c@ == m,
            Err(e) => r matches Err(x) && x == e,
        },
{
    let parts = match split_keyring_file(data) {
        Ok(p) => p,
        Err(e) => return Err(e),
    };
    let mut key = derive_key(identity, parts.salt.as_slice());
    let r = decrypt_credentials(key.as_slice(), parts.nonce.as_slice(), parts.ciphertext.as_slice());
    wipe(&mut key);
    r
}

fn append_bytes(out: &mut Vec<u8>, src: &[u8])
    ensures
        final(out)@ == old(out)@ + src@,
{
    let mut i: usize = 0;
    while i < src.len()
        invariant
            i <= src.len(),
            out@ == old(out)@ + src@.take(i as int),
        decreases src.len() - i,
    {
        out.push(src[i]);
        assert(src@.take(i + 1) =~= src@.take(i as int).push(src@[i as int]));
        i = i + 1;
    }
    assert(src@.take(src.len() as int) =~= src@);
}

/// `c` is the AES-256-GCM ciphertext, under `key` and `nonce`, of a JSON
/// text of the credentials `m`: as long as that text plus the 16-byte tag.
pub open spec fn seals_json_of(
    c: Seq<u8>,
    m: Map<Seq<char>, Seq<char>>,
    key: Seq<u8>,
    nonce: Seq<u8>,
) -> bool {
    exists|p: Seq<u8>|
        #[trigger] json_bytes_credentials(p) == Some(m) && p.len() == json_credentials_len(m)
            && aes256gcm_seal(key, nonce, p) == Some(c) && c.len() == p.len() + 16
}

/// `b` is the keyring file of the credentials `m` for the machine
/// `identity` under `salt` and `nonce`: the salt, the nonce, then the
/// ciphertext of a JSON text of `m` under the file key of the identity and
/// salt.
pub open spec fn is_keyring_file_for(
    b: Seq<u8>,
    m: Map<Seq<char>, Seq<char>>,
    identity: Seq<char>,
    salt: Seq<u8>,
    nonce: Seq<u8>,
) -> bool {
    &&& salt.len() == SALT_LEN
    &&& nonce.len() == NONCE_LEN
    &&& b == salt + nonce + b.skip((SALT_LEN + NONCE_LEN) as int)
    &&& seals_json_of(b.skip((SALT_LEN + NONCE_LEN) as int), m, file_key(identity, salt), nonce)
}

/// Encrypts credentials under a file key: the ciphertext of their JSON.
/// Decrypting it under the same key and nonce gives the credentials back.
pub fn seal_credentials(map: &CredentialMap, key: &[u8], nonce: &[u8]) -> (r: Result<
    Vec<u8>,
    FileKeyringError,
>)
    requires
        key@.len() == KEY_LEN,
        nonce@.len() == NONCE_LEN,
    ensures
        r matches Ok(c) ==> (aes256gcm_open(key@, nonce@, c@) matches Some(p)
            && json_bytes_credentials(p) == Some(map@) && c@.len() >= 16),
        r matches Ok(c) ==> seals_json_of(c@, map@, key@, nonce@),
        json_credentials_len(map@) <= MAX_PLAINTEXT_LEN ==> r is Ok,
        r matches Err(e) ==> e == FileKeyringError::EncryptFailed && json_credentials_len(map@)
            > MAX_PLAINTEXT_LEN,
{
    let mut json = credentials_to_json_bytes(map);
    let sealed = aes_gcm_encrypt(key, nonce, json.as_slice());
    let ghost plain = json@;
    wipe(&mut json);
    match sealed {
        Some(c) => {
            assert(json_bytes_credentials(plain) == Some(map@));
            Ok(c)
        },
        None => {
            assert(json_bytes_credentials(plain) == Some(map@));
            Err(FileKeyringError::EncryptFailed)
        },
    }
}

/// The bytes of the keyring file that holds `map` for the machine
/// `identity`, with the given salt and nonce: the salt, the nonce, and the
/// ciphertext of the credentials' JSON under the file key. Reading them
/// back with the same identity gives `map`.
pub fn encode_keyring_file(map: &CredentialMap, identity: &str, salt: &[u8], nonce: &[u8]) -> (r: Result<
    Vec<u8>,
    FileKeyringError,
>)
    requires
        salt@.len() == SALT_LEN,
        nonce@.len() == NONCE_LEN,
    ensures
        r matches Ok(b) ==> (keyring_file_contents(b@, identity@) == Ok::<
            Map<Seq<char>, Seq<char>>,
            FileKeyringError,
        >(map@) && b@.take(SALT_LEN as int) == salt@ && b@.subrange(
            SALT_LEN as int,
            (SALT_LEN + NONCE_LEN) as int,
        ) == nonce@),
        r matches Ok(b) ==> is_keyring_file_for(b@, map@, identity@, salt@, nonce@),
        json_credentials_len(map@) <= MAX_PLAINTEXT_LEN ==> r is Ok,
        r matches Err(e) ==> e == FileKeyringError::EncryptFailed && json_credentials_len(map@)
            > MAX_PLAINTEXT_LEN,
{
    let mut key = derive_key(identity, salt);
    let sealed = seal_credentials(map, key.as_slice(), nonce);
    wipe(&mut key);
    let ciphertext = match sealed {
        Ok(c) => c,
        Err(e) => return Err(e),
    };
    let out = keyring_file_bytes(salt, nonce, ciphertext.as_slice());
    assert(out@.take(SALT_LEN as int) =~= salt@);
    assert(out@.subrange(SALT_LEN as int, (SALT_LEN + NONCE_LEN) as int) =~= nonce@);
    assert(out@.skip((SALT_LEN + NONCE_LEN) as int) =~= ciphertext@);
    assert(out@ =~= salt@ + nonce@ + out@.skip((SALT_LEN + NONCE_LEN) as int));
    Ok(out)
}

/// The bytes of a new keyring file that holds `map` for the machine
/// `identity`, under a fresh random salt and nonce. Reading them back with
/// the same identity gives `map`.
pub fn seal_keyring_file(map: &CredentialMap, identity: &str) -> (r: Result<Vec<u8>, FileKeyringError>)
    ensures
        r matches Ok(b) ==> keyring_file_contents(b@, identity@) == Ok::<
            Map<Seq<char>, Seq<char>>,
            FileKeyringError,
        >(map@),
        r matches Ok(b) ==> b@.len() >= SALT_LEN + NONCE_LEN && is_keyring_file_for(
            b@,
            map@,
            identity@,
            b@.take(SALT_LEN as int),
            b@.subrange(SALT_LEN as int, (SALT_LEN + NONCE_LEN) as int),
        ),
        r matches Err(e) ==> e == FileKeyringError::NoRandomness || (e
            == FileKeyringError::EncryptFailed && json_credentials_len(map@) > MAX_PLAINTEXT_LEN),
{
    let salt = match random_bytes(SALT_LEN) {
        Some(s) => s,
        None => return Err(FileKeyringError::NoRandomness),
    };
    let nonce = match random_bytes(NONCE_LEN) {
        Some(n) => n,
        None => return Err(FileKeyringError::NoRandomness),
    };
    encode_keyring_file(map, identity, salt.as_slice(), nonce.as_slice())
}

// ---------------------------------------------------------------- permissions

/// The permission bits to set on the keyring file, whose mode is `mode`:
/// `0o600` unless its permission bits already are, else nothing.
pub fn file_mode_fix(mode: u32) -> (r: Option<u32>)
    ensures
        mode & 0o777 != FILE_MODE ==> r == Some(FILE_MODE),
        mode & 0o777 == FILE_MODE ==> r is None,
{
    if mode & 0o777 != FILE_MODE {
        Some(FILE_MODE)
    } else {
        None
    }
}

/// The permission bits to set on the directory that holds the keyring
/// file, whose mode is `mode`: `0o700` unless its permission bits already
/// are, else nothing.
pub fn dir_mode_fix(mode: u32) -> (r: Option<u32>)
    ensures
        mode & 0o777 != DIR_MODE ==> r == Some(DIR_MODE),
        mode & 0o777 == DIR_MODE ==> r is None,
{
    if mode & 0o777 != DIR_MODE {
        Some(DIR_MODE)
    } else {
        None
    }
}

} // verus!
