//! Keyring store: all credentials (tokens, session key) live as one JSON
//! object under a single keyring entry. The operating system's keyring is
//! tried first; only when it is empty or fails does the encrypted file
//! fallback come in, and an unreadable file is purged so that fresh
//! credentials can be written.
//!
//! The reads and writes themselves are the caller's: this module holds the
//! operations on the credential map and the decisions between the two
//! stores. Writes go the same way: the OS entry first, the file only when
//! that write fails.

use vstd::prelude::*;
use crate::credentials::{CredentialMap, credentials_from_json, json_text_credentials};

verus! {

broadcast use vstd::string::group_string_axioms;

/// The keyring service that holds the credentials.
pub const SERVICE: &'static str = "onchainos";

/// The single keyring entry that holds all credentials.
pub const UNIFIED_KEY: &'static str = "agentic-wallet";

/// Why a keyring operation failed.
#[derive(Debug)]
pub enum KeyringError {
    /// The credentials hold no value for the key.
    NotFound { key: String },
}

impl KeyringError {
    /// The message reported for this error.
    pub fn message(&self) -> (r: String)
        ensures
            match self {
                KeyringError::NotFound { key } => r@ == "keyring key '"@ + key@ + "' not found"@,
            },
    {
        match self {
            KeyringError::NotFound { key } => {
                let mut m = "keyring key '".to_owned();
                m.append(key.as_str());
                m.append("' not found");
                m
            },
        }
    }
}

// ---------------------------------------------------------------- operations

/// The value stored under `key`.
pub fn get(map: &CredentialMap, key: &str) -> (r: Result<String, KeyringError>)
    ensures
        map@.dom().contains(key@) ==> (r matches Ok(v) && v@ == map@[key@]),
        !map@.dom().contains(key@) ==> (r matches Err(KeyringError::NotFound { key: k })
            && k@ == key@),
{
    match map.lookup(key) {
        Some(v) => Ok(v),
        None => Err(KeyringError::NotFound { key: key.to_owned() }),
    }
}

/// The value stored under `key`, if any.
pub fn get_opt(map: &CredentialMap, key: &str) -> (r: Option<String>)
    ensures
        map@.dom().contains(key@) ==> (r matches Some(v) && v@ == map@[key@]),
        !map@.dom().contains(key@) ==> r is None,
{
    match get(map, key) {
        Ok(v) => Some(v),
        Err(_) => None,
    }
}

/// Stores `value` under `key`.
pub fn set(map: &mut CredentialMap, key: &str, value: &str)
    ensures
        final(map)@ == old(map)@.insert(key@, value@),
{
    map.insert(key, value);
}

/// Removes `key` and its value.
pub fn delete(map: &mut CredentialMap, key: &str)
    ensures
        final(map)@ == old(map)@.remove(key@),
{
    map.remove(key);
}

/// `m` with each pair of `creds` stored in turn.
pub open spec fn store_all(m: Map<Seq<char>, Seq<char>>, creds: Seq<(&str, &str)>) -> Map<
    Seq<char>,
    Seq<char>,
>
    decreases creds.len(),
{
    if creds.len() == 0 {
        m
    } else {
        store_all(m, creds.drop_last()).insert(creds.last().0@, creds.last().1@)
    }
}

/// Stores several credentials at once, in order (a later pair for the same
/// key wins).
pub fn store(map: &mut CredentialMap, credentials: &[(&str, &str)])
    ensures
        final(map)@ == store_all(old(map)@, credentials@),
{
    let mut i: usize = 0;
    while i < credentials.len()
        invariant
            i <= credentials.len(),
            map@ == store_all(old(map)@, credentials@.take(i as int)),
        decreases credentials.len() - i,
    {
        let (k, v) = credentials[i];
        assert(credentials@.take(i + 1).drop_last() =~= credentials@.take(i as int));
        map.insert(k, v);
        i = i + 1;
    }
    assert(credentials@.take(credentials.len() as int) =~= credentials@);
}

// ---------------------------------------------------------------- laws

/// After `set(k, v)`, `get(k)` gives `v`.
pub proof fn law_get_after_set(m: Map<Seq<char>, Seq<char>>, k: Seq<char>, v: Seq<char>)
    ensures
        m.insert(k, v).dom().contains(k),
        m.insert(k, v)[k] == v,
{
}

/// `set(k, v)` leaves every other key as it was.
pub proof fn law_set_keeps_other_keys(
    m: Map<Seq<char>, Seq<char>>,
    k: Seq<char>,
    v: Seq<char>,
    other: Seq<char>,
)
    requires
        other != k,
    ensures
        m.insert(k, v).dom().contains(other) == m.dom().contains(other),
        m.dom().contains(other) ==> m.insert(k, v)[other] == m[other],
{
}

/// After `delete(k)`, `get(k)` finds nothing, and every other key is as it
/// was.
pub proof fn law_get_after_delete(m: Map<Seq<char>, Seq<char>>, k: Seq<char>, other: Seq<char>)
    ensures
        !m.remove(k).dom().contains(k),
        other != k ==> m.remove(k).dom().contains(other) == m.dom().contains(other),
        other != k && m.dom().contains(other) ==> m.remove(k)[other] == m[other],
{
}

/// Storing several credentials at once is storing them one by one.
pub proof fn law_store_is_successive_sets(
    m: Map<Seq<char>, Seq<char>>,
    creds: Seq<(&str, &str)>,
    k: &str,
    v: &str,
)
    ensures
        store_all(m, creds.push((k, v))) == store_all(m, creds).insert(k@, v@),
{
    assert(creds.push((k, v)).drop_last() =~= creds);
}

/// Storing no pairs leaves the credentials as they were.
pub proof fn law_store_nothing_changes_nothing(m: Map<Seq<char>, Seq<char>>)
    ensures
        store_all(m, Seq::<(&str, &str)>::empty()) == m,
{
}

/// `store` leaves every key that none of its pairs names as it was: held
/// with the same value, or absent.
pub proof fn law_store_keeps_unnamed_keys(
    m: Map<Seq<char>, Seq<char>>,
    creds: Seq<(&str, &str)>,
    k: Seq<char>,
)
    requires
        forall|i: int| 0 <= i < creds.len() ==> (#[trigger] creds[i]).0@ != k,
    ensures
        store_all(m, creds).dom().contains(k) == m.dom().contains(k),
        m.dom().contains(k) ==> store_all(m, creds)[k] == m[k],
    decreases creds.len(),
{
    if creds.len() > 0 {
        let rest = creds.drop_last();
        assert forall|i: int| 0 <= i < rest.len() implies (#[trigger] rest[i]).0@ != k by {
            assert(rest[i] == creds[i]);
        }
        assert(creds.last() == creds[creds.len() - 1]);
        law_store_keeps_unnamed_keys(m, rest, k);
    }
}

/// After `store`, every key that a pair names holds the value of the last
/// pair that names it.
pub proof fn law_store_last_pair_wins(m: Map<Seq<char>, Seq<char>>, creds: Seq<(&str, &str)>, i: int)
    requires
        0 <= i < creds.len(),
        forall|j: int| i < j < creds.len() ==> (#[trigger] creds[j]).0@ != creds[i].0@,
    ensures
        store_all(m, creds).dom().contains(creds[i].0@),
        store_all(m, creds)[creds[i].0@] == creds[i].1@,
    decreases creds.len(),
{
    let rest = creds.drop_last();
    if i < creds.len() - 1 {
        assert(creds.last() == creds[creds.len() - 1]);
        assert forall|j: int| i < j < rest.len() implies (#[trigger] rest[j]).0@ != rest[i].0@ by {
            assert(rest[j] == creds[j]);
        }
        assert(rest[i] == creds[i]);
        law_store_last_pair_wins(m, rest, i);
    }
}

// ---------------------------------------------------------------- store choice

/// What reading the operating system's keyring entry gave.
pub enum OsEntryRead {
    /// The entry's text.
    Found(String),
    /// There is no entry.
    NoEntry,
    /// The keyring could not be read; the message says why.
    Failed(String),
}

/// Why the operating system's keyring gave no credentials.
#[derive(Debug)]
pub enum OsReadFailure {
    /// The keyring could not be read.
    Keyring(String),
    /// The entry does not hold a JSON object of strings.
    Unparsable,
}

/// The step after reading the operating system's keyring.
pub enum AfterOsRead {
    /// Use these credentials; the file fallback is not touched.
    Use(CredentialMap),
    /// Read the file fallback, after warning of the failure if there was one.
    ReadFile { failure: Option<OsReadFailure> },
}

/// Decides from the operating system's keyring entry: a readable entry that
/// holds credentials is used as it is; an absent, empty, unreadable or
/// unparsable one sends the read to the file fallback.
pub fn after_os_read(read: OsEntryRead) -> (r: AfterOsRead)
    ensures
        match read {
            OsEntryRead::Found(json) => match json_text_credentials(json@) {
                Some(m) => if m != Map::<Seq<char>, Seq<char>>::empty() {
                    r matches AfterOsRead::Use(c) && c@ == m
                } else {
                    r matches AfterOsRead::ReadFile { failure: None }
                },
                None => r matches AfterOsRead::ReadFile { failure: Some(OsReadFailure::Unparsable) },
            },
            OsEntryRead::NoEntry => r matches AfterOsRead::ReadFile { failure: None },
            OsEntryRead::Failed(msg) => r matches AfterOsRead::ReadFile {
                failure: Some(OsReadFailure::Keyring(m)),
            } && m@ == msg@,
        },
{
    match read {
        OsEntryRead::Found(json) => match credentials_from_json(json.as_str()) {
            Some(map) => {
                if map.is_empty() {
                    AfterOsRead::ReadFile { failure: None }
                } else {
                    AfterOsRead::Use(map)
                }
            },
            None => AfterOsRead::ReadFile { failure: Some(OsReadFailure::Unparsable) },
        },
        OsEntryRead::NoEntry => AfterOsRead::ReadFile { failure: None },
        OsEntryRead::Failed(msg) => AfterOsRead::ReadFile {
            failure: Some(OsReadFailure::Keyring(msg)),
        },
    }
}

/// The step after reading the file fallback.
pub enum AfterFileRead {
    /// Use these credentials.
    Use(CredentialMap),
    /// The file is corrupted or cannot be decrypted: remove all stored
    /// credentials and go on with none, so that fresh ones can be written.
    PurgeAndStartEmpty { reason: String },
}

/// Decides from reading the file fallback: readable credentials are used;
/// any failure purges the stale credentials and yields an empty map.
pub fn after_file_read(read: Result<CredentialMap, String>) -> (r: AfterFileRead)
    ensures
        match read {
            Ok(m) => r matches AfterFileRead::Use(c) && c@ == m@,
            Err(e) => r matches AfterFileRead::PurgeAndStartEmpty { reason } && reason@ == e@,
        },
{
    match read {
        Ok(m) => AfterFileRead::Use(m),
        Err(e) => AfterFileRead::PurgeAndStartEmpty { reason: e },
    }
}

/// What writing the credentials' JSON to the operating system's keyring
/// entry gave.
pub enum OsEntryWrite {
    /// The entry now holds the JSON.
    Written,
    /// The entry could not be written; the message says why.
    Failed(String),
}

/// The step after writing the operating system's keyring entry.
pub enum AfterOsWrite {
    /// The credentials are stored; the file fallback is not touched.
    Done,
    /// Write the same credentials to the file fallback, after warning of
    /// the failure; the file write's outcome is the outcome of the store.
    WriteFile { failure: String },
}

/// Decides from writing the operating system's keyring entry: a written
/// entry ends the store; a failed write sends the credentials to the file
/// fallback.
pub fn after_os_write(write: OsEntryWrite) -> (r: AfterOsWrite)
    ensures
        match write {
            OsEntryWrite::Written => r is Done,
            OsEntryWrite::Failed(msg) => r matches AfterOsWrite::WriteFile { failure }
                && failure@ == msg@,
        },
{
    match write {
        OsEntryWrite::Written => AfterOsWrite::Done,
        OsEntryWrite::Failed(msg) => AfterOsWrite::WriteFile { failure: msg },
    }
}

/// What deleting the operating system's keyring entry gave.
pub enum OsEntryDelete {
    /// The entry was deleted.
    Deleted,
    /// There was no entry.
    NoEntry,
    /// The entry could not be deleted; the message says why.
    Failed(String),
}

/// Clearing the operating system's keyring succeeded when the entry was
/// deleted or there was none.
pub fn os_clear_outcome(delete: OsEntryDelete) -> (r: Result<(), String>)
    ensures
        match delete {
            OsEntryDelete::Failed(msg) => r matches Err(m) && m@ == msg@,
            _ => r is Ok,
        },
{
    match delete {
        OsEntryDelete::Deleted => Ok(()),
        OsEntryDelete::NoEntry => Ok(()),
        OsEntryDelete::Failed(msg) => Err(msg),
    }
}

/// Clearing all credentials clears both stores; a failure to clear the
/// operating system's keyring is ignored, so the outcome is the file's.
pub fn clear_all_outcome(os_cleared: Result<(), String>, file_cleared: Result<(), String>) -> (r:
    Result<(), String>)
    ensures
        r == file_cleared,
{
    file_cleared
}

/// The keyring test subcommand.
pub enum TestCommand {
    /// Store a value in the system keyring (the `set` subcommand).
    SetValue { key: String, value: String },
    /// Retrieve a value from the system keyring.
    Getdata { key: String },
}

} // verus!
