//! Verified core of the onchainos command-line tool: version ordering and
//! release-tag parsing for self-upgrade, the credential map behind the
//! keyring store, and the encrypted keyring file format.

pub mod text;
pub mod version;
pub mod release;
pub mod checksum;
pub mod credentials;
pub mod keyring_store;
pub mod file_keyring;
