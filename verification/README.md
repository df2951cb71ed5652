# onchainos

Core of the `onchainos` command-line tool, verified with Verus: the logic of
its self-upgrade command and of its credential store.

## Layout

- `src/` — the verified library.
  - `text.rs`: character-level helpers (search, split, trim, `u32` parsing,
    lines) with models over `Seq<char>`.
  - `version.rs`: version ordering (`semver_gt`) and `highest_version`, with
    the laws of the ordering.
  - `release.rs`: reading the latest version from a release page URL, from
    `git ls-remote --tags` output and from tag names, and when to fall back
    to the GitHub API; the release triple of a platform; release asset
    URLs; the plan of an upgrade run; error messages.
  - `checksum.rs`: the checksum list and SHA-256 verification of a download.
  - `credentials.rs`: the credential map and its JSON form.
  - `keyring_store.rs`: get/set/delete/store on the credentials, their laws,
    and the choices between the OS keyring and the file fallback for
    reads, writes and clearing.
  - `file_keyring.rs`: machine identity, scrypt key derivation, and the
    AES-256-GCM keyring file format (`salt ‖ nonce ‖ ciphertext`), whose
    encoding reads back to the credentials it was made from.
- `tests/` — tests of the library, run against the real outside crates.
- `app/` — the command-line program: argument parsing, HTTP requests,
  `git`, the OS keyring, files and permissions, around the library.

Calls into outside crates (sha2, hex, scrypt, aes-gcm, rand, zeroize,
serde_json) go through small trusted wrappers, each documented with what
its contract claims of the outside function.

Verify with `verus` on `src/lib.rs`, with the outside crates of
`Cargo.toml` built.
