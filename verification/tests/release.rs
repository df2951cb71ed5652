use onchainos::checksum::{checksum_matches, expected_checksum, verify_checksum};
use onchainos::release::{
    latest_beta_from_ls_remote, latest_beta_from_tags, latest_stable_from_redirect, plan_upgrade,
    release_assets, target_triple, version_from_release_tag, versions_from_tag_names,
    LatestLookup, UpgradeArgs, UpgradeError, UpgradePlan,
};

#[test]
fn target_triples_of_supported_platforms() {
    assert_eq!(target_triple("macos", "x86_64").unwrap(), "x86_64-apple-darwin");
    assert_eq!(target_triple("macos", "aarch64").unwrap(), "aarch64-apple-darwin");
    assert_eq!(target_triple("linux", "x86_64").unwrap(), "x86_64-unknown-linux-gnu");
    assert_eq!(target_triple("linux", "x86").unwrap(), "i686-unknown-linux-gnu");
    assert_eq!(target_triple("linux", "aarch64").unwrap(), "aarch64-unknown-linux-gnu");
    assert_eq!(target_triple("linux", "arm").unwrap(), "armv7-unknown-linux-gnueabihf");
    assert_eq!(target_triple("windows", "x86_64").unwrap(), "x86_64-pc-windows-msvc");
}

#[test]
fn unsupported_platform_is_refused() {
    assert!(matches!(
        target_triple("windows", "aarch64"),
        Err(UpgradeError::UnsupportedPlatform)
    ));
    assert!(matches!(
        target_triple("freebsd", "x86_64"),
        Err(UpgradeError::UnsupportedPlatform)
    ));
}

#[test]
fn release_asset_urls() {
    let a = release_assets("2.2.12", "x86_64-unknown-linux-gnu");
    assert_eq!(a.binary_name, "onchainos-x86_64-unknown-linux-gnu");
    assert_eq!(a.tag, "v2.2.12");
    assert_eq!(
        a.binary_url,
        "https://github.com/okx/onchainos-skills/releases/download/v2.2.12/onchainos-x86_64-unknown-linux-gnu"
    );
    assert_eq!(
        a.checksums_url,
        "https://github.com/okx/onchainos-skills/releases/download/v2.2.12/checksums.txt"
    );
}

#[test]
fn checksum_line_is_found_by_binary_name() {
    let list = "aaaa  onchainos-aarch64-apple-darwin\n\
                bbbb  onchainos-x86_64-unknown-linux-gnu\r\n\
                cccc  onchainos-x86_64-unknown-linux-gnu\n";
    assert_eq!(
        expected_checksum(list, "onchainos-x86_64-unknown-linux-gnu").ok(),
        Some("bbbb".to_string())
    );
    assert!(matches!(
        expected_checksum(list, "onchainos-i686-unknown-linux-gnu"),
        Err(UpgradeError::ChecksumNotFound)
    ));
    assert!(matches!(expected_checksum("", "x"), Err(UpgradeError::ChecksumNotFound)));
}

#[test]
fn checksum_of_known_data() {
    // SHA-256 of "abc".
    let expected = "ba7816bf8f01cfea414140de5dae2223b00361a396177a9cb410ff61f20015ad";
    assert!(verify_checksum(b"abc", expected).is_ok());
    match verify_checksum(b"abd", expected) {
        Err(UpgradeError::ChecksumMismatch { expected: e, actual }) => {
            assert_eq!(e, expected);
            assert_eq!(actual.len(), 64);
            assert_ne!(actual, expected);
        }
        _ => panic!("expected a checksum mismatch"),
    }
}

#[test]
fn digest_is_compared_as_lower_case_hex() {
    assert!(checksum_matches(&[0x00, 0xab, 0x0f], "00ab0f").is_ok());
    assert!(checksum_matches(&[0x00, 0xab, 0x0f], "00AB0F").is_err());
}

#[test]
fn version_from_release_tag_trims_every_leading_v() {
    assert_eq!(version_from_release_tag(Some("v2.2.12")).unwrap(), "2.2.12");
    assert_eq!(version_from_release_tag(Some("vv1.0")).unwrap(), "1.0");
    assert!(matches!(
        version_from_release_tag(None),
        Err(UpgradeError::MissingTagName)
    ));
}

#[test]
fn tag_names_become_versions() {
    let names = vec![
        "v2.0.0".to_string(),
        "".to_string(),
        "v".to_string(),
        "nightly".to_string(),
        "1.0.0".to_string(),
    ];
    assert_eq!(
        versions_from_tag_names(&names),
        vec!["2.0.0".to_string(), "nightly".to_string(), "1.0.0".to_string()]
    );
}

#[test]
fn upgrade_plans() {
    let plain = UpgradeArgs { beta: false, force: false, check: false };
    let force = UpgradeArgs { beta: false, force: true, check: false };
    let check = UpgradeArgs { beta: false, force: true, check: true };
    assert_eq!(plan_upgrade(&plain, "1.0.0", "1.0.1"), UpgradePlan::Install);
    assert_eq!(plan_upgrade(&plain, "1.0.1", "1.0.1"), UpgradePlan::AlreadyLatest);
    assert_eq!(plan_upgrade(&force, "1.0.1", "1.0.1"), UpgradePlan::Install);
    assert_eq!(
        plan_upgrade(&check, "1.0.0", "1.0.1"),
        UpgradePlan::Report { update_available: true }
    );
    assert_eq!(
        plan_upgrade(&check, "1.0.1", "1.0.1-beta.1"),
        UpgradePlan::Report { update_available: false }
    );
}

#[test]
fn stable_lookup_asks_api_only_without_a_tag_page() {
    match latest_stable_from_redirect(Some("https://github.com/o/r/releases/tag/v2.2.12")) {
        LatestLookup::Found(v) => assert_eq!(v, "2.2.12"),
        LatestLookup::AskApi => panic!("a tag page names the version"),
    }
    assert!(matches!(
        latest_stable_from_redirect(Some("https://github.com/o/r/releases/latest")),
        LatestLookup::AskApi
    ));
    assert!(matches!(latest_stable_from_redirect(None), LatestLookup::AskApi));
}

#[test]
fn beta_lookup_takes_highest_ls_remote_version() {
    let out = "a\trefs/tags/v2.0.0-beta.1\nb\trefs/tags/v1.9.9\nc\trefs/tags/v2.0.0-beta.3^{}\n";
    match latest_beta_from_ls_remote(Some(out)) {
        LatestLookup::Found(v) => assert_eq!(v, "2.0.0-beta.3"),
        LatestLookup::AskApi => panic!("versions were listed"),
    }
    assert!(matches!(latest_beta_from_ls_remote(Some("x\trefs/heads/main\n")), LatestLookup::AskApi));
    assert!(matches!(latest_beta_from_ls_remote(None), LatestLookup::AskApi));
}

#[test]
fn beta_lookup_from_api_tag_names() {
    let names = vec!["v1.0.0".to_string(), "".to_string(), "v1.1.0-beta.2".to_string()];
    assert_eq!(latest_beta_from_tags(&names).ok(), Some("1.1.0-beta.2".to_string()));
    let none = vec!["".to_string(), "vvv".to_string()];
    assert!(matches!(latest_beta_from_tags(&none), Err(UpgradeError::NoVersionFound)));
}

#[test]
fn upgrade_error_messages() {
    assert_eq!(
        UpgradeError::MissingTagName.message(),
        "missing tag_name in GitHub release response"
    );
    assert_eq!(UpgradeError::NoVersionFound.message(), "no valid versions found in GitHub tags");
    assert_eq!(
        UpgradeError::UnsupportedPlatform.message(),
        "unsupported platform — please install manually from https://github.com/okx/onchainos-skills"
    );
    assert_eq!(
        UpgradeError::ChecksumNotFound.message(),
        "checksum not found for this platform in checksums.txt"
    );
    let e = UpgradeError::ChecksumMismatch { expected: "aa".to_string(), actual: "bb".to_string() };
    assert_eq!(
        e.message(),
        "checksum mismatch — binary may have been tampered with\n  expected: aa\n  actual:   bb"
    );
}
