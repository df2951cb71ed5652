use onchainos::release::{parse_ls_remote_versions, parse_release_tag_url};
use onchainos::version::{highest_version, semver_gt};

#[test]
fn stable_newer_than_older_stable() {
    assert!(semver_gt("2.1.0", "2.0.0"));
    assert!(semver_gt("3.0.0", "2.9.9"));
    assert!(!semver_gt("2.0.0", "2.1.0"));
}

#[test]
fn stable_newer_than_same_base_prerelease() {
    assert!(semver_gt("2.0.0", "2.0.0-beta.5"));
    assert!(!semver_gt("2.0.0-beta.5", "2.0.0"));
}

#[test]
fn higher_prerelease_number_wins() {
    assert!(semver_gt("2.0.0-beta.1", "2.0.0-beta.0"));
    assert!(!semver_gt("2.0.0-beta.0", "2.0.0-beta.1"));
}

#[test]
fn equal_versions_not_gt() {
    assert!(!semver_gt("2.0.0", "2.0.0"));
    assert!(!semver_gt("2.0.0-beta.0", "2.0.0-beta.0"));
}

#[test]
fn parses_version_from_release_tag_url() {
    assert_eq!(
        parse_release_tag_url("https://github.com/owner/repo/releases/tag/v2.2.12"),
        Some("2.2.12".to_string())
    );
    assert_eq!(
        parse_release_tag_url("https://github.com/owner/repo/releases/tag/v2.0.0-beta.3"),
        Some("2.0.0-beta.3".to_string())
    );
}

#[test]
fn rejects_non_tag_release_url() {
    // A HEAD that fails to redirect leaves the bare /releases/latest URL.
    assert_eq!(
        parse_release_tag_url("https://github.com/owner/repo/releases/latest"),
        None
    );
    assert_eq!(parse_release_tag_url("https://github.com/owner/repo"), None);
    // A tag page whose tag is not a v<digit> semver is rejected too.
    assert_eq!(
        parse_release_tag_url("https://github.com/owner/repo/releases/tag/nightly"),
        None
    );
}

#[test]
fn parses_and_dedupes_ls_remote_output() {
    // Peeled refs (^{}) collapse to their tag; branches and non-v tags drop.
    let stdout = "abc123\trefs/tags/v2.2.10\n\
                  abc123\trefs/tags/v2.2.10^{}\n\
                  def456\trefs/tags/v2.0.0-beta.1\n\
                  000000\trefs/tags/not-a-version\n\
                  111111\trefs/heads/main\n";
    let mut versions = parse_ls_remote_versions(stdout);
    versions.sort();
    assert_eq!(
        versions,
        vec!["2.0.0-beta.1".to_string(), "2.2.10".to_string()]
    );
}

#[test]
fn picks_highest_version() {
    let versions = vec![
        "2.0.0-beta.1".to_string(),
        "2.0.0".to_string(),
        "1.9.9".to_string(),
        "2.0.0-beta.5".to_string(),
    ];
    // Stable outranks its own pre-releases.
    assert_eq!(highest_version(&versions), Some("2.0.0".to_string()));
    let empty: Vec<String> = Vec::new();
    assert_eq!(highest_version(&empty), None);
}

// ---- further cases of the version ordering

#[test]
fn missing_fields_count_as_zero() {
    assert!(!semver_gt("2", "2.0.0"));
    assert!(!semver_gt("2.0.0", "2"));
    assert!(semver_gt("2.1", "2.0.9"));
    assert!(!semver_gt("x.y.z", "0.0.0"));
}

#[test]
fn plus_sign_and_overflow_follow_u32_parsing() {
    // "+3" parses as 3; a number past u32::MAX counts as 0.
    assert!(!semver_gt("+3.0.0", "3.0.0"));
    assert!(!semver_gt("4294967296.0.0", "0.0.0"));
    assert!(semver_gt("4294967295.0.0", "1.0.0"));
}

#[test]
fn prerelease_number_is_made_of_its_digits() {
    // The digits of "rc1.2" form 12.
    assert!(semver_gt("1.0.0-rc1.2", "1.0.0-beta.11"));
}

#[test]
fn prerelease_without_number_ranks_below_stable() {
    // A suffix without a usable number is still a pre-release: below the
    // stable release, above the numbered pre-releases of its base.
    assert!(semver_gt("1.0.0", "1.0.0-beta"));
    assert!(!semver_gt("1.0.0-beta", "1.0.0"));
    assert!(semver_gt("1.0.0", "1.0.0-"));
    assert!(semver_gt("1.0.0-beta", "1.0.0-beta.1"));
    assert!(!semver_gt("1.0.0-beta.1", "1.0.0-beta"));
    assert!(semver_gt("1.0.0-rc", "1.0.0-beta.0"));
    assert!(!semver_gt("1.0.0-beta.0", "1.0.0-rc"));
    assert!(semver_gt("1.0.0-beta.99999999999", "1.0.0-beta.1"));
    assert!(!semver_gt("1.0.0-beta", "1.0.0-alpha"));
    assert!(!semver_gt("1.0.0-alpha", "1.0.0-beta"));
    assert!(semver_gt("1.0.0-beta", "0.9.9"));
    let versions = vec!["2.0.0-beta".to_string(), "2.0.0".to_string(), "2.0.0-rc".to_string()];
    assert_eq!(highest_version(&versions), Some("2.0.0".to_string()));
    let pre = vec!["2.0.0-beta.3".to_string(), "2.0.0-rc".to_string(), "2.0.0-beta.9".to_string()];
    assert_eq!(highest_version(&pre), Some("2.0.0-rc".to_string()));
}

#[test]
fn newer_is_asymmetric_on_samples() {
    let vs = ["1.0.0", "1.0.0-beta.2", "1.0.1", "0.9.9", "1.0.0-rc.10", "1.0.0-beta", "1.0.0-rc"];
    for a in vs.iter() {
        assert!(!semver_gt(a, a));
        for b in vs.iter() {
            assert!(!(semver_gt(a, b) && semver_gt(b, a)));
        }
    }
}

#[test]
fn highest_keeps_first_of_equal_rank() {
    let versions = vec!["1.0".to_string(), "1.0.0".to_string(), "0.1.0".to_string()];
    assert_eq!(highest_version(&versions), Some("1.0".to_string()));
}

#[test]
fn release_tag_url_edge_cases() {
    assert_eq!(
        parse_release_tag_url("https://github.com/o/r/releases/tag/v1.2.3?x=1#frag"),
        Some("1.2.3".to_string())
    );
    assert_eq!(
        parse_release_tag_url("https://github.com/o/r/releases/tag/ v1.2.3 /more"),
        Some("1.2.3".to_string())
    );
    assert_eq!(parse_release_tag_url("https://github.com/o/r/releases/tag/v"), None);
    assert_eq!(parse_release_tag_url("https://github.com/o/r/releases/tag/vx1"), None);
}

#[test]
fn ls_remote_lines_with_crlf_and_no_tab() {
    let stdout = "aaa\trefs/tags/v1.0.0\r\nno tab here\nbbb\trefs/tags/v1.0.0^{}^{}\n\
                  ccc\trefs/tags/v0.9.0";
    assert_eq!(
        parse_ls_remote_versions(stdout),
        vec!["1.0.0".to_string(), "0.9.0".to_string()]
    );
    assert_eq!(parse_ls_remote_versions(""), Vec::<String>::new());
}
