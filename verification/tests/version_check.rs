use pygmy::version_check::{
    cached_latest, current_version, get_cached_version, is_dev_build, is_newer,
    latest_after_lookup, latest_release_api_url, release_asset_url, version_cache_path,
    version_from_tag, ReleaseError, VersionCache, CACHE_TTL_SECS,
};

fn cache(at: u64) -> Option<VersionCache> {
    Some(VersionCache { checked_at: at, latest_version: "1.2.3".to_string() })
}

#[test]
fn version_of_this_build() {
    assert_eq!(current_version(), "0.1.0");
    assert!(!is_dev_build());
}

#[test]
fn cached_version_only_when_fresh() {
    assert_eq!(get_cached_version(cache(1000), 1000), Some("1.2.3".to_string()));
    assert_eq!(get_cached_version(cache(1000), 1000 + CACHE_TTL_SECS - 1), Some("1.2.3".to_string()));
    assert_eq!(get_cached_version(cache(1000), 1000 + CACHE_TTL_SECS), None);
    assert_eq!(get_cached_version(cache(5000), 10), Some("1.2.3".to_string()));
    assert_eq!(get_cached_version(None, 10), None);
    assert_eq!(CACHE_TTL_SECS, 86400);
}

#[test]
fn forced_lookup_ignores_cache() {
    assert_eq!(cached_latest(true, cache(10), 10), None);
    assert_eq!(cached_latest(false, cache(10), 10), Some("1.2.3".to_string()));
    assert_eq!(latest_after_lookup(Some("2.0.0".to_string()), cache(0)), Some("2.0.0".to_string()));
    assert_eq!(latest_after_lookup(None, cache(0)), Some("1.2.3".to_string()));
    assert_eq!(latest_after_lookup(None, None), None);
}

#[test]
fn tag_prefix_is_dropped() {
    assert_eq!(version_from_tag("v1.4.0"), "1.4.0");
    assert_eq!(version_from_tag("1.4.0"), "1.4.0");
    assert_eq!(version_from_tag("vv"), "v");
    assert_eq!(version_from_tag(""), "");
    assert_eq!(
        latest_release_api_url(),
        "https://api.github.com/repos/flipbit03/pygmy/releases/latest"
    );
}

#[test]
fn semver_comparison() {
    assert!(is_newer("1.0.0", "1.1.0"));
    assert!(!is_newer("1.1.0", "1.0.0"));
    assert!(!is_newer("1.0.0", "1.0.0"));
    assert!(is_newer("1.0.0-alpha", "1.0.0"));
    assert!(!is_newer("1.0.0", "1.0.0-alpha"));
    assert!(is_newer("0.9.9", "0.10.0"));
}

#[test]
fn unparsable_versions_compare_by_text() {
    assert!(is_newer("dev", "1.0.0"));
    assert!(!is_newer("abc", "abc"));
}

#[test]
fn release_urls() {
    assert_eq!(
        release_asset_url("1.2.3", "linux", "x86_64").ok(),
        Some("https://github.com/flipbit03/pygmy/releases/download/v1.2.3/pygmy_linux_x86_64".to_string())
    );
    assert_eq!(
        release_asset_url("1.2.3", "macos", "aarch64").ok(),
        Some("https://github.com/flipbit03/pygmy/releases/download/v1.2.3/pygmy_macos_aarch64".to_string())
    );
    match release_asset_url("1", "windows", "x86_64") {
        Err(e) => assert_eq!(e.message(), "unsupported OS: windows"),
        Ok(_) => panic!("expected an error"),
    }
    match release_asset_url("1", "linux", "riscv64") {
        Err(e) => assert_eq!(e.message(), "unsupported architecture: riscv64"),
        Ok(_) => panic!("expected an error"),
    }
    assert!(matches!(release_asset_url("1", "macos", "x86_64"), Err(ReleaseError::MacIntel)));
    assert_eq!(
        ReleaseError::MacIntel.message(),
        "macOS x86_64 binaries are not provided — use `cargo install pygmy`"
    );
}

#[test]
fn version_cache_location() {
    assert_eq!(
        version_cache_path(None, Some("/home/u")),
        Some("/home/u/.cache/pygmy/latest_version_check.json".to_string())
    );
    assert_eq!(version_cache_path(None, None), None);
}
