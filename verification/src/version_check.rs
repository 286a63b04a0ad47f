//! Version bookkeeping: the running version, the cached latest release,
//! version comparison and release download URLs.
use vstd::prelude::*;

use crate::config::{cache_dir, file_in, app_dir_spec, join_path, opt_string_view, opt_view};
use crate::text::{chars_of, push_str, str_eq, string_from_chars};

verus! {

/// How long a cached latest-version answer stays valid, in seconds.
pub const CACHE_TTL_SECS: u64 = 86400;

/// The latest released version and when it was looked up (Unix seconds).
pub struct VersionCache {
    pub checked_at: u64,
    pub latest_version: String,
}

/// The version of this build.
pub open spec fn pkg_version() -> Seq<char> {
    "0.1.0"@
}

/// The version of this build.
pub fn current_version() -> (v: &'static str)
    ensures
        v@ == pkg_version(),
{
    "0.1.0"
}

/// Whether this is a development build (version `0.0.0`).
pub fn is_dev_build() -> (b: bool)
    ensures
        b == (pkg_version() == "0.0.0"@),
{
    str_eq(current_version(), "0.0.0")
}

/// A lookup made at `checked_at` is still fresh at `now`: less than a day
/// has passed (a clock that went backwards counts as no time passed).
pub open spec fn is_fresh(checked_at: u64, now: u64) -> bool {
    (if now >= checked_at {
        now - checked_at
    } else {
        0
    }) < CACHE_TTL_SECS
}

/// The cached latest version when the cache exists and is fresh at `now`.
pub fn get_cached_version(cache: Option<VersionCache>, now: u64) -> (r: Option<String>)
    ensures
        match cache {
            Some(c) => if is_fresh(c.checked_at, now) {
                r == Some(c.latest_version)
            } else {
                r is None
            },
            None => r is None,
        },
{
    match cache {
        Some(c) => {
            if now.saturating_sub(c.checked_at) < CACHE_TTL_SECS {
                Some(c.latest_version)
            } else {
                None
            }
        },
        None => None,
    }
}

/// The answer to "latest version?" that needs no network lookup: the fresh
/// cached version unless a lookup is forced. `None` means: look it up.
pub fn cached_latest(force: bool, cache: Option<VersionCache>, now: u64) -> (r: Option<String>)
    ensures
        force ==> r is None,
        !force ==> match cache {
            Some(c) => if is_fresh(c.checked_at, now) {
                r == Some(c.latest_version)
            } else {
                r is None
            },
            None => r is None,
        },
{
    if force {
        None
    } else {
        get_cached_version(cache, now)
    }
}

/// The latest version after a lookup: what the lookup found, or else
/// whatever version the cache holds, however old.
pub fn latest_after_lookup(found: Option<String>, cache: Option<VersionCache>) -> (r: Option<String>)
    ensures
        found is Some ==> r == found,
        found is None ==> r == match cache {
            Some(c) => Some(c.latest_version),
            None => None,
        },
{
    match found {
        Some(v) => Some(v),
        None => match cache {
            Some(c) => Some(c.latest_version),
            None => None,
        },
    }
}

/// A release tag as a version: a leading `v` is dropped.
pub open spec fn tag_version(tag: Seq<char>) -> Seq<char> {
    if tag.len() > 0 && tag[0] == 'v' {
        tag.drop_first()
    } else {
        tag
    }
}

/// The version a release tag names.
pub fn version_from_tag(tag: &str) -> (v: String)
    ensures
        v@ == tag_version(tag@),
{
    let chars = chars_of(tag);
    if chars.len() > 0 && chars[0] == 'v' {
        let mut out: Vec<char> = Vec::new();
        let mut i: usize = 1;
        while i < chars.len()
            invariant
                1 <= i <= chars.len(),
                out@ == chars@.subrange(1, i as int),
            decreases chars.len() - i,
        {
            out.push(chars[i]);
            i = i + 1;
            assert(out@ =~= chars@.subrange(1, i as int));
        }
        assert(out@ =~= tag@.drop_first());
        string_from_chars(out.as_slice())
    } else {
        tag.to_owned()
    }
}

/// The GitHub API address of the latest release.
pub fn latest_release_api_url() -> (u: String)
    ensures
        u@ == "https://api.github.com/repos/flipbit03/pygmy/releases/latest"@,
{
    "https://api.github.com/repos/flipbit03/pygmy/releases/latest".to_owned()
}

/// Where the latest-version cache lives: `latest_version_check.json` in
/// the cache directory.
pub fn version_cache_path(xdg_cache_home: Option<&str>, home: Option<&str>) -> (p: Option<String>)
    ensures
        opt_string_view(p) == file_in(
            app_dir_spec(opt_view(xdg_cache_home), opt_view(home), ".cache"@),
            "latest_version_check.json"@,
        ),
{
    match cache_dir(xdg_cache_home, home) {
        Some(d) => Some(join_path(d.as_str(), "latest_version_check.json")),
        None => None,
    }
}

/// Whether version `latest` is newer than `current` by semantic-version
/// precedence (major, minor, patch, pre-release, build), when both parse;
/// `None` when either does not.
pub uninterp spec fn semver_newer(current: Seq<char>, latest: Seq<char>) -> Option<bool>;

/// Parses both texts with `semver::Version::parse` and compares them with
/// `Version`'s derived ordering (`latest > current`). Trusted: the result is
/// the named `semver_newer`; equal texts are never newer than each other,
/// and the ordering is asymmetric.
#[verifier::external_body]
fn compare_versions(current: &str, latest: &str) -> (r: Option<bool>)
    ensures
        r == semver_newer(current@, latest@),
        current@ == latest@ ==> r != Some(true),
        r == Some(true) ==> semver_newer(latest@, current@) == Some(false),
{
    match (semver::Version::parse(current), semver::Version::parse(latest)) {
        (Ok(c), Ok(l)) => Some(l > c),
        _ => None,
    }
}

/// Newer by the semantic-version comparison when both versions parse, and
/// otherwise whenever the texts differ.
pub open spec fn newer_spec(current: Seq<char>, latest: Seq<char>, cmp: Option<bool>) -> bool {
    match cmp {
        Some(b) => b,
        None => latest != current,
    }
}

/// Decides "is `latest` newer than `current`" from the semantic-version
/// comparison `cmp` of the two.
pub fn newer_given(current: &str, latest: &str, cmp: Option<bool>) -> (b: bool)
    ensures
        b == newer_spec(current@, latest@, cmp),
{
    match cmp {
        Some(b) => b,
        None => !str_eq(latest, current),
    }
}

/// Whether `latest` is a newer version than `current`.
pub fn is_newer(current: &str, latest: &str) -> (b: bool)
    ensures
        b == newer_spec(current@, latest@, semver_newer(current@, latest@)),
        current@ == latest@ ==> !b,
        semver_newer(current@, latest@) is Some && b ==> !newer_spec(
            latest@,
            current@,
            semver_newer(latest@, current@),
        ),
{
    let cmp = compare_versions(current, latest);
    newer_given(current, latest, cmp)
}

/// Why no release binary fits this machine.
pub enum ReleaseError {
    UnsupportedOs(String),
    UnsupportedArch(String),
    MacIntel,
}

impl ReleaseError {
    /// The message shown to the user.
    pub fn message(&self) -> (m: String)
        ensures
            m@ == match self {
                ReleaseError::UnsupportedOs(os) => "unsupported OS: "@ + os@,
                ReleaseError::UnsupportedArch(a) => "unsupported architecture: "@ + a@,
                ReleaseError::MacIntel =>
                    "macOS x86_64 binaries are not provided — use `cargo install pygmy`"@,
            },
    {
        match self {
            ReleaseError::UnsupportedOs(os) => crate::text::concat2("unsupported OS: ", os.as_str()),
            ReleaseError::UnsupportedArch(a) => crate::text::concat2(
                "unsupported architecture: ",
                a.as_str(),
            ),
            ReleaseError::MacIntel => {
                "macOS x86_64 binaries are not provided — use `cargo install pygmy`".to_owned()
            },
        }
    }
}

/// The download address of release `tag` for operating system `os` and
/// architecture `arch`, or why there is none.
pub open spec fn release_asset_url_spec(tag: Seq<char>, os: Seq<char>, arch: Seq<char>) -> Result<
    Seq<char>,
    (),
> {
    if (os != "linux"@ && os != "macos"@) || (arch != "x86_64"@ && arch != "aarch64"@) || (os
        == "macos"@ && arch == "x86_64"@) {
        Err(())
    } else {
        Ok(
            "https://github.com/flipbit03/pygmy/releases/download/v"@ + tag + "/pygmy_"@ + os
                + "_"@ + arch,
        )
    }
}

/// The URL of the release binary for `tag` on the given operating system
/// and architecture (Linux and macOS on x86_64 and aarch64, except macOS on
/// x86_64).
pub fn release_asset_url(tag: &str, os: &str, arch: &str) -> (r: Result<String, ReleaseError>)
    ensures
        os@ != "linux"@ && os@ != "macos"@ ==> (r matches Err(ReleaseError::UnsupportedOs(o))
            && o@ == os@),
        (os@ == "linux"@ || os@ == "macos"@) && arch@ != "x86_64"@ && arch@ != "aarch64"@ ==> (r matches Err(
            ReleaseError::UnsupportedArch(a),
        ) && a@ == arch@),
        os@ == "macos"@ && arch@ == "x86_64"@ ==> r matches Err(ReleaseError::MacIntel),
        r matches Ok(u) ==> release_asset_url_spec(tag@, os@, arch@) == Ok::<Seq<char>, ()>(u@),
        release_asset_url_spec(tag@, os@, arch@) is Ok ==> r is Ok,
{
    if !str_eq(os, "linux") && !str_eq(os, "macos") {
        return Err(ReleaseError::UnsupportedOs(os.to_owned()));
    }
    if !str_eq(arch, "x86_64") && !str_eq(arch, "aarch64") {
        return Err(ReleaseError::UnsupportedArch(arch.to_owned()));
    }
    if str_eq(os, "macos") && str_eq(arch, "x86_64") {
        return Err(ReleaseError::MacIntel);
    }
    let mut v: Vec<char> = Vec::new();
    push_str(&mut v, "https://github.com/flipbit03/pygmy/releases/download/v");
    push_str(&mut v, tag);
    push_str(&mut v, "/pygmy_");
    push_str(&mut v, os);
    push_str(&mut v, "_");
    push_str(&mut v, arch);
    Ok(string_from_chars(v.as_slice()))
}

} // verus!
