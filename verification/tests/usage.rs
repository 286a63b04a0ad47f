use pygmy::ntfy::{bearer_auth, ntfy_url};
use pygmy::self_update::{plan_update, UpdatePlan};
use pygmy::usage::{update_hint, usage_text};

#[test]
fn usage_mentions_version_and_config() {
    let t = usage_text("1.2.3", "/home/u/.config/pygmy");
    assert!(t.starts_with("pygmy 1.2.3 — notifications from AI agents\n"));
    assert!(t.contains("  /home/u/.config/pygmy/config.toml       Backend credentials"));
    assert!(t.contains("Long messages are automatically split (4096 for Telegram/ntfy, 2000 for Discord)."));
    assert!(t.ends_with("messages are sent to all enabled backends.\n"));
}

#[test]
fn update_hint_only_when_newer() {
    assert_eq!(
        update_hint(false, "1.0.0", Some("1.1.0")),
        Some("Update available: 1.0.0 → 1.1.0\nRun `pygmy self update` to upgrade.\n".to_string())
    );
    assert_eq!(update_hint(false, "1.1.0", Some("1.0.0")), None);
    assert_eq!(update_hint(true, "1.0.0", Some("1.1.0")), None);
    assert_eq!(update_hint(false, "1.0.0", None), None);
}

#[test]
fn ntfy_addresses() {
    assert_eq!(ntfy_url("https://ntfy.sh", "alerts"), "https://ntfy.sh/alerts");
    assert_eq!(ntfy_url("https://ntfy.sh///", "alerts"), "https://ntfy.sh/alerts");
    assert_eq!(bearer_auth("tk_1"), "Bearer tk_1");
}

#[test]
fn self_update_plans() {
    assert!(matches!(plan_update(true, false, "0.0.0", None), Ok(UpdatePlan::DevBuild)));
    match plan_update(false, false, "1.0.0", None) {
        Err(e) => assert_eq!(e.message(), "could not determine the latest version"),
        Ok(_) => panic!("expected an error"),
    }
    assert!(matches!(plan_update(false, true, "1.0.0", Some("1.0.0")), Ok(UpdatePlan::AlreadyLatest)));
    assert!(matches!(plan_update(false, true, "1.0.0", Some("1.2.0")), Ok(UpdatePlan::ReportAvailable)));
    assert!(matches!(plan_update(false, false, "1.0.0", Some("1.2.0")), Ok(UpdatePlan::Install)));
    assert!(matches!(plan_update(false, false, "1.3.0", Some("1.2.0")), Ok(UpdatePlan::AlreadyLatest)));
}
