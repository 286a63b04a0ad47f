use pygmy::config::{
    backend_status, cache_dir, cache_dir_display, config_dir, config_dir_display, config_path,
    join_path, toggle_backend, topics_path, BackendState, Config, ConfigError, DiscordWebhookConfig,
    NtfyConfig, TelegramConfig, TopicsCache,
};

fn full_config() -> Config {
    Config {
        telegram: Some(TelegramConfig {
            enabled: true,
            bot_token: "tok".to_string(),
            group_id: "-100".to_string(),
        }),
        discord_webhook: Some(DiscordWebhookConfig {
            enabled: false,
            url: "https://discord.com/api/webhooks/1".to_string(),
        }),
        ntfy: None,
    }
}

#[test]
fn join_path_inserts_one_separator() {
    assert_eq!(join_path("/a", "b"), "/a/b");
    assert_eq!(join_path("/a/", "b"), "/a/b");
    assert_eq!(join_path("", "b"), "b");
}

#[test]
fn config_dir_prefers_xdg() {
    assert_eq!(config_dir(Some("/xdg"), Some("/home/u")), Some("/xdg/pygmy".to_string()));
    assert_eq!(config_dir(None, Some("/home/u")), Some("/home/u/.config/pygmy".to_string()));
    assert_eq!(config_dir(None, None), None);
    assert_eq!(config_dir(Some(""), Some("/home/u")), Some("pygmy".to_string()));
}

#[test]
fn cache_dir_and_files() {
    assert_eq!(cache_dir(None, Some("/home/u")), Some("/home/u/.cache/pygmy".to_string()));
    assert_eq!(
        topics_path(Some("/c/"), None),
        Some("/c/pygmy/topics.toml".to_string())
    );
    assert_eq!(
        config_path(None, Some("/home/u")),
        Some("/home/u/.config/pygmy/config.toml".to_string())
    );
    assert_eq!(config_path(None, None), None);
}

#[test]
fn display_falls_back() {
    assert_eq!(config_dir_display(None, None), "~/.config/pygmy");
    assert_eq!(cache_dir_display(None, None), "~/.cache/pygmy");
    assert_eq!(config_dir_display(None, Some("/h")), "/h/.config/pygmy");
    assert_eq!(cache_dir_display(Some("/x"), None), "/x/pygmy");
}

#[test]
fn default_config_is_empty() {
    let c = Config::default();
    assert!(c.telegram.is_none() && c.discord_webhook.is_none() && c.ntfy.is_none());
}

#[test]
fn toggle_sets_flag() {
    let mut c = full_config();
    assert!(toggle_backend(&mut c, "telegram", false).is_ok());
    assert!(!c.telegram.as_ref().unwrap().enabled);
    assert!(toggle_backend(&mut c, "discord-webhook", true).is_ok());
    assert!(c.discord_webhook.as_ref().unwrap().enabled);
    assert!(toggle_backend(&mut c, "telegram", true).is_ok());
    assert!(c.telegram.as_ref().unwrap().enabled);
    assert_eq!(c.telegram.as_ref().unwrap().bot_token, "tok");
}

#[test]
fn toggle_errors() {
    let mut c = full_config();
    match toggle_backend(&mut c, "ntfy", true) {
        Err(e) => assert_eq!(e.message(), "ntfy is not configured. Run `pygmy init ntfy` first."),
        Ok(()) => panic!("expected an error"),
    }
    match toggle_backend(&mut c, "slack", true) {
        Err(ConfigError::UnknownBackend(name)) => assert_eq!(name, "slack"),
        _ => panic!("expected an unknown backend"),
    }
    let e = ConfigError::UnknownBackend("slack".to_string());
    assert_eq!(
        e.message(),
        "Unknown backend: slack\nAvailable: telegram, discord-webhook, ntfy"
    );
    let mut empty = Config::default();
    assert!(matches!(
        toggle_backend(&mut empty, "telegram", true),
        Err(ConfigError::TelegramNotConfigured)
    ));
    assert!(matches!(
        toggle_backend(&mut empty, "discord-webhook", false),
        Err(ConfigError::DiscordWebhookNotConfigured)
    ));
    assert_eq!(
        ConfigError::TelegramNotConfigured.message(),
        "Telegram is not configured. Run `pygmy init telegram` first."
    );
    assert_eq!(
        ConfigError::DiscordWebhookNotConfigured.message(),
        "Discord webhook is not configured. Run `pygmy init discord-webhook` first."
    );
}

#[test]
fn status_lines() {
    let mut c = full_config();
    c.ntfy = Some(NtfyConfig {
        enabled: true,
        server: "https://ntfy.sh".to_string(),
        topic: "t".to_string(),
        token: None,
    });
    let st = backend_status(&c);
    assert_eq!(st.len(), 3);
    assert_eq!(st[0].name, "telegram");
    assert!(matches!(&st[0].state, BackendState::Enabled(d) if d == "group: -100"));
    assert_eq!(st[1].name, "discord-webhook");
    assert!(matches!(st[1].state, BackendState::Disabled));
    assert_eq!(st[2].name, "ntfy");
    assert!(matches!(&st[2].state, BackendState::Enabled(d) if d == "topic: t, server: https://ntfy.sh"));
    let st = backend_status(&Config::default());
    assert!(st.iter().all(|s| matches!(s.state, BackendState::NotConfigured)));
}

#[test]
fn topics_cache_operations() {
    let mut cache = TopicsCache::new();
    assert_eq!(cache.get("a"), None);
    cache.insert("a", 1);
    cache.insert("b", 2);
    assert_eq!(cache.get("a"), Some(1));
    cache.insert("a", 3);
    assert_eq!(cache.get("a"), Some(3));
    assert_eq!(cache.entries().len(), 2);
    cache.remove("a");
    assert_eq!(cache.get("a"), None);
    assert_eq!(cache.get("b"), Some(2));
    cache.remove("zzz");
    assert_eq!(cache.entries(), vec![("b".to_string(), 2)]);
}

#[test]
fn topics_cache_from_entries_last_wins() {
    let cache = TopicsCache::from_entries(vec![
        ("x".to_string(), 1),
        ("y".to_string(), 2),
        ("x".to_string(), 5),
    ]);
    assert_eq!(cache.get("x"), Some(5));
    assert_eq!(cache.get("y"), Some(2));
    assert_eq!(cache.entries().len(), 2);
}
