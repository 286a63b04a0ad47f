use pygmy::init::{
    answer, answer_or_default, check_bot_token, check_webhook_url, i64_to_decimal,
    ntfy_config_from_answers, telegram_config, InitError,
};

#[test]
fn answers_are_trimmed() {
    assert_eq!(answer("  token \n"), "token");
    assert_eq!(answer("\u{3000}x\u{a0}"), "x");
    assert_eq!(answer_or_default("\n", "https://ntfy.sh"), "https://ntfy.sh");
    assert_eq!(answer_or_default(" https://x.org \n", "https://ntfy.sh"), "https://x.org");
}

#[test]
fn bot_token_must_not_be_empty() {
    assert!(check_bot_token("abc").is_ok());
    match check_bot_token("") {
        Err(e) => assert_eq!(e.message(), "Bot token cannot be empty."),
        Ok(()) => panic!("expected an error"),
    }
}

#[test]
fn webhook_urls() {
    assert!(check_webhook_url("https://discord.com/api/webhooks/1/x").is_ok());
    assert!(check_webhook_url("https://discordapp.com/api/webhooks/1/x").is_ok());
    assert!(matches!(check_webhook_url(""), Err(InitError::EmptyWebhookUrl)));
    match check_webhook_url("https://example.com/hook") {
        Err(e) => assert_eq!(
            e.message(),
            "That doesn't look like a Discord webhook URL.\nExpected: https://discord.com/api/webhooks/..."
        ),
        Ok(()) => panic!("expected an error"),
    }
}

#[test]
fn ntfy_answers() {
    let c = ntfy_config_from_answers("https://ntfy.sh", "topic", "").ok().unwrap();
    assert!(c.enabled);
    assert_eq!(c.server, "https://ntfy.sh");
    assert_eq!(c.topic, "topic");
    assert_eq!(c.token, None);
    let c = ntfy_config_from_answers("s", "t", "tk").ok().unwrap();
    assert_eq!(c.token, Some("tk".to_string()));
    assert!(matches!(ntfy_config_from_answers("", "t", ""), Err(InitError::EmptyServerUrl)));
    assert!(matches!(ntfy_config_from_answers("s", "", ""), Err(InitError::EmptyTopic)));
    assert_eq!(InitError::EmptyTopic.message(), "Topic name cannot be empty.");
    assert_eq!(InitError::EmptyServerUrl.message(), "Server URL cannot be empty.");
}

#[test]
fn group_ids_in_decimal() {
    assert_eq!(i64_to_decimal(-1001234567890), "-1001234567890");
    assert_eq!(i64_to_decimal(0), "0");
    assert_eq!(i64_to_decimal(i64::MIN), i64::MIN.to_string());
    assert_eq!(i64_to_decimal(i64::MAX), i64::MAX.to_string());
    let c = telegram_config("tok", -42);
    assert!(c.enabled);
    assert_eq!(c.bot_token, "tok");
    assert_eq!(c.group_id, "-42");
}
