use pygmy::send::{
    chunk_message, TelegramAction, TelegramDelivery, TelegramEvent, DISCORD_MAX_LENGTH, NTFY_MAX_LENGTH,
    TELEGRAM_MAX_LENGTH,
};

#[test]
fn short_message_not_chunked() {
    let chunks = chunk_message("hello", TELEGRAM_MAX_LENGTH);
    assert_eq!(chunks, vec!["hello"]);
}

#[test]
fn long_message_splits_on_newline_telegram() {
    let line = "a".repeat(100);
    let text = (0..50)
        .map(|_| line.as_str())
        .collect::<Vec<_>>()
        .join("\n");
    let chunks = chunk_message(&text, TELEGRAM_MAX_LENGTH);
    assert!(chunks.len() > 1);
    for chunk in &chunks {
        assert!(chunk.len() <= TELEGRAM_MAX_LENGTH);
    }
}

#[test]
fn long_message_splits_on_newline_discord() {
    let line = "a".repeat(100);
    let text = (0..30)
        .map(|_| line.as_str())
        .collect::<Vec<_>>()
        .join("\n");
    let chunks = chunk_message(&text, DISCORD_MAX_LENGTH);
    assert!(chunks.len() > 1);
    for chunk in &chunks {
        assert!(chunk.len() <= DISCORD_MAX_LENGTH);
    }
}

#[test]
fn discord_chunk_limit_is_2000() {
    assert_eq!(DISCORD_MAX_LENGTH, 2000);
}

#[test]
fn ntfy_and_telegram_limits() {
    assert_eq!(TELEGRAM_MAX_LENGTH, 4096);
    assert_eq!(NTFY_MAX_LENGTH, 4096);
}

#[test]
fn chunks_reassemble_and_cut_after_newline() {
    let text = "abc\ndef\nghij";
    let chunks = chunk_message(text, 5);
    assert_eq!(chunks, vec!["abc\n", "def\n", "ghij"]);
    assert_eq!(chunks.concat(), text);
}

#[test]
fn chunk_without_newline_cuts_at_limit() {
    let chunks = chunk_message("abcdefg", 3);
    assert_eq!(chunks, vec!["abc", "def", "g"]);
}

#[test]
fn empty_text_is_one_chunk() {
    assert_eq!(chunk_message("", 10), vec![""]);
}

use pygmy::config::{Config, DiscordWebhookConfig, TelegramConfig};
use pygmy::send::{
    chunks_if_splittable, delivery_outcome, discord_payloads, enabled_backends, is_thread_not_found,
    ntfy_payloads, splits_on_char_boundaries, telegram_payloads, Delivery, SendError,
};

#[test]
fn cuts_must_fall_on_char_boundaries() {
    assert!(!splits_on_char_boundaries("ééé", 3));
    assert!(chunks_if_splittable("ééé", 3).is_none());
    assert!(splits_on_char_boundaries("ééé", 4));
    assert_eq!(
        chunks_if_splittable("ééé", 4),
        Some(vec!["éé".to_string(), "é".to_string()])
    );
    assert!(!splits_on_char_boundaries("é\néé", 3));
    assert!(splits_on_char_boundaries("é\né", 3));
    assert_eq!(chunk_message("é\né", 3), vec!["é\n", "é"]);
}

#[test]
fn backend_payloads() {
    assert_eq!(telegram_payloads("**hi** a < b"), Some(vec!["<b>hi</b> a &lt; b".to_string()]));
    assert_eq!(discord_payloads("deploy", "Build failed"), Some(vec!["**[deploy]**\nBuild failed".to_string()]));
    assert_eq!(ntfy_payloads("**raw**"), Some(vec!["**raw**".to_string()]));
    let long = "x".repeat(2500);
    let chunks = discord_payloads("t", &long).unwrap();
    assert_eq!(chunks.len(), 3);
    assert_eq!(chunks[0], "**[t]**\n");
    assert_eq!(chunks[1].len(), 2000);
    assert_eq!(chunks.concat(), format!("**[t]**\n{long}"));
}

#[test]
fn thread_not_found_detection() {
    assert!(is_thread_not_found("Telegram API error (400): {\"description\":\"Bad Request: message thread not found\",\"thread_not_found\"}"));
    assert!(!is_thread_not_found("Telegram API error (403): forbidden"));
}

#[test]
fn enabled_backend_detection() {
    assert!(matches!(enabled_backends(&Config::default()), Err(SendError::NoBackendsEnabled)));
    let c = Config {
        telegram: Some(TelegramConfig { enabled: false, bot_token: "a".into(), group_id: "1".into() }),
        discord_webhook: Some(DiscordWebhookConfig { enabled: true, url: "u".into() }),
        ntfy: None,
    };
    let e = enabled_backends(&c).ok().unwrap();
    assert!(!e.telegram && e.discord_webhook && !e.ntfy);
}

#[test]
fn delivery_outcomes() {
    let ds = vec![
        Delivery { backend: "telegram".into(), error: Some("boom".into()) },
        Delivery { backend: "ntfy".into(), error: None },
    ];
    let (warnings, result) = delivery_outcome(&ds);
    assert_eq!(warnings, vec!["telegram: boom".to_string()]);
    assert!(result.is_ok());
    let ds = vec![Delivery { backend: "ntfy".into(), error: Some("down".into()) }];
    let (warnings, result) = delivery_outcome(&ds);
    assert_eq!(warnings, vec!["ntfy: down".to_string()]);
    match result {
        Err(e) => assert_eq!(e.message(), "All backends failed."),
        Ok(()) => panic!("expected failure"),
    }
    assert!(SendError::NoBackendsEnabled.message().starts_with("No notification backends are enabled."));
}

fn sends(state: &TelegramDelivery) -> (usize, Option<i64>) {
    (state.next, state.thread_id)
}

#[test]
fn telegram_delivery_with_cached_topic() {
    let (s, a) = TelegramDelivery::start(Some(7), 3);
    assert!(matches!(a, TelegramAction::SendChunk { index: 0, thread_id: 7 }));
    let (s, a) = s.step(&TelegramEvent::Sent);
    assert!(matches!(a, TelegramAction::SendChunk { index: 1, thread_id: 7 }));
    let (s, a) = s.step(&TelegramEvent::Sent);
    assert!(matches!(a, TelegramAction::SendChunk { index: 2, thread_id: 7 }));
    assert_eq!(sends(&s), (2, Some(7)));
    let (_, a) = s.step(&TelegramEvent::Sent);
    assert!(matches!(a, TelegramAction::Done));
}

#[test]
fn telegram_delivery_creates_missing_topic() {
    let (s, a) = TelegramDelivery::start(None, 1);
    assert!(matches!(a, TelegramAction::CreateTopic { replace: false }));
    let (s, a) = s.step(&TelegramEvent::TopicReady(42));
    assert!(matches!(a, TelegramAction::SendChunk { index: 0, thread_id: 42 }));
    let (_, a) = s.step(&TelegramEvent::Sent);
    assert!(matches!(a, TelegramAction::Done));

    let (s, _) = TelegramDelivery::start(None, 1);
    let (_, a) = s.step(&TelegramEvent::Failed("Telegram API error (403)".to_string()));
    assert!(matches!(a, TelegramAction::Fail));
}

#[test]
fn telegram_delivery_recreates_deleted_topic_once() {
    let gone = "Telegram API error (400 Bad Request): message thread not found: thread_not_found";
    let (s, _) = TelegramDelivery::start(Some(5), 2);
    let (s, a) = s.step(&TelegramEvent::Failed(gone.to_string()));
    assert!(matches!(a, TelegramAction::CreateTopic { replace: true }));
    assert!(s.recreated);
    let (s, a) = s.step(&TelegramEvent::TopicReady(9));
    assert!(matches!(a, TelegramAction::SendChunk { index: 0, thread_id: 9 }));
    let (s2, a) = s.step(&TelegramEvent::Failed(gone.to_string()));
    assert!(matches!(a, TelegramAction::Fail));
    assert_eq!(sends(&s2), (0, Some(9)));
    let (s, a) = s.step(&TelegramEvent::Sent);
    assert!(matches!(a, TelegramAction::SendChunk { index: 1, thread_id: 9 }));
    let (_, a) = s.step(&TelegramEvent::Failed(gone.to_string()));
    assert!(matches!(a, TelegramAction::Fail));

    let (s, _) = TelegramDelivery::start(Some(5), 2);
    let (_, a) = s.step(&TelegramEvent::Failed("network down".to_string()));
    assert!(matches!(a, TelegramAction::Fail));
}

#[test]
fn each_chunk_is_cut_from_what_remains() {
    let text = format!("{}\n{}\n{}", "a".repeat(7), "b".repeat(12), "c".repeat(3));
    let max = 10;
    let cs = chunk_message(&text, max);
    assert_eq!(cs, vec!["aaaaaaa\n", "bbbbbbbbbb", "bb\nccc"]);
    for i in 0..cs.len() - 1 {
        let r = cs[i..].concat();
        assert!(r.len() > max);
        let expected = match r[..max].rfind('\n') {
            Some(k) => &r[..k + 1],
            None => &r[..max],
        };
        assert_eq!(cs[i], expected);
    }
}

#[test]
fn chunk_count_is_bounded_by_length() {
    for text in ["", "a", "abc\n", &"x".repeat(25), &"\n".repeat(9)] {
        for max in [1usize, 2, 3, 10] {
            let cs = chunk_message(text, max);
            assert!(cs.len() <= text.len().max(1), "{text:?} {max} {cs:?}");
            assert_eq!(cs.concat(), text);
        }
    }
    assert_eq!(chunk_message("abcd", 1), vec!["a", "b", "c", "d"]);
}
