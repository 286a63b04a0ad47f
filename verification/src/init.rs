//! Checks and defaults applied to the answers given during `pygmy init`.
use vstd::prelude::*;

use crate::config::{NtfyConfig, TelegramConfig};
use crate::text::{chars_of, decimal, push_decimal, starts_with, string_from_chars, trim, trim_spec};

verus! {

/// Why an answer during setup was refused.
pub enum InitError {
    EmptyBotToken,
    EmptyWebhookUrl,
    NotAWebhookUrl,
    EmptyServerUrl,
    EmptyTopic,
}

impl InitError {
    /// The message shown to the user.
    pub fn message(&self) -> (m: String)
        ensures
            m@ == match self {
                InitError::EmptyBotToken => "Bot token cannot be empty."@,
                InitError::EmptyWebhookUrl => "Webhook URL cannot be empty."@,
                InitError::NotAWebhookUrl => "That doesn't look like a Discord webhook URL.\nExpected: https://discord.com/api/webhooks/..."@,
                InitError::EmptyServerUrl => "Server URL cannot be empty."@,
                InitError::EmptyTopic => "Topic name cannot be empty."@,
            },
    {
        match self {
            InitError::EmptyBotToken => "Bot token cannot be empty.".to_owned(),
            InitError::EmptyWebhookUrl => "Webhook URL cannot be empty.".to_owned(),
            InitError::NotAWebhookUrl => "That doesn't look like a Discord webhook URL.\nExpected: https://discord.com/api/webhooks/...".to_owned(),
            InitError::EmptyServerUrl => "Server URL cannot be empty.".to_owned(),
            InitError::EmptyTopic => "Topic name cannot be empty.".to_owned(),
        }
    }
}

/// What a prompt returns for a typed line: the line without surrounding
/// whitespace.
pub fn answer(line: &str) -> (a: String)
    ensures
        a@ == trim_spec(line@),
{
    trim(line)
}

/// What a prompt with a default returns: the trimmed line, or the default
/// when that is empty.
pub fn answer_or_default(line: &str, default: &str) -> (a: String)
    ensures
        trim_spec(line@).len() == 0 ==> a@ == default@,
        trim_spec(line@).len() > 0 ==> a@ == trim_spec(line@),
{
    let t = trim(line);
    let n = chars_of(t.as_str()).len();
    if n == 0 {
        default.to_owned()
    } else {
        t
    }
}

/// Accepts a bot token unless it is empty.
pub fn check_bot_token(token: &str) -> (r: Result<(), InitError>)
    ensures
        token@.len() == 0 <==> r matches Err(InitError::EmptyBotToken),
        token@.len() > 0 <==> r is Ok,
{
    if chars_of(token).len() == 0 {
        Err(InitError::EmptyBotToken)
    } else {
        Ok(())
    }
}

/// Whether `s` begins with `p`.
pub open spec fn has_prefix(s: Seq<char>, p: Seq<char>) -> bool {
    p.len() <= s.len() && s.take(p.len() as int) == p
}

/// Accepts a Discord webhook URL: not empty, and under
/// `https://discord.com/api/webhooks/` or `https://discordapp.com/api/webhooks/`.
pub fn check_webhook_url(url: &str) -> (r: Result<(), InitError>)
    ensures
        url@.len() == 0 ==> r matches Err(InitError::EmptyWebhookUrl),
        url@.len() > 0 && !has_prefix(url@, "https://discord.com/api/webhooks/"@) && !has_prefix(
            url@,
            "https://discordapp.com/api/webhooks/"@,
        ) ==> r matches Err(InitError::NotAWebhookUrl),
        url@.len() > 0 && (has_prefix(url@, "https://discord.com/api/webhooks/"@) || has_prefix(
            url@,
            "https://discordapp.com/api/webhooks/"@,
        )) ==> r is Ok,
{
    if chars_of(url).len() == 0 {
        return Err(InitError::EmptyWebhookUrl);
    }
    if !starts_with(url, "https://discord.com/api/webhooks/") && !starts_with(
        url,
        "https://discordapp.com/api/webhooks/",
    ) {
        return Err(InitError::NotAWebhookUrl);
    }
    Ok(())
}

/// An ntfy configuration from the setup answers (server, topic and token
/// already trimmed): server and topic must not be empty, and an empty token
/// means none. The backend starts enabled.
pub fn ntfy_config_from_answers(server: &str, topic: &str, token: &str) -> (r: Result<NtfyConfig, InitError>)
    ensures
        server@.len() == 0 ==> r matches Err(InitError::EmptyServerUrl),
        server@.len() > 0 && topic@.len() == 0 ==> r matches Err(InitError::EmptyTopic),
        server@.len() > 0 && topic@.len() > 0 ==> (r matches Ok(c) && c.enabled && c.server@
            == server@ && c.topic@ == topic@ && (token@.len() == 0 ==> c.token is None) && (
        token@.len() > 0 ==> (c.token matches Some(t) && t@ == token@))),
{
    if chars_of(server).len() == 0 {
        return Err(InitError::EmptyServerUrl);
    }
    if chars_of(topic).len() == 0 {
        return Err(InitError::EmptyTopic);
    }
    let tok = if chars_of(token).len() == 0 {
        None
    } else {
        Some(token.to_owned())
    };
    Ok(NtfyConfig { enabled: true, server: server.to_owned(), topic: topic.to_owned(), token: tok })
}

/// Decimal notation of a signed integer.
pub open spec fn signed_decimal(n: int) -> Seq<char> {
    if n < 0 {
        seq!['-'] + decimal((-n) as nat)
    } else {
        decimal(n as nat)
    }
}

/// The decimal text of `n`, as `i64::to_string` writes it.
pub fn i64_to_decimal(n: i64) -> (s: String)
    ensures
        s@ == signed_decimal(n as int),
{
    let mut v: Vec<char> = Vec::new();
    let magnitude: u64 = if n < 0 {
        v.push('-');
        (0i128 - n as i128) as u64
    } else {
        n as u64
    };
    push_decimal(&mut v, magnitude);
    string_from_chars(v.as_slice())
}

/// The Telegram configuration saved after setup: enabled, with the bot
/// token and the chosen group's id in decimal.
pub fn telegram_config(bot_token: &str, group_id: i64) -> (c: TelegramConfig)
    ensures
        c.enabled,
        c.bot_token@ == bot_token@,
        c.group_id@ == signed_decimal(group_id as int),
{
    TelegramConfig { enabled: true, bot_token: bot_token.to_owned(), group_id: i64_to_decimal(group_id) }
}

} // verus!
