//! The compact command reference printed by `pygmy usage`.
use vstd::prelude::*;

use crate::text::{push_str, string_from_chars};
use crate::version_check::{is_newer, newer_spec, semver_newer};

verus! {

/// The reference text between the version and the configuration directory.
pub const USAGE_HEAD: &'static str = " — notifications from AI agents

USAGE
  pygmy --topic <TOPIC> <MESSAGE>           Send to all enabled backends
  pygmy --topic <TOPIC> --stdin             Read message from stdin
  echo \"...\" | pygmy --topic <TOPIC>        Pipe message from stdin
  pygmy init telegram                       Set up Telegram bot + channel
  pygmy init discord-webhook                Set up Discord webhook
  pygmy init ntfy                           Set up ntfy push notifications
  pygmy enable <BACKEND>                    Enable a configured backend
  pygmy disable <BACKEND>                   Disable a configured backend
  pygmy status                              Show configured backends
  pygmy self update                         Update to latest version
  pygmy self update --check                 Check for updates without installing
  pygmy usage                               Show this reference

OPTIONS
  --topic <NAME>   Topic name (Telegram/Discord message prefix / ntfy title)

BACKENDS
  telegram         Telegram Bot API with channel (requires bot + channel)
  discord-webhook  Discord webhook (just a URL, messages prefixed with [topic])
  ntfy             ntfy push notifications (topic + optional token, title = pygmy topic)

MESSAGES
  Messages are parsed as Markdown.
  Telegram: converted to HTML (bold, italic, code, links, blockquotes, lists).
  Discord: sent as-is (Discord renders Markdown natively).
  ntfy: sent as Markdown (rendered in web app; mobile shows raw text).
  Long messages are automatically split (4096 for Telegram/ntfy, 2000 for Discord).

CONFIG
  ";

/// The reference text after the configuration directory.
pub const USAGE_TAIL: &'static str = "/config.toml       Backend credentials and enabled/disabled state

SETUP
  Run `pygmy init telegram`, `pygmy init discord-webhook`, or `pygmy init ntfy` for guided setup.
  You can configure multiple — messages are sent to all enabled backends.
";

/// The command reference for a version and configuration directory.
pub fn usage_text(version: &str, config_dir: &str) -> (t: String)
    ensures
        t@ == "pygmy "@ + version@ + USAGE_HEAD@ + config_dir@ + USAGE_TAIL@,
{
    let mut v: Vec<char> = Vec::new();
    push_str(&mut v, "pygmy ");
    push_str(&mut v, version);
    push_str(&mut v, USAGE_HEAD);
    push_str(&mut v, config_dir);
    push_str(&mut v, USAGE_TAIL);
    string_from_chars(v.as_slice())
}

/// The update hint shown under the reference: only for release builds,
/// when the cached latest version is newer than the running one.
pub fn update_hint(is_dev: bool, current: &str, cached_latest: Option<&str>) -> (h: Option<String>)
    ensures
        match cached_latest {
            Some(l) => if !is_dev && newer_spec(current@, l@, semver_newer(current@, l@)) {
                h matches Some(s) && s@ == "Update available: "@ + current@ + " → "@ + l@
                    + "\nRun `pygmy self update` to upgrade.\n"@
            } else {
                h is None
            },
            None => h is None,
        },
{
    if is_dev {
        return None;
    }
    match cached_latest {
        Some(l) => {
            if is_newer(current, l) {
                let mut v: Vec<char> = Vec::new();
                push_str(&mut v, "Update available: ");
                push_str(&mut v, current);
                push_str(&mut v, " → ");
                push_str(&mut v, l);
                push_str(&mut v, "\nRun `pygmy self update` to upgrade.\n");
                Some(string_from_chars(v.as_slice()))
            } else {
                None
            }
        },
        None => None,
    }
}

} // verus!
