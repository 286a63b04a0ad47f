# pygmy

`pygmy` sends notifications from AI coding agents to Telegram (forum
topics), Discord (webhooks) and ntfy. Messages are Markdown: Telegram gets
HTML, Discord gets Markdown with tables redrawn as aligned code blocks, ntfy
gets the text as it is. Long messages are cut into pieces each backend
accepts.

## Layout

- `src/` — the library, verified with Verus:
  - `markdown.rs`: Markdown to Telegram HTML and to Discord Markdown, driven
    by pulldown-cmark's events; HTML escaping; table rendering.
  - `send.rs`: splitting messages into backend-sized chunks, the Telegram
    delivery protocol (topic creation and the one-time re-creation of a
    deleted topic), and the overall outcome of a send.
  - `config.rs`: the configuration model, file locations, enabling and
    disabling backends, the topic cache, `pygmy status` lines.
  - `version_check.rs`, `self_update.rs`: the cached latest release,
    version comparison (semver), release URLs, what `pygmy self update` does.
  - `telegram.rs`, `ntfy.rs`, `init.rs`, `cli.rs`, `usage.rs`: Bot API
    addresses and group discovery, ntfy addresses, setup answers, command
    line checks, the command reference.
  - `text.rs`: character-level helpers.
- `tests/` — tests of the library.
- `app/` — the `pygmy` program: command line, files, HTTP, prompts.
