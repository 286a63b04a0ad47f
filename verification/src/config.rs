//! Configuration model: backend settings, where files live, enabling and
//! disabling backends, and the cache of Telegram forum topics.
use vstd::prelude::*;

use crate::text::{chars_of, push_str, str_eq, string_from_chars};

verus! {

/// Telegram bot credentials and the group that receives messages.
pub struct TelegramConfig {
    pub enabled: bool,
    pub bot_token: String,
    pub group_id: String,
}

/// A Discord webhook.
pub struct DiscordWebhookConfig {
    pub enabled: bool,
    pub url: String,
}

/// An ntfy server, topic and optional access token.
pub struct NtfyConfig {
    pub enabled: bool,
    pub server: String,
    pub topic: String,
    pub token: Option<String>,
}

/// All configured backends; an absent backend is not configured.
pub struct Config {
    pub telegram: Option<TelegramConfig>,
    pub discord_webhook: Option<DiscordWebhookConfig>,
    pub ntfy: Option<NtfyConfig>,
}

impl Default for Config {
    /// No backend configured.
    fn default() -> (c: Config)
        ensures
            c.telegram is None,
            c.discord_webhook is None,
            c.ntfy is None,
    {
        Config { telegram: None, discord_webhook: None, ntfy: None }
    }
}

/// `base` joined with the relative component `comp`, as a Unix path: a
/// `/` goes between them unless `base` is empty or already ends in `/`.
pub open spec fn path_join(base: Seq<char>, comp: Seq<char>) -> Seq<char> {
    if base.len() == 0 {
        comp
    } else if base.last() == '/' {
        base + comp
    } else {
        base + seq!['/'] + comp
    }
}

/// Joins the relative component `comp` onto `base`.
pub fn join_path(base: &str, comp: &str) -> (p: String)
    ensures
        p@ == path_join(base@, comp@),
{
    let mut v = chars_of(base);
    let n = v.len();
    if n > 0 && v[n - 1] != '/' {
        v.push('/');
    }
    push_str(&mut v, comp);
    string_from_chars(v.as_slice())
}

/// The application directory under an XDG base directory, or else under
/// `home` joined with `fallback`.
pub open spec fn app_dir_spec(xdg: Option<Seq<char>>, home: Option<Seq<char>>, fallback: Seq<char>) -> Option<
    Seq<char>,
> {
    match xdg {
        Some(x) => Some(path_join(x, "pygmy"@)),
        None => match home {
            Some(h) => Some(path_join(path_join(h, fallback), "pygmy"@)),
            None => None,
        },
    }
}

/// The view of an optional string.
pub open spec fn opt_view(s: Option<&str>) -> Option<Seq<char>> {
    match s {
        Some(x) => Some(x@),
        None => None,
    }
}

/// The view of an optional owned string.
pub open spec fn opt_string_view(s: Option<String>) -> Option<Seq<char>> {
    match s {
        Some(x) => Some(x@),
        None => None,
    }
}

fn app_dir(xdg: Option<&str>, home: Option<&str>, fallback: &str) -> (d: Option<String>)
    ensures
        opt_string_view(d) == app_dir_spec(opt_view(xdg), opt_view(home), fallback@),
{
    match xdg {
        Some(x) => Some(join_path(x, "pygmy")),
        None => match home {
            Some(h) => {
                let base = join_path(h, fallback);
                Some(join_path(base.as_str(), "pygmy"))
            },
            None => None,
        },
    }
}

/// The configuration directory: `$XDG_CONFIG_HOME/pygmy`, or else
/// `<home>/.config/pygmy`; none when neither is known.
pub fn config_dir(xdg_config_home: Option<&str>, home: Option<&str>) -> (d: Option<String>)
    ensures
        opt_string_view(d) == app_dir_spec(opt_view(xdg_config_home), opt_view(home), ".config"@),
{
    app_dir(xdg_config_home, home, ".config")
}

/// The cache directory: `$XDG_CACHE_HOME/pygmy`, or else
/// `<home>/.cache/pygmy`; none when neither is known.
pub fn cache_dir(xdg_cache_home: Option<&str>, home: Option<&str>) -> (d: Option<String>)
    ensures
        opt_string_view(d) == app_dir_spec(opt_view(xdg_cache_home), opt_view(home), ".cache"@),
{
    app_dir(xdg_cache_home, home, ".cache")
}

/// `dir` joined with `file`, when there is a directory.
pub open spec fn file_in(dir: Option<Seq<char>>, file: Seq<char>) -> Option<Seq<char>> {
    match dir {
        Some(d) => Some(path_join(d, file)),
        None => None,
    }
}

/// The configuration file, `config.toml` in the configuration directory.
pub fn config_path(xdg_config_home: Option<&str>, home: Option<&str>) -> (p: Option<String>)
    ensures
        opt_string_view(p) == file_in(
            app_dir_spec(opt_view(xdg_config_home), opt_view(home), ".config"@),
            "config.toml"@,
        ),
{
    match config_dir(xdg_config_home, home) {
        Some(d) => Some(join_path(d.as_str(), "config.toml")),
        None => None,
    }
}

/// The topics cache file, `topics.toml` in the cache directory.
pub fn topics_path(xdg_cache_home: Option<&str>, home: Option<&str>) -> (p: Option<String>)
    ensures
        opt_string_view(p) == file_in(
            app_dir_spec(opt_view(xdg_cache_home), opt_view(home), ".cache"@),
            "topics.toml"@,
        ),
{
    match cache_dir(xdg_cache_home, home) {
        Some(d) => Some(join_path(d.as_str(), "topics.toml")),
        None => None,
    }
}

/// A directory for display, with a fixed fallback when it is unknown.
pub open spec fn display_or(dir: Option<Seq<char>>, fallback: Seq<char>) -> Seq<char> {
    match dir {
        Some(d) => d,
        None => fallback,
    }
}

/// The configuration directory for display; `~/.config/pygmy` when it
/// cannot be determined.
pub fn config_dir_display(xdg_config_home: Option<&str>, home: Option<&str>) -> (s: String)
    ensures
        s@ == display_or(
            app_dir_spec(opt_view(xdg_config_home), opt_view(home), ".config"@),
            "~/.config/pygmy"@,
        ),
{
    match config_dir(xdg_config_home, home) {
        Some(d) => d,
        None => "~/.config/pygmy".to_owned(),
    }
}

/// The cache directory for display; `~/.cache/pygmy` when it cannot be
/// determined.
pub fn cache_dir_display(xdg_cache_home: Option<&str>, home: Option<&str>) -> (s: String)
    ensures
        s@ == display_or(
            app_dir_spec(opt_view(xdg_cache_home), opt_view(home), ".cache"@),
            "~/.cache/pygmy"@,
        ),
{
    match cache_dir(xdg_cache_home, home) {
        Some(d) => d,
        None => "~/.cache/pygmy".to_owned(),
    }
}

/// Why enabling or disabling a backend was refused.
pub enum ConfigError {
    TelegramNotConfigured,
    DiscordWebhookNotConfigured,
    NtfyNotConfigured,
    UnknownBackend(String),
}

impl ConfigError {
    /// The message shown to the user.
    pub fn message(&self) -> (m: String)
        ensures
            m@ == match self {
                ConfigError::TelegramNotConfigured =>
                    "Telegram is not configured. Run `pygmy init telegram` first."@,
                ConfigError::DiscordWebhookNotConfigured =>
                    "Discord webhook is not configured. Run `pygmy init discord-webhook` first."@,
                ConfigError::NtfyNotConfigured =>
                    "ntfy is not configured. Run `pygmy init ntfy` first."@,
                ConfigError::UnknownBackend(b) => "Unknown backend: "@ + b@
                    + "\nAvailable: telegram, discord-webhook, ntfy"@,
            },
    {
        match self {
            ConfigError::TelegramNotConfigured => {
                "Telegram is not configured. Run `pygmy init telegram` first.".to_owned()
            },
            ConfigError::DiscordWebhookNotConfigured => {
                "Discord webhook is not configured. Run `pygmy init discord-webhook` first.".to_owned()
            },
            ConfigError::NtfyNotConfigured => {
                "ntfy is not configured. Run `pygmy init ntfy` first.".to_owned()
            },
            ConfigError::UnknownBackend(b) => {
                let mut v: Vec<char> = Vec::new();
                push_str(&mut v, "Unknown backend: ");
                push_str(&mut v, b.as_str());
                push_str(&mut v, "\nAvailable: telegram, discord-webhook, ntfy");
                string_from_chars(v.as_slice())
            },
        }
    }
}

/// Sets the `enabled` flag of the named backend (`telegram`,
/// `discord-webhook` or `ntfy`). Nothing changes when the backend is not
/// configured or the name is unknown; the error says which.
pub fn toggle_backend(cfg: &mut Config, backend: &str, enable: bool) -> (r: Result<(), ConfigError>)
    ensures
        backend@ == "telegram"@ ==> match old(cfg).telegram {
            Some(t) => r is Ok && final(cfg).telegram == Some(TelegramConfig { enabled: enable, ..t })
                && final(cfg).discord_webhook == old(cfg).discord_webhook && final(cfg).ntfy == old(
                cfg,
            ).ntfy,
            None => r matches Err(ConfigError::TelegramNotConfigured) && *final(cfg) == *old(cfg),
        },
        backend@ == "discord-webhook"@ ==> match old(cfg).discord_webhook {
            Some(d) => r is Ok && final(cfg).discord_webhook == Some(
                DiscordWebhookConfig { enabled: enable, ..d },
            ) && final(cfg).telegram == old(cfg).telegram && final(cfg).ntfy == old(cfg).ntfy,
            None => r matches Err(ConfigError::DiscordWebhookNotConfigured) && *final(cfg) == *old(
                cfg,
            ),
        },
        backend@ == "ntfy"@ ==> match old(cfg).ntfy {
            Some(n) => r is Ok && final(cfg).ntfy == Some(NtfyConfig { enabled: enable, ..n })
                && final(cfg).telegram == old(cfg).telegram && final(cfg).discord_webhook == old(
                cfg,
            ).discord_webhook,
            None => r matches Err(ConfigError::NtfyNotConfigured) && *final(cfg) == *old(cfg),
        },
        backend@ != "telegram"@ && backend@ != "discord-webhook"@ && backend@ != "ntfy"@ ==> (r matches Err(
            ConfigError::UnknownBackend(name),
        ) && name@ == backend@ && *final(cfg) == *old(cfg)),
{
    proof {
        reveal_strlit("telegram");
        reveal_strlit("discord-webhook");
        reveal_strlit("ntfy");
        assert("telegram"@.len() == 8);
        assert("discord-webhook"@.len() == 15);
        assert("ntfy"@.len() == 4);
    }
    if str_eq(backend, "telegram") {
        match &mut cfg.telegram {
            Some(t) => {
                t.enabled = enable;
                Ok(())
            },
            None => Err(ConfigError::TelegramNotConfigured),
        }
    } else if str_eq(backend, "discord-webhook") {
        match &mut cfg.discord_webhook {
            Some(d) => {
                d.enabled = enable;
                Ok(())
            },
            None => Err(ConfigError::DiscordWebhookNotConfigured),
        }
    } else if str_eq(backend, "ntfy") {
        match &mut cfg.ntfy {
            Some(n) => {
                n.enabled = enable;
                Ok(())
            },
            None => Err(ConfigError::NtfyNotConfigured),
        }
    } else {
        Err(ConfigError::UnknownBackend(backend.to_owned()))
    }
}

/// No topic name occurs twice.
pub open spec fn keys_distinct(e: Seq<(String, i64)>) -> bool {
    forall|i: int, j: int| 0 <= i < j < e.len() ==> e[i].0@ != e[j].0@
}

/// The map from topic names to thread ids that a list of entries denotes;
/// a later entry for a name overrides an earlier one.
pub open spec fn entries_map(e: Seq<(String, i64)>) -> Map<Seq<char>, i64>
    decreases e.len(),
{
    if e.len() == 0 {
        Map::empty()
    } else {
        entries_map(e.drop_last()).insert(e.last().0@, e.last().1)
    }
}

proof fn lemma_entries_map_dom(e: Seq<(String, i64)>, k: Seq<char>)
    ensures
        entries_map(e).contains_key(k) <==> exists|i: int| 0 <= i < e.len() && e[i].0@ == k,
    decreases e.len(),
{
    if e.len() > 0 {
        lemma_entries_map_dom(e.drop_last(), k);
        if entries_map(e.drop_last()).contains_key(k) {
            let i = choose|i: int| 0 <= i < e.len() - 1 && e.drop_last()[i].0@ == k;
            assert(e[i].0@ == k);
        }
        if exists|i: int| 0 <= i < e.len() && e[i].0@ == k {
            let i = choose|i: int| 0 <= i < e.len() && e[i].0@ == k;
            if i < e.len() - 1 {
                assert(e.drop_last()[i].0@ == k);
            }
        }
    }
}

proof fn lemma_entries_map_at(e: Seq<(String, i64)>, i: int)
    requires
        keys_distinct(e),
        0 <= i < e.len(),
    ensures
        entries_map(e).contains_key(e[i].0@),
        entries_map(e)[e[i].0@] == e[i].1,
    decreases e.len(),
{
    if i < e.len() - 1 {
        assert(keys_distinct(e.drop_last()));
        assert(e.drop_last()[i] == e[i]);
        lemma_entries_map_at(e.drop_last(), i);
        assert(e.last().0@ != e[i].0@);
    }
}

proof fn lemma_entries_map_update(e: Seq<(String, i64)>, i: int, x: (String, i64))
    requires
        keys_distinct(e),
        0 <= i < e.len(),
        x.0@ == e[i].0@,
    ensures
        keys_distinct(e.update(i, x)),
        entries_map(e.update(i, x)) == entries_map(e).insert(x.0@, x.1),
    decreases e.len(),
{
    let u = e.update(i, x);
    assert(keys_distinct(u)) by {
        assert forall|a: int, b: int| 0 <= a < b < u.len() implies u[a].0@ != u[b].0@ by {
            assert(e[a].0@ != e[b].0@);
        }
    }
    if i == e.len() - 1 {
        assert(u.drop_last() =~= e.drop_last());
        assert(entries_map(u) =~= entries_map(e).insert(x.0@, x.1));
    } else {
        assert(keys_distinct(e.drop_last()));
        lemma_entries_map_update(e.drop_last(), i, x);
        assert(u.drop_last() =~= e.drop_last().update(i, x));
        assert(e.last().0@ != x.0@);
        assert(entries_map(u) =~= entries_map(e).insert(x.0@, x.1));
    }
}

proof fn lemma_entries_map_remove(e: Seq<(String, i64)>, i: int)
    requires
        keys_distinct(e),
        0 <= i < e.len(),
    ensures
        keys_distinct(e.remove(i)),
        entries_map(e.remove(i)) == entries_map(e).remove(e[i].0@),
    decreases e.len(),
{
    let r = e.remove(i);
    let k = e[i].0@;
    assert(keys_distinct(r)) by {
        assert forall|a: int, b: int| 0 <= a < b < r.len() implies r[a].0@ != r[b].0@ by {
            let a2 = if a < i {
                a
            } else {
                a + 1
            };
            let b2 = if b < i {
                b
            } else {
                b + 1
            };
            assert(r[a] == e[a2]);
            assert(r[b] == e[b2]);
        }
    }
    if i == e.len() - 1 {
        assert(r =~= e.drop_last());
        assert forall|j: int| 0 <= j < r.len() implies r[j].0@ != k by {
            assert(e[j].0@ != e[i].0@);
        }
        lemma_entries_map_dom(r, k);
        assert(entries_map(r) =~= entries_map(e).remove(k));
    } else {
        assert(keys_distinct(e.drop_last()));
        lemma_entries_map_remove(e.drop_last(), i);
        assert(r.drop_last() =~= e.drop_last().remove(i));
        assert(r.last() == e.last());
        assert(e.last().0@ != k);
        assert(entries_map(r) =~= entries_map(e).remove(k));
    }
}

/// Forum topic ids by topic name, as cached between runs.
pub struct TopicsCache {
    entries: Vec<(String, i64)>,
}

impl View for TopicsCache {
    type V = Map<Seq<char>, i64>;

    closed spec fn view(&self) -> Map<Seq<char>, i64> {
        entries_map(self.entries@)
    }
}

impl TopicsCache {
    #[verifier::type_invariant]
    spec fn wf(self) -> bool {
        keys_distinct(self.entries@)
    }

    /// An empty cache.
    pub fn new() -> (c: TopicsCache)
        ensures
            c@ == Map::<Seq<char>, i64>::empty(),
    {
        TopicsCache { entries: Vec::new() }
    }

    fn find(&self, topic: &str) -> (r: Option<usize>)
        ensures
            match r {
                Some(i) => i < self.entries@.len() && self.entries@[i as int].0@ == topic@,
                None => forall|i: int| 0 <= i < self.entries@.len() ==> self.entries@[i].0@ != topic@,
            },
    {
        let mut i: usize = 0;
        while i < self.entries.len()
            invariant
                i <= self.entries@.len(),
                forall|j: int| 0 <= j < i ==> self.entries@[j].0@ != topic@,
            decreases self.entries.len() - i,
        {
            if str_eq(self.entries[i].0.as_str(), topic) {
                return Some(i);
            }
            i = i + 1;
        }
        None
    }

    /// The thread id cached for `topic`, if any.
    pub fn get(&self, topic: &str) -> (r: Option<i64>)
        ensures
            r == cached_id(self@, topic@),
    {
        proof {
            use_type_invariant(self);
            lemma_entries_map_dom(self.entries@, topic@);
        }
        match self.find(topic) {
            Some(i) => {
                proof {
                    lemma_entries_map_at(self.entries@, i as int);
                }
                Some(self.entries[i].1)
            },
            None => None,
        }
    }

    /// Caches `id` for `topic`, replacing any earlier id.
    pub fn insert(&mut self, topic: &str, id: i64)
        ensures
            final(self)@ == old(self)@.insert(topic@, id),
    {
        proof {
            use_type_invariant(&*self);
        }
        let key = topic.to_owned();
        match self.find(topic) {
            Some(i) => {
                let ghost e = self.entries@;
                proof {
                    lemma_entries_map_update(e, i as int, (key, id));
                }
                let mut entries: Vec<(String, i64)> = Vec::new();
                std::mem::swap(&mut entries, &mut self.entries);
                entries.set(i, (key, id));
                assert(entries@ == e.update(i as int, (key, id)));
                self.entries = entries;
            },
            None => {
                let ghost e = self.entries@;
                let mut entries: Vec<(String, i64)> = Vec::new();
                std::mem::swap(&mut entries, &mut self.entries);
                entries.push((key, id));
                assert(entries@.drop_last() =~= e);
                assert(keys_distinct(entries@)) by {
                    assert forall|a: int, b: int|
                        0 <= a < b < entries@.len() implies entries@[a].0@ != entries@[b].0@ by {
                        if b == entries@.len() - 1 {
                            assert(e[a].0@ != topic@);
                        } else {
                            assert(e[a].0@ != e[b].0@);
                        }
                    }
                }
                self.entries = entries;
            },
        }
    }

    /// Forgets the id cached for `topic`, if any.
    pub fn remove(&mut self, topic: &str)
        ensures
            final(self)@ == old(self)@.remove(topic@),
    {
        proof {
            use_type_invariant(&*self);
            lemma_entries_map_dom(self.entries@, topic@);
        }
        match self.find(topic) {
            Some(i) => {
                let ghost e = self.entries@;
                proof {
                    lemma_entries_map_remove(e, i as int);
                }
                let mut entries: Vec<(String, i64)> = Vec::new();
                std::mem::swap(&mut entries, &mut self.entries);
                entries.remove(i);
                self.entries = entries;
            },
            None => {
                assert(old(self)@.remove(topic@) =~= old(self)@);
            },
        }
    }

    /// A cache holding the given entries; a later entry for a name wins.
    pub fn from_entries(entries: Vec<(String, i64)>) -> (c: TopicsCache)
        ensures
            c@ == entries_map(entries@),
    {
        let mut c = TopicsCache::new();
        let mut i: usize = 0;
        while i < entries.len()
            invariant
                i <= entries.len(),
                c@ == entries_map(entries@.take(i as int)),
            decreases entries.len() - i,
        {
            assert(entries@.take(i + 1).drop_last() =~= entries@.take(i as int));
            c.insert(entries[i].0.as_str(), entries[i].1);
            i = i + 1;
        }
        assert(entries@.take(entries.len() as int) =~= entries@);
        c
    }

    /// All entries, each topic name once.
    pub fn entries(&self) -> (r: Vec<(String, i64)>)
        ensures
            keys_distinct(r@),
            entries_map(r@) == self@,
    {
        proof {
            use_type_invariant(self);
        }
        let mut r: Vec<(String, i64)> = Vec::new();
        let mut i: usize = 0;
        while i < self.entries.len()
            invariant
                i <= self.entries@.len(),
                keys_distinct(self.entries@),
                r@.len() == i,
                forall|j: int| 0 <= j < i ==> r@[j].0@ == self.entries@[j].0@ && r@[j].1 == self.entries@[j].1,
                entries_map(r@) == entries_map(self.entries@.take(i as int)),
            decreases self.entries.len() - i,
        {
            let name = self.entries[i].0.clone();
            let ghost before = r@;
            r.push((name, self.entries[i].1));
            assert(r@.drop_last() =~= before);
            assert(self.entries@.take(i + 1).drop_last() =~= self.entries@.take(i as int));
            i = i + 1;
        }
        assert(self.entries@.take(self.entries.len() as int) =~= self.entries@);
        r
    }
}

/// The thread id a cache view holds for `topic`, if any.
pub open spec fn cached_id(m: Map<Seq<char>, i64>, topic: Seq<char>) -> Option<i64> {
    if m.contains_key(topic) {
        Some(m[topic])
    } else {
        None
    }
}

/// Law: after `insert(topic, id)` a lookup of `topic` gives `id`; after
/// `remove(topic)` it gives nothing; either leaves every other name's
/// lookup as it was.
pub proof fn lemma_topics_cache_lookup(c: TopicsCache, topic: Seq<char>, other: Seq<char>, id: i64)
    requires
        other != topic,
    ensures
        cached_id(c@.insert(topic, id), topic) == Some(id),
        cached_id(c@.remove(topic), topic) == None::<i64>,
        cached_id(c@.insert(topic, id), other) == cached_id(c@, other),
        cached_id(c@.remove(topic), other) == cached_id(c@, other),
{
}

/// How a backend shows in `pygmy status`.
pub enum BackendState {
    /// Configured and enabled, with a short description.
    Enabled(String),
    Disabled,
    NotConfigured,
}

/// A backend's name and state.
pub struct BackendStatus {
    pub name: String,
    pub state: BackendState,
}

/// The state of a backend from its configuration and description.
pub open spec fn state_of(configured: bool, enabled: bool, detail: Seq<char>, s: BackendState) -> bool {
    if !configured {
        s is NotConfigured
    } else if !enabled {
        s is Disabled
    } else {
        s matches BackendState::Enabled(d) && d@ == detail
    }
}

/// The status lines of `pygmy status`, in the order telegram,
/// discord-webhook, ntfy: enabled backends with their group, webhook or
/// topic and server; disabled ones; ones not configured.
pub fn backend_status(cfg: &Config) -> (st: Vec<BackendStatus>)
    ensures
        st@.len() == 3,
        st@[0].name@ == "telegram"@,
        st@[1].name@ == "discord-webhook"@,
        st@[2].name@ == "ntfy"@,
        state_of(
            cfg.telegram is Some,
            cfg.telegram matches Some(t) && t.enabled,
            match cfg.telegram {
                Some(t) => "group: "@ + t.group_id@,
                None => seq![],
            },
            st@[0].state,
        ),
        state_of(
            cfg.discord_webhook is Some,
            cfg.discord_webhook matches Some(d) && d.enabled,
            "webhook configured"@,
            st@[1].state,
        ),
        state_of(
            cfg.ntfy is Some,
            cfg.ntfy matches Some(n) && n.enabled,
            match cfg.ntfy {
                Some(n) => "topic: "@ + n.topic@ + ", server: "@ + n.server@,
                None => seq![],
            },
            st@[2].state,
        ),
{
    let telegram = match &cfg.telegram {
        Some(t) => if t.enabled {
            BackendState::Enabled(crate::text::concat2("group: ", t.group_id.as_str()))
        } else {
            BackendState::Disabled
        },
        None => BackendState::NotConfigured,
    };
    let discord = match &cfg.discord_webhook {
        Some(d) => if d.enabled {
            BackendState::Enabled("webhook configured".to_owned())
        } else {
            BackendState::Disabled
        },
        None => BackendState::NotConfigured,
    };
    let ntfy = match &cfg.ntfy {
        Some(n) => if n.enabled {
            let mut v: Vec<char> = Vec::new();
            push_str(&mut v, "topic: ");
            push_str(&mut v, n.topic.as_str());
            push_str(&mut v, ", server: ");
            push_str(&mut v, n.server.as_str());
            BackendState::Enabled(string_from_chars(v.as_slice()))
        } else {
            BackendState::Disabled
        },
        None => BackendState::NotConfigured,
    };
    let mut st: Vec<BackendStatus> = Vec::new();
    st.push(BackendStatus { name: "telegram".to_owned(), state: telegram });
    st.push(BackendStatus { name: "discord-webhook".to_owned(), state: discord });
    st.push(BackendStatus { name: "ntfy".to_owned(), state: ntfy });
    st
}

} // verus!
