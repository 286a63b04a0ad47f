//! Telegram Bot API addresses, the parts of `getUpdates` replies that setup
//! reads, and choosing the group to notify.
use vstd::prelude::*;

use crate::text::{chars_of, push_str, str_eq, string_from_chars};

verus! {

/// A Telegram chat.
pub struct Chat {
    pub id: i64,
    pub title: Option<String>,
    pub chat_type: String,
}

/// A message; only its chat is read.
pub struct Message {
    pub chat: Chat,
}

/// A change of the bot's membership in a chat; only the chat is read.
pub struct ChatMemberUpdated {
    pub chat: Chat,
}

/// One entry of a `getUpdates` reply.
pub struct Update {
    pub message: Option<Message>,
    pub channel_post: Option<Message>,
    pub my_chat_member: Option<ChatMemberUpdated>,
}

/// The Bot API address of `method` for the bot with `token`.
pub open spec fn bot_url_spec(token: Seq<char>, method: Seq<char>) -> Seq<char> {
    "https://api.telegram.org"@ + "/bot"@ + token + "/"@ + method
}

/// The Bot API address of `method` for the bot with `token`.
pub fn bot_url(token: &str, method: &str) -> (u: String)
    ensures
        u@ == bot_url_spec(token@, method@),
{
    let mut v: Vec<char> = Vec::new();
    push_str(&mut v, "https://api.telegram.org");
    push_str(&mut v, "/bot");
    push_str(&mut v, token);
    push_str(&mut v, "/");
    push_str(&mut v, method);
    string_from_chars(v.as_slice())
}

/// A group or supergroup chat.
pub open spec fn is_group_chat(c: Chat) -> bool {
    c.chat_type@ == "group"@ || c.chat_type@ == "supergroup"@
}

/// A chat's title, `Untitled` when it has none.
pub open spec fn chat_title(c: Chat) -> Seq<char> {
    match c.title {
        Some(t) => t@,
        None => "Untitled"@,
    }
}

/// Whether a group with this id is already listed.
pub open spec fn has_id(groups: Seq<(i64, Seq<char>)>, id: i64) -> bool {
    exists|i: int| 0 <= i < groups.len() && groups[i].0 == id
}

/// Lists the chat if it is a group not listed yet.
pub open spec fn add_chat(groups: Seq<(i64, Seq<char>)>, c: Chat) -> Seq<(i64, Seq<char>)> {
    if is_group_chat(c) && !has_id(groups, c.id) {
        groups.push((c.id, chat_title(c)))
    } else {
        groups
    }
}

/// Lists the groups an update mentions: the chat of its message, then the
/// chat of its membership change (channel posts are not looked at).
pub open spec fn add_update(groups: Seq<(i64, Seq<char>)>, u: Update) -> Seq<(i64, Seq<char>)> {
    let g = match u.message {
        Some(m) => add_chat(groups, m.chat),
        None => groups,
    };
    match u.my_chat_member {
        Some(m) => add_chat(g, m.chat),
        None => g,
    }
}

/// The groups the updates mention, in order of first mention, each once.
pub open spec fn groups_of(updates: Seq<Update>) -> Seq<(i64, Seq<char>)>
    decreases updates.len(),
{
    if updates.len() == 0 {
        seq![]
    } else {
        add_update(groups_of(updates.drop_last()), updates.last())
    }
}

/// Group ids with titles, as plain values.
pub open spec fn groups_view(g: Seq<(i64, String)>) -> Seq<(i64, Seq<char>)> {
    g.map_values(|p: (i64, String)| (p.0, p.1@))
}

fn add_chat_exec(groups: &mut Vec<(i64, String)>, c: &Chat)
    ensures
        groups_view(final(groups)@) == add_chat(groups_view(old(groups)@), *c),
{
    let ghost before = groups_view(groups@);
    proof {
        reveal_strlit("group");
        reveal_strlit("supergroup");
    }
    let is_group = str_eq(c.chat_type.as_str(), "group") || str_eq(
        c.chat_type.as_str(),
        "supergroup",
    );
    if !is_group {
        return ;
    }
    let mut i: usize = 0;
    while i < groups.len()
        invariant
            i <= groups@.len(),
            before == groups_view(groups@),
            forall|j: int| 0 <= j < i ==> groups@[j].0 != c.id,
        decreases groups.len() - i,
    {
        if groups[i].0 == c.id {
            assert(before[i as int].0 == c.id);
            return ;
        }
        i = i + 1;
    }
    assert(!has_id(before, c.id)) by {
        if has_id(before, c.id) {
            let j = choose|j: int| 0 <= j < before.len() && before[j].0 == c.id;
            assert(groups@[j].0 == c.id);
        }
    }
    let title = match &c.title {
        Some(t) => t.clone(),
        None => "Untitled".to_owned(),
    };
    groups.push((c.id, title));
    assert(groups_view(groups@) =~= before.push((c.id, chat_title(*c))));
}

/// The group and supergroup chats that the updates mention, in order of
/// first mention, each id once, with `Untitled` for a missing title.
pub fn find_groups(updates: &[Update]) -> (groups: Vec<(i64, String)>)
    ensures
        groups_view(groups@) == groups_of(updates@),
{
    let mut groups: Vec<(i64, String)> = Vec::new();
    assert(groups_view(groups@) =~= groups_of(updates@.take(0)));
    let mut i: usize = 0;
    while i < updates.len()
        invariant
            i <= updates@.len(),
            groups_view(groups@) == groups_of(updates@.take(i as int)),
        decreases updates.len() - i,
    {
        assert(updates@.take(i + 1).drop_last() =~= updates@.take(i as int));
        let u = &updates[i];
        match &u.message {
            Some(m) => add_chat_exec(&mut groups, &m.chat),
            None => {},
        }
        match &u.my_chat_member {
            Some(m) => add_chat_exec(&mut groups, &m.chat),
            None => {},
        }
        i = i + 1;
    }
    assert(updates@.take(updates.len() as int) =~= updates@);
    groups
}

/// Whether update `u` shows a chat with id `id` whose type is `group` or
/// `supergroup`, in its message or in its membership change.
pub open spec fn mentions_group(u: Update, id: i64) -> bool {
    ||| (u.message matches Some(m) && m.chat.id == id && (m.chat.chat_type@ == "group"@
        || m.chat.chat_type@ == "supergroup"@))
    ||| (u.my_chat_member matches Some(m) && m.chat.id == id && (m.chat.chat_type@ == "group"@
        || m.chat.chat_type@ == "supergroup"@))
}

/// Whether chat `c` is titled `title`, a chat without a title counting as
/// `Untitled`.
pub open spec fn titled(c: Chat, title: Seq<char>) -> bool {
    match c.title {
        Some(t) => t@ == title,
        None => title == "Untitled"@,
    }
}

/// Whether update `u` shows a group or supergroup chat with id `id` titled
/// `title`.
pub open spec fn shows_group(u: Update, id: i64, title: Seq<char>) -> bool {
    ||| (u.message matches Some(m) && m.chat.id == id && titled(m.chat, title) && (
    m.chat.chat_type@ == "group"@ || m.chat.chat_type@ == "supergroup"@))
    ||| (u.my_chat_member matches Some(m) && m.chat.id == id && titled(m.chat, title) && (
    m.chat.chat_type@ == "group"@ || m.chat.chat_type@ == "supergroup"@))
}

proof fn lemma_add_chat_grows(g: Seq<(i64, Seq<char>)>, c: Chat)
    ensures
        add_chat(g, c).len() >= g.len(),
        forall|i: int| 0 <= i < g.len() ==> add_chat(g, c)[i] == g[i],
        is_group_chat(c) ==> exists|i: int|
            0 <= i < add_chat(g, c).len() && #[trigger] add_chat(g, c)[i].0 == c.id,
        forall|i: int|
            g.len() <= i < add_chat(g, c).len() ==> #[trigger] add_chat(g, c)[i].0 == c.id
                && is_group_chat(c) && add_chat(g, c)[i].1 == chat_title(c),
{
    if is_group_chat(c) && !has_id(g, c.id) {
        let r = g.push((c.id, chat_title(c)));
        assert(r[g.len() as int].0 == c.id);
    } else if is_group_chat(c) {
        let i = choose|i: int| 0 <= i < g.len() && g[i].0 == c.id;
        assert(add_chat(g, c)[i].0 == c.id);
    }
}

/// Law: the groups found are exactly the chats of type `group` or
/// `supergroup` that the updates' messages and membership changes show:
/// each listed id and title comes from such a chat (a chat without a title
/// as `Untitled`), and each such chat's id is listed.
pub proof fn lemma_groups_are_group_chats(updates: Seq<Update>)
    ensures
        forall|i: int|
            #![trigger groups_of(updates)[i]]
            0 <= i < groups_of(updates).len() ==> exists|j: int|
                0 <= j < updates.len() && shows_group(
                    #[trigger] updates[j],
                    groups_of(updates)[i].0,
                    groups_of(updates)[i].1,
                ),
        forall|j: int, id: i64|
            #![trigger mentions_group(updates[j], id)]
            0 <= j < updates.len() && mentions_group(updates[j], id) ==> exists|i: int|
                0 <= i < groups_of(updates).len() && #[trigger] groups_of(updates)[i].0 == id,
    decreases updates.len(),
{
    reveal_strlit("group");
    reveal_strlit("supergroup");
    if updates.len() > 0 {
        let d = updates.drop_last();
        lemma_groups_are_group_chats(d);
        let g0 = groups_of(d);
        let u = updates.last();
        let n = updates.len() - 1;
        assert(updates[n] == u);
        let g1 = match u.message {
            Some(m) => add_chat(g0, m.chat),
            None => g0,
        };
        let g2 = groups_of(updates);
        assert(g2 == match u.my_chat_member {
            Some(m) => add_chat(g1, m.chat),
            None => g1,
        });
        if let Some(m) = u.message {
            lemma_add_chat_grows(g0, m.chat);
        }
        if let Some(m) = u.my_chat_member {
            lemma_add_chat_grows(g1, m.chat);
        }
        assert(g1.len() >= g0.len() && g2.len() >= g1.len());
        assert(forall|i: int| 0 <= i < g0.len() ==> g1[i] == g0[i]);
        assert(forall|i: int| 0 <= i < g1.len() ==> g2[i] == g1[i]);
        assert forall|i: int| #![trigger g2[i]] 0 <= i < g2.len() implies exists|j: int|
            0 <= j < updates.len() && shows_group(#[trigger] updates[j], g2[i].0, g2[i].1) by {
            if i < g0.len() {
                let j = choose|j: int|
                    0 <= j < d.len() && shows_group(#[trigger] d[j], g0[i].0, g0[i].1);
                assert(d[j] == updates[j]);
                assert(shows_group(updates[j], g2[i].0, g2[i].1));
            } else {
                assert(shows_group(updates[n], g2[i].0, g2[i].1));
            }
        }
        assert forall|j: int, id: i64|
            #![trigger mentions_group(updates[j], id)]
            0 <= j < updates.len() && mentions_group(updates[j], id) implies exists|i: int|
            0 <= i < g2.len() && #[trigger] g2[i].0 == id by {
            if j < n {
                assert(d[j] == updates[j]);
                let i = choose|i: int| 0 <= i < g0.len() && #[trigger] g0[i].0 == id;
                assert(g2[i].0 == id);
            } else {
                let from_message = u.message matches Some(m) && m.chat.id == id && is_group_chat(
                    m.chat,
                );
                if from_message {
                    let m = u.message.unwrap();
                    let i = choose|i: int| 0 <= i < g1.len() && #[trigger] g1[i].0 == m.chat.id;
                    assert(g2[i].0 == id);
                } else {
                    let m = u.my_chat_member.unwrap();
                    let i = choose|i: int| 0 <= i < g2.len() && #[trigger] g2[i].0 == m.chat.id;
                    assert(g2[i].0 == id);
                }
            }
        }
    }
}

/// Law: every group is listed once.
pub proof fn lemma_groups_distinct(updates: Seq<Update>)
    ensures
        forall|i: int, j: int|
            0 <= i < j < groups_of(updates).len() ==> groups_of(updates)[i].0 != groups_of(
                updates,
            )[j].0,
    decreases updates.len(),
{
    if updates.len() > 0 {
        lemma_groups_distinct(updates.drop_last());
        let g0 = groups_of(updates.drop_last());
        let u = updates.last();
        let g1 = match u.message {
            Some(m) => add_chat(g0, m.chat),
            None => g0,
        };
        lemma_add_chat_distinct(g0, u.message);
        lemma_add_chat_distinct(g1, match u.my_chat_member {
            Some(m) => Some(Message { chat: m.chat }),
            None => None,
        });
    }
}

proof fn lemma_add_chat_distinct(g: Seq<(i64, Seq<char>)>, m: Option<Message>)
    requires
        forall|i: int, j: int| 0 <= i < j < g.len() ==> g[i].0 != g[j].0,
    ensures
        ({
            let r = match m {
                Some(m) => add_chat(g, m.chat),
                None => g,
            };
            forall|i: int, j: int| 0 <= i < j < r.len() ==> r[i].0 != r[j].0
        }),
{
    if let Some(m) = m {
        let r = add_chat(g, m.chat);
        assert forall|i: int, j: int| 0 <= i < j < r.len() implies r[i].0 != r[j].0 by {
            if j == g.len() {
                assert(!has_id(g, m.chat.id));
                assert(g[i].0 != m.chat.id);
            }
        }
    }
}

/// The value of a string of decimal digits.
pub open spec fn digits_value(s: Seq<char>) -> nat
    decreases s.len(),
{
    if s.len() == 0 {
        0
    } else {
        digits_value(s.drop_last()) * 10 + (s.last() as nat - 48) as nat
    }
}

/// Every character is an ASCII digit.
pub open spec fn all_digits(s: Seq<char>) -> bool {
    forall|i: int| 0 <= i < s.len() ==> '0' <= #[trigger] s[i] <= '9'
}

/// The text after an optional leading `+`.
pub open spec fn unsigned_digits(s: Seq<char>) -> Seq<char> {
    if s.len() > 0 && s[0] == '+' {
        s.drop_first()
    } else {
        s
    }
}

/// What `str::parse::<usize>` gives: an optional `+`, then one or more
/// ASCII digits whose value fits in `usize`.
pub open spec fn parse_usize_spec(s: Seq<char>) -> Option<nat> {
    let d = unsigned_digits(s);
    if d.len() > 0 && all_digits(d) && digits_value(d) <= usize::MAX {
        Some(digits_value(d))
    } else {
        None
    }
}

proof fn lemma_digits_value_monotone(s: Seq<char>, i: int)
    requires
        0 <= i <= s.len(),
        all_digits(s),
    ensures
        digits_value(s.take(i)) <= digits_value(s),
    decreases s.len() - i,
{
    if i < s.len() {
        lemma_digits_value_monotone(s, i + 1);
        assert(s.take(i + 1).drop_last() =~= s.take(i));
    } else {
        assert(s.take(i) =~= s);
    }
}

/// Parses a decimal `usize` the way `str::parse::<usize>` does.
pub fn parse_usize(s: &str) -> (r: Option<usize>)
    ensures
        match r {
            Some(n) => parse_usize_spec(s@) == Some(n as nat),
            None => parse_usize_spec(s@) is None,
        },
{
    let chars = chars_of(s);
    let start: usize = if chars.len() > 0 && chars[0] == '+' {
        1
    } else {
        0
    };
    let ghost d = chars@.skip(start as int);
    assert(d =~= unsigned_digits(s@));
    if start >= chars.len() {
        return None;
    }
    let mut value: usize = 0;
    let mut i: usize = start;
    while i < chars.len()
        invariant
            start <= i <= chars.len(),
            chars@ == s@,
            d == chars@.skip(start as int),
            d == unsigned_digits(s@),
            all_digits(d.take(i - start)),
            value as nat == digits_value(d.take(i - start)),
        decreases chars.len() - i,
    {
        let c = chars[i];
        assert(d[i - start] == c);
        if !('0' <= c && c <= '9') {
            assert(!all_digits(d));
            return None;
        }
        assert(d.take(i - start + 1).drop_last() =~= d.take(i - start));
        let digit = (c as u32 - 48) as usize;
        if value > (usize::MAX - digit) / 10 {
            proof {
                assert(all_digits(d.take(i - start + 1)));
                assert(digits_value(d.take(i - start + 1)) > usize::MAX);
                if all_digits(d) {
                    lemma_digits_value_monotone(d, i - start + 1);
                }
            }
            return None;
        }
        value = value * 10 + digit;
        i = i + 1;
        assert(all_digits(d.take(i - start)));
    }
    assert(d.take(i - start) =~= d);
    Some(value)
}

/// Why a group choice was refused.
pub enum GroupChoiceError {
    InvalidNumber,
    InvalidChoice,
}

/// The index picked by a (trimmed) answer to "Which group? [1]" among
/// `count` groups: empty means the first; otherwise a 1-based number.
pub open spec fn choose_group_spec(count: nat, answer: Seq<char>) -> Result<nat, GroupChoiceError> {
    if answer.len() == 0 {
        if count > 0 {
            Ok(0)
        } else {
            Err(GroupChoiceError::InvalidChoice)
        }
    } else {
        match parse_usize_spec(answer) {
            None => Err(GroupChoiceError::InvalidNumber),
            Some(n) => if n == 0 || n > count {
                Err(GroupChoiceError::InvalidChoice)
            } else {
                Ok((n - 1) as nat)
            },
        }
    }
}

/// Picks a group index from the user's answer.
pub fn choose_group(count: usize, answer: &str) -> (r: Result<usize, GroupChoiceError>)
    ensures
        r matches Ok(i) ==> i < count,
        match r {
            Ok(i) => choose_group_spec(count as nat, answer@) == Ok::<nat, GroupChoiceError>(i as nat),
            Err(e) => choose_group_spec(count as nat, answer@) == Err::<nat, GroupChoiceError>(e),
        },
{
    let chars = chars_of(answer);
    let idx: usize = if chars.len() == 0 {
        0
    } else {
        match parse_usize(answer) {
            None => return Err(GroupChoiceError::InvalidNumber),
            Some(n) => {
                if n == 0 {
                    return Err(GroupChoiceError::InvalidChoice);
                }
                n - 1
            },
        }
    };
    if idx < count {
        Ok(idx)
    } else {
        Err(GroupChoiceError::InvalidChoice)
    }
}

} // verus!
