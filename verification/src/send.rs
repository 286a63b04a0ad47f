//! Splitting messages into backend-sized chunks and the decisions around
//! delivering them to the enabled backends.
use vstd::prelude::*;
use vstd::utf8::*;

use crate::config::Config;
use crate::markdown::{discord_markdown_of, lemma_encode_utf8_concat, telegram_html_of, to_discord_markdown, to_telegram_html};
use crate::text::{contains, contains_spec, push_str, string_from_chars};

verus! {

/// Largest message Telegram accepts, in bytes.
pub const TELEGRAM_MAX_LENGTH: usize = 4096;

/// Largest message a Discord webhook accepts, in bytes.
pub const DISCORD_MAX_LENGTH: usize = 2000;

/// Largest message sent to ntfy in one notification, in bytes.
pub const NTFY_MAX_LENGTH: usize = 4096;

/// Index of the last newline byte among the first `n` bytes of `b`, or -1.
pub open spec fn last_newline_before(b: Seq<u8>, n: int) -> int
    decreases n,
{
    if n <= 0 {
        -1
    } else if b[n - 1] == 10u8 {
        n - 1
    } else {
        last_newline_before(b, n - 1)
    }
}

/// Where a text longer than `max` bytes is cut: just after the last newline
/// within the first `max` bytes, or at `max` when there is none.
pub open spec fn split_point(b: Seq<u8>, max: nat) -> int {
    let j = last_newline_before(b, max as int);
    if j >= 0 {
        j + 1
    } else {
        max as int
    }
}

/// Bounds of `last_newline_before`: a hit is a newline, and nothing after it
/// (below `n`) is one.
pub proof fn lemma_last_newline_before(b: Seq<u8>, n: int)
    requires
        0 <= n <= b.len(),
    ensures
        -1 <= last_newline_before(b, n) < n,
        last_newline_before(b, n) >= 0 ==> b[last_newline_before(b, n)] == 10u8,
        forall|i: int|
            last_newline_before(b, n) < i < n && 0 <= i ==> b[i] != 10u8,
    decreases n,
{
    if n > 0 && b[n - 1] != 10u8 {
        lemma_last_newline_before(b, n - 1);
    }
}

/// The cut point of a text longer than `max > 0` lies in `1..=max`.
pub proof fn lemma_split_point_bounds(b: Seq<u8>, max: nat)
    requires
        0 < max < b.len(),
    ensures
        0 < split_point(b, max) <= max,
{
    lemma_last_newline_before(b, max as int);
}

/// The pieces a text longer than the limit is cut into, in order.
pub open spec fn rest_chunks(b: Seq<u8>, max: nat) -> Seq<Seq<u8>>
    decreases b.len(),
{
    if b.len() == 0 || max == 0 {
        seq![]
    } else if b.len() <= max {
        seq![b]
    } else {
        let k = split_point(b, max);
        proof {
            lemma_split_point_bounds(b, max);
        }
        seq![b.take(k)] + rest_chunks(b.skip(k), max)
    }
}

/// The chunks of the UTF-8 bytes `b` for a limit of `max` bytes: the whole
/// text when it fits, and otherwise pieces cut after the last newline that
/// fits, or at exactly `max` bytes when no newline fits.
pub open spec fn message_chunks(b: Seq<u8>, max: nat) -> Seq<Seq<u8>> {
    if b.len() <= max {
        seq![b]
    } else {
        rest_chunks(b, max)
    }
}

/// Every cut at exactly `max` bytes falls on a character boundary (a cut
/// after a newline always does).
pub open spec fn splits_on_boundaries(b: Seq<u8>, max: nat) -> bool
    decreases b.len(),
{
    if b.len() <= max || max == 0 {
        true
    } else {
        proof {
            lemma_split_point_bounds(b, max);
        }
        is_char_boundary(b, max as int) && splits_on_boundaries(b.skip(split_point(b, max)), max)
    }
}

/// The byte after a newline in valid UTF-8 starts a character (or is the end).
pub proof fn lemma_after_newline_is_boundary(b: Seq<u8>, j: int)
    requires
        valid_utf8(b),
        0 <= j < b.len(),
        b[j] == 10u8,
    ensures
        is_char_boundary(b, j + 1),
{
    if j + 1 == b.len() {
        is_char_boundary_start_end_of_seq(b);
    } else {
        is_char_boundary_iff_not_is_continuation_byte(b, j);
        valid_utf8_split(b, j);
        let s = b.subrange(j, b.len() as int);
        assert(s[0] == 10u8);
        assert(valid_first_scalar(s));
        let t = pop_first_scalar(s);
        assert(t =~= b.subrange(j + 1, b.len() as int));
        assert(valid_utf8(t));
        assert(t.len() > 0);
        assert(valid_first_scalar(t));
        assert(t[0] == b[j + 1]);
        assert(!is_continuation_byte(b[j + 1]));
        is_char_boundary_iff_not_is_continuation_byte(b, j + 1);
    }
}

/// Law: gluing the chunks back together gives the text that was split.
pub proof fn lemma_chunks_reassemble(b: Seq<u8>, max: nat)
    requires
        max > 0 || b.len() <= max,
    ensures
        message_chunks(b, max).flatten() == b,
{
    if b.len() <= max {
        seq![b].lemma_flatten_one_element();
    } else {
        lemma_rest_chunks_reassemble(b, max);
    }
}

proof fn lemma_rest_chunks_reassemble(b: Seq<u8>, max: nat)
    requires
        max > 0,
    ensures
        rest_chunks(b, max).flatten() == b,
    decreases b.len(),
{
    if b.len() == 0 {
    } else if b.len() <= max {
        seq![b].lemma_flatten_one_element();
    } else {
        let k = split_point(b, max);
        lemma_split_point_bounds(b, max);
        lemma_rest_chunks_reassemble(b.skip(k), max);
        let r = rest_chunks(b, max);
        assert(r.first() == b.take(k));
        assert(r.drop_first() =~= rest_chunks(b.skip(k), max));
        assert(b.take(k) + b.skip(k) =~= b);
    }
}

/// Law: no chunk is longer than the limit, and none is empty unless the
/// whole text is.
pub proof fn lemma_chunks_within_limit(b: Seq<u8>, max: nat)
    requires
        max > 0 || b.len() <= max,
    ensures
        forall|i: int|
            0 <= i < message_chunks(b, max).len() ==> #[trigger] message_chunks(b, max)[i].len()
                <= max,
        b.len() > 0 ==> forall|i: int|
            0 <= i < message_chunks(b, max).len() ==> #[trigger] message_chunks(b, max)[i].len()
                > 0,
{
    if b.len() > max {
        lemma_rest_chunks_within_limit(b, max);
    }
}

proof fn lemma_rest_chunks_within_limit(b: Seq<u8>, max: nat)
    requires
        max > 0,
    ensures
        forall|i: int|
            0 <= i < rest_chunks(b, max).len() ==> 0 < #[trigger] rest_chunks(b, max)[i].len()
                <= max,
    decreases b.len(),
{
    if b.len() > max {
        let k = split_point(b, max);
        lemma_split_point_bounds(b, max);
        lemma_rest_chunks_within_limit(b.skip(k), max);
        let r = rest_chunks(b, max);
        assert forall|i: int| 0 <= i < r.len() implies 0 < #[trigger] r[i].len() <= max by {
            if i > 0 {
                assert(r[i] == rest_chunks(b.skip(k), max)[i - 1]);
            }
        }
    }
}

/// Law: a text is split into several chunks exactly when it does not fit.
pub proof fn lemma_single_chunk_iff_fits(b: Seq<u8>, max: nat)
    requires
        max > 0,
    ensures
        (message_chunks(b, max).len() == 1) <==> (b.len() <= max),
        b.len() > max ==> message_chunks(b, max).len() >= 2,
{
    if b.len() > max {
        let k = split_point(b, max);
        lemma_split_point_bounds(b, max);
        lemma_rest_chunks_nonempty(b.skip(k), max);
    }
}

proof fn lemma_rest_chunks_nonempty(b: Seq<u8>, max: nat)
    requires
        max > 0,
    ensures
        b.len() > 0 ==> rest_chunks(b, max).len() >= 1,
{
    if b.len() > max {
        lemma_split_point_bounds(b, max);
    }
}

/// Law: every chunk but the last ends at a newline, or else is exactly
/// `max` bytes long and holds no newline at all.
pub proof fn lemma_chunks_cut_at_newlines(b: Seq<u8>, max: nat)
    requires
        max > 0,
    ensures
        forall|i: int|
            0 <= i < message_chunks(b, max).len() - 1 ==> {
                let c = #[trigger] message_chunks(b, max)[i];
                c.last() == 10u8 || (c.len() == max && forall|j: int|
                    0 <= j < c.len() ==> c[j] != 10u8)
            },
{
    if b.len() > max {
        lemma_rest_chunks_cut_at_newlines(b, max);
    }
}

proof fn lemma_rest_chunks_cut_at_newlines(b: Seq<u8>, max: nat)
    requires
        max > 0,
    ensures
        forall|i: int|
            0 <= i < rest_chunks(b, max).len() - 1 ==> {
                let c = #[trigger] rest_chunks(b, max)[i];
                c.last() == 10u8 || (c.len() == max && forall|j: int|
                    0 <= j < c.len() ==> c[j] != 10u8)
            },
    decreases b.len(),
{
    if b.len() > max {
        let k = split_point(b, max);
        lemma_split_point_bounds(b, max);
        lemma_last_newline_before(b, max as int);
        lemma_rest_chunks_cut_at_newlines(b.skip(k), max);
        let r = rest_chunks(b, max);
        assert forall|i: int| 0 <= i < r.len() - 1 implies {
            let c = #[trigger] r[i];
            c.last() == 10u8 || (c.len() == max && forall|j: int| 0 <= j < c.len() ==> c[j] != 10u8)
        } by {
            if i > 0 {
                assert(r[i] == rest_chunks(b.skip(k), max)[i - 1]);
            } else {
                let c = b.take(k);
                assert(r[0] == c);
                if last_newline_before(b, max as int) < 0 {
                    assert forall|j: int| 0 <= j < c.len() implies c[j] != 10u8 by {
                        assert(c[j] == b[j]);
                    }
                }
            }
        }
    }
}

/// The piece cut from the front of `r`: up to and including the last
/// newline among its first `max` bytes, or its first `max` bytes when there
/// is none there.
pub open spec fn front_cut(r: Seq<u8>, max: nat) -> Seq<u8> {
    if last_newline_before(r, max as int) >= 0 {
        r.take(last_newline_before(r, max as int) + 1)
    } else {
        r.take(max as int)
    }
}

proof fn lemma_rest_chunks_cut_rule(b: Seq<u8>, max: nat)
    requires
        max > 0,
    ensures
        forall|i: int|
            0 <= i < rest_chunks(b, max).len() - 1 ==> {
                let r = rest_chunks(b, max).skip(i).flatten();
                &&& r.len() > max
                &&& #[trigger] rest_chunks(b, max)[i] == front_cut(r, max)
            },
    decreases b.len(),
{
    if b.len() > max {
        let k = split_point(b, max);
        lemma_split_point_bounds(b, max);
        let tail = b.skip(k);
        lemma_rest_chunks_cut_rule(tail, max);
        let rc = rest_chunks(b, max);
        assert(rc == seq![b.take(k)] + rest_chunks(tail, max));
        assert forall|i: int| 0 <= i < rc.len() - 1 implies {
            let r = rc.skip(i).flatten();
            &&& r.len() > max
            &&& #[trigger] rc[i] == front_cut(r, max)
        } by {
            if i == 0 {
                assert(rc.skip(0) =~= rc);
                lemma_rest_chunks_reassemble(b, max);
            } else {
                assert(rc.skip(i) =~= rest_chunks(tail, max).skip(i - 1));
                assert(rc[i] == rest_chunks(tail, max)[i - 1]);
            }
        }
    } else {
        assert(rest_chunks(b, max).len() <= 1);
    }
}

/// Law: every chunk but the last is cut from the front of the text that
/// remains (that chunk and all that follow it, glued together), which is
/// longer than the limit: just after the last newline within the first
/// `max` bytes, or at exactly `max` bytes when there is no newline there.
pub proof fn lemma_chunk_cut_rule(b: Seq<u8>, max: nat)
    requires
        max > 0,
    ensures
        forall|i: int|
            0 <= i < message_chunks(b, max).len() - 1 ==> {
                let r = message_chunks(b, max).skip(i).flatten();
                &&& r.len() > max
                &&& #[trigger] message_chunks(b, max)[i] == front_cut(r, max)
            },
{
    if b.len() > max {
        lemma_rest_chunks_cut_rule(b, max);
    }
}

proof fn lemma_rest_chunks_count(b: Seq<u8>, max: nat)
    requires
        max > 0,
    ensures
        rest_chunks(b, max).len() <= b.len(),
    decreases b.len(),
{
    if b.len() > max {
        let k = split_point(b, max);
        lemma_split_point_bounds(b, max);
        lemma_rest_chunks_count(b.skip(k), max);
    }
}

/// Law: a text of `n` bytes becomes at most `n` chunks, and one chunk when
/// it is empty.
pub proof fn lemma_chunk_count(b: Seq<u8>, max: nat)
    requires
        max > 0,
    ensures
        message_chunks(b, max).len() <= if b.len() > 1 {
            b.len()
        } else {
            1
        },
{
    if b.len() > max {
        lemma_rest_chunks_count(b, max);
    }
}

/// Law: every cut of an ASCII text falls on a character boundary, so
/// `chunk_message` accepts any ASCII text.
pub proof fn lemma_ascii_text_splits(chars: Seq<char>, max: nat)
    requires
        is_ascii_chars(chars),
    ensures
        splits_on_boundaries(encode_utf8(chars), max),
    decreases chars.len(),
{
    let b = encode_utf8(chars);
    is_ascii_chars_encode_utf8(chars);
    if b.len() > max && max > 0 {
        encode_utf8_valid_utf8(chars);
        lemma_split_point_bounds(b, max);
        assert(b[max as int] == chars[max as int] as u8);
        assert(!is_continuation_byte(b[max as int]));
        is_char_boundary_iff_not_is_continuation_byte(b, max as int);
        let k = split_point(b, max);
        let rest = chars.skip(k);
        assert(chars.take(k) + rest =~= chars);
        lemma_encode_utf8_concat(chars.take(k), rest);
        assert(is_ascii_chars(chars.take(k)));
        is_ascii_chars_encode_utf8(chars.take(k));
        assert(b.skip(k) =~= encode_utf8(rest));
        assert(is_ascii_chars(rest));
        lemma_ascii_text_splits(rest, max);
    }
}

/// The UTF-8 bytes of each string.
pub open spec fn chunk_bytes(chunks: Seq<String>) -> Seq<Seq<u8>> {
    chunks.map_values(|c: String| encode_utf8(c@))
}

/// Splits `text` into pieces of at most `max_length` bytes, preferring to
/// cut just after a newline. A text that fits is returned whole.
pub fn chunk_message(text: &str, max_length: usize) -> (chunks: Vec<String>)
    requires
        max_length > 0 || encode_utf8(text@).len() <= max_length,
        splits_on_boundaries(encode_utf8(text@), max_length as nat),
    ensures
        chunk_bytes(chunks@) == message_chunks(encode_utf8(text@), max_length as nat),
        max_length > 0 ==> chunks@.len() <= if encode_utf8(text@).len() > 1 {
            encode_utf8(text@).len()
        } else {
            1
        },
{
    let ghost b = encode_utf8(text@);
    proof {
        if max_length > 0 {
            lemma_chunk_count(b, max_length as nat);
        }
    }
    let ghost max = max_length as nat;
    if text.as_bytes().len() <= max_length {
        let mut one: Vec<String> = Vec::new();
        one.push(text.to_owned());
        assert(chunk_bytes(one@) =~= seq![b]);
        return one;
    }
    let mut chunks: Vec<String> = Vec::new();
    let mut rest: &str = text;
    assert(chunk_bytes(chunks@) + rest_chunks(encode_utf8(rest@), max) =~= rest_chunks(b, max));
    loop
        invariant_except_break
            max_length > 0,
            max == max_length as nat,
            splits_on_boundaries(encode_utf8(rest@), max),
            chunk_bytes(chunks@) + rest_chunks(encode_utf8(rest@), max) == rest_chunks(b, max),
        ensures
            chunk_bytes(chunks@) == rest_chunks(b, max),
        decreases encode_utf8(rest@).len(),
    {
        let ghost rb = encode_utf8(rest@);
        let ghost before = chunks@;
        let bytes = rest.as_bytes();
        let rl = bytes.len();
        if rl == 0 {
            assert(rest_chunks(rb, max) =~= Seq::<Seq<u8>>::empty());
            assert(chunk_bytes(chunks@) + rest_chunks(rb, max) =~= chunk_bytes(chunks@));
            break;
        }
        if rl <= max_length {
            chunks.push(rest.to_owned());
            assert(chunk_bytes(chunks@) =~= chunk_bytes(before) + seq![rb]);
            break;
        }
        let mut k: usize = max_length;
        while k > 0 && bytes[k - 1] != 10u8
            invariant
                k <= max_length < bytes@.len(),
                bytes@ == rb,
                last_newline_before(rb, max as int) == last_newline_before(rb, k as int),
            decreases k,
        {
            k = k - 1;
        }
        let split = if k == 0 {
            max_length
        } else {
            k
        };
        proof {
            lemma_split_point_bounds(rb, max);
            encode_utf8_valid_utf8(rest@);
            assert(split as int == split_point(rb, max));
            if k > 0 {
                lemma_after_newline_is_boundary(rb, k - 1);
            }
        }
        let (head, tail) = rest.split_at(split);
        chunks.push(head.to_owned());
        proof {
            assert(encode_utf8(head@) =~= rb.take(split as int));
            assert(encode_utf8(tail@) =~= rb.skip(split as int));
            assert(chunk_bytes(chunks@) =~= chunk_bytes(before).push(rb.take(split as int)));
            assert(rest_chunks(rb, max) == seq![rb.take(split as int)] + rest_chunks(
                rb.skip(split as int),
                max,
            ));
            assert(chunk_bytes(chunks@) + rest_chunks(encode_utf8(tail@), max) =~= chunk_bytes(
                before,
            ) + rest_chunks(rb, max));
        }
        rest = tail;
    }
    chunks
}

/// Whether every cut at exactly `max_length` bytes falls on a character
/// boundary, i.e. whether `chunk_message` accepts the text.
pub fn splits_on_char_boundaries(text: &str, max_length: usize) -> (ok: bool)
    requires
        max_length > 0,
    ensures
        ok == splits_on_boundaries(encode_utf8(text@), max_length as nat),
{
    let ghost max = max_length as nat;
    let mut rest: &str = text;
    loop
        invariant
            max_length > 0,
            max == max_length as nat,
            splits_on_boundaries(encode_utf8(rest@), max) == splits_on_boundaries(
                encode_utf8(text@),
                max,
            ),
        decreases encode_utf8(rest@).len(),
    {
        let ghost rb = encode_utf8(rest@);
        let bytes = rest.as_bytes();
        if bytes.len() <= max_length {
            return true;
        }
        if !rest.is_char_boundary(max_length) {
            return false;
        }
        let mut k: usize = max_length;
        while k > 0 && bytes[k - 1] != 10u8
            invariant
                k <= max_length < bytes@.len(),
                bytes@ == rb,
                last_newline_before(rb, max as int) == last_newline_before(rb, k as int),
            decreases k,
        {
            k = k - 1;
        }
        let split = if k == 0 {
            max_length
        } else {
            k
        };
        proof {
            lemma_split_point_bounds(rb, max);
            encode_utf8_valid_utf8(rest@);
            assert(split as int == split_point(rb, max));
            if k > 0 {
                lemma_after_newline_is_boundary(rb, k - 1);
            }
        }
        let (_, tail) = rest.split_at(split);
        assert(encode_utf8(tail@) =~= rb.skip(split as int));
        rest = tail;
    }
}

/// The chunks of `text`, or `None` when some cut at exactly `max_length`
/// bytes would fall inside a character.
pub fn chunks_if_splittable(text: &str, max_length: usize) -> (r: Option<Vec<String>>)
    requires
        max_length > 0,
    ensures
        match r {
            Some(c) => splits_on_boundaries(encode_utf8(text@), max_length as nat) && chunk_bytes(c@)
                == message_chunks(encode_utf8(text@), max_length as nat),
            None => !splits_on_boundaries(encode_utf8(text@), max_length as nat),
        },
{
    if splits_on_char_boundaries(text, max_length) {
        Some(chunk_message(text, max_length))
    } else {
        None
    }
}

/// The Telegram messages for a Markdown message: its HTML in chunks of at
/// most `TELEGRAM_MAX_LENGTH` bytes. `None` when a cut would fall inside a
/// character.
pub fn telegram_payloads(message: &str) -> (r: Option<Vec<String>>)
    ensures
        match r {
            Some(c) => chunk_bytes(c@) == message_chunks(
                encode_utf8(telegram_html_of(message@)),
                TELEGRAM_MAX_LENGTH as nat,
            ),
            None => !splits_on_boundaries(
                encode_utf8(telegram_html_of(message@)),
                TELEGRAM_MAX_LENGTH as nat,
            ),
        },
{
    let html = to_telegram_html(message);
    chunks_if_splittable(html.as_str(), TELEGRAM_MAX_LENGTH)
}

/// A Discord message: the topic in bold brackets on its own line, then the
/// converted Markdown.
pub open spec fn discord_text(topic: Seq<char>, message: Seq<char>) -> Seq<char> {
    "**["@ + topic + "]**\n"@ + discord_markdown_of(message)
}

/// The Discord messages for a topic and Markdown message, in chunks of at
/// most `DISCORD_MAX_LENGTH` bytes. `None` when a cut would fall inside a
/// character.
pub fn discord_payloads(topic: &str, message: &str) -> (r: Option<Vec<String>>)
    ensures
        match r {
            Some(c) => chunk_bytes(c@) == message_chunks(
                encode_utf8(discord_text(topic@, message@)),
                DISCORD_MAX_LENGTH as nat,
            ),
            None => !splits_on_boundaries(
                encode_utf8(discord_text(topic@, message@)),
                DISCORD_MAX_LENGTH as nat,
            ),
        },
{
    let converted = to_discord_markdown(message);
    let mut v: Vec<char> = Vec::new();
    push_str(&mut v, "**[");
    push_str(&mut v, topic);
    push_str(&mut v, "]**\n");
    push_str(&mut v, converted.as_str());
    let text = string_from_chars(v.as_slice());
    chunks_if_splittable(text.as_str(), DISCORD_MAX_LENGTH)
}

/// The ntfy notifications for a message: the Markdown as is, in chunks of
/// at most `NTFY_MAX_LENGTH` bytes. `None` when a cut would fall inside a
/// character.
pub fn ntfy_payloads(message: &str) -> (r: Option<Vec<String>>)
    ensures
        match r {
            Some(c) => chunk_bytes(c@) == message_chunks(
                encode_utf8(message@),
                NTFY_MAX_LENGTH as nat,
            ),
            None => !splits_on_boundaries(encode_utf8(message@), NTFY_MAX_LENGTH as nat),
        },
{
    chunks_if_splittable(message, NTFY_MAX_LENGTH)
}

/// Whether a Telegram error says the forum topic no longer exists.
pub fn is_thread_not_found(error_text: &str) -> (b: bool)
    ensures
        b == contains_spec(error_text@, "thread_not_found"@),
{
    contains(error_text, "thread_not_found")
}

/// Progress of delivering one message's chunks into a Telegram forum
/// topic: how many chunks there are, the topic's thread id once known, the
/// chunk being sent, and whether the topic was already re-created.
pub struct TelegramDelivery {
    pub chunk_count: usize,
    pub thread_id: Option<i64>,
    pub next: usize,
    pub recreated: bool,
}

/// What the caller does next while delivering to Telegram.
pub enum TelegramAction {
    /// Create the forum topic and cache its id; with `replace`, the cached
    /// id is forgotten first.
    CreateTopic { replace: bool },
    /// Send chunk `index` into thread `thread_id`.
    SendChunk { index: usize, thread_id: i64 },
    /// Every chunk was delivered.
    Done,
    /// Give up with the failure just reported.
    Fail,
}

/// What came of the last action.
pub enum TelegramEvent {
    /// The topic exists (created, and its id cached) with this thread id.
    TopicReady(i64),
    /// The chunk was accepted.
    Sent,
    /// The action failed with this error text.
    Failed(String),
}

/// The start of a delivery: send the first chunk into the cached thread,
/// or create the topic when none is cached.
pub open spec fn telegram_start_spec(cached: Option<i64>, chunk_count: usize) -> (
    TelegramDelivery,
    TelegramAction,
) {
    let s = TelegramDelivery { chunk_count, thread_id: cached, next: 0, recreated: false };
    match cached {
        Some(id) => (s, TelegramAction::SendChunk { index: 0, thread_id: id }),
        None => (s, TelegramAction::CreateTopic { replace: false }),
    }
}

/// One step of a delivery. A ready topic gets the pending chunk; an accepted
/// chunk is followed by the next one, or by `Done` after the last. A failure
/// is final, except that the first chunk, refused because the cached topic
/// no longer exists, leads once to re-creating the topic and sending that
/// chunk again.
pub open spec fn telegram_step_spec(s: TelegramDelivery, e: TelegramEvent) -> (
    TelegramDelivery,
    TelegramAction,
) {
    match e {
        TelegramEvent::TopicReady(id) => (
            TelegramDelivery { thread_id: Some(id), ..s },
            TelegramAction::SendChunk { index: s.next, thread_id: id },
        ),
        TelegramEvent::Sent => match s.thread_id {
            Some(id) => if s.next + 1 < s.chunk_count {
                (
                    TelegramDelivery { next: (s.next + 1) as usize, ..s },
                    TelegramAction::SendChunk { index: (s.next + 1) as usize, thread_id: id },
                )
            } else {
                (s, TelegramAction::Done)
            },
            None => (s, TelegramAction::Fail),
        },
        TelegramEvent::Failed(t) => if s.thread_id is Some && s.next == 0 && !s.recreated
            && contains_spec(t@, "thread_not_found"@) {
            (
                TelegramDelivery { thread_id: None, recreated: true, ..s },
                TelegramAction::CreateTopic { replace: true },
            )
        } else {
            (s, TelegramAction::Fail)
        },
    }
}

impl TelegramDelivery {
    /// Starts delivering `chunk_count` chunks, given the cached thread id of
    /// the topic, if any.
    pub fn start(cached: Option<i64>, chunk_count: usize) -> (r: (TelegramDelivery, TelegramAction))
        ensures
            r == telegram_start_spec(cached, chunk_count),
    {
        let s = TelegramDelivery { chunk_count, thread_id: cached, next: 0, recreated: false };
        match cached {
            Some(id) => (s, TelegramAction::SendChunk { index: 0, thread_id: id }),
            None => (s, TelegramAction::CreateTopic { replace: false }),
        }
    }

    /// The next state and action after `event`.
    pub fn step(&self, event: &TelegramEvent) -> (r: (TelegramDelivery, TelegramAction))
        ensures
            r == telegram_step_spec(*self, *event),
    {
        let s = TelegramDelivery {
            chunk_count: self.chunk_count,
            thread_id: self.thread_id,
            next: self.next,
            recreated: self.recreated,
        };
        match event {
            TelegramEvent::TopicReady(id) => (
                TelegramDelivery { thread_id: Some(*id), ..s },
                TelegramAction::SendChunk { index: s.next, thread_id: *id },
            ),
            TelegramEvent::Sent => match s.thread_id {
                Some(id) => if s.chunk_count > 0 && s.next < s.chunk_count - 1 {
                    let n = s.next + 1;
                    (
                        TelegramDelivery { next: n, ..s },
                        TelegramAction::SendChunk { index: n, thread_id: id },
                    )
                } else {
                    (s, TelegramAction::Done)
                },
                None => (s, TelegramAction::Fail),
            },
            TelegramEvent::Failed(t) => {
                if s.thread_id.is_some() && s.next == 0 && !s.recreated && is_thread_not_found(
                    t.as_str(),
                ) {
                    (
                        TelegramDelivery { thread_id: None, recreated: true, ..s },
                        TelegramAction::CreateTopic { replace: true },
                    )
                } else {
                    (s, TelegramAction::Fail)
                }
            },
        }
    }
}

/// The actions a delivery takes, for at most `fuel` more steps, when every
/// action succeeds and a created topic gets thread id `id`.
pub open spec fn telegram_happy_actions(
    s: TelegramDelivery,
    a: TelegramAction,
    id: i64,
    fuel: nat,
) -> Seq<TelegramAction>
    decreases fuel,
{
    if fuel == 0 {
        seq![a]
    } else {
        match a {
            TelegramAction::CreateTopic { .. } => {
                let (s2, a2) = telegram_step_spec(s, TelegramEvent::TopicReady(id));
                seq![a] + telegram_happy_actions(s2, a2, id, (fuel - 1) as nat)
            },
            TelegramAction::SendChunk { .. } => {
                let (s2, a2) = telegram_step_spec(s, TelegramEvent::Sent);
                seq![a] + telegram_happy_actions(s2, a2, id, (fuel - 1) as nat)
            },
            _ => seq![a],
        }
    }
}

/// Sending chunks `from..to`, in order, into thread `t`.
pub open spec fn sends_from(from: int, to: int, t: i64) -> Seq<TelegramAction> {
    Seq::new(
        (to - from) as nat,
        |i: int| TelegramAction::SendChunk { index: (from + i) as usize, thread_id: t },
    )
}

proof fn lemma_happy_sends(s: TelegramDelivery, t: i64, id: i64)
    requires
        s.thread_id == Some(t),
        s.next < s.chunk_count,
    ensures
        telegram_happy_actions(
            s,
            TelegramAction::SendChunk { index: s.next, thread_id: t },
            id,
            (s.chunk_count - s.next) as nat,
        ) == sends_from(s.next as int, s.chunk_count as int, t).push(TelegramAction::Done),
    decreases s.chunk_count - s.next,
{
    let a = TelegramAction::SendChunk { index: s.next, thread_id: t };
    let fuel = (s.chunk_count - s.next) as nat;
    let (s2, a2) = telegram_step_spec(s, TelegramEvent::Sent);
    if s.next + 1 < s.chunk_count {
        lemma_happy_sends(s2, t, id);
        assert(sends_from(s.next as int, s.chunk_count as int, t) =~= seq![a] + sends_from(
            s2.next as int,
            s.chunk_count as int,
            t,
        ));
        assert(telegram_happy_actions(s, a, id, fuel) == seq![a] + telegram_happy_actions(
            s2,
            a2,
            id,
            (fuel - 1) as nat,
        ));
    } else {
        assert(a2 == TelegramAction::Done);
        assert(telegram_happy_actions(s2, a2, id, (fuel - 1) as nat) == seq![a2]);
    }
    assert(telegram_happy_actions(s, a, id, fuel) =~= sends_from(
        s.next as int,
        s.chunk_count as int,
        t,
    ).push(TelegramAction::Done));
}

/// Law: when nothing fails, every chunk is sent exactly once, in order,
/// into one thread (the cached one, or else the topic created first), and
/// then the delivery is done.
pub proof fn lemma_telegram_delivers_all_chunks(cached: Option<i64>, chunk_count: usize, id: i64)
    requires
        chunk_count > 0,
    ensures
        ({
            let (s, a) = telegram_start_spec(cached, chunk_count);
            match cached {
                Some(t) => telegram_happy_actions(s, a, id, chunk_count as nat) == sends_from(
                    0,
                    chunk_count as int,
                    t,
                ).push(TelegramAction::Done),
                None => telegram_happy_actions(s, a, id, chunk_count as nat + 1) == seq![
                    TelegramAction::CreateTopic { replace: false },
                ] + sends_from(0, chunk_count as int, id).push(TelegramAction::Done),
            }
        }),
{
    let (s, a) = telegram_start_spec(cached, chunk_count);
    match cached {
        Some(t) => {
            lemma_happy_sends(s, t, id);
        },
        None => {
            let (s2, a2) = telegram_step_spec(s, TelegramEvent::TopicReady(id));
            lemma_happy_sends(s2, id, id);
            assert(telegram_happy_actions(s, a, id, chunk_count as nat + 1) == seq![a]
                + telegram_happy_actions(s2, a2, id, chunk_count as nat));
        },
    }
}

/// Law: the topic is re-created at most once per delivery, and only after
/// the first chunk was refused because the topic no longer exists.
pub proof fn lemma_telegram_recreates_at_most_once(s: TelegramDelivery, e: TelegramEvent)
    ensures
        s.recreated ==> telegram_step_spec(s, e).0.recreated,
        s.recreated ==> !(telegram_step_spec(s, e).1 is CreateTopic),
        telegram_step_spec(s, e).1 is CreateTopic ==> !s.recreated && s.next == 0
            && (e matches TelegramEvent::Failed(t) && contains_spec(t@, "thread_not_found"@)),
{
}

/// Which backends are configured and enabled.
pub struct EnabledBackends {
    pub telegram: bool,
    pub discord_webhook: bool,
    pub ntfy: bool,
}

/// Why sending failed as a whole.
pub enum SendError {
    NoBackendsEnabled,
    AllBackendsFailed,
}

impl SendError {
    /// The message shown to the user.
    pub fn message(&self) -> (m: String)
        ensures
            m@ == match self {
                SendError::NoBackendsEnabled => "No notification backends are enabled.\nRun `pygmy init <backend>` to set one up,\nor `pygmy enable <backend>` to re-enable a configured one."@,
                SendError::AllBackendsFailed => "All backends failed."@,
            },
    {
        match self {
            SendError::NoBackendsEnabled => "No notification backends are enabled.\nRun `pygmy init <backend>` to set one up,\nor `pygmy enable <backend>` to re-enable a configured one.".to_owned(),
            SendError::AllBackendsFailed => "All backends failed.".to_owned(),
        }
    }
}

/// The enabled backends of `cfg`; an error when there is none.
pub fn enabled_backends(cfg: &Config) -> (r: Result<EnabledBackends, SendError>)
    ensures
        ({
            let t = cfg.telegram matches Some(c) && c.enabled;
            let d = cfg.discord_webhook matches Some(c) && c.enabled;
            let n = cfg.ntfy matches Some(c) && c.enabled;
            &&& (t || d || n) ==> (r matches Ok(e) && e.telegram == t && e.discord_webhook == d
                && e.ntfy == n)
            &&& !(t || d || n) ==> r matches Err(SendError::NoBackendsEnabled)
        }),
{
    let t = match &cfg.telegram {
        Some(c) => c.enabled,
        None => false,
    };
    let d = match &cfg.discord_webhook {
        Some(c) => c.enabled,
        None => false,
    };
    let n = match &cfg.ntfy {
        Some(c) => c.enabled,
        None => false,
    };
    if !t && !d && !n {
        Err(SendError::NoBackendsEnabled)
    } else {
        Ok(EnabledBackends { telegram: t, discord_webhook: d, ntfy: n })
    }
}

/// How delivery to one backend went: its label, and the error text when it
/// failed.
pub struct Delivery {
    pub backend: String,
    pub error: Option<String>,
}

/// The warning printed for a failed delivery.
pub open spec fn warning_text(d: Delivery) -> Seq<char> {
    d.backend@ + ": "@ + match d.error {
        Some(e) => e@,
        None => seq![],
    }
}

/// The warnings for the failed deliveries, in order.
pub open spec fn warnings_of(ds: Seq<Delivery>) -> Seq<Seq<char>>
    decreases ds.len(),
{
    if ds.len() == 0 {
        seq![]
    } else {
        let w = warnings_of(ds.drop_last());
        if ds.last().error is Some {
            w.push(warning_text(ds.last()))
        } else {
            w
        }
    }
}

/// Warnings for failed deliveries, and the overall outcome: success when
/// at least one backend succeeded.
pub fn delivery_outcome(deliveries: &Vec<Delivery>) -> (r: (Vec<String>, Result<(), SendError>))
    ensures
        r.0@.map_values(|w: String| w@) == warnings_of(deliveries@),
        (exists|i: int| 0 <= i < deliveries@.len() && deliveries@[i].error is None) ==> r.1 is Ok,
        !(exists|i: int| 0 <= i < deliveries@.len() && deliveries@[i].error is None) ==> r.1 matches Err(
            SendError::AllBackendsFailed,
        ),
{
    let mut warnings: Vec<String> = Vec::new();
    let mut any_success = false;
    let mut i: usize = 0;
    while i < deliveries.len()
        invariant
            i <= deliveries@.len(),
            warnings@.map_values(|w: String| w@) == warnings_of(deliveries@.take(i as int)),
            any_success == exists|j: int| 0 <= j < i && deliveries@[j].error is None,
        decreases deliveries.len() - i,
    {
        let ghost before = warnings@;
        assert(deliveries@.take(i + 1).drop_last() =~= deliveries@.take(i as int));
        let d = &deliveries[i];
        match &d.error {
            Some(e) => {
                let mut v: Vec<char> = Vec::new();
                push_str(&mut v, d.backend.as_str());
                push_str(&mut v, ": ");
                push_str(&mut v, e.as_str());
                warnings.push(string_from_chars(v.as_slice()));
                assert(warnings@.map_values(|w: String| w@) =~= before.map_values(|w: String| w@).push(
                    warning_text(*d),
                ));
            },
            None => {
                any_success = true;
            },
        }
        i = i + 1;
    }
    assert(deliveries@.take(deliveries.len() as int) =~= deliveries@);
    if any_success {
        (warnings, Ok(()))
    } else {
        (warnings, Err(SendError::AllBackendsFailed))
    }
}

} // verus!
