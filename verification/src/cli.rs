//! Checks on the arguments of a send (`pygmy --topic <TOPIC> <MESSAGE>`).
use vstd::prelude::*;

use crate::text::{push_str, string_from_chars, trim, trim_spec};

verus! {

/// Why a send was refused before any backend was contacted.
pub enum SendArgError {
    MissingTopic,
    MessageAndStdin,
    NoMessage,
    EmptyMessage,
}

impl SendArgError {
    /// The message shown to the user.
    pub fn message(&self) -> (m: String)
        ensures
            m@ == match self {
                SendArgError::MissingTopic => "--topic is required.\nUsage: pygmy --topic <NAME> <MESSAGE>"@,
                SendArgError::MessageAndStdin => "Cannot provide both a message argument and --stdin."@,
                SendArgError::NoMessage => "No message provided.\nUsage: pygmy --topic <NAME> \"your message\""@,
                SendArgError::EmptyMessage => "Message is empty."@,
            },
    {
        match self {
            SendArgError::MissingTopic => "--topic is required.\nUsage: pygmy --topic <NAME> <MESSAGE>".to_owned(),
            SendArgError::MessageAndStdin => "Cannot provide both a message argument and --stdin.".to_owned(),
            SendArgError::NoMessage => "No message provided.\nUsage: pygmy --topic <NAME> \"your message\"".to_owned(),
            SendArgError::EmptyMessage => "Message is empty.".to_owned(),
        }
    }
}

/// Where the message text comes from.
pub enum MessageSource {
    Arguments,
    Stdin,
}

/// The topic, which must be given.
pub fn require_topic(topic: Option<&str>) -> (r: Result<String, SendArgError>)
    ensures
        match topic {
            Some(t) => r matches Ok(s) && s@ == t@,
            None => r matches Err(SendArgError::MissingTopic),
        },
{
    match topic {
        Some(t) => Ok(t.to_owned()),
        None => Err(SendArgError::MissingTopic),
    }
}

/// Where to read the message: the arguments when there are any (not
/// together with `--stdin`), else standard input when `--stdin` is given or
/// input is piped.
pub fn message_source(has_args: bool, stdin_flag: bool, stdin_is_terminal: bool) -> (r: Result<MessageSource, SendArgError>)
    ensures
        has_args && stdin_flag ==> r matches Err(SendArgError::MessageAndStdin),
        has_args && !stdin_flag ==> r matches Ok(MessageSource::Arguments),
        !has_args && (stdin_flag || !stdin_is_terminal) ==> r matches Ok(MessageSource::Stdin),
        !has_args && !stdin_flag && stdin_is_terminal ==> r matches Err(SendArgError::NoMessage),
{
    if has_args {
        if stdin_flag {
            Err(SendArgError::MessageAndStdin)
        } else {
            Ok(MessageSource::Arguments)
        }
    } else if stdin_flag || !stdin_is_terminal {
        Ok(MessageSource::Stdin)
    } else {
        Err(SendArgError::NoMessage)
    }
}

/// The first `n` words joined by single spaces.
pub open spec fn join_words(words: Seq<Seq<char>>, n: int) -> Seq<char>
    decreases n,
{
    if n <= 0 {
        seq![]
    } else if n == 1 {
        words[0]
    } else {
        join_words(words, n - 1) + seq![' '] + words[n - 1]
    }
}

/// The message arguments joined by single spaces.
pub fn join_args(args: &[String]) -> (m: String)
    ensures
        m@ == join_words(args.deep_view(), args@.len() as int),
{
    let ghost w = args.deep_view();
    let mut v: Vec<char> = Vec::new();
    let mut i: usize = 0;
    while i < args.len()
        invariant
            i <= args@.len(),
            w == args.deep_view(),
            v@ == join_words(w, i as int),
        decreases args.len() - i,
    {
        if i > 0 {
            v.push(' ');
        }
        assert(w[i as int] == args@[i as int]@);
        push_str(&mut v, args[i].as_str());
        i = i + 1;
        assert(v@ =~= join_words(w, i as int));
    }
    string_from_chars(v.as_slice())
}

/// Refuses a message that is empty or only whitespace.
pub fn check_message(message: &str) -> (r: Result<(), SendArgError>)
    ensures
        trim_spec(message@).len() == 0 <==> r matches Err(SendArgError::EmptyMessage),
        trim_spec(message@).len() > 0 <==> r is Ok,
{
    let t = trim(message);
    if crate::text::chars_of(t.as_str()).len() == 0 {
        Err(SendArgError::EmptyMessage)
    } else {
        Ok(())
    }
}

} // verus!
