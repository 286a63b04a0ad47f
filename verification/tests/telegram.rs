use pygmy::telegram::{
    bot_url, choose_group, find_groups, parse_usize, Chat, ChatMemberUpdated, GroupChoiceError,
    Message, Update,
};

fn chat(id: i64, title: Option<&str>, kind: &str) -> Chat {
    Chat { id, title: title.map(|t| t.to_string()), chat_type: kind.to_string() }
}

fn message_update(c: Chat) -> Update {
    Update { message: Some(Message { chat: c }), channel_post: None, my_chat_member: None }
}

#[test]
fn bot_url_format() {
    assert_eq!(bot_url("123:abc", "getUpdates"), "https://api.telegram.org/bot123:abc/getUpdates");
}

#[test]
fn groups_are_found_once_in_order() {
    let updates = vec![
        message_update(chat(1, Some("private"), "private")),
        message_update(chat(-10, Some("Team"), "supergroup")),
        Update {
            message: Some(Message { chat: chat(-10, Some("Team"), "supergroup") }),
            channel_post: Some(Message { chat: chat(-99, Some("Chan"), "channel") }),
            my_chat_member: Some(ChatMemberUpdated { chat: chat(-20, None, "group") }),
        },
    ];
    let groups = find_groups(&updates);
    assert_eq!(groups, vec![(-10, "Team".to_string()), (-20, "Untitled".to_string())]);
    assert!(find_groups(&[]).is_empty());
}

#[test]
fn parse_usize_like_std() {
    assert_eq!(parse_usize("42"), Some(42));
    assert_eq!(parse_usize("+7"), Some(7));
    assert_eq!(parse_usize("007"), Some(7));
    assert_eq!(parse_usize(""), None);
    assert_eq!(parse_usize("+"), None);
    assert_eq!(parse_usize("-1"), None);
    assert_eq!(parse_usize("1a"), None);
    assert_eq!(parse_usize(&usize::MAX.to_string()), Some(usize::MAX));
    assert_eq!(parse_usize("99999999999999999999999"), None);
}

#[test]
fn group_choice() {
    assert!(matches!(choose_group(3, ""), Ok(0)));
    assert!(matches!(choose_group(3, "2"), Ok(1)));
    assert!(matches!(choose_group(3, "3"), Ok(2)));
    assert!(matches!(choose_group(3, "4"), Err(GroupChoiceError::InvalidChoice)));
    assert!(matches!(choose_group(3, "0"), Err(GroupChoiceError::InvalidChoice)));
    assert!(matches!(choose_group(3, "x"), Err(GroupChoiceError::InvalidNumber)));
}
