use pygmy::cli::{check_message, join_args, message_source, require_topic, MessageSource, SendArgError};

#[test]
fn topic_is_required() {
    assert_eq!(require_topic(Some("t")).ok(), Some("t".to_string()));
    match require_topic(None) {
        Err(e) => assert_eq!(e.message(), "--topic is required.\nUsage: pygmy --topic <NAME> <MESSAGE>"),
        Ok(_) => panic!("expected an error"),
    }
}

#[test]
fn where_the_message_comes_from() {
    assert!(matches!(message_source(true, false, true), Ok(MessageSource::Arguments)));
    assert!(matches!(message_source(true, true, true), Err(SendArgError::MessageAndStdin)));
    assert!(matches!(message_source(false, true, true), Ok(MessageSource::Stdin)));
    assert!(matches!(message_source(false, false, false), Ok(MessageSource::Stdin)));
    assert!(matches!(message_source(false, false, true), Err(SendArgError::NoMessage)));
    assert_eq!(
        SendArgError::NoMessage.message(),
        "No message provided.\nUsage: pygmy --topic <NAME> \"your message\""
    );
}

#[test]
fn arguments_join_with_spaces() {
    let args = vec!["Done.".to_string(), "PR".to_string(), "#47".to_string()];
    assert_eq!(join_args(&args), "Done. PR #47");
    assert_eq!(join_args(&[]), "");
}

#[test]
fn blank_messages_are_refused() {
    assert!(check_message("hi").is_ok());
    assert!(matches!(check_message(" \n\t"), Err(SendArgError::EmptyMessage)));
    assert!(matches!(check_message(""), Err(SendArgError::EmptyMessage)));
    assert_eq!(SendArgError::EmptyMessage.message(), "Message is empty.");
}
