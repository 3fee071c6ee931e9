use chat_searcher::deserialization::{
    convert_entities, convert_entity, deserialize_messages, DeserializedMessage,
    DeserializedMessageType, DeserializedTextEntity, DeserializedTextEntityType, Message,
    TextEntity,
};

fn entity(entity_type: DeserializedTextEntityType, text: &str) -> DeserializedTextEntity {
    DeserializedTextEntity { entity_type, text: text.to_string() }
}

fn exported(id: u32, reply_to_message_id: Option<u32>) -> DeserializedMessage {
    DeserializedMessage {
        id,
        message_type: DeserializedMessageType::Message,
        date_unixtime: 1000 + id,
        text_entities: vec![entity(DeserializedTextEntityType::Plain, "text")],
        reply_to_message_id,
    }
}

fn service(id: u32) -> DeserializedMessage {
    DeserializedMessage {
        id,
        message_type: DeserializedMessageType::Service,
        date_unixtime: 1000 + id,
        text_entities: Vec::new(),
        reply_to_message_id: None,
    }
}

#[test]
fn entity_kinds() {
    for kind in [
        DeserializedTextEntityType::Link,
        DeserializedTextEntityType::CustomEmoji,
        DeserializedTextEntityType::MentionName,
        DeserializedTextEntityType::BotCommand,
        DeserializedTextEntityType::Phone,
        DeserializedTextEntityType::Mention,
        DeserializedTextEntityType::Code,
        DeserializedTextEntityType::Email,
    ] {
        assert_eq!(convert_entity(entity(kind, "x")), TextEntity::Illemmatizable("x".to_string()));
    }
    for kind in [
        DeserializedTextEntityType::Spoiler,
        DeserializedTextEntityType::Bold,
        DeserializedTextEntityType::TextLink,
        DeserializedTextEntityType::Pre,
        DeserializedTextEntityType::Plain,
        DeserializedTextEntityType::Underline,
        DeserializedTextEntityType::Strikethrough,
        DeserializedTextEntityType::Blockquote,
        DeserializedTextEntityType::Italic,
        DeserializedTextEntityType::Hashtag,
    ] {
        assert_eq!(convert_entity(entity(kind, "x")), TextEntity::Lemmatizable("x".to_string()));
    }
}

#[test]
fn entities_keep_their_order() {
    let converted = convert_entities(vec![
        entity(DeserializedTextEntityType::Bold, "abc"),
        entity(DeserializedTextEntityType::Plain, "123"),
        entity(DeserializedTextEntityType::Link, "https://google.com/"),
        entity(DeserializedTextEntityType::Plain, ""),
    ]);
    assert_eq!(
        converted,
        vec![
            TextEntity::Lemmatizable("abc".to_string()),
            TextEntity::Lemmatizable("123".to_string()),
            TextEntity::Illemmatizable("https://google.com/".to_string()),
            TextEntity::Lemmatizable(String::new()),
        ]
    );
    assert_eq!(convert_entities(Vec::new()), Vec::<TextEntity>::new());
}

#[test]
fn message_text_is_the_segments_in_a_row() {
    let message = Message {
        id: 0,
        text_entities: vec![
            TextEntity::Lemmatizable("see ".to_string()),
            TextEntity::Illemmatizable("https://example.org".to_string()),
            TextEntity::Lemmatizable(" now".to_string()),
        ],
        date_unixtime: 0,
        reply_to_message_id: None,
    };
    assert_eq!(message.text(), "see https://example.org now");
    assert_eq!(message.text_entities[1].as_str(), "https://example.org");
    let empty = Message { id: 0, text_entities: vec![], date_unixtime: 0, reply_to_message_id: None };
    assert_eq!(empty.text(), "");
}

#[test]
fn service_entries_are_left_out_and_messages_renumbered() {
    let messages = deserialize_messages(vec![
        service(1),
        exported(3, None),
        service(4),
        exported(7, Some(3)),
        exported(9, Some(7)),
    ]);
    assert_eq!(messages.len(), 3);
    assert_eq!(messages[0].id, 0);
    assert_eq!(messages[1].id, 1);
    assert_eq!(messages[2].id, 2);
    assert_eq!(messages[0].reply_to_message_id, None);
    assert_eq!(messages[1].reply_to_message_id, Some(0));
    assert_eq!(messages[2].reply_to_message_id, Some(1));
    assert_eq!(messages[0].date_unixtime, 1003);
    assert_eq!(messages[1].date_unixtime, 1007);
    assert_eq!(messages[0].text_entities, vec![TextEntity::Lemmatizable("text".to_string())]);
}

#[test]
fn reply_to_what_is_not_there_is_dropped() {
    let messages = deserialize_messages(vec![
        service(1),
        exported(2, Some(1)),
        exported(3, Some(5)),
        exported(5, Some(3)),
        exported(6, Some(6)),
    ]);
    assert_eq!(messages.len(), 4);
    // a reply to a service entry, to a later message, to the message itself
    assert_eq!(messages[0].reply_to_message_id, None);
    assert_eq!(messages[1].reply_to_message_id, None);
    assert_eq!(messages[2].reply_to_message_id, Some(1));
    assert_eq!(messages[3].reply_to_message_id, None);
}

#[test]
fn repeated_id_means_the_last_message_before() {
    let messages = deserialize_messages(vec![
        exported(1, None),
        exported(1, None),
        exported(2, Some(1)),
    ]);
    assert_eq!(messages[2].reply_to_message_id, Some(1));
}

#[test]
fn empty_export_gives_no_messages() {
    assert!(deserialize_messages(Vec::new()).is_empty());
    assert!(deserialize_messages(vec![service(1), service(2)]).is_empty());
}
