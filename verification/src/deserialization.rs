//! Messages as the search engine takes them: numbered from zero in the order
//! of the log, with their text in typed segments and an optional reply link.

use std::collections::HashMap;
use vstd::prelude::*;
use vstd::string::StringExecFns;

verus! {

broadcast use vstd::std_specs::hash::group_hash_axioms;

/// A segment of a message's text.
#[derive(Clone, Debug, PartialEq, Eq)]
pub enum TextEntity {
    /// Text whose words are indexed and may be highlighted.
    Lemmatizable(String),
    /// Text that is never split into words: a link, a mention, a command, a
    /// phone number, inline code, a custom emoji.
    Illemmatizable(String),
}

impl TextEntity {
    /// The characters of the segment.
    pub open spec fn content(&self) -> Seq<char> {
        match self {
            TextEntity::Lemmatizable(text) => text@,
            TextEntity::Illemmatizable(text) => text@,
        }
    }

    /// The text of the segment.
    pub fn as_str(&self) -> (text: &str)
        ensures
            text@ == self.content(),
    {
        match self {
            TextEntity::Lemmatizable(text) => text.as_str(),
            TextEntity::Illemmatizable(text) => text.as_str(),
        }
    }
}

/// A message of the log.
#[derive(Clone, Debug, PartialEq, Eq)]
pub struct Message {
    /// The position of the message in the log, from zero.
    pub id: usize,
    /// The text, segment by segment.
    pub text_entities: Vec<TextEntity>,
    /// When the message was sent, in seconds since the Unix epoch.
    pub date_unixtime: u32,
    /// The message that this one replies to, if any.
    pub reply_to_message_id: Option<usize>,
}

/// The texts of some segments, one after the other.
pub open spec fn flat_text(entities: Seq<TextEntity>) -> Seq<char>
    decreases entities.len(),
{
    if entities.len() == 0 {
        Seq::empty()
    } else {
        flat_text(entities.drop_last()) + entities.last().content()
    }
}

impl Message {
    /// The whole text of the message.
    pub open spec fn content(&self) -> Seq<char> {
        flat_text(self.text_entities@)
    }

    /// The whole text of the message: its segments, one after the other.
    pub fn text(&self) -> (text: String)
        ensures
            text@ == self.content(),
    {
        let mut text = String::new();
        let mut i: usize = 0;
        while i < self.text_entities.len()
            invariant
                i <= self.text_entities.len(),
                text@ == flat_text(self.text_entities@.take(i as int)),
            decreases self.text_entities.len() - i,
        {
            proof {
                assert(self.text_entities@.take(i + 1).drop_last() =~= self.text_entities@.take(
                    i as int,
                ));
            }
            text.append(self.text_entities[i].as_str());
            i += 1;
        }
        proof {
            assert(self.text_entities@.take(i as int) =~= self.text_entities@);
        }
        text
    }
}

/// The messages are numbered by their position, and every reply points at
/// an earlier message.
pub open spec fn well_formed(messages: Seq<Message>) -> bool {
    forall|i: int|
        #![trigger messages[i]]
        0 <= i < messages.len() ==> messages[i].id == i && (
        messages[i].reply_to_message_id matches Some(r) ==> r < i)
}

/// The first message of the reply chain that message `i` belongs to.
pub open spec fn root_of(messages: Seq<Message>, i: int) -> int
    decreases i,
{
    if 0 <= i < messages.len() {
        match messages[i].reply_to_message_id {
            Some(r) => if r < i {
                root_of(messages, r as int)
            } else {
                i
            },
            None => i,
        }
    } else {
        i
    }
}

/// What an entry of an exported chat is.
#[derive(Debug, Clone, Copy, PartialEq, Eq, Structural)]
pub enum DeserializedMessageType {
    /// A notice of the chat itself: a member joined, the title changed.
    Service,
    /// A message that somebody wrote.
    Message,
}

/// How a segment of an exported message is marked up.
#[derive(Debug, Clone, Copy, PartialEq, Eq, Structural)]
pub enum DeserializedTextEntityType {
    Link,
    CustomEmoji,
    Spoiler,
    MentionName,
    Bold,
    TextLink,
    BotCommand,
    Pre,
    Plain,
    Phone,
    Underline,
    Strikethrough,
    Mention,
    Blockquote,
    Code,
    Italic,
    Hashtag,
    Email,
}

/// A segment of an exported message.
#[derive(Debug, Clone, PartialEq, Eq)]
pub struct DeserializedTextEntity {
    pub entity_type: DeserializedTextEntityType,
    pub text: String,
}

/// An entry of an exported chat.
#[derive(Debug, Clone, PartialEq, Eq)]
pub struct DeserializedMessage {
    /// The id that the export gives the entry.
    pub id: u32,
    pub message_type: DeserializedMessageType,
    pub date_unixtime: u32,
    pub text_entities: Vec<DeserializedTextEntity>,
    /// The export's id of the entry that this one replies to.
    pub reply_to_message_id: Option<u32>,
}

/// Whether segments of a kind are split into words: all but links, custom
/// emoji, mentions, bot commands, phone numbers, inline code and e-mail
/// addresses.
pub open spec fn is_lemmatizable(kind: DeserializedTextEntityType) -> bool {
    !(kind is Link || kind is CustomEmoji || kind is MentionName || kind is BotCommand
        || kind is Phone || kind is Mention || kind is Code || kind is Email)
}

/// The entries of an export that are messages, in their order.
pub open spec fn written(chat: Seq<DeserializedMessage>) -> Seq<DeserializedMessage>
    decreases chat.len(),
{
    if chat.len() == 0 {
        Seq::empty()
    } else if chat.last().message_type is Service {
        written(chat.drop_last())
    } else {
        written(chat.drop_last()).push(chat.last())
    }
}

/// The position of the last message before position `i` that has the
/// export's id `id`.
pub open spec fn latest_with_id(messages: Seq<DeserializedMessage>, i: int, id: u32) -> Option<
    usize,
>
    decreases i,
{
    if i <= 0 {
        None
    } else if messages[i - 1].id == id {
        Some((i - 1) as usize)
    } else {
        latest_with_id(messages, i - 1, id)
    }
}

/// The reply link of the message at position `i`: the position of the last
/// message before it that has the id replied to. A reply to what is not
/// there is no reply.
pub open spec fn reply_of(messages: Seq<DeserializedMessage>, i: int) -> Option<usize> {
    match messages[i].reply_to_message_id {
        Some(id) => latest_with_id(messages, i, id),
        None => None,
    }
}

/// `entity` is the segment `exported` as the search engine takes it.
pub open spec fn converts_entity(exported: DeserializedTextEntity, entity: TextEntity) -> bool {
    &&& entity.content() == exported.text@
    &&& entity is Lemmatizable <==> is_lemmatizable(exported.entity_type)
}

/// `message` is the message at position `i` of `messages` as the search
/// engine takes it: numbered by its position, with its reply link mapped to
/// positions.
pub open spec fn converts_message(
    messages: Seq<DeserializedMessage>,
    i: int,
    message: Message,
) -> bool {
    &&& message.id == i
    &&& message.date_unixtime == messages[i].date_unixtime
    &&& message.reply_to_message_id == reply_of(messages, i)
    &&& message.text_entities@.len() == messages[i].text_entities@.len()
    &&& forall|k: int|
        0 <= k < message.text_entities@.len() ==> converts_entity(
            messages[i].text_entities@[k],
            #[trigger] message.text_entities@[k],
        )
}

/// A message found under an id stands before the position asked for and
/// has that id.
pub proof fn lemma_latest_with_id(messages: Seq<DeserializedMessage>, i: int, id: u32)
    requires
        0 <= i <= messages.len(),
        i <= usize::MAX,
    ensures
        latest_with_id(messages, i, id) matches Some(j) ==> j < i && messages[j as int].id == id,
    decreases i,
{
    if i > 0 && messages[i - 1].id != id {
        lemma_latest_with_id(messages, i - 1, id);
    }
}

/// What is found before a position does not depend on what follows it.
pub proof fn lemma_latest_with_id_prefix(
    a: Seq<DeserializedMessage>,
    b: Seq<DeserializedMessage>,
    i: int,
    id: u32,
)
    requires
        0 <= i <= a.len(),
        i <= b.len(),
        forall|j: int| 0 <= j < i ==> a[j] == b[j],
    ensures
        latest_with_id(a, i, id) == latest_with_id(b, i, id),
    decreases i,
{
    if i > 0 {
        lemma_latest_with_id_prefix(a, b, i - 1, id);
    }
}

/// The segment as the search engine takes it.
pub fn convert_entity(exported: DeserializedTextEntity) -> (entity: TextEntity)
    ensures
        converts_entity(exported, entity),
{
    match exported.entity_type {
        DeserializedTextEntityType::Link
        | DeserializedTextEntityType::CustomEmoji
        | DeserializedTextEntityType::MentionName
        | DeserializedTextEntityType::BotCommand
        | DeserializedTextEntityType::Phone
        | DeserializedTextEntityType::Mention
        | DeserializedTextEntityType::Code
        | DeserializedTextEntityType::Email => TextEntity::Illemmatizable(exported.text),
        _ => TextEntity::Lemmatizable(exported.text),
    }
}

/// The segments as the search engine takes them.
pub fn convert_entities(exported: Vec<DeserializedTextEntity>) -> (entities: Vec<TextEntity>)
    ensures
        entities@.len() == exported@.len(),
        forall|k: int|
            0 <= k < entities@.len() ==> converts_entity(exported@[k], #[trigger] entities@[k]),
{
    let ghost all = exported@;
    let mut entities: Vec<TextEntity> = Vec::new();
    for entity in it: exported
        invariant
            it.seq() == all,
            entities@.len() == it.index(),
            forall|k: int|
                0 <= k < entities@.len() ==> converts_entity(all[k], #[trigger] entities@[k]),
    {
        entities.push(convert_entity(entity));
    }
    entities
}

/// The messages of an export as the search engine takes them: the service
/// entries are left out, the messages are numbered from zero in their order,
/// and every reply link is mapped to the new number of the message replied
/// to, or dropped when no earlier message has the id.
pub fn deserialize_messages(chat: Vec<DeserializedMessage>) -> (messages: Vec<Message>)
    ensures
        messages@.len() == written(chat@).len(),
        forall|i: int|
            0 <= i < messages@.len() ==> converts_message(written(chat@), i, #[trigger] messages@[i]),
        well_formed(messages@),
{
    let ghost all = chat@;
    let mut pruned_ids: HashMap<u32, usize> = HashMap::new();
    let mut messages: Vec<Message> = Vec::new();
    proof {
        assert(all.take(0) =~= Seq::<DeserializedMessage>::empty());
    }
    for entry in it: chat
        invariant
            it.seq() == all,
            messages@.len() == written(all.take(it.index())).len(),
            forall|i: int|
                0 <= i < messages@.len() ==> converts_message(
                    written(all.take(it.index())),
                    i,
                    #[trigger] messages@[i],
                ),
            forall|id: u32|
                (#[trigger] pruned_ids@.contains_key(id)) <==> latest_with_id(
                    written(all.take(it.index())),
                    messages@.len() as int,
                    id,
                ) is Some,
            forall|id: u32| #[trigger]
                pruned_ids@.contains_key(id) ==> Some(pruned_ids@[id]) == latest_with_id(
                    written(all.take(it.index())),
                    messages@.len() as int,
                    id,
                ),
    {
        let ghost done = it.index();
        let ghost before = written(all.take(done));
        let ghost after = written(all.take(done + 1));
        let ghost count = messages@.len() as int;
        proof {
            assert(all.take(done + 1).drop_last() =~= all.take(done));
            assert(all.take(done + 1).last() == all[done]);
            assert(entry == all[done]);
        }
        let DeserializedMessage { id, message_type, date_unixtime, text_entities, reply_to_message_id } =
            entry;
        match message_type {
            DeserializedMessageType::Service => {
                proof {
                    assert(after == before);
                }
            },
            DeserializedMessageType::Message => {
                let reply = match reply_to_message_id {
                    Some(replied) => match pruned_ids.get(&replied) {
                        Some(position) => Some(*position),
                        None => None,
                    },
                    None => None,
                };
                let position = messages.len();
                let message = Message {
                    id: position,
                    text_entities: convert_entities(text_entities),
                    date_unixtime,
                    reply_to_message_id: reply,
                };
                proof {
                    assert(after == before.push(entry));
                    assert(after[count] == entry);
                    assert forall|wanted: u32|
                        latest_with_id(after, count, wanted) == latest_with_id(
                            before,
                            count,
                            wanted,
                        ) by {
                        lemma_latest_with_id_prefix(after, before, count, wanted);
                    }
                    assert(converts_message(after, count, message));
                    assert forall|i: int| 0 <= i < count implies converts_message(
                        after,
                        i,
                        #[trigger] messages@[i],
                    ) by {
                        assert(converts_message(before, i, messages@[i]));
                        assert(after[i] == before[i]);
                        if before[i].reply_to_message_id is Some {
                            lemma_latest_with_id_prefix(
                                after,
                                before,
                                i,
                                before[i].reply_to_message_id->0,
                            );
                        }
                    }
                }
                messages.push(message);
                pruned_ids.insert(id, position);
            },
        }
    }
    proof {
        assert(all.take(all.len() as int) =~= all);
        let kept = written(all);
        assert forall|i: int|
            #![trigger messages@[i]]
            0 <= i < messages@.len() implies messages@[i].id == i && (
        messages@[i].reply_to_message_id matches Some(r) ==> r < i) by {
            assert(converts_message(kept, i, messages@[i]));
            if kept[i].reply_to_message_id is Some {
                lemma_latest_with_id(kept, i, kept[i].reply_to_message_id->0);
            }
        }
    }
    messages
}

} // verus!
