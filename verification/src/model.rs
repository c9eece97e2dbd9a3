//! The people and the chats of an archive.

use vstd::prelude::*;

use crate::calendar::{self, timestamp_to_local, LocalTime};
use crate::error::AppError;
use crate::text::{self, join2, same_text};

verus! {

/// Someone, or a group, that a chat can be with.
#[derive(Debug, Clone, PartialEq, Eq)]
pub struct Recipient {
    pub id: String,
    pub name: String,
    pub kind: String,
}

/// A recipient as mathematics sees it.
#[verifier::ext_equal]
pub struct RecipientView {
    pub id: Seq<char>,
    pub name: Seq<char>,
    pub kind: Seq<char>,
}

/// A chat and what its messages have in common.
#[derive(Debug, Clone, PartialEq, Eq)]
pub struct Conversation {
    pub id: String,
    pub recipient_id: String,
    pub name: String,
    pub kind: String,
    pub message_count: u64,
    pub is_technical_update_only: bool,
    pub first_timestamp_ms: Option<i64>,
    pub last_timestamp_ms: Option<i64>,
    pub author_ids: Vec<String>,
}

/// A chat as mathematics sees it.
#[verifier::ext_equal]
pub struct ConversationView {
    pub id: Seq<char>,
    pub recipient_id: Seq<char>,
    pub name: Seq<char>,
    pub kind: Seq<char>,
    pub message_count: u64,
    pub is_technical_update_only: bool,
    pub first_timestamp_ms: Option<i64>,
    pub last_timestamp_ms: Option<i64>,
    pub author_ids: Set<Seq<char>>,
}

/// What is known of an archive after one pass over it.
#[derive(Debug, Clone)]
pub struct ArchiveIndex {
    pub source_file: String,
    pub export_root: String,
    pub account_name: String,
    pub recipients: Vec<Recipient>,
    pub conversations: Vec<Conversation>,
    pub total_lines: u64,
}

impl Recipient {
    pub open spec fn view(&self) -> RecipientView {
        RecipientView { id: self.id@, name: self.name@, kind: self.kind@ }
    }
}

impl Conversation {
    pub open spec fn view(&self) -> ConversationView {
        ConversationView {
            id: self.id@,
            recipient_id: self.recipient_id@,
            name: self.name@,
            kind: self.kind@,
            message_count: self.message_count,
            is_technical_update_only: self.is_technical_update_only,
            first_timestamp_ms: self.first_timestamp_ms,
            last_timestamp_ms: self.last_timestamp_ms,
            author_ids: text::texts(self.author_ids@).to_set(),
        }
    }

    /// No author is listed twice.
    pub open spec fn is_well_formed(&self) -> bool {
        text::texts(self.author_ids@).no_duplicates()
    }
}

/// The recipient with an id.
pub open spec fn recipient_with(recipients: Seq<Recipient>, id: Seq<char>) -> Option<RecipientView>
    decreases recipients.len(),
{
    if recipients.len() == 0 {
        None
    } else if recipients.last().id@ == id {
        Some(recipients.last()@)
    } else {
        recipient_with(recipients.drop_last(), id)
    }
}

/// The chat with an id.
pub open spec fn conversation_with(
    conversations: Seq<Conversation>,
    id: Seq<char>,
) -> Option<ConversationView>
    decreases conversations.len(),
{
    if conversations.len() == 0 {
        None
    } else if conversations.last().id@ == id {
        Some(conversations.last()@)
    } else {
        conversation_with(conversations.drop_last(), id)
    }
}

impl ArchiveIndex {
    /// The recipient with an id.
    pub open spec fn recipient(&self, id: Seq<char>) -> Option<RecipientView> {
        recipient_with(self.recipients@, id)
    }

    /// The chat with an id.
    pub open spec fn conversation(&self, id: Seq<char>) -> Option<ConversationView> {
        conversation_with(self.conversations@, id)
    }

    /// No id stands for two recipients or two chats, and the chats are in order
    /// themselves.
    pub open spec fn is_well_formed(&self) -> bool {
        &&& self.recipients@.map_values(|recipient: Recipient| recipient.id@).no_duplicates()
        &&& self.conversations@.map_values(
            |conversation: Conversation| conversation.id@,
        ).no_duplicates()
        &&& forall|i: int|
            0 <= i < self.conversations@.len() ==> (
            #[trigger] self.conversations@[i]).is_well_formed()
    }

    /// The name to show for a recipient.
    pub open spec fn author_name_text(&self, recipient_id: Seq<char>) -> Seq<char> {
        match self.recipient(recipient_id) {
            Some(recipient) => recipient.name,
            None => "Unknown recipient "@ + recipient_id,
        }
    }

    /// The name to show for a recipient, known or not.
    pub fn author_name(&self, recipient_id: &str) -> (name: String)
        ensures
            name@ == self.author_name_text(recipient_id@),
    {
        match find_recipient(&self.recipients, recipient_id) {
            Some(recipient) => recipient.name.clone(),
            None => join2("Unknown recipient ", recipient_id),
        }
    }

    /// The chat with an id.
    pub fn find_conversation(&self, id: &str) -> (found: Option<&Conversation>)
        ensures
            match found {
                Some(conversation) => self.conversation(id@) == Some(conversation@)
                    && self.conversations@.contains(*conversation),
                None => self.conversation(id@) is None,
            },
    {
        let mut i: usize = self.conversations.len();
        assert(self.conversations@.take(i as int) =~= self.conversations@);
        while i > 0
            invariant
                i <= self.conversations@.len(),
                self.conversation(id@) == conversation_with(
                    self.conversations@.take(i as int),
                    id@,
                ),
            decreases i,
        {
            let ghost some = self.conversations@.take(i as int);
            assert(some.last() == self.conversations@[i as int - 1]);
            if same_text(self.conversations[i - 1].id.as_str(), id) {
                assert(self.conversations@.contains(self.conversations@[i as int - 1]));
                return Some(&self.conversations[i - 1]);
            }
            assert(some.drop_last() =~= self.conversations@.take(i as int - 1));
            i = i - 1;
        }
        None
    }
}

/// The recipient with an id.
pub fn find_recipient<'a>(recipients: &'a Vec<Recipient>, id: &str) -> (found: Option<
    &'a Recipient,
>)
    ensures
        match found {
            Some(recipient) => recipient_with(recipients@, id@) == Some(recipient@),
            None => recipient_with(recipients@, id@) is None,
        },
{
    let mut i: usize = recipients.len();
    assert(recipients@.take(i as int) =~= recipients@);
    while i > 0
        invariant
            i <= recipients@.len(),
            recipient_with(recipients@, id@) == recipient_with(recipients@.take(i as int), id@),
        decreases i,
    {
        let ghost some = recipients@.take(i as int);
        assert(some.last() == recipients@[i as int - 1]);
        if same_text(recipients[i - 1].id.as_str(), id) {
            return Some(&recipients[i - 1]);
        }
        assert(some.drop_last() =~= recipients@.take(i as int - 1));
        i = i - 1;
    }
    None
}

/// Where no id occurs twice, each recipient is the one with its id, and an id
/// that does not occur has none.
pub proof fn lemma_recipient_with(recipients: Seq<Recipient>, id: Seq<char>)
    requires
        recipients.map_values(|recipient: Recipient| recipient.id@).no_duplicates(),
    ensures
        forall|i: int|
            0 <= i < recipients.len() && (#[trigger] recipients[i]).id@ == id ==> recipient_with(
                recipients,
                id,
            ) == Some(recipients[i]@),
        recipient_with(recipients, id) is Some ==> recipients.map_values(
            |recipient: Recipient| recipient.id@,
        ).contains(id),
    decreases recipients.len(),
{
    let ids = recipients.map_values(|recipient: Recipient| recipient.id@);
    if recipients.len() > 0 {
        let rest = recipients.drop_last();
        let rest_ids = rest.map_values(|recipient: Recipient| recipient.id@);
        assert(rest_ids =~= ids.drop_last());
        lemma_recipient_with(rest, id);
        if recipients.last().id@ == id {
            assert(ids[recipients.len() - 1] == id);
            assert forall|i: int|
                0 <= i < recipients.len() && (#[trigger] recipients[i]).id@ == id implies i
                == recipients.len() - 1 by {
                assert(ids[i] == id);
            }
        } else {
            assert forall|i: int| 0 <= i < recipients.len() && (#[trigger] recipients[i]).id@
                == id implies recipient_with(recipients, id) == Some(recipients[i]@) by {
                assert(rest[i] == recipients[i]);
            }
            if recipient_with(rest, id) is Some {
                let k = choose|k: int| 0 <= k < rest_ids.len() && rest_ids[k] == id;
                assert(ids[k] == id);
            }
        }
    }
}

/// Where no id occurs twice, each chat is the one with its id, and an id that
/// does not occur has none.
pub proof fn lemma_conversation_with(conversations: Seq<Conversation>, id: Seq<char>)
    requires
        conversations.map_values(|conversation: Conversation| conversation.id@).no_duplicates(),
    ensures
        forall|i: int|
            0 <= i < conversations.len() && (#[trigger] conversations[i]).id@ == id
                ==> conversation_with(conversations, id) == Some(conversations[i]@),
        conversation_with(conversations, id) is Some ==> conversations.map_values(
            |conversation: Conversation| conversation.id@,
        ).contains(id),
    decreases conversations.len(),
{
    let ids = conversations.map_values(|conversation: Conversation| conversation.id@);
    if conversations.len() > 0 {
        let rest = conversations.drop_last();
        let rest_ids = rest.map_values(|conversation: Conversation| conversation.id@);
        assert(rest_ids =~= ids.drop_last());
        lemma_conversation_with(rest, id);
        if conversations.last().id@ == id {
            assert(ids[conversations.len() - 1] == id);
            assert forall|i: int|
                0 <= i < conversations.len() && (#[trigger] conversations[i]).id@ == id implies i
                == conversations.len() - 1 by {
                assert(ids[i] == id);
            }
        } else {
            assert forall|i: int| 0 <= i < conversations.len() && (#[trigger] conversations[i]).id@
                == id implies conversation_with(conversations, id) == Some(conversations[i]@) by {
                assert(rest[i] == conversations[i]);
            }
            if conversation_with(rest, id) is Some {
                let k = choose|k: int| 0 <= k < rest_ids.len() && rest_ids[k] == id;
                assert(ids[k] == id);
            }
        }
    }
}

/// The local time of a timestamp that may be missing.
pub open spec fn shows_optional(time: Option<LocalTime>, timestamp_ms: Option<i64>) -> bool {
    match (time, timestamp_ms) {
        (Some(shown), Some(milliseconds)) => shown.shows(milliseconds as int),
        (None, None) => true,
        _ => false,
    }
}

fn optional_local_time(timestamp_ms: Option<i64>) -> (result: Result<Option<LocalTime>, AppError>)
    ensures
        match result {
            Ok(time) => shows_optional(time, timestamp_ms),
            Err(error) => error is InvalidTimestamp && timestamp_ms is Some
                && !calendar::has_local_time(timestamp_ms->0 as int),
        },
        timestamp_ms matches Some(milliseconds) ==> (result is Ok) == calendar::has_local_time(
            milliseconds as int,
        ),
{
    match timestamp_ms {
        Some(milliseconds) => match timestamp_to_local(milliseconds) {
            Ok(time) => Ok(Some(time)),
            Err(error) => Err(error),
        },
        None => Ok(None),
    }
}

impl Conversation {
    /// The local time of the first message that has a timestamp.
    pub fn first_local_datetime(&self) -> (result: Result<Option<LocalTime>, AppError>)
        ensures
            match result {
                Ok(time) => shows_optional(time, self.first_timestamp_ms),
                Err(error) => error is InvalidTimestamp && self.first_timestamp_ms is Some
                    && !calendar::has_local_time(self.first_timestamp_ms->0 as int),
            },
            self.first_timestamp_ms matches Some(milliseconds) ==> (result is Ok)
                == calendar::has_local_time(milliseconds as int),
    {
        optional_local_time(self.first_timestamp_ms)
    }

    /// The local time of the last message that has a timestamp.
    pub fn last_local_datetime(&self) -> (result: Result<Option<LocalTime>, AppError>)
        ensures
            match result {
                Ok(time) => shows_optional(time, self.last_timestamp_ms),
                Err(error) => error is InvalidTimestamp && self.last_timestamp_ms is Some
                    && !calendar::has_local_time(self.last_timestamp_ms->0 as int),
            },
            self.last_timestamp_ms matches Some(milliseconds) ==> (result is Ok)
                == calendar::has_local_time(milliseconds as int),
    {
        optional_local_time(self.last_timestamp_ms)
    }
}

} // verus!
