//! Messages as an export tells them.

use vstd::prelude::*;

use crate::archive;
use crate::calendar::{self, LocalTime};
use crate::copier::CopierView;
use crate::json::JsonView;
use crate::message::{self, AuthorRecord, MessageView};
use crate::model::{self, ArchiveIndex, Conversation, Recipient};
use crate::order;
use crate::parser;
use crate::payload;
use crate::staging;
use crate::text;

verus! {

/// A message that was received is told as incoming, one that was only sent as
/// outgoing, and one that was neither as directionless; no two of these are the
/// same.
pub proof fn directions_tell_who_sent_a_message(message: JsonView)
    ensures
        message.has("incoming"@) ==> message::direction_of(message) == "incoming"@,
        !message.has("incoming"@) && message.has("outgoing"@) ==> message::direction_of(message)
            == "outgoing"@,
        !message.has("incoming"@) && !message.has("outgoing"@) ==> message::direction_of(message)
            == "directionless"@,
        "incoming"@ != "outgoing"@,
        "incoming"@ != "directionless"@,
        "outgoing"@ != "directionless"@,
{
    reveal_strlit("incoming");
    reveal_strlit("outgoing");
    reveal_strlit("directionless");
    assert("incoming"@[0] != "outgoing"@[0]);
    assert("incoming"@.len() != "directionless"@.len());
    assert("outgoing"@.len() != "directionless"@.len());
}

proof fn lemma_recipient(recipients: Seq<Recipient>, id: Seq<char>)
    ensures
        match model::recipient_with(recipients, id) {
            Some(found) => exists|k: int|
                0 <= k < recipients.len() && (#[trigger] recipients[k]).id@ == id
                    && recipients[k]@ == found,
            None => forall|k: int| 0 <= k < recipients.len() ==> (#[trigger] recipients[k]).id@
                != id,
        },
    decreases recipients.len(),
{
    if recipients.len() > 0 {
        let rest = recipients.drop_last();
        if recipients.last().id@ == id {
            assert(recipients[recipients.len() - 1].id@ == id);
        } else {
            lemma_recipient(rest, id);
            match model::recipient_with(rest, id) {
                Some(found) => {
                    let k = choose|k: int|
                        0 <= k < rest.len() && (#[trigger] rest[k]).id@ == id && rest[k]@ == found;
                    assert(recipients[k] == rest[k]);
                },
                None => {
                    assert forall|k: int| 0 <= k < recipients.len() implies (
                    #[trigger] recipients[k]).id@ != id by {
                        if k < rest.len() {
                            assert(rest[k] == recipients[k]);
                        }
                    }
                },
            }
        }
    }
}

/// Someone is shown by their name in the archive, and one whom it does not know by
/// their id.
pub proof fn people_are_shown_by_name(index: ArchiveIndex, place: int, id: Seq<char>)
    requires
        index.is_well_formed(),
    ensures
        0 <= place < index.recipients@.len() ==> index.author_name_text(
            index.recipients@[place].id@,
        ) == index.recipients@[place].name@,
        (forall|k: int|
            0 <= k < index.recipients@.len() ==> (#[trigger] index.recipients@[k]).id@ != id)
            ==> index.author_name_text(id) == "Unknown recipient "@ + id,
{
    let all = index.recipients@;
    if 0 <= place < all.len() {
        lemma_recipient(all, all[place].id@);
        let ids = all.map_values(|recipient: Recipient| recipient.id@);
        let found = model::recipient_with(all, all[place].id@);
        assert(found is Some);
        let k = choose|k: int|
            0 <= k < all.len() && (#[trigger] all[k]).id@ == all[place].id@ && all[k]@ == found->0;
        assert(ids[k] == ids[place]);
        assert(k == place);
    }
    lemma_recipient(all, id);
}

/// An object gives an id under a key, as text or as a number.
pub open spec fn gives_id(object: JsonView, key: Seq<char>, id: Seq<char>) -> bool {
    match object.member(key) {
        Some(JsonView::Text(held)) => held == id && id.len() > 0,
        Some(JsonView::Number(number)) => number.text == id,
        _ => false,
    }
}

/// A record tells the chat, the time and the author of its message, and passes on
/// its data.
pub proof fn a_record_tells_chat_time_and_author(
    message: JsonView,
    conversation: Conversation,
    index: ArchiveIndex,
    copier: CopierView,
    timestamp_ms: i64,
    time: LocalTime,
    long_text: Option<Seq<u8>>,
    sources: Seq<Option<Seq<char>>>,
    id: Seq<char>,
)
    ensures
        ({
            let record = message::message_told(
                message,
                conversation,
                index,
                copier,
                timestamp_ms,
                time,
                long_text,
                sources,
            );
            &&& record.conversation_id == conversation.id@
            &&& record.conversation_name == conversation.name@
            &&& record.timestamp_ms == timestamp_ms
            &&& record.timestamp == calendar::time_text(time)
            &&& record.message_type == payload::kind_of(message)
            &&& record.direction == message::direction_of(message)
            &&& record.signal_data == payload::passed_data(message)
            &&& gives_id(message, "authorId"@, id) ==> record.author.id == id
            &&& message.member("authorId"@) is None ==> record.author.id.len() == 0
            &&& record.author.name == index.author_name_text(record.author.id)
        }),
{
}

/// A message that answers to another tells whom it quotes and the words; where
/// there are no words, there is no quote.
pub proof fn a_quote_tells_whom_and_what(index: ArchiveIndex, held: JsonView, id: Seq<char>)
    ensures
        message::quote_of(index, None) is None,
        match held.object_member("quote"@) {
            None => message::quote_of(index, Some(held)) is None,
            Some(quote) => match quote.object_member("text"@) {
                None => message::quote_of(index, Some(held)) is None,
                Some(words) => match words.text_member("body"@) {
                    None => message::quote_of(index, Some(held)) is None,
                    Some(body) => message::quote_of(index, Some(held)) matches Some(shown)
                        && shown.text == body && (gives_id(quote, "authorId"@, id)
                        ==> shown.author == index.author_name_text(id)),
                },
            },
        },
{
}

/// Reactions are told one after the other: each with its emoji and who reacted;
/// what has no emoji is passed over.
pub proof fn reactions_are_told_in_order(
    index: ArchiveIndex,
    items: Seq<JsonView>,
    further: JsonView,
    id: Seq<char>,
)
    ensures
        message::reactions_in(index, Seq::empty()).len() == 0,
        match further.text_member("emoji"@) {
            Some(emoji) => {
                let all = message::reactions_in(index, items.push(further));
                let before = message::reactions_in(index, items);
                &&& all.len() == before.len() + 1
                &&& all.drop_last() == before
                &&& all.last().emoji == emoji
                &&& gives_id(further, "authorId"@, id) ==> all.last().author
                    == index.author_name_text(id)
            },
            None => message::reactions_in(index, items.push(further)) == message::reactions_in(
                index,
                items,
            ),
        },
{
    assert(items.push(further).drop_last() =~= items);
    let before = message::reactions_in(index, items);
    if further.text_member("emoji"@) is Some {
        let all = message::reactions_in(index, items.push(further));
        assert(all.drop_last() =~= before);
    }
}

/// The reactions to a message are those in the list under `reactions`.
pub proof fn reactions_stand_in_the_payload(index: ArchiveIndex, held: JsonView)
    ensures
        message::reactions_of(index, None).len() == 0,
        held.member("reactions"@) matches Some(JsonView::Array(items)) ==> message::reactions_of(
            index,
            Some(held),
        ) == message::reactions_in(index, items),
        held.member("reactions"@) is None ==> message::reactions_of(index, Some(held)).len() == 0,
{
}

/// A message whose text stands in a file of its own is told by the text in the
/// file; where the file is missing, empty or no text, by what the message holds.
pub proof fn a_long_text_is_told_in_full(
    message: JsonView,
    conversation: Conversation,
    index: ArchiveIndex,
    copier: CopierView,
    timestamp_ms: i64,
    time: LocalTime,
    long_text: Option<Seq<u8>>,
    sources: Seq<Option<Seq<char>>>,
)
    ensures
        ({
            let record = message::message_told(
                message,
                conversation,
                index,
                copier,
                timestamp_ms,
                time,
                long_text,
                sources,
            );
            let short = payload::text_of(payload::kind_of(message), payload::payload_of(message));
            let has_file = payload::payload_of(message) matches Some(held) && held.object_member(
                "longText"@,
            ) is Some;
            let long = match long_text {
                Some(bytes) => if vstd::utf8::valid_utf8(bytes) {
                    vstd::utf8::decode_utf8(bytes)
                } else {
                    Seq::empty()
                },
                None => Seq::empty(),
            };
            &&& has_file && long.len() > 0 ==> record.text == Some(long)
            &&& !has_file || long.len() == 0 ==> record.text == short
            &&& record.quote == message::quote_of(index, payload::payload_of(message))
            &&& record.reactions == message::reactions_of(index, payload::payload_of(message))
        }),
{
}

/// A record tells one attachment for each file that its message describes.
pub proof fn a_record_tells_every_attachment(
    message: JsonView,
    conversation: Conversation,
    index: ArchiveIndex,
    copier: CopierView,
    timestamp_ms: i64,
    time: LocalTime,
    long_text: Option<Seq<u8>>,
    sources: Seq<Option<Seq<char>>>,
)
    ensures
        message::message_told(
            message,
            conversation,
            index,
            copier,
            timestamp_ms,
            time,
            long_text,
            sources,
        ).attachments == message::attach_all(copier, message::pointers_of(message), sources).1,
        message::attach_all(copier, message::pointers_of(message), sources).1.len()
            == message::pointers_of(message).len(),
{
    message::lemma_attachment_count(copier, message::pointers_of(message), sources);
}

/// The attachments of a message are told one after the other, each as the copier
/// stands after those before it.
pub proof fn attachments_are_told_in_order(
    copier: CopierView,
    pointers: Seq<JsonView>,
    sources: Seq<Option<Seq<char>>>,
    pointer: JsonView,
    source: Option<Seq<char>>,
)
    requires
        pointers.len() == sources.len(),
    ensures
        ({
            let before = message::attach_all(copier, pointers, sources);
            let after = message::attach_all(copier, pointers.push(pointer), sources.push(source));
            &&& after.0 == before.0.with_attachment(pointer, source)
            &&& after.1.len() == before.1.len() + 1
            &&& after.1.drop_last() == before.1
            &&& after.1.last() == before.0.attachment(pointer, source)
            &&& before.0.attachment_order(pointer, source) matches Some(order) ==> after.2
                == before.2.push(order)
            &&& before.0.attachment_order(pointer, source) is None ==> after.2 == before.2
            &&& message::attach_all(copier, Seq::empty(), Seq::empty()).0 == copier
        }),
{
    assert(pointers.push(pointer).drop_last() =~= pointers);
    assert(sources.push(source).drop_last() =~= sources);
    let before = message::attach_all(copier, pointers, sources);
    let after = message::attach_all(copier, pointers.push(pointer), sources.push(source));
    assert(after.1.drop_last() =~= before.1);
}

/// The file with a long text is the one under `longText` in the payload.
pub proof fn a_long_text_has_its_own_file(message: JsonView)
    ensures
        match payload::payload_of(message) {
            Some(held) => message::long_text_pointer(message) == held.object_member("longText"@),
            None => message::long_text_pointer(message) is None,
        },
{
}

/// The participants of a chat are its authors, each once and by name, and one stands
/// before another where its name in small letters comes first, or its id where the names
/// are alike.
pub proof fn participants_are_the_authors_in_order(
    authors: Seq<AuthorRecord>,
    index: ArchiveIndex,
    ids: Set<Seq<char>>,
    first: int,
    second: int,
    id: Seq<char>,
)
    requires
        message::is_participant_list(authors, index, ids),
        0 <= first < second < authors.len(),
    ensures
        ids.contains(authors[first].id@),
        authors[first].name@ == index.author_name_text(authors[first].id@),
        authors[first].id@ != authors[second].id@,
        ({
            let left = text::lowercase_text(authors[first].name@);
            let right = text::lowercase_text(authors[second].name@);
            order::text_before(left, right) || (left == right && order::text_before(
                authors[first].id@,
                authors[second].id@,
            ))
        }),
        ids.contains(id) ==> exists|k: int|
            0 <= k < authors.len() && (#[trigger] authors[k]).id@ == id,
{
    assert(message::author_before(authors[first]@, authors[second]@));
    let left = text::lowercase_text(authors[first].name@);
    order::text_order_is_total(left, left);
    order::text_order_is_total(authors[first].id@, authors[first].id@);
}

/// The record of a message in a document tells the chat of the document, as the archive
/// names it, and when the message was sent.
pub proof fn a_record_in_a_document_tells_its_message(
    index: ArchiveIndex,
    id: Seq<char>,
    media: CopierView,
    message: JsonView,
    sources: Seq<Option<Seq<char>>>,
    record: MessageView,
    sent: i64,
)
    requires
        staging::is_record(index, id, media, message, sources, record),
        parser::sent_at(message) == Some(sent as int),
    ensures
        index.conversation(id) matches Some(chat) && record.conversation_id == chat.id
            && record.conversation_name == chat.name,
        record.timestamp_ms == sent,
        exists|time: LocalTime| #[trigger]
            time.shows(sent as int) && record.timestamp == calendar::time_text(time),
        record.direction == message::direction_of(message),
        record.message_type == payload::kind_of(message),
        record.signal_data == payload::passed_data(message),
        record.attachments == message::attach_all(
            media,
            message::pointers_of(message),
            sources,
        ).1,
{
    let (time, conversation, long_text) = choose|
        time: LocalTime,
        conversation: Conversation,
        long_text: Option<Seq<u8>>,
    |
        {
            &&& parser::sent_at(message) is Some
            &&& time.shows(parser::sent_at(message)->0)
            &&& index.conversation(id) == Some(conversation@)
            &&& record == #[trigger] message::message_told(
                message,
                conversation,
                index,
                media,
                archive::sent_ms(message),
                time,
                long_text,
                sources,
            )
        };
    assert(time.shows(sent as int));
}

} // verus!
