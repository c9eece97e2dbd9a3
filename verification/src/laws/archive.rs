//! What an archive says.

use vstd::prelude::*;

use crate::archive::{self, ItemFault, LineView};
use crate::calendar;
use crate::error::AppError;
use crate::json::{self, JsonView};
use crate::model::{self, ArchiveIndex, Conversation, Recipient};
use crate::parser;
use crate::text;
use crate::words;

verus! {

// ---------------------------------------------------------------------------
// Lines
// ---------------------------------------------------------------------------

/// A line is blank, or an item where it holds a JSON object, or wrong.
pub proof fn a_line_is_an_object_or_blank(line: Seq<char>)
    ensures
        (forall|i: int| 0 <= i < line.len() ==> text::is_blank(#[trigger] line[i])) ==> (
        archive::line_view(line) is Blank && archive::line_is_sound(line)),
        (exists|i: int| 0 <= i < line.len() && !text::is_blank(#[trigger] line[i])) ==> (
        match json::json_read(line) {
            Some(JsonView::Object(members)) => archive::line_view(line) == LineView::Item(
                JsonView::Object(members),
            ),
            Some(_) => archive::line_view(line) is NotObject && !archive::line_is_sound(line),
            None => archive::line_view(line) is NotJson && !archive::line_is_sound(line),
        }),
{
}

/// The items of an archive are the objects on its lines, in order.
pub proof fn items_stand_on_their_lines(lines: Seq<Seq<char>>, further: Seq<char>)
    ensures
        archive::items_of(Seq::empty()).len() == 0,
        archive::line_view(further) matches LineView::Item(item) ==> archive::items_of(
            lines.push(further),
        ) == archive::items_of(lines).push(item),
        archive::line_view(further) !is Item ==> archive::items_of(lines.push(further))
            == archive::items_of(lines),
        archive::last_item_line(Seq::empty()) == 0,
        words::all_blank(further) ==> archive::last_item_line(lines.push(further))
            == archive::last_item_line(lines),
        !words::all_blank(further) ==> archive::last_item_line(lines.push(further)) == lines.len()
            + 1,
{
    assert(lines.push(further).drop_last() =~= lines);
    assert(lines.push(further).last() == further);
}

/// A message needs the id of its chat and a time that the calendar can show; an item
/// that is no message needs neither.
pub proof fn a_message_needs_a_chat_and_a_time(item: JsonView, message: JsonView)
    ensures
        item.object_member("chatItem"@) is None ==> archive::item_fault(item) is None,
        item.object_member("chatItem"@) == Some(message) ==> ({
            &&& parser::id_member(message, "chatId"@) is None <==> archive::item_fault(item)
                == Some(ItemFault::NoChatId)
            &&& archive::item_fault(item) is None <==> (parser::id_member(message, "chatId"@)
                is Some && parser::sent_at(message) is Some && calendar::has_local_time(
                parser::sent_at(message)->0,
            ))
        }),
{
}

/// What is wrong with a line is told with the line's number, and of nothing else.
pub proof fn a_wrong_line_is_told_by_its_number(line: Seq<char>, number: int, error: AppError)
    ensures
        archive::line_is_sound(line) ==> !archive::is_line_error(line, number, error),
        archive::is_line_error(line, number, error) ==> match error {
            AppError::InvalidJson { line: told, .. } => told == number && !words::all_blank(line)
                && json::json_read(line) is None,
            AppError::NonObjectLine { line: told } => told == number && json::json_read(line)
                is Some && json::json_read(line)->0 !is Object,
            AppError::MissingChatId { line: told } => told == number && match json::json_read(
                line,
            ) {
                Some(item) => item.object_member("chatItem"@) is Some && parser::id_member(
                    item.object_member("chatItem"@)->0,
                    "chatId"@,
                ) is None,
                None => false,
            },
            AppError::InvalidDateSent { line: told } => told == number && match json::json_read(
                line,
            ) {
                Some(item) => item.object_member("chatItem"@) is Some && parser::id_member(
                    item.object_member("chatItem"@)->0,
                    "chatId"@,
                ) is Some,
                None => false,
            },
            _ => false,
        },
        !archive::line_is_sound(line) && archive::is_line_error(line, number, error) ==> (error
            is InvalidJson || error is NonObjectLine || error is MissingChatId || error
            is InvalidDateSent),
{
}

/// An archive is opened where no line is wrong, a header is in it and a chat is;
/// else its first wrong line is told, or what is missing.
pub proof fn an_archive_opens_where_it_is_whole(
    lines: Seq<Seq<char>>,
    file: Seq<char>,
    root: Seq<char>,
    result: Result<ArchiveIndex, AppError>,
    wrong: int,
    header: int,
    id: Seq<char>,
)
    requires
        archive::is_archive_result(lines, file, root, result),
    ensures
        0 <= wrong < lines.len() && !archive::line_is_sound(lines[wrong]) && (forall|j: int|
            0 <= j < wrong ==> archive::line_is_sound(#[trigger] lines[j])) ==> (result is Err
            && archive::is_line_error(lines[wrong], wrong + 1, result->Err_0)),
        (forall|j: int| 0 <= j < lines.len() ==> archive::line_is_sound(#[trigger] lines[j])) ==> ({
            let items = archive::items_of(lines);
            &&& (0 <= header < items.len() && items[header].has("version"@) && items[header].has(
                "backupTimeMs"@,
            ) && archive::is_chat(items, id)) ==> (result is Ok && result->Ok_0.source_file@
                == file && result->Ok_0.export_root@ == root && result->Ok_0.account_name@
                == archive::account_of(items) && result->Ok_0.conversation(id)
                == archive::conversation_of(items, id) && result->Ok_0.recipient(id)
                == archive::recipient_of(items, id))
            &&& (forall|i: int|
                0 <= i < items.len() ==> !(#[trigger] items[i]).has("version"@) || !items[i].has(
                    "backupTimeMs"@,
                )) ==> (result is Err && result->Err_0 is MissingHeader)
        }),
{
    assert(archive::is_first_fault(lines, wrong) <==> (0 <= wrong < lines.len()
        && !archive::line_is_sound(lines[wrong]) && (forall|j: int|
        0 <= j < wrong ==> archive::line_is_sound(#[trigger] lines[j]))));
    let items = archive::items_of(lines);
    if 0 <= header < items.len() {
        assert(archive::is_header(items[header]) <==> (items[header].has("version"@)
            && items[header].has("backupTimeMs"@)));
    }
    assert(forall|i: int|
        0 <= i < items.len() ==> (archive::is_header(#[trigger] items[i]) <==> (items[i].has(
            "version"@,
        ) && items[i].has("backupTimeMs"@))));
}

// ---------------------------------------------------------------------------
// Records
// ---------------------------------------------------------------------------

/// The last record that describes the account names it, by given name and family
/// name; without a name it is "You".
pub proof fn the_last_account_record_names_the_account(items: Seq<JsonView>, further: JsonView)
    ensures
        archive::account_of(Seq::empty()) == "You"@,
        further.object_member("account"@) is None ==> archive::account_of(items.push(further))
            == archive::account_of(items),
        further.object_member("account"@) matches Some(account) ==> ({
            let name = parser::name_in(account, "givenName"@, "familyName"@);
            archive::account_of(items.push(further)) == if name.len() > 0 {
                name
            } else {
                "You"@
            }
        }),
{
    assert(items.push(further).drop_last() =~= items);
    assert(items.push(further).last() == further);
}

/// The last record with an id counts; records with other ids, or none, change
/// nothing.
pub proof fn the_last_record_counts(
    items: Seq<JsonView>,
    further: JsonView,
    record: JsonView,
    key: Seq<char>,
    id: Seq<char>,
)
    ensures
        archive::last_record(Seq::empty(), key, id) is None,
        further.object_member(key) == Some(record) && parser::id_member(record, "id"@) == Some(id)
            ==> archive::last_record(items.push(further), key, id) == Some(record),
        further.object_member(key) == Some(record) && parser::id_member(record, "id"@) != Some(id)
            ==> archive::last_record(items.push(further), key, id) == archive::last_record(
            items,
            key,
            id,
        ),
        further.object_member(key) is None ==> archive::last_record(items.push(further), key, id)
            == archive::last_record(items, key, id),
{
    assert(items.push(further).drop_last() =~= items);
    assert(items.push(further).last() == further);
}

/// A message belongs to the chat that it names, after those that came before, and to
/// no other.
pub proof fn a_message_belongs_to_the_chat_it_names(
    items: Seq<JsonView>,
    further: JsonView,
    message: JsonView,
    id: Seq<char>,
)
    ensures
        archive::messages_of(Seq::empty(), id).len() == 0,
        further.object_member("chatItem"@) == Some(message) && parser::id_member(
            message,
            "chatId"@,
        ) == Some(id) ==> archive::messages_of(items.push(further), id) == archive::messages_of(
            items,
            id,
        ).push(message),
        further.object_member("chatItem"@) == Some(message) && parser::id_member(
            message,
            "chatId"@,
        ) != Some(id) ==> archive::messages_of(items.push(further), id) == archive::messages_of(
            items,
            id,
        ),
        further.object_member("chatItem"@) is None ==> archive::messages_of(items.push(further), id)
            == archive::messages_of(items, id),
{
    assert(items.push(further).drop_last() =~= items);
    assert(items.push(further).last() == further);
}

/// A message counts as sent when it says so.
pub proof fn a_message_counts_as_sent_when_it_says(message: JsonView, sent: i64)
    requires
        parser::sent_at(message) == Some(sent as int),
    ensures
        archive::sent_ms(message) == sent,
{
}

/// The authors of a chat are those that its messages name.
pub proof fn the_authors_are_those_of_the_messages(messages: Seq<JsonView>, author: Seq<char>)
    ensures
        archive::authors_of(messages).contains(author) <==> exists|i: int|
            0 <= i < messages.len() && parser::id_member(#[trigger] messages[i], "authorId"@)
                == Some(author),
    decreases messages.len(),
{
    if messages.len() > 0 {
        let rest = messages.drop_last();
        let end = messages.len() - 1;
        the_authors_are_those_of_the_messages(rest, author);
        assert(messages[end] == messages.last());
        if archive::authors_of(rest).contains(author) {
            let i = choose|i: int|
                0 <= i < rest.len() && parser::id_member(#[trigger] rest[i], "authorId"@) == Some(
                    author,
                );
            assert(parser::id_member(messages[i], "authorId"@) == Some(author));
        }
        if exists|i: int|
            0 <= i < messages.len() && parser::id_member(#[trigger] messages[i], "authorId"@)
                == Some(author) {
            let i = choose|i: int|
                0 <= i < messages.len() && parser::id_member(#[trigger] messages[i], "authorId"@)
                    == Some(author);
            if i < end {
                assert(rest[i] == messages[i]);
            }
        }
    }
}

/// How many messages report changes: one more with each that does.
pub proof fn updates_are_counted(messages: Seq<JsonView>, further: JsonView)
    ensures
        archive::update_count(Seq::empty()) == 0,
        archive::update_count(messages.push(further)) == archive::update_count(messages)
            + if parser::is_update(further) {
            1int
        } else {
            0int
        },
{
    assert(messages.push(further).drop_last() =~= messages);
}

// ---------------------------------------------------------------------------
// Chats
// ---------------------------------------------------------------------------

/// A chat is one that the archive records or that a message names.
pub proof fn a_chat_is_recorded_or_written_in(items: Seq<JsonView>, id: Seq<char>, place: int)
    requires
        0 <= place < items.len(),
    ensures
        archive::record_id(items[place], "chat"@) == Some(id) ==> archive::is_chat(items, id),
        archive::chat_of(items[place]) == Some(id) ==> archive::is_chat(items, id),
        !archive::is_chat(Seq::empty(), id),
    decreases items.len(),
{
    let rest = items.drop_last();
    if place < rest.len() {
        assert(rest[place] == items[place]);
        a_chat_is_recorded_or_written_in(rest, id, place);
    }
}

/// A chat goes by the name and the kind of the recipient that its last record names;
/// where the archive knows none, by its id.
pub proof fn a_chat_goes_by_its_recipient(
    items: Seq<JsonView>,
    id: Seq<char>,
    chat: JsonView,
    recipient_id: Seq<char>,
    record: JsonView,
)
    requires
        archive::last_record(items, "chat"@, id) == Some(chat),
        parser::id_member(chat, "recipientId"@) == Some(recipient_id),
    ensures
        archive::conversation_of(items, id) matches Some(told) && told.id == id && told.recipient_id
            == recipient_id,
        archive::last_record(items, "recipient"@, recipient_id) == Some(record) ==> ({
            let told = archive::conversation_of(items, id)->0;
            let recipient = parser::recipient_described(
                recipient_id,
                record,
                archive::account_of(items),
            );
            told.name == recipient.name && told.kind == recipient.kind
        }),
        archive::last_record(items, "recipient"@, recipient_id) is None ==> ({
            let told = archive::conversation_of(items, id)->0;
            told.name == "Unknown chat "@ + id && told.kind == "unknown"@
        }),
{
}

/// A chat that only messages name goes by its id, with no recipient; an id that
/// nothing names is no chat.
pub proof fn a_chat_without_a_record_goes_by_its_id(items: Seq<JsonView>, id: Seq<char>)
    requires
        archive::last_record(items, "chat"@, id) is None,
    ensures
        archive::messages_of(items, id).len() == 0 ==> archive::conversation_of(items, id) is None,
        archive::messages_of(items, id).len() > 0 ==> archive::conversation_of(items, id) is Some
            && archive::conversation_of(items, id)->0.recipient_id.len() == 0,
        archive::messages_of(items, id).len() > 0 && archive::last_record(
            items,
            "recipient"@,
            Seq::empty(),
        ) is None ==> archive::conversation_of(items, id)->0.name == "Unknown chat "@ + id,
{
}

/// What is told of a chat is told of its messages: how many there are, whether one
/// update is all, and from when to when they were sent.
pub proof fn a_chat_is_told_by_its_messages(items: Seq<JsonView>, id: Seq<char>)
    requires
        archive::is_chat(items, id),
        archive::messages_of(items, id).len() <= u64::MAX,
    ensures
        ({
            let told = archive::conversation_of(items, id)->0;
            let messages = archive::messages_of(items, id);
            &&& archive::conversation_of(items, id) is Some
            &&& told.message_count == messages.len()
            &&& told.is_technical_update_only <==> (messages.len() == 1 && parser::is_update(
                messages[0],
            ))
            &&& forall|i: int|
                0 <= i < messages.len() && archive::sent_ms(#[trigger] messages[i]) != 0 ==> (
                told.first_timestamp_ms is Some && told.last_timestamp_ms is Some
                    && told.first_timestamp_ms->0 <= archive::sent_ms(messages[i])
                    <= told.last_timestamp_ms->0)
            &&& told.first_timestamp_ms matches Some(first) ==> exists|i: int|
                0 <= i < messages.len() && archive::sent_ms(#[trigger] messages[i]) == first
            &&& told.last_timestamp_ms matches Some(last) ==> exists|i: int|
                0 <= i < messages.len() && archive::sent_ms(#[trigger] messages[i]) == last
            &&& forall|author: Seq<char>| #[trigger]
                told.author_ids.contains(author) <==> exists|i: int|
                    0 <= i < messages.len() && parser::id_member(
                        #[trigger] messages[i],
                        "authorId"@,
                    ) == Some(author)
        }),
{
    let messages = archive::messages_of(items, id);
    archive::timestamps_lie_between_first_and_last(messages);
    assert forall|author: Seq<char>| #[trigger]
        archive::authors_of(messages).contains(author) <==> exists|i: int|
            0 <= i < messages.len() && parser::id_member(#[trigger] messages[i], "authorId"@)
                == Some(author) by {
        the_authors_are_those_of_the_messages(messages, author);
    }
}

/// A recipient is known by the last record with its id.
pub proof fn a_recipient_is_known_by_its_record(
    items: Seq<JsonView>,
    id: Seq<char>,
    record: JsonView,
)
    ensures
        archive::last_record(items, "recipient"@, id) == Some(record) ==> archive::recipient_of(
            items,
            id,
        ) == Some(parser::recipient_described(id, record, archive::account_of(items))),
        archive::last_record(items, "recipient"@, id) is None ==> archive::recipient_of(items, id)
            is None,
{
}

// ---------------------------------------------------------------------------
// The index
// ---------------------------------------------------------------------------

/// A recipient of the list is found by its id.
pub proof fn a_listed_recipient_is_found(recipients: Seq<Recipient>, place: int, id: Seq<char>)
    requires
        0 <= place < recipients.len(),
        forall|k: int|
            0 <= k < recipients.len() && k != place ==> (#[trigger] recipients[k]).id@
                != recipients[place].id@,
    ensures
        model::recipient_with(recipients, recipients[place].id@) matches Some(found) && found.id
            == recipients[place].id@ && found.name == recipients[place].name@ && found.kind
            == recipients[place].kind@,
        (forall|k: int| 0 <= k < recipients.len() ==> (#[trigger] recipients[k]).id@ != id)
            ==> model::recipient_with(recipients, id) is None,
{
    lemma_found_recipient(recipients, place);
    lemma_no_recipient(recipients, id);
}

proof fn lemma_found_recipient(recipients: Seq<Recipient>, place: int)
    requires
        0 <= place < recipients.len(),
        forall|k: int|
            0 <= k < recipients.len() && k != place ==> (#[trigger] recipients[k]).id@
                != recipients[place].id@,
    ensures
        model::recipient_with(recipients, recipients[place].id@) == Some(recipients[place]@),
    decreases recipients.len(),
{
    if place < recipients.len() - 1 {
        let rest = recipients.drop_last();
        assert(recipients[recipients.len() - 1].id@ != recipients[place].id@);
        assert(rest[place] == recipients[place]);
        lemma_found_recipient(rest, place);
    }
}

proof fn lemma_no_recipient(recipients: Seq<Recipient>, id: Seq<char>)
    ensures
        (forall|k: int| 0 <= k < recipients.len() ==> (#[trigger] recipients[k]).id@ != id)
            ==> model::recipient_with(recipients, id) is None,
    decreases recipients.len(),
{
    if recipients.len() > 0 && (forall|k: int|
        0 <= k < recipients.len() ==> (#[trigger] recipients[k]).id@ != id) {
        let rest = recipients.drop_last();
        assert forall|k: int| 0 <= k < rest.len() implies (#[trigger] rest[k]).id@ != id by {
            assert(rest[k] == recipients[k]);
        }
        lemma_no_recipient(rest, id);
        assert(recipients[recipients.len() - 1].id@ != id);
    }
}

/// A chat of the list is found by its id, with all that is told of it.
pub proof fn a_listed_chat_is_found(conversations: Seq<Conversation>, place: int, id: Seq<char>)
    requires
        0 <= place < conversations.len(),
        forall|k: int|
            0 <= k < conversations.len() && k != place ==> (#[trigger] conversations[k]).id@
                != conversations[place].id@,
    ensures
        model::conversation_with(conversations, conversations[place].id@) matches Some(found) && ({
            let listed = conversations[place];
            &&& found.id == listed.id@
            &&& found.recipient_id == listed.recipient_id@
            &&& found.name == listed.name@
            &&& found.kind == listed.kind@
            &&& found.message_count == listed.message_count
            &&& found.is_technical_update_only == listed.is_technical_update_only
            &&& found.first_timestamp_ms == listed.first_timestamp_ms
            &&& found.last_timestamp_ms == listed.last_timestamp_ms
        }),
        (forall|k: int| 0 <= k < conversations.len() ==> (#[trigger] conversations[k]).id@ != id)
            ==> model::conversation_with(conversations, id) is None,
{
    lemma_found_chat(conversations, place);
    lemma_no_chat(conversations, id);
}

proof fn lemma_found_chat(conversations: Seq<Conversation>, place: int)
    requires
        0 <= place < conversations.len(),
        forall|k: int|
            0 <= k < conversations.len() && k != place ==> (#[trigger] conversations[k]).id@
                != conversations[place].id@,
    ensures
        model::conversation_with(conversations, conversations[place].id@) == Some(
            conversations[place]@,
        ),
    decreases conversations.len(),
{
    if place < conversations.len() - 1 {
        let rest = conversations.drop_last();
        assert(conversations[conversations.len() - 1].id@ != conversations[place].id@);
        assert(rest[place] == conversations[place]);
        lemma_found_chat(rest, place);
    }
}

proof fn lemma_no_chat(conversations: Seq<Conversation>, id: Seq<char>)
    ensures
        (forall|k: int| 0 <= k < conversations.len() ==> (#[trigger] conversations[k]).id@ != id)
            ==> model::conversation_with(conversations, id) is None,
    decreases conversations.len(),
{
    if conversations.len() > 0 && (forall|k: int|
        0 <= k < conversations.len() ==> (#[trigger] conversations[k]).id@ != id) {
        let rest = conversations.drop_last();
        assert forall|k: int| 0 <= k < rest.len() implies (#[trigger] rest[k]).id@ != id by {
            assert(rest[k] == conversations[k]);
        }
        lemma_no_chat(rest, id);
        assert(conversations[conversations.len() - 1].id@ != id);
    }
}

} // verus!
