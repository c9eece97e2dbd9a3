//! What is written in a JSON document and in a combined file.

use vstd::prelude::*;

use crate::calendar::{self, CalendarDate};
use crate::documents;
use crate::json::{self, JsonView, MemberView};
use crate::message::AuthorRecord;
use crate::model::Conversation;
use crate::names::ExportFormat;
use crate::text;

verus! {

proof fn lemma_three_members(first: MemberView, second: MemberView, third: MemberView)
    requires
        first.key != second.key,
        first.key != third.key,
        second.key != third.key,
    ensures
        ({
            let value = JsonView::Object(seq![first, second, third]);
            &&& value.member(first.key) == Some(first.value)
            &&& value.member(second.key) == Some(second.value)
            &&& value.member(third.key) == Some(third.value)
        }),
{
    let members = seq![first, second, third];
    reveal_with_fuel(json::first_member, 4);
    assert(members.drop_first() =~= seq![second, third]);
    assert(seq![second, third].drop_first() =~= seq![third]);
}

/// The chat of a document has its id, its name and its type.
pub proof fn a_document_names_its_chat(conversation: Conversation)
    ensures
        ({
            let value = documents::conversation_value(conversation);
            &&& value.member("id"@) == Some(JsonView::Text(conversation.id@))
            &&& value.member("name"@) == Some(JsonView::Text(conversation.name@))
            &&& value.member("type"@) == Some(JsonView::Text(conversation.kind@))
            &&& value matches JsonView::Object(members) ==> members.len() == 3
        }),
{
    reveal_strlit("id");
    reveal_strlit("name");
    reveal_strlit("type");
    assert("id"@.len() == 2 && "name"@.len() == 4 && "type"@.len() == 4);
    assert("name"@[0] == 'n' && "type"@[0] == 't');
    lemma_three_members(
        MemberView { key: "id"@, value: JsonView::Text(conversation.id@) },
        MemberView { key: "name"@, value: JsonView::Text(conversation.name@) },
        MemberView { key: "type"@, value: JsonView::Text(conversation.kind@) },
    );
}

/// The date range of a document says from when to when it goes, and in which zone; a
/// missing end is null.
pub proof fn a_document_tells_its_dates(
    start: CalendarDate,
    end: CalendarDate,
    from: Option<CalendarDate>,
    to: Option<CalendarDate>,
    zone: Seq<char>,
)
    ensures
        documents::range_value(Some(start), to, zone).member("start"@) == Some(
            JsonView::Text(calendar::date_text(start)),
        ),
        documents::range_value(from, Some(end), zone).member("end"@) == Some(
            JsonView::Text(calendar::date_text(end)),
        ),
        documents::range_value(None, to, zone).member("start"@) == Some(JsonView::Null),
        documents::range_value(from, None, zone).member("end"@) == Some(JsonView::Null),
        documents::range_value(from, to, zone).member("timezone"@) == Some(JsonView::Text(zone)),
        documents::range_value(from, to, zone) matches JsonView::Object(members) ==> members.len()
            == 3,
{
    lemma_range(Some(start), to, zone);
    lemma_range(from, Some(end), zone);
    lemma_range(None, to, zone);
    lemma_range(from, None, zone);
    lemma_range(from, to, zone);
}

proof fn lemma_range(start: Option<CalendarDate>, end: Option<CalendarDate>, zone: Seq<char>)
    ensures
        ({
            let value = documents::range_value(start, end, zone);
            &&& value.member("start"@) == Some(documents::date_value(start))
            &&& value.member("end"@) == Some(documents::date_value(end))
            &&& value.member("timezone"@) == Some(JsonView::Text(zone))
        }),
{
    reveal_strlit("start");
    reveal_strlit("end");
    reveal_strlit("timezone");
    assert("start"@.len() == 5 && "end"@.len() == 3 && "timezone"@.len() == 8);
    lemma_three_members(
        MemberView { key: "end"@, value: documents::date_value(end) },
        MemberView { key: "start"@, value: documents::date_value(start) },
        MemberView { key: "timezone"@, value: JsonView::Text(zone) },
    );
}

/// The participants of a document are listed in order, each with id and name.
pub proof fn a_document_lists_its_participants(authors: Seq<AuthorRecord>, place: int)
    requires
        0 <= place < authors.len(),
    ensures
        documents::participants_value(authors) matches JsonView::Array(listed) && listed.len()
            == authors.len() && listed[place].member("id"@) == Some(
            JsonView::Text(authors[place].id@),
        ) && listed[place].member("name"@) == Some(JsonView::Text(authors[place].name@)),
{
    reveal_strlit("id");
    reveal_strlit("name");
    assert("id"@.len() == 2 && "name"@.len() == 4);
    reveal_with_fuel(json::first_member, 3);
    let id = MemberView { key: "id"@, value: JsonView::Text(authors[place].id@) };
    let name = MemberView { key: "name"@, value: JsonView::Text(authors[place].name@) };
    assert(seq![id, name].drop_first() =~= seq![name]);
}

/// The totals of a document are the numbers of its messages, of the files that were
/// copied and of those that were missing, each under its own key.
pub proof fn a_document_tells_its_totals(messages: u64, copied: u64, missing: u64)
    ensures
        ({
            let value = documents::summary_value(messages, copied, missing);
            &&& value.member("messages_exported"@) matches Some(JsonView::Number(told))
                && told.unsigned == Some(messages) && told.text == text::decimal(messages as nat)
            &&& value.member("media_files_copied"@) matches Some(JsonView::Number(told))
                && told.unsigned == Some(copied) && told.text == text::decimal(copied as nat)
            &&& value.member("media_files_missing"@) matches Some(JsonView::Number(told))
                && told.unsigned == Some(missing) && told.text == text::decimal(missing as nat)
            &&& value matches JsonView::Object(members) ==> members.len() == 3
        }),
{
    reveal_strlit("messages_exported");
    reveal_strlit("media_files_copied");
    reveal_strlit("media_files_missing");
    assert("messages_exported"@.len() == 17 && "media_files_copied"@.len() == 18
        && "media_files_missing"@.len() == 19);
    lemma_three_members(
        MemberView {
            key: "media_files_copied"@,
            value: JsonView::Number(json::count_view(copied)),
        },
        MemberView {
            key: "media_files_missing"@,
            value: JsonView::Number(json::count_view(missing)),
        },
        MemberView {
            key: "messages_exported"@,
            value: JsonView::Number(json::count_view(messages)),
        },
    );
}

/// A document starts with its version, the time, the chat, the dates, whether media
/// are in it and the participants, and ends with its totals.
pub proof fn a_document_has_head_and_foot(
    exported_at: Seq<char>,
    zone: Seq<char>,
    conversation: Conversation,
    start: Option<CalendarDate>,
    end: Option<CalendarDate>,
    authors: Seq<AuthorRecord>,
    messages: u64,
    copied: u64,
    missing: u64,
)
    ensures
        ({
            let front = "{\n  \"schema_version\": 1,\n  \"exported_at\": "@ + json::quoted(
                exported_at,
            )
                + ",\n  \"source_format\": \"Signal Desktop plaintext export\",\n  \"conversation\": "@
                + json::pretty_text(documents::conversation_value(conversation))
                + ",\n  \"date_range\": "@ + json::pretty_text(
                documents::range_value(start, end, zone),
            ) + ",\n  \"include_media\": "@;
            let back = ",\n  \"participants\": "@ + json::pretty_text(
                documents::participants_value(authors),
            ) + ",\n  \"messages\": [\n"@;
            &&& documents::json_header_text(
                exported_at,
                zone,
                conversation,
                start,
                end,
                true,
                authors,
            ) == front + "true"@ + back
            &&& documents::json_header_text(
                exported_at,
                zone,
                conversation,
                start,
                end,
                false,
                authors,
            ) == front + "false"@ + back
        }),
        documents::json_footer_text(messages, copied, missing) == "\n  ],\n  \"summary\": "@
            + json::pretty_text(documents::summary_value(messages, copied, missing)) + "\n}\n"@,
{
    let front = "{\n  \"schema_version\": 1,\n  \"exported_at\": "@ + json::quoted(exported_at)
        + ",\n  \"source_format\": \"Signal Desktop plaintext export\",\n  \"conversation\": "@
        + json::pretty_text(documents::conversation_value(conversation))
        + ",\n  \"date_range\": "@ + json::pretty_text(documents::range_value(start, end, zone))
        + ",\n  \"include_media\": "@;
    let back = ",\n  \"participants\": "@ + json::pretty_text(
        documents::participants_value(authors),
    ) + ",\n  \"messages\": [\n"@;
    assert(documents::json_header_text(exported_at, zone, conversation, start, end, true, authors)
        =~= front + "true"@ + back);
    assert(documents::json_header_text(exported_at, zone, conversation, start, end, false, authors)
        =~= front + "false"@ + back);
}

/// A record ends what is written of a message; one that is not the first has a comma
/// before it.
pub proof fn records_are_parted_by_commas(record: Seq<char>)
    ensures
        documents::json_piece(true, record) == seq![' ', ' ', ' ', ' '] + record,
        documents::json_piece(false, record) == seq![',', '\n', ' ', ' ', ' ', ' '] + record,
{
    reveal_strlit("    ");
    reveal_strlit(",\n    ");
    assert("    "@ =~= seq![' ', ' ', ' ', ' ']);
    assert(",\n    "@ =~= seq![',', '\n', ' ', ' ', ' ', ' ']);
}

/// The documents of a combined file are parted, but nothing stands before the first;
/// in JSON they are the items of an array.
pub proof fn documents_of_a_combined_file_are_parted(position: int, exported_at: Seq<char>)
    requires
        position > 0,
    ensures
        documents::combined_lead(ExportFormat::Markdown, 0).len() == 0,
        documents::combined_lead(ExportFormat::Json, 0).len() == 0,
        documents::combined_lead(ExportFormat::Markdown, position) == "\n---\n\n"@,
        documents::combined_lead(ExportFormat::Json, position) == ",\n"@,
        documents::combined_head(ExportFormat::Markdown, exported_at)
            == "# Signal chat export\n\n"@,
        documents::combined_head(ExportFormat::Json, exported_at) == "{\n  \"exported_at\": "@
            + json::quoted(exported_at) + ",\n  \"conversation_exports\": [\n"@,
        documents::combined_foot(ExportFormat::Markdown).len() == 0,
        documents::combined_foot(ExportFormat::Json) == "\n  ]\n}\n"@,
{
    reveal_strlit("");
}

/// A count is a JSON number that can be read as signed where it is not too large.
pub proof fn a_count_is_a_number(count: u64)
    ensures
        json::count_view(count).unsigned == Some(count),
        json::count_view(count).text == text::decimal(count as nat),
        count <= i64::MAX ==> json::count_view(count).signed == Some(count as i64),
        count > i64::MAX ==> json::count_view(count).signed is None,
{
}

} // verus!
