//! The frame of an exported document: what stands before, between and after its
//! messages, and between the documents of a combined file.

use vstd::prelude::*;

use crate::calendar::{self, CalendarDate};
use crate::error::AppError;
use crate::json::{self, pretty_object, pretty_rows, quote, Entry, Field, JsonView, MemberView};
use crate::message::AuthorRecord;
use crate::model::Conversation;
use crate::names::ExportFormat;
use crate::order;
use crate::text::{join2, join3};

verus! {

// ---------------------------------------------------------------------------
// The head of a JSON document
// ---------------------------------------------------------------------------

/// The chat of a document.
pub open spec fn conversation_value(conversation: Conversation) -> JsonView {
    JsonView::Object(
        seq![
            MemberView { key: "id"@, value: JsonView::Text(conversation.id@) },
            MemberView { key: "name"@, value: JsonView::Text(conversation.name@) },
            MemberView { key: "type"@, value: JsonView::Text(conversation.kind@) },
        ],
    )
}

/// An end of the date range.
pub open spec fn date_value(date: Option<CalendarDate>) -> JsonView {
    match date {
        Some(day) => JsonView::Text(calendar::date_text(day)),
        None => JsonView::Null,
    }
}

/// The date range of a document.
pub open spec fn range_value(
    start: Option<CalendarDate>,
    end: Option<CalendarDate>,
    timezone: Seq<char>,
) -> JsonView {
    JsonView::Object(
        seq![
            MemberView { key: "end"@, value: date_value(end) },
            MemberView { key: "start"@, value: date_value(start) },
            MemberView { key: "timezone"@, value: JsonView::Text(timezone) },
        ],
    )
}

pub open spec fn author_value(author: AuthorRecord) -> JsonView {
    JsonView::Object(
        seq![
            MemberView { key: "id"@, value: JsonView::Text(author.id@) },
            MemberView { key: "name"@, value: JsonView::Text(author.name@) },
        ],
    )
}

/// The participants of a document.
pub open spec fn participants_value(authors: Seq<AuthorRecord>) -> JsonView {
    JsonView::Array(authors.map_values(|author: AuthorRecord| author_value(author)))
}

/// The head of a document, up to its first message.
pub open spec fn json_header_text(
    exported_at: Seq<char>,
    timezone: Seq<char>,
    conversation: Conversation,
    start: Option<CalendarDate>,
    end: Option<CalendarDate>,
    include_media: bool,
    authors: Seq<AuthorRecord>,
) -> Seq<char> {
    "{\n  \"schema_version\": 1,\n  \"exported_at\": "@ + json::quoted(exported_at)
        + ",\n  \"source_format\": \"Signal Desktop plaintext export\",\n  \"conversation\": "@
        + json::pretty_text(conversation_value(conversation)) + ",\n  \"date_range\": "@
        + json::pretty_text(range_value(start, end, timezone)) + ",\n  \"include_media\": "@
        + if include_media {
        "true"@
    } else {
        "false"@
    } + ",\n  \"participants\": "@ + json::pretty_text(participants_value(authors))
        + ",\n  \"messages\": [\n"@
}

proof fn lemma_author_keys()
    ensures
        order::text_before("id"@, "name"@),
        order::text_before("name"@, "type"@),
        order::text_before("id"@, "type"@),
{
    reveal_strlit("id");
    reveal_strlit("name");
    reveal_strlit("type");
    order::the_first_difference_decides("id"@, "name"@, 0);
    order::the_first_difference_decides("name"@, "type"@, 0);
    order::the_first_difference_decides("id"@, "type"@, 0);
}

proof fn lemma_range_keys()
    ensures
        order::text_before("end"@, "start"@),
        order::text_before("start"@, "timezone"@),
        order::text_before("end"@, "timezone"@),
{
    reveal_strlit("end");
    reveal_strlit("start");
    reveal_strlit("timezone");
    order::the_first_difference_decides("end"@, "start"@, 0);
    order::the_first_difference_decides("start"@, "timezone"@, 0);
    order::the_first_difference_decides("end"@, "timezone"@, 0);
}

fn text_entry(key: &str, value: &str) -> (entry: Entry)
    ensures
        entry@ == (MemberView { key: key@, value: JsonView::Text(value@) }),
{
    Entry { key: key.to_owned(), field: Field::Text(value.to_owned()) }
}

fn date_entry(key: &str, date: Option<CalendarDate>) -> (entry: Entry)
    ensures
        entry@ == (MemberView { key: key@, value: date_value(date) }),
{
    let field = match date {
        Some(day) => Field::Text(day.to_text()),
        None => Field::Missing,
    };
    Entry { key: key.to_owned(), field }
}

fn write_conversation(conversation: &Conversation) -> (result: Result<String, AppError>)
    ensures
        match result {
            Ok(written) => written@ == json::pretty_text(conversation_value(*conversation)),
            Err(_) => false,
        },
{
    let mut entries: Vec<Entry> = Vec::new();
    entries.push(text_entry("id", conversation.id.as_str()));
    entries.push(text_entry("name", conversation.name.as_str()));
    entries.push(text_entry("type", conversation.kind.as_str()));
    proof {
        lemma_author_keys();
        let members = json::entry_views(entries@);
        assert(members =~= conversation_value(*conversation)->Object_0);
        assert(json::keys_ascend(members));
    }
    pretty_object(entries)
}

fn write_range(start: Option<CalendarDate>, end: Option<CalendarDate>, timezone: &str) -> (result:
    Result<String, AppError>)
    ensures
        match result {
            Ok(written) => written@ == json::pretty_text(range_value(start, end, timezone@)),
            Err(_) => false,
        },
{
    let mut entries: Vec<Entry> = Vec::new();
    entries.push(date_entry("end", end));
    entries.push(date_entry("start", start));
    entries.push(text_entry("timezone", timezone));
    proof {
        lemma_range_keys();
        let members = json::entry_views(entries@);
        assert(members =~= range_value(start, end, timezone@)->Object_0);
        assert(json::keys_ascend(members));
    }
    pretty_object(entries)
}

fn write_participants(authors: &Vec<AuthorRecord>) -> (result: Result<String, AppError>)
    ensures
        match result {
            Ok(written) => written@ == json::pretty_text(participants_value(authors@)),
            Err(_) => false,
        },
{
    let mut rows: Vec<Vec<Entry>> = Vec::new();
    let mut i: usize = 0;
    while i < authors.len()
        invariant
            i <= authors@.len(),
            rows@.len() == i,
            forall|j: int|
                0 <= j < i ==> json::keys_ascend(json::entry_views(#[trigger] rows@[j]@))
                    && JsonView::Object(json::entry_views(rows@[j]@)) == author_value(authors@[j]),
        decreases authors@.len() - i,
    {
        let mut row: Vec<Entry> = Vec::new();
        row.push(text_entry("id", authors[i].id.as_str()));
        row.push(text_entry("name", authors[i].name.as_str()));
        proof {
            lemma_author_keys();
            let members = json::entry_views(row@);
            assert(members =~= author_value(authors@[i as int])->Object_0);
            assert(json::keys_ascend(members));
        }
        rows.push(row);
        i = i + 1;
    }
    assert(json::row_views(rows@) =~= participants_value(authors@)->Array_0);
    pretty_rows(rows)
}

/// The head of a document, up to its first message.
pub fn json_header(
    exported_at: &str,
    timezone: &str,
    conversation: &Conversation,
    start: Option<CalendarDate>,
    end: Option<CalendarDate>,
    include_media: bool,
    authors: &Vec<AuthorRecord>,
) -> (result: Result<String, AppError>)
    ensures
        match result {
            Ok(header) => header@ == json_header_text(
                exported_at@,
                timezone@,
                *conversation,
                start,
                end,
                include_media,
                authors@,
            ),
            Err(_) => false,
        },
{
    let stamp = match quote(exported_at) {
        Ok(written) => written,
        Err(error) => {
            return Err(error);
        },
    };
    let chat = match write_conversation(conversation) {
        Ok(written) => written,
        Err(error) => {
            return Err(error);
        },
    };
    let range = match write_range(start, end, timezone) {
        Ok(written) => written,
        Err(error) => {
            return Err(error);
        },
    };
    let people = match write_participants(authors) {
        Ok(written) => written,
        Err(error) => {
            return Err(error);
        },
    };
    let mut header = join2("{\n  \"schema_version\": 1,\n  \"exported_at\": ", stamp.as_str());
    header.append(
        ",\n  \"source_format\": \"Signal Desktop plaintext export\",\n  \"conversation\": ",
    );
    header.append(chat.as_str());
    header.append(",\n  \"date_range\": ");
    header.append(range.as_str());
    header.append(",\n  \"include_media\": ");
    if include_media {
        header.append("true");
    } else {
        header.append("false");
    }
    header.append(",\n  \"participants\": ");
    header.append(people.as_str());
    header.append(",\n  \"messages\": [\n");
    Ok(header)
}

// ---------------------------------------------------------------------------
// The messages and the foot of a JSON document
// ---------------------------------------------------------------------------

/// What is written for the next message, given its record as JSON.
pub open spec fn json_piece(first: bool, record: Seq<char>) -> Seq<char> {
    if first {
        "    "@ + record
    } else {
        ",\n    "@ + record
    }
}

/// What is written for the next message, given its record as JSON.
pub fn json_message(first: bool, record: &str) -> (piece: String)
    ensures
        piece@ == json_piece(first, record@),
{
    if first {
        join2("    ", record)
    } else {
        join2(",\n    ", record)
    }
}

/// The totals of a document.
pub open spec fn summary_value(messages: u64, copied: u64, missing: u64) -> JsonView {
    JsonView::Object(
        seq![
            MemberView {
                key: "media_files_copied"@,
                value: JsonView::Number(json::count_view(copied)),
            },
            MemberView {
                key: "media_files_missing"@,
                value: JsonView::Number(json::count_view(missing)),
            },
            MemberView {
                key: "messages_exported"@,
                value: JsonView::Number(json::count_view(messages)),
            },
        ],
    )
}

/// The foot of a document.
pub open spec fn json_footer_text(messages: u64, copied: u64, missing: u64) -> Seq<char> {
    "\n  ],\n  \"summary\": "@ + json::pretty_text(summary_value(messages, copied, missing))
        + "\n}\n"@
}

proof fn lemma_summary_keys()
    ensures
        order::text_before("media_files_copied"@, "media_files_missing"@),
        order::text_before("media_files_missing"@, "messages_exported"@),
        order::text_before("media_files_copied"@, "messages_exported"@),
{
    reveal_strlit("media_files_copied");
    reveal_strlit("media_files_missing");
    reveal_strlit("messages_exported");
    order::the_first_difference_decides("media_files_copied"@, "media_files_missing"@, 12);
    order::the_first_difference_decides("media_files_missing"@, "messages_exported"@, 2);
    order::the_first_difference_decides("media_files_copied"@, "messages_exported"@, 2);
}

fn count_entry(key: &str, count: u64) -> (entry: Entry)
    ensures
        entry@ == (MemberView { key: key@, value: JsonView::Number(json::count_view(count)) }),
{
    Entry { key: key.to_owned(), field: Field::Count(count) }
}

/// The foot of a document.
pub fn json_footer(messages: u64, copied: u64, missing: u64) -> (result: Result<String, AppError>)
    ensures
        match result {
            Ok(footer) => footer@ == json_footer_text(messages, copied, missing),
            Err(_) => false,
        },
{
    let mut entries: Vec<Entry> = Vec::new();
    entries.push(count_entry("media_files_copied", copied));
    entries.push(count_entry("media_files_missing", missing));
    entries.push(count_entry("messages_exported", messages));
    proof {
        lemma_summary_keys();
        let members = json::entry_views(entries@);
        assert(members =~= summary_value(messages, copied, missing)->Object_0);
        assert(json::keys_ascend(members));
    }
    match pretty_object(entries) {
        Ok(written) => Ok(join3("\n  ],\n  \"summary\": ", written.as_str(), "\n}\n")),
        Err(error) => Err(error),
    }
}

// ---------------------------------------------------------------------------
// Combined files
// ---------------------------------------------------------------------------

/// What stands before the documents of a combined file.
pub open spec fn combined_head(format: ExportFormat, exported_at: Seq<char>) -> Seq<char> {
    match format {
        ExportFormat::Markdown => "# Signal chat export\n\n"@,
        ExportFormat::Json => "{\n  \"exported_at\": "@ + json::quoted(exported_at)
            + ",\n  \"conversation_exports\": [\n"@,
    }
}

/// What stands between the documents of a combined file.
pub open spec fn combined_separator(format: ExportFormat) -> Seq<char> {
    match format {
        ExportFormat::Markdown => "\n---\n\n"@,
        ExportFormat::Json => ",\n"@,
    }
}

/// What stands after the documents of a combined file.
pub open spec fn combined_foot(format: ExportFormat) -> Seq<char> {
    match format {
        ExportFormat::Markdown => ""@,
        ExportFormat::Json => "\n  ]\n}\n"@,
    }
}

/// What stands before the documents of a combined file.
pub fn combined_start(format: ExportFormat, exported_at: &str) -> (result: Result<String, AppError>)
    ensures
        match result {
            Ok(head) => head@ == combined_head(format, exported_at@),
            Err(_) => false,
        },
{
    match format {
        ExportFormat::Markdown => Ok("# Signal chat export\n\n".to_owned()),
        ExportFormat::Json => match quote(exported_at) {
            Ok(stamp) => Ok(
                join3(
                    "{\n  \"exported_at\": ",
                    stamp.as_str(),
                    ",\n  \"conversation_exports\": [\n",
                ),
            ),
            Err(error) => Err(error),
        },
    }
}

/// What stands before the document at a position of a combined file, after what
/// stands there already.
pub open spec fn combined_lead(format: ExportFormat, position: int) -> Seq<char> {
    if position == 0 {
        Seq::empty()
    } else {
        combined_separator(format)
    }
}

/// What stands before the document at a position of a combined file: nothing
/// before the first.
pub fn combined_before(format: ExportFormat, position: usize) -> (lead: &'static str)
    ensures
        lead@ == combined_lead(format, position as int),
{
    if position == 0 {
        proof {
            reveal_strlit("");
            assert(""@ =~= Seq::<char>::empty());
        }
        return "";
    }
    match format {
        ExportFormat::Markdown => "\n---\n\n",
        ExportFormat::Json => ",\n",
    }
}

/// What stands after the documents of a combined file.
pub fn combined_end(format: ExportFormat) -> (foot: &'static str)
    ensures
        foot@ == combined_foot(format),
{
    match format {
        ExportFormat::Markdown => "",
        ExportFormat::Json => "\n  ]\n}\n",
    }
}

} // verus!
