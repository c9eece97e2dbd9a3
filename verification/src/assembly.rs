//! The text of whole documents, put together from their parts.

use vstd::prelude::*;

use crate::calendar::CalendarDate;
use crate::copier::CopierView;
use crate::documents::{self, json_message};
use crate::json::JsonView;
use crate::markdown::{self, markdown_message};
use crate::message::{MessageRecord, MessageView};
use crate::model::ArchiveIndex;
use crate::names::ExportFormat;
use crate::staging::{self, Staging};

verus! {

// ---------------------------------------------------------------------------
// One document
// ---------------------------------------------------------------------------

/// What is written for a message: its record as Markdown, or as the JSON text that
/// it was turned into, with what separates it from the message before.
pub open spec fn piece_text(
    format: ExportFormat,
    first: bool,
    record: MessageView,
    json_text: Seq<char>,
) -> Seq<char> {
    match format {
        ExportFormat::Json => documents::json_piece(first, json_text),
        ExportFormat::Markdown => markdown::markdown_message_text(record),
    }
}

/// What is written for a message. The JSON text of its record is only used in a
/// JSON document.
pub fn message_piece(
    format: ExportFormat,
    first: bool,
    record: &MessageRecord,
    json_text: &str,
) -> (piece: String)
    ensures
        piece@ == piece_text(format, first, record@, json_text@),
{
    match format {
        ExportFormat::Json => json_message(first, json_text),
        ExportFormat::Markdown => markdown_message(record),
    }
}

/// What is written for the messages of a document, one after the other.
pub open spec fn pieces_text(
    format: ExportFormat,
    records: Seq<MessageView>,
    json_texts: Seq<Seq<char>>,
) -> Seq<char>
    decreases records.len(),
{
    if records.len() == 0 {
        Seq::empty()
    } else {
        pieces_text(format, records.drop_last(), json_texts.drop_last()) + piece_text(
            format,
            records.len() == 1,
            records.last(),
            json_texts.last(),
        )
    }
}

/// The text of a document: its head, one piece for each message, and its foot.
pub open spec fn document_text(
    format: ExportFormat,
    head: Seq<char>,
    records: Seq<MessageView>,
    json_texts: Seq<Seq<char>>,
    foot: Seq<char>,
) -> Seq<char> {
    head + pieces_text(format, records, json_texts) + foot
}

/// A record tells a message of a chat, whatever was found of its attachments.
pub open spec fn tells(
    index: ArchiveIndex,
    id: Seq<char>,
    message: JsonView,
    record: MessageView,
) -> bool {
    exists|media: CopierView, sources: Seq<Option<Seq<char>>>| #[trigger]
        staging::is_record(index, id, media, message, sources, record)
}

// ---------------------------------------------------------------------------
// A document in the course of a pass
// ---------------------------------------------------------------------------

/// A message was added to the document at a position.
pub open spec fn grows(before: Staging, after: Staging, position: int) -> bool {
    after.stages@[position]@.records.len() > before.stages@[position]@.records.len()
}

/// The text of the document at a position in the course of a pass: its head, and a
/// piece for each message when it is added. `json_texts` are the records of the
/// items as JSON.
pub open spec fn text_so_far(
    states: Seq<Staging>,
    json_texts: Seq<Seq<char>>,
    position: int,
    head: Seq<char>,
) -> Seq<char>
    decreases states.len(),
{
    if states.len() <= 1 {
        head
    } else {
        let before = states[states.len() - 2];
        let after = states.last();
        let text = text_so_far(states.drop_last(), json_texts.drop_last(), position, head);
        if grows(before, after, position) {
            text + piece_text(
                after.format,
                before.stages@[position]@.records.len() == 0,
                after.stages@[position]@.records.last(),
                json_texts.last(),
            )
        } else {
            text
        }
    }
}

/// The JSON texts of the messages that were added to the document at a position.
pub open spec fn texts_so_far(
    states: Seq<Staging>,
    json_texts: Seq<Seq<char>>,
    position: int,
) -> Seq<Seq<char>>
    decreases states.len(),
{
    if states.len() <= 1 {
        Seq::empty()
    } else {
        let before = texts_so_far(states.drop_last(), json_texts.drop_last(), position);
        if grows(states[states.len() - 2], states.last(), position) {
            before.push(json_texts.last())
        } else {
            before
        }
    }
}

/// A step leaves a document as it is, or adds one record to it that tells the
/// message.
proof fn lemma_step_of_document(
    index: ArchiveIndex,
    before: Staging,
    item: JsonView,
    day: CalendarDate,
    sources: Seq<Option<Seq<char>>>,
    after: Staging,
    position: int,
)
    requires
        staging::is_step(index, before, item, day, sources, after),
        0 <= position < before.stages@.len(),
    ensures
        after.format == before.format,
        after.stages@.len() == before.stages@.len(),
        ({
            let old_stage = before.stages@[position]@;
            let new_stage = after.stages@[position]@;
            &&& new_stage.conversation_id == old_stage.conversation_id
            &&& if grows(before, after, position) {
                let message = new_stage.messages.last();
                let record = new_stage.records.last();
                &&& new_stage.messages == old_stage.messages.push(message)
                &&& new_stage.records == old_stage.records.push(record)
                &&& tells(index, old_stage.conversation_id, message, record)
            } else {
                new_stage.messages == old_stage.messages && new_stage.records
                    == old_stage.records
            }
        }),
{
    let message = item.object_member("chatItem"@)->0;
    let route = choose|route: staging::Route| #[trigger]
        staging::is_routed(before, item, day, route) && match route {
            staging::Route::Take { position } => staging::adds(
                index,
                before,
                position as int,
                message,
                sources,
                after,
            ),
            staging::Route::Skip => after == before,
        };
    if let staging::Route::Take { position: place } = route {
        if place == position {
            let old_stage = before.stages@[position]@;
            let record = after.stages@[position]@.records.last();
            assert(staging::is_record(
                index,
                old_stage.conversation_id,
                old_stage.media,
                message,
                sources,
                record,
            ));
            assert(tells(index, old_stage.conversation_id, message, record));
        } else {
            assert(after.stages@[position] == before.stages@[position]);
        }
    }
}

proof fn lemma_text_so_far(
    index: ArchiveIndex,
    states: Seq<Staging>,
    items: Seq<JsonView>,
    days: Seq<CalendarDate>,
    sources: Seq<Seq<Option<Seq<char>>>>,
    json_texts: Seq<Seq<char>>,
    position: int,
    head: Seq<char>,
)
    requires
        staging::is_pass(index, states, items, days, sources),
        json_texts.len() == items.len(),
        0 <= position < states[0].stages@.len(),
        states[0].stages@[position]@.records.len() == 0,
        states[0].stages@[position]@.messages.len() == 0,
    ensures
        states.last().format == states[0].format,
        states.last().stages@.len() == states[0].stages@.len(),
        ({
            let stage = states.last().stages@[position]@;
            let texts = texts_so_far(states, json_texts, position);
            &&& stage.conversation_id == states[0].stages@[position]@.conversation_id
            &&& stage.records.len() == stage.messages.len()
            &&& texts.len() == stage.records.len()
            &&& text_so_far(states, json_texts, position, head) == head + pieces_text(
                states[0].format,
                stage.records,
                texts,
            )
            &&& forall|j: int|
                0 <= j < stage.records.len() ==> tells(
                    index,
                    stage.conversation_id,
                    stage.messages[j],
                    #[trigger] stage.records[j],
                )
        }),
    decreases items.len(),
{
    if items.len() == 0 {
        assert(head + Seq::<char>::empty() =~= head);
    } else {
        let last = items.len() - 1;
        let before = states[last];
        let after = states[last + 1];
        staging::lemma_shorter_pass(index, states, items, days, sources);
        lemma_text_so_far(
            index,
            states.drop_last(),
            items.drop_last(),
            days.drop_last(),
            sources.drop_last(),
            json_texts.drop_last(),
            position,
            head,
        );
        assert(states.drop_last().last() == before);
        assert(staging::is_step(index, before, items[last], days[last], sources[last], after));
        lemma_step_of_document(
            index,
            before,
            items[last],
            days[last],
            sources[last],
            after,
            position,
        );
        let old_stage = before.stages@[position]@;
        let stage = after.stages@[position]@;
        let old_texts = texts_so_far(states.drop_last(), json_texts.drop_last(), position);
        let texts = texts_so_far(states, json_texts, position);
        if grows(before, after, position) {
            assert(stage.records.drop_last() =~= old_stage.records);
            assert(texts.drop_last() =~= old_texts);
            let piece = piece_text(
                after.format,
                old_stage.records.len() == 0,
                stage.records.last(),
                json_texts.last(),
            );
            let told = pieces_text(states[0].format, old_stage.records, old_texts);
            assert(pieces_text(states[0].format, stage.records, texts) == told + piece);
            assert(head + told + piece =~= head + (told + piece));
            assert forall|j: int| 0 <= j < stage.records.len() implies tells(
                index,
                stage.conversation_id,
                stage.messages[j],
                #[trigger] stage.records[j],
            ) by {
                if j < old_stage.records.len() {
                    assert(stage.records[j] == old_stage.records[j]);
                    assert(stage.messages[j] == old_stage.messages[j]);
                }
            }
        }
    }
}

/// A document is its head, then one piece for each message of its chat that lies in
/// the range, in order, then its foot: that is the text where the head is written
/// first, a piece whenever a message is added, and the foot at the end.
pub proof fn a_document_tells_the_selected_messages(
    index: ArchiveIndex,
    states: Seq<Staging>,
    items: Seq<JsonView>,
    days: Seq<CalendarDate>,
    sources: Seq<Seq<Option<Seq<char>>>>,
    json_texts: Seq<Seq<char>>,
    position: int,
    head: Seq<char>,
    foot: Seq<char>,
)
    requires
        staging::is_pass(index, states, items, days, sources),
        json_texts.len() == items.len(),
        states[0].is_well_formed(),
        staging::holds_selected(states[0], Seq::empty(), Seq::empty()),
        0 <= position < states[0].stages@.len(),
    ensures
        ({
            let stage = states.last().stages@[position]@;
            let texts = texts_so_far(states, json_texts, position);
            &&& text_so_far(states, json_texts, position, head) + foot == document_text(
                states[0].format,
                head,
                stage.records,
                texts,
                foot,
            )
            &&& stage.messages == staging::selected_messages(
                items,
                days,
                states[0].stages@[position]@.conversation_id,
                states[0].start_date,
                states[0].end_date,
            )
            &&& stage.records.len() == stage.messages.len()
            &&& texts.len() == stage.messages.len()
            &&& forall|j: int|
                0 <= j < stage.records.len() ==> tells(
                    index,
                    stage.conversation_id,
                    stage.messages[j],
                    #[trigger] stage.records[j],
                )
        }),
{
    let first = states[0].stages@[position];
    assert(first.is_well_formed());
    assert(first@.messages == staging::selected_messages(
        Seq::empty(),
        Seq::empty(),
        first.conversation_id@,
        states[0].start_date,
        states[0].end_date,
    ));
    lemma_text_so_far(index, states, items, days, sources, json_texts, position, head);
    staging::an_export_holds_the_selected_messages(index, states, items, days, sources);
    assert(states.last().stages@[position]@.messages == staging::selected_messages(
        items,
        days,
        states.last().stages@[position].conversation_id@,
        states.last().start_date,
        states.last().end_date,
    ));
}

// ---------------------------------------------------------------------------
// A combined file
// ---------------------------------------------------------------------------

/// The documents of a combined file, each with what stands before it.
pub open spec fn joined_documents(format: ExportFormat, texts: Seq<Seq<char>>) -> Seq<char>
    decreases texts.len(),
{
    if texts.len() == 0 {
        Seq::empty()
    } else {
        joined_documents(format, texts.drop_last()) + documents::combined_lead(
            format,
            texts.len() - 1,
        ) + texts.last()
    }
}

/// The text of a combined file.
pub open spec fn combined_text(
    format: ExportFormat,
    exported_at: Seq<char>,
    texts: Seq<Seq<char>>,
) -> Seq<char> {
    documents::combined_head(format, exported_at) + joined_documents(format, texts)
        + documents::combined_foot(format)
}

proof fn lemma_joined_documents(
    format: ExportFormat,
    texts: Seq<Seq<char>>,
    position: int,
) -> (parts: (Seq<char>, Seq<char>))
    requires
        0 <= position < texts.len(),
    ensures
        joined_documents(format, texts) == parts.0 + texts[position] + parts.1,
        parts.0 == joined_documents(format, texts.take(position)) + documents::combined_lead(
            format,
            position,
        ),
    decreases texts.len(),
{
    if position == texts.len() - 1 {
        let start = joined_documents(format, texts.drop_last()) + documents::combined_lead(
            format,
            position,
        );
        assert(texts.take(position) =~= texts.drop_last());
        assert(start + texts[position] + Seq::<char>::empty() =~= start + texts[position]);
        (start, Seq::empty())
    } else {
        let (start, end) = lemma_joined_documents(format, texts.drop_last(), position);
        let more = documents::combined_lead(format, texts.len() - 1) + texts.last();
        assert(texts.drop_last().take(position) =~= texts.take(position));
        assert(joined_documents(format, texts) =~= start + texts[position] + (end + more));
        (start, end + more)
    }
}

/// A combined file holds every document whole, in order: before the one at a
/// position stand its own head, the documents before it, and what leads over.
pub proof fn a_combined_file_holds_its_documents(
    format: ExportFormat,
    exported_at: Seq<char>,
    texts: Seq<Seq<char>>,
    position: int,
)
    requires
        0 <= position < texts.len(),
    ensures
        ({
            let whole = combined_text(format, exported_at, texts);
            let start = documents::combined_head(format, exported_at) + joined_documents(
                format,
                texts.take(position),
            ) + documents::combined_lead(format, position);
            let end = start.len() + texts[position].len();
            end <= whole.len() && whole.take(start.len() as int) == start && whole.subrange(
                start.len() as int,
                end as int,
            ) == texts[position]
        }),
{
    let (before, after) = lemma_joined_documents(format, texts, position);
    let head = documents::combined_head(format, exported_at);
    let foot = documents::combined_foot(format);
    let whole = combined_text(format, exported_at, texts);
    let start = head + joined_documents(format, texts.take(position)) + documents::combined_lead(
        format,
        position,
    );
    assert(start =~= head + before);
    assert(whole =~= start + texts[position] + (after + foot));
    assert(whole.take(start.len() as int) =~= start);
    assert(whole.subrange(start.len() as int, (start.len() + texts[position].len()) as int)
        =~= texts[position]);
}

} // verus!
