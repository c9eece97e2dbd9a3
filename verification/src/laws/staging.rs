//! Putting the documents of an export together.

use vstd::prelude::*;

use crate::archive;
use crate::assembly;
use crate::calendar::{self, CalendarDate, LocalTime};
use crate::documents;
use crate::json::JsonView;
use crate::markdown;
use crate::message::MessageView;
use crate::model::ArchiveIndex;
use crate::names::{self, ExportFormat};
use crate::parser;
use crate::path;
use crate::plan::{ConversationExportMode, MultiExportRequest};
use crate::staging::{self, ConversationStage, Route, Staging};
use crate::text;

verus! {

// ---------------------------------------------------------------------------
// Documents before their first message
// ---------------------------------------------------------------------------

/// The documents of a combined file of several chats have numbered media folders within
/// that of the file; every other document has that of its file.
pub proof fn a_document_has_a_media_folder(count: nat, position: nat, root: Seq<char>)
    ensures
        count > 1 ==> staging::stage_media_folder(
            ConversationExportMode::Combined,
            count,
            position as int,
            root,
        ) == root + "/conversation-"@ + text::padded(position + 1, 4),
        count <= 1 ==> staging::stage_media_folder(
            ConversationExportMode::Combined,
            count,
            position as int,
            root,
        ) == root,
        staging::stage_media_folder(
            ConversationExportMode::Separate,
            count,
            position as int,
            root,
        ) == root,
{
}

/// A document is put together under its number, in a folder of its own.
pub proof fn a_document_is_put_together_under_its_number(
    directory: Seq<char>,
    position: nat,
    format: ExportFormat,
)
    ensures
        staging::stage_document(directory, position as int, format) == path::joined(
            path::joined(directory, "documents"@),
            "conversation-"@ + text::padded(position, 4) + "."@ + format.extension_text(),
        ),
        staging::stage_output(ConversationExportMode::Combined, position as int) == 0,
        staging::stage_output(ConversationExportMode::Separate, position as int) == position,
{
}

/// A document starts empty, with the chat at its position, and copies media where they
/// are asked for, from the archive to the media folder of its file.
pub proof fn a_document_starts_empty(
    index: ArchiveIndex,
    request: MultiExportRequest,
    ids: Seq<Seq<char>>,
    files: Seq<Seq<char>>,
    directory: Seq<char>,
    position: int,
    root: Seq<char>,
)
    requires
        0 <= position < ids.len(),
    ensures
        ({
            let fresh = staging::fresh_stage(index, request, ids, files, directory, position);
            &&& fresh.conversation_id == ids[position]
            &&& fresh.messages.len() == 0
            &&& fresh.records.len() == 0
            &&& fresh.document_path == staging::stage_document(directory, position, request.format)
            &&& fresh.media.source_root == index.export_root@
            &&& fresh.media.staging_root == directory
            &&& fresh.media.include_media == request.include_media
            &&& fresh.media.copied.len() == 0
            &&& fresh.media.missing_count == 0
            &&& fresh.media.attachment_count == 0
            &&& request.mode is Combined && names::media_folder_name(files[0]) == Some(root)
                ==> fresh.media.media_directory_name == staging::stage_media_folder(
                request.mode,
                ids.len(),
                position,
                root,
            )
            &&& request.mode is Separate && names::media_folder_name(files[position]) == Some(root)
                ==> fresh.media.media_directory_name == root
        }),
{
}

/// A chat has no document where the archive does not know it or its file gives its
/// media folder no name.
pub proof fn a_chat_without_a_document_is_unknown_or_nameless(
    index: ArchiveIndex,
    ids: Seq<Seq<char>>,
    files: Seq<Seq<char>>,
    position: int,
)
    ensures
        staging::stage_fails(index, ConversationExportMode::Combined, ids, files, position) <==> (
        index.conversation(ids[position]) is None || names::media_folder_name(files[0]) is None),
        staging::stage_fails(index, ConversationExportMode::Separate, ids, files, position) <==> (
        index.conversation(ids[position]) is None || names::media_folder_name(files[position])
            is None),
        staging::files_fit(ConversationExportMode::Combined, ids.len(), files.len()) <==> files.len()
            >= 1,
        staging::files_fit(ConversationExportMode::Separate, ids.len(), files.len()) <==> files.len()
            >= ids.len(),
{
}

// ---------------------------------------------------------------------------
// Messages
// ---------------------------------------------------------------------------

/// A message is taken where it is one of the chat and its day lies between the first and
/// the last; one without a timestamp is always taken.
pub proof fn a_message_is_taken_by_chat_and_day(
    item: JsonView,
    message: JsonView,
    id: Seq<char>,
    other: Seq<char>,
    day: CalendarDate,
    start: Option<CalendarDate>,
    end: Option<CalendarDate>,
)
    requires
        item.object_member("chatItem"@) == Some(message),
        parser::id_member(message, "chatId"@) == Some(id),
        other != id,
    ensures
        !staging::is_selected(item, day, other, start, end),
        parser::sent_at(message) == Some(0int) ==> staging::is_selected(item, day, id, start, end),
        parser::sent_at(message) != Some(0int) ==> (staging::is_selected(item, day, id, start, end)
            <==> calendar::date_in_range(day, start, end)),
        staging::sent_of(item) == parser::sent_at(message),
{
}

/// The messages that are taken stand in the order of the archive.
pub proof fn messages_are_taken_in_order(
    items: Seq<JsonView>,
    days: Seq<CalendarDate>,
    further: JsonView,
    day: CalendarDate,
    id: Seq<char>,
    start: Option<CalendarDate>,
    end: Option<CalendarDate>,
)
    requires
        days.len() == items.len(),
    ensures
        staging::selected_messages(Seq::empty(), Seq::empty(), id, start, end).len() == 0,
        staging::is_selected(further, day, id, start, end) ==> staging::selected_messages(
            items.push(further),
            days.push(day),
            id,
            start,
            end,
        ) == staging::selected_messages(items, days, id, start, end).push(
            further.object_member("chatItem"@)->0,
        ),
        !staging::is_selected(further, day, id, start, end) ==> staging::selected_messages(
            items.push(further),
            days.push(day),
            id,
            start,
            end,
        ) == staging::selected_messages(items, days, id, start, end),
{
    assert(items.push(further).drop_last() =~= items);
    assert(days.push(day).drop_last() =~= days);
}

/// The day of a message is the one that a clock shows when it was sent.
pub proof fn a_message_was_sent_on_its_day(item: JsonView, sent: int, time: LocalTime)
    requires
        staging::sent_of(item) == Some(sent),
        time.shows(sent),
    ensures
        staging::is_day_of(item, time.date),
        sent != 0 ==> forall|day: CalendarDate| #[trigger]
            staging::is_day_of(item, day) ==> exists|shown: LocalTime| #[trigger]
                shown.shows(sent) && shown.date == day,
{
}

/// A message goes to the document of its chat where its day lies in the range, and
/// nowhere else; nothing that is taken is passed over.
pub proof fn a_message_goes_to_the_document_of_its_chat(
    staging: Staging,
    item: JsonView,
    day: CalendarDate,
    position: usize,
)
    requires
        position < staging.stages@.len(),
        archive::chat_of(item) == Some(staging.stages@[position as int].conversation_id@),
        staging::is_day_of(item, day),
    ensures
        ({
            let inside = staging::sent_of(item) == Some(0int) || calendar::date_in_range(
                day,
                staging.start_date,
                staging.end_date,
            );
            &&& inside <==> staging::is_routed(staging, item, day, Route::Take { position })
            &&& inside ==> !staging::is_routed(staging, item, day, Route::Skip)
            &&& !inside ==> staging::is_routed(staging, item, day, Route::Skip)
        }),
{
    assert(staging::belongs_to(staging.stages@, item, position as int));
}

/// An item of no chat of the export is passed over.
pub proof fn an_item_of_no_chat_is_passed_over(
    staging: Staging,
    item: JsonView,
    day: CalendarDate,
    position: usize,
)
    requires
        forall|k: int|
            0 <= k < staging.stages@.len() ==> archive::chat_of(item) != Some(
                (#[trigger] staging.stages@[k]).conversation_id@,
            ),
    ensures
        staging::is_routed(staging, item, day, Route::Skip),
        !staging::is_routed(staging, item, day, Route::Take { position }),
{
    assert forall|i: int| !#[trigger] staging::belongs_to(staging.stages@, item, i) by {
        if 0 <= i < staging.stages@.len() {
            assert(archive::chat_of(item) != Some(staging.stages@[i].conversation_id@));
        }
    }
}

/// A message that is added is the last of its document, with a record; the messages
/// before it, the other documents and what was asked for stay.
pub proof fn an_added_message_is_the_last(
    index: ArchiveIndex,
    before: Staging,
    position: int,
    message: JsonView,
    sources: Seq<Option<Seq<char>>>,
    after: Staging,
    other: int,
)
    requires
        staging::adds(index, before, position, message, sources, after),
        0 <= other < before.stages@.len(),
        other != position,
    ensures
        ({
            let old_stage = before.stages@[position]@;
            let new_stage = after.stages@[position]@;
            &&& new_stage.messages == old_stage.messages.push(message)
            &&& new_stage.records.len() == old_stage.records.len() + 1
            &&& new_stage.records.take(old_stage.records.len() as int) == old_stage.records
            &&& new_stage.conversation_id == old_stage.conversation_id
            &&& new_stage.document_path == old_stage.document_path
            &&& after.stages@.len() == before.stages@.len()
            &&& after.stages@[other] == before.stages@[other]
            &&& after.format == before.format
            &&& after.start_date == before.start_date
            &&& after.end_date == before.end_date
            &&& after.include_media == before.include_media
        }),
{
    let old_stage = before.stages@[position]@;
    let new_stage = after.stages@[position]@;
    assert(new_stage.records.take(old_stage.records.len() as int) =~= old_stage.records);
}

/// The totals are the sums of what the documents hold.
pub proof fn totals_are_sums(stages: Seq<ConversationStage>, further: ConversationStage)
    ensures
        staging::message_sum(Seq::empty()) == 0,
        staging::attachment_sum(Seq::empty()) == 0,
        staging::copied_sum(Seq::empty()) == 0,
        staging::missing_sum(Seq::empty()) == 0,
        staging::message_sum(stages.push(further)) == staging::message_sum(stages)
            + further.message_count,
        staging::attachment_sum(stages.push(further)) == staging::attachment_sum(stages)
            + further.media.attachment_count,
        staging::copied_sum(stages.push(further)) == staging::copied_sum(stages)
            + further.media@.copied.len(),
        staging::missing_sum(stages.push(further)) == staging::missing_sum(stages)
            + further.media.missing_count,
{
    assert(stages.push(further).drop_last() =~= stages);
}

// ---------------------------------------------------------------------------
// Text
// ---------------------------------------------------------------------------

/// The messages of a document are written one after the other: in Markdown each as it
/// is, in JSON each but the first after a comma.
pub proof fn messages_are_written_one_after_the_other(
    records: Seq<MessageView>,
    texts: Seq<Seq<char>>,
    record: MessageView,
    json_text: Seq<char>,
)
    requires
        texts.len() == records.len(),
    ensures
        assembly::pieces_text(
            ExportFormat::Markdown,
            records.push(record),
            texts.push(json_text),
        ) == assembly::pieces_text(ExportFormat::Markdown, records, texts)
            + markdown::markdown_message_text(record),
        records.len() == 0 ==> assembly::pieces_text(
            ExportFormat::Json,
            records.push(record),
            texts.push(json_text),
        ) == seq![' ', ' ', ' ', ' '] + json_text,
        records.len() > 0 ==> assembly::pieces_text(
            ExportFormat::Json,
            records.push(record),
            texts.push(json_text),
        ) == assembly::pieces_text(ExportFormat::Json, records, texts) + (seq![
            ',',
            '\n',
            ' ',
            ' ',
            ' ',
            ' ',
        ] + json_text),
        assembly::pieces_text(ExportFormat::Markdown, Seq::empty(), Seq::empty()).len() == 0,
        assembly::pieces_text(ExportFormat::Json, Seq::empty(), Seq::empty()).len() == 0,
{
    assert(records.push(record).drop_last() =~= records);
    assert(texts.push(json_text).drop_last() =~= texts);
    reveal_strlit("    ");
    reveal_strlit(",\n    ");
    assert("    "@ =~= seq![' ', ' ', ' ', ' ']);
    assert(",\n    "@ =~= seq![',', '\n', ' ', ' ', ' ', ' ']);
    if records.len() == 0 {
        assert(assembly::pieces_text(ExportFormat::Json, records, texts) =~= Seq::<char>::empty());
    }
}

/// A document is its head, its messages and its foot; the documents of a combined file
/// stand between its head and its foot, parted from each other.
pub proof fn documents_are_put_together(
    format: ExportFormat,
    head: Seq<char>,
    records: Seq<MessageView>,
    json_texts: Seq<Seq<char>>,
    foot: Seq<char>,
    exported_at: Seq<char>,
    texts: Seq<Seq<char>>,
    further: Seq<char>,
)
    ensures
        assembly::document_text(format, head, records, json_texts, foot) == head
            + assembly::pieces_text(format, records, json_texts) + foot,
        assembly::combined_text(format, exported_at, texts) == documents::combined_head(
            format,
            exported_at,
        ) + assembly::joined_documents(format, texts) + documents::combined_foot(format),
        assembly::joined_documents(format, Seq::empty()).len() == 0,
        texts.len() == 0 ==> assembly::joined_documents(format, texts.push(further)) == further,
        texts.len() > 0 ==> assembly::joined_documents(format, texts.push(further))
            == assembly::joined_documents(format, texts) + documents::combined_separator(format)
            + further,
{
    assert(texts.push(further).drop_last() =~= texts);
    if texts.len() == 0 {
        let none = assembly::joined_documents(format, texts);
        assert(none =~= Seq::<char>::empty());
        assert(assembly::joined_documents(format, texts.push(further)) == none
            + documents::combined_lead(format, 0) + further);
        assert(none + documents::combined_lead(format, 0) + further =~= further);
    }
}

/// An export that has not begun is as it was asked for: its format, its dates, whether
/// media are copied, and one document for each chat, in order.
pub proof fn a_fresh_export_is_as_it_was_asked_for(
    export: Staging,
    index: ArchiveIndex,
    request: MultiExportRequest,
    ids: Seq<Seq<char>>,
    files: Seq<Seq<char>>,
    directory: Seq<char>,
    place: int,
)
    requires
        export.is_fresh(index, request, ids, files, directory),
    ensures
        export.format == request.format,
        export.start_date == request.start_date,
        export.end_date == request.end_date,
        export.include_media == request.include_media,
        export.stages@.len() == ids.len(),
        export.messages_staged == 0,
        export.attachments_staged == 0,
        0 <= place < ids.len() ==> export.stages@[place].conversation_id@ == ids[place]
            && export.stages@[place]@.messages.len() == 0,
{
    if 0 <= place < ids.len() {
        let stage = export.stages@[place]@;
        assert(stage == staging::fresh_stage(index, request, ids, files, directory, place));
        assert(stage.conversation_id == export.stages@[place].conversation_id@);
    }
}

} // verus!
