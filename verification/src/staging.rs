//! Putting the documents of an export together, message by message.

use vstd::prelude::*;

use crate::archive;
use crate::calendar::{self, timestamp_is_in_range, CalendarDate, LocalTime};
use crate::copier::{self, CopierView, CopyOrder, MediaCopier};
use crate::documents::{self, json_footer, json_header};
use crate::error::AppError;
use crate::json::{Json, JsonView};
use crate::markdown::{self, markdown_header};
use crate::message::{self, normalize_message, participants, AuthorRecord, FoundMedia, MessageRecord};
use crate::message::{media_needs, MediaNeeds, MessageView};
use crate::model::{ArchiveIndex, Conversation};
use crate::names::{self, media_directory_name, ExportFormat};
use crate::parser::{self, chat_item_timestamp_ms, member_id};
use crate::path::{self, join_path};
use crate::plan::{self, ConversationExportMode, ExportRequest, MultiExportRequest};
use crate::text::{self, join3, padded_text, same_text};

verus! {

/// One document on its way.
pub struct ConversationStage {
    pub conversation_id: String,
    pub document_path: String,
    pub media: MediaCopier,
    pub message_count: u64,
    pub messages: Ghost<Seq<JsonView>>,
    pub records: Ghost<Seq<MessageView>>,
}

/// One document on its way, as mathematics sees it.
#[verifier::ext_equal]
pub struct StageView {
    pub conversation_id: Seq<char>,
    pub document_path: Seq<char>,
    pub media: CopierView,
    pub messages: Seq<JsonView>,
    pub records: Seq<MessageView>,
}

impl ConversationStage {
    pub open spec fn view(&self) -> StageView {
        StageView {
            conversation_id: self.conversation_id@,
            document_path: self.document_path@,
            media: self.media@,
            messages: self.messages@,
            records: self.records@,
        }
    }

    /// The counts are those of the messages and of their attachments, and every
    /// message has a record.
    pub open spec fn is_well_formed(&self) -> bool {
        &&& self.media.is_well_formed()
        &&& self.message_count == self.messages@.len()
        &&& self.records@.len() == self.messages@.len()
    }
}

/// The documents of an export on their way.
pub struct Staging {
    pub format: ExportFormat,
    pub start_date: Option<CalendarDate>,
    pub end_date: Option<CalendarDate>,
    pub include_media: bool,
    pub stages: Vec<ConversationStage>,
    pub messages_staged: u64,
    pub attachments_staged: u64,
}

/// How many messages some documents have in all.
pub open spec fn message_sum(stages: Seq<ConversationStage>) -> nat
    decreases stages.len(),
{
    if stages.len() == 0 {
        0
    } else {
        message_sum(stages.drop_last()) + stages.last().message_count as nat
    }
}

/// How many attachments some documents have in all.
pub open spec fn attachment_sum(stages: Seq<ConversationStage>) -> nat
    decreases stages.len(),
{
    if stages.len() == 0 {
        0
    } else {
        attachment_sum(stages.drop_last()) + stages.last().media.attachment_count as nat
    }
}

/// How many files were copied for some documents in all.
pub open spec fn copied_sum(stages: Seq<ConversationStage>) -> nat
    decreases stages.len(),
{
    if stages.len() == 0 {
        0
    } else {
        copied_sum(stages.drop_last()) + stages.last().media@.copied.len()
    }
}

/// How many files were not found for some documents in all.
pub open spec fn missing_sum(stages: Seq<ConversationStage>) -> nat
    decreases stages.len(),
{
    if stages.len() == 0 {
        0
    } else {
        missing_sum(stages.drop_last()) + stages.last().media.missing_count as nat
    }
}

/// The chats of some documents.
pub open spec fn stage_ids(stages: Seq<ConversationStage>) -> Seq<Seq<char>> {
    stages.map_values(|stage: ConversationStage| stage.conversation_id@)
}

impl Staging {
    /// Each chat has one document, and the totals are those of the documents.
    pub open spec fn is_well_formed(&self) -> bool {
        &&& stage_ids(self.stages@).no_duplicates()
        &&& forall|i: int|
            0 <= i < self.stages@.len() ==> (#[trigger] self.stages@[i]).is_well_formed()
        &&& self.messages_staged == message_sum(self.stages@)
        &&& self.attachments_staged == attachment_sum(self.stages@)
    }
}

// ---------------------------------------------------------------------------
// Starting
// ---------------------------------------------------------------------------

/// The media folder of a document, relative to the document. The documents of a
/// combined file have numbered folders inside that of the file.
pub open spec fn stage_media_folder(
    mode: ConversationExportMode,
    count: nat,
    position: int,
    media_root: Seq<char>,
) -> Seq<char> {
    if mode is Combined && count > 1 {
        media_root + "/conversation-"@ + text::padded((position + 1) as nat, 4)
    } else {
        media_root
    }
}

/// Where a document is put together.
pub open spec fn stage_document(
    staging_directory: Seq<char>,
    position: int,
    format: ExportFormat,
) -> Seq<char> {
    path::joined(
        path::joined(staging_directory, "documents"@),
        "conversation-"@ + text::padded(position as nat, 4) + "."@ + format.extension_text(),
    )
}

/// The file that the document at a position goes into.
pub open spec fn stage_output(mode: ConversationExportMode, position: int) -> int {
    if mode is Combined {
        0
    } else {
        position
    }
}

/// A document before its first message.
pub open spec fn fresh_stage(
    index: ArchiveIndex,
    request: MultiExportRequest,
    ids: Seq<Seq<char>>,
    files: Seq<Seq<char>>,
    staging_directory: Seq<char>,
    position: int,
) -> StageView {
    let media_root = names::media_folder_name(files[stage_output(request.mode, position)])->0;
    StageView {
        conversation_id: ids[position],
        document_path: stage_document(staging_directory, position, request.format),
        media: CopierView {
            source_root: index.export_root@,
            staging_root: staging_directory,
            media_directory_name: stage_media_folder(
                request.mode,
                ids.len(),
                position,
                media_root,
            ),
            include_media: request.include_media,
            copied: Seq::empty(),
            missing_count: 0,
            attachment_count: 0,
        },
        messages: Seq::empty(),
        records: Seq::empty(),
    }
}

/// There is a file for each document.
pub open spec fn files_fit(mode: ConversationExportMode, ids: nat, files: nat) -> bool {
    if mode is Combined {
        files >= 1
    } else {
        files >= ids
    }
}

/// A chat without a document: the archive does not hold it, or its file has no
/// name to call a media folder by.
pub open spec fn stage_fails(
    index: ArchiveIndex,
    mode: ConversationExportMode,
    ids: Seq<Seq<char>>,
    files: Seq<Seq<char>>,
    position: int,
) -> bool {
    index.conversation(ids[position]) is None || names::media_folder_name(
        files[stage_output(mode, position)],
    ) is None
}

impl Staging {
    /// Nothing was put together yet.
    pub open spec fn is_fresh(
        &self,
        index: ArchiveIndex,
        request: MultiExportRequest,
        ids: Seq<Seq<char>>,
        files: Seq<Seq<char>>,
        staging_directory: Seq<char>,
    ) -> bool {
        &&& self.format == request.format
        &&& self.start_date == request.start_date
        &&& self.end_date == request.end_date
        &&& self.include_media == request.include_media
        &&& self.stages@.len() == ids.len()
        &&& forall|i: int|
            0 <= i < ids.len() ==> (#[trigger] self.stages@[i])@ == fresh_stage(
                index,
                request,
                ids,
                files,
                staging_directory,
                i,
            )
        &&& self.messages_staged == 0
        &&& self.attachments_staged == 0
    }

    /// The documents of an export of several chats, before the first message.
    pub fn start(
        index: &ArchiveIndex,
        request: &MultiExportRequest,
        conversation_ids: &Vec<String>,
        output_files: &Vec<String>,
        staging_directory: &str,
    ) -> (result: Result<Staging, AppError>)
        requires
            text::texts(conversation_ids@).no_duplicates(),
            files_fit(request.mode, conversation_ids@.len(), output_files@.len()),
        ensures
            ({
                let ids = text::texts(conversation_ids@);
                let files = text::texts(output_files@);
                match result {
                    Ok(staging) => {
                        &&& staging.is_well_formed()
                        &&& staging.is_fresh(*index, *request, ids, files, staging_directory@)
                        &&& holds_selected(staging, Seq::empty(), Seq::empty())
                        &&& stage_ids(staging.stages@) == ids
                        &&& !request.include_media ==> copies_nothing(staging)
                        &&& forall|i: int|
                            0 <= i < ids.len() ==> !#[trigger] stage_fails(
                                *index,
                                request.mode,
                                ids,
                                files,
                                i,
                            )
                    },
                    Err(error) => exists|k: int|
                        {
                            &&& 0 <= k < ids.len()
                            &&& #[trigger] stage_fails(*index, request.mode, ids, files, k)
                            &&& forall|j: int|
                                0 <= j < k ==> !#[trigger] stage_fails(
                                    *index,
                                    request.mode,
                                    ids,
                                    files,
                                    j,
                                )
                            &&& if index.conversation(ids[k]) is None {
                                error is UnknownConversation
                            } else {
                                error is InvalidOutputFile
                            }
                        },
                }
            }),
    {
        let ghost ids = text::texts(conversation_ids@);
        let ghost files = text::texts(output_files@);
        let is_combined = match request.mode {
            ConversationExportMode::Combined => true,
            ConversationExportMode::Separate => false,
        };
        let document_directory = join_path(staging_directory, "documents");
        let mut stages: Vec<ConversationStage> = Vec::new();
        let mut position: usize = 0;
        while position < conversation_ids.len()
            invariant
                position <= conversation_ids@.len(),
                ids == text::texts(conversation_ids@),
                ids.no_duplicates(),
                files == text::texts(output_files@),
                is_combined == (request.mode is Combined),
                files_fit(request.mode, conversation_ids@.len(), output_files@.len()),
                document_directory@ == path::joined(staging_directory@, "documents"@),
                stages@.len() == position,
                forall|i: int|
                    0 <= i < position ==> {
                        &&& (#[trigger] stages@[i])@ == fresh_stage(
                            *index,
                            *request,
                            ids,
                            files,
                            staging_directory@,
                            i,
                        )
                        &&& stages@[i].is_well_formed()
                        &&& stages@[i].message_count == 0
                    },
                forall|i: int|
                    0 <= i < position ==> !#[trigger] stage_fails(
                        *index,
                        request.mode,
                        ids,
                        files,
                        i,
                    ),
            decreases conversation_ids@.len() - position,
        {
            assert(ids[position as int] == conversation_ids@[position as int]@);
            if index.find_conversation(conversation_ids[position].as_str()).is_none() {
                assert(stage_fails(*index, request.mode, ids, files, position as int));
                return Err(AppError::UnknownConversation);
            }
            let number = padded_text(position as u64, 4);
            let mut name = join3("conversation-", number.as_str(), ".");
            name.append(request.format.extension());
            let output: usize = if is_combined {
                0
            } else {
                position
            };
            assert(files[output as int] == output_files@[output as int]@);
            let media_root = match media_directory_name(output_files[output].as_str()) {
                Ok(name) => name,
                Err(error) => {
                    assert(stage_fails(*index, request.mode, ids, files, position as int));
                    return Err(error);
                },
            };
            let folder = if is_combined && conversation_ids.len() > 1 {
                join3(
                    media_root.as_str(),
                    "/conversation-",
                    padded_text(position as u64 + 1, 4).as_str(),
                )
            } else {
                media_root
            };
            let media = MediaCopier::new_with_directory(
                index.export_root.clone(),
                staging_directory.to_owned(),
                request.include_media,
                folder.as_str(),
            );
            let stage = ConversationStage {
                conversation_id: conversation_ids[position].clone(),
                document_path: join_path(document_directory.as_str(), name.as_str()),
                media,
                message_count: 0,
                messages: Ghost(Seq::empty()),
                records: Ghost(Seq::empty()),
            };
            assert(stage@ =~= fresh_stage(
                *index,
                *request,
                ids,
                files,
                staging_directory@,
                position as int,
            ));
            assert(!stage_fails(*index, request.mode, ids, files, position as int));
            stages.push(stage);
            position = position + 1;
        }
        proof {
            assert forall|i: int| 0 <= i < stages@.len() implies (#[trigger] stages@[i]).message_count
                == 0 && stages@[i].media.attachment_count == 0 by {
                assert(stages@[i]@.media.attachment_count == 0);
            }
            lemma_fresh_sums(stages@);
            assert forall|i: int| 0 <= i < stages@.len() implies #[trigger] stage_ids(stages@)[i]
                == ids[i] by {
                assert(stages@[i]@.conversation_id == ids[i]);
            }
            assert(stage_ids(stages@) =~= ids);
        }
        let staging = Staging {
            format: request.format,
            start_date: request.start_date,
            end_date: request.end_date,
            include_media: request.include_media,
            stages,
            messages_staged: 0,
            attachments_staged: 0,
        };
        proof {
            empty_documents_hold_no_items(staging);
        }
        Ok(staging)
    }

    /// The document of an export of one chat, before the first message. It is put
    /// together under its own name, and its media folder is called `media`.
    pub fn start_single(
        index: &ArchiveIndex,
        request: &ExportRequest,
        staging_directory: &str,
    ) -> (staging: Staging)
        ensures
            staging.is_well_formed(),
            staging.format == request.format,
            staging.start_date == request.start_date,
            staging.end_date == request.end_date,
            staging.include_media == request.include_media,
            staging.messages_staged == 0,
            staging.attachments_staged == 0,
            staging.stages@.len() == 1,
            staging.stages@[0]@ == (StageView {
                conversation_id: request.conversation_id@,
                document_path: path::joined(
                    staging_directory@,
                    "conversation."@ + request.format.extension_text(),
                ),
                media: CopierView {
                    source_root: index.export_root@,
                    staging_root: staging_directory@,
                    media_directory_name: "media"@,
                    include_media: request.include_media,
                    copied: Seq::empty(),
                    missing_count: 0,
                    attachment_count: 0,
                },
                messages: Seq::empty(),
                records: Seq::empty(),
            }),
            holds_selected(staging, Seq::empty(), Seq::empty()),
            !request.include_media ==> copies_nothing(staging),
    {
        let mut name = "conversation.".to_owned();
        name.append(request.format.extension());
        let media = MediaCopier::new_with_directory(
            index.export_root.clone(),
            staging_directory.to_owned(),
            request.include_media,
            "media",
        );
        let mut stages: Vec<ConversationStage> = Vec::new();
        stages.push(
            ConversationStage {
                conversation_id: request.conversation_id.clone(),
                document_path: join_path(staging_directory, name.as_str()),
                media,
                message_count: 0,
                messages: Ghost(Seq::empty()),
                records: Ghost(Seq::empty()),
            },
        );
        proof {
            assert(stages@[0]@.media.attachment_count == 0);
            lemma_fresh_sums(stages@);
        }
        let staging = Staging {
            format: request.format,
            start_date: request.start_date,
            end_date: request.end_date,
            include_media: request.include_media,
            stages,
            messages_staged: 0,
            attachments_staged: 0,
        };
        proof {
            empty_documents_hold_no_items(staging);
        }
        staging
    }
}

proof fn lemma_fresh_sums(stages: Seq<ConversationStage>)
    requires
        forall|i: int|
            0 <= i < stages.len() ==> (#[trigger] stages[i]).message_count == 0
                && stages[i].media.attachment_count == 0,
    ensures
        message_sum(stages) == 0,
        attachment_sum(stages) == 0,
    decreases stages.len(),
{
    if stages.len() > 0 {
        assert forall|i: int| 0 <= i < stages.drop_last().len() implies (
        #[trigger] stages.drop_last()[i]).message_count == 0
            && stages.drop_last()[i].media.attachment_count == 0 by {
            assert(stages.drop_last()[i] == stages[i]);
        }
        lemma_fresh_sums(stages.drop_last());
        assert(stages.last() == stages[stages.len() - 1]);
    }
}

// ---------------------------------------------------------------------------
// Routing
// ---------------------------------------------------------------------------

/// An item is a message of the chat with a document at a position.
pub open spec fn belongs_to(stages: Seq<ConversationStage>, item: JsonView, position: int) -> bool {
    0 <= position < stages.len() && archive::chat_of(item) == Some(
        stages[position].conversation_id@,
    )
}

/// When the message in an item was sent, where there is one that says so.
pub open spec fn sent_of(item: JsonView) -> Option<int> {
    match item.object_member("chatItem"@) {
        Some(message) => parser::sent_at(message),
        None => None,
    }
}

/// An item is a message of a chat that an export takes: one whose day lies in the
/// range, or one without a timestamp.
pub open spec fn is_selected(
    item: JsonView,
    day: CalendarDate,
    id: Seq<char>,
    start: Option<CalendarDate>,
    end: Option<CalendarDate>,
) -> bool {
    archive::chat_of(item) == Some(id) && (sent_of(item) == Some(0int) || calendar::date_in_range(
        day,
        start,
        end,
    ))
}

/// The messages of a chat that an export takes from some items, in order, where
/// `days` are the days on which the items were sent.
pub open spec fn selected_messages(
    items: Seq<JsonView>,
    days: Seq<CalendarDate>,
    id: Seq<char>,
    start: Option<CalendarDate>,
    end: Option<CalendarDate>,
) -> Seq<JsonView>
    decreases items.len(),
{
    if items.len() == 0 {
        Seq::empty()
    } else {
        let before = selected_messages(items.drop_last(), days.drop_last(), id, start, end);
        if is_selected(items.last(), days.last(), id, start, end) {
            before.push(items.last().object_member("chatItem"@)->0)
        } else {
            before
        }
    }
}

/// A day on which a clock stood when a message was sent. One without a timestamp
/// was sent on no day, so that any will do.
pub open spec fn is_day_of(item: JsonView, day: CalendarDate) -> bool {
    sent_of(item) matches Some(sent) && (sent == 0 || exists|time: LocalTime| #[trigger]
        time.shows(sent) && time.date == day)
}

/// What is to be done with an item.
#[derive(Debug, Clone, Copy, PartialEq, Eq, Structural)]
pub enum Route {
    /// It belongs to no document, or its day lies outside the range.
    Skip,
    /// It belongs to the document at a position.
    Take { position: usize },
}

/// What is to be done with an item that was sent on a day: it is taken where a
/// document is that of its chat and the day lies in the range.
pub open spec fn is_routed(
    staging: Staging,
    item: JsonView,
    day: CalendarDate,
    route: Route,
) -> bool {
    match route {
        Route::Take { position } => {
            &&& belongs_to(staging.stages@, item, position as int)
            &&& is_day_of(item, day)
            &&& is_selected(
                item,
                day,
                staging.stages@[position as int].conversation_id@,
                staging.start_date,
                staging.end_date,
            )
        },
        Route::Skip => (forall|i: int| !#[trigger] belongs_to(staging.stages@, item, i)) || {
            &&& is_day_of(item, day)
            &&& sent_of(item) != Some(0int)
            &&& !calendar::date_in_range(day, staging.start_date, staging.end_date)
        },
    }
}

impl Staging {
    fn find_stage(&self, id: &str) -> (found: Option<usize>)
        ensures
            match found {
                Some(i) => i < self.stages@.len() && self.stages@[i as int].conversation_id@ == id@,
                None => forall|i: int|
                    0 <= i < self.stages@.len() ==> (
                    #[trigger] self.stages@[i]).conversation_id@ != id@,
            },
    {
        let mut i: usize = 0;
        while i < self.stages.len()
            invariant
                i <= self.stages@.len(),
                forall|j: int|
                    0 <= j < i ==> (#[trigger] self.stages@[j]).conversation_id@ != id@,
            decreases self.stages@.len() - i,
        {
            if same_text(self.stages[i].conversation_id.as_str(), id) {
                return Some(i);
            }
            i = i + 1;
        }
        None
    }

    /// Where an item goes. A message goes to the document of its chat where its
    /// day lies in the range; one without a timestamp lies in every range.
    pub fn route(&self, item: &Json) -> (result: Result<Route, AppError>)
        ensures
            match result {
                Ok(Route::Take { position }) => {
                    let message = item@.object_member("chatItem"@)->0;
                    &&& belongs_to(self.stages@, item@, position as int)
                    &&& item@.object_member("chatItem"@) is Some
                    &&& parser::sent_at(message) is Some
                    &&& calendar::has_local_time(parser::sent_at(message)->0)
                    &&& parser::sent_at(message)->0 == 0 || exists|time: LocalTime| #[trigger]
                        time.shows(parser::sent_at(message)->0) && calendar::date_in_range(
                            time.date,
                            self.start_date,
                            self.end_date,
                        )
                },
                Ok(Route::Skip) => {
                    let message = item@.object_member("chatItem"@)->0;
                    ||| forall|i: int| !#[trigger] belongs_to(self.stages@, item@, i)
                    ||| {
                        &&& parser::sent_at(message) is Some
                        &&& parser::sent_at(message)->0 != 0
                        &&& exists|time: LocalTime| #[trigger]
                            time.shows(parser::sent_at(message)->0) && !calendar::date_in_range(
                                time.date,
                                self.start_date,
                                self.end_date,
                            )
                    }
                },
                Err(error) => {
                    let message = item@.object_member("chatItem"@)->0;
                    &&& error is InvalidTimestamp
                    &&& exists|i: int| #[trigger] belongs_to(self.stages@, item@, i)
                    &&& parser::sent_at(message) is None || !calendar::has_local_time(
                        parser::sent_at(message)->0,
                    )
                },
            },
            result matches Ok(route) ==> exists|day: CalendarDate| #[trigger]
                is_routed(*self, item@, day, route),
            archive::item_fault(item@) is None ==> result is Ok,
    {
        let ghost no_day = arbitrary::<CalendarDate>();
        let message = match item.object_member("chatItem") {
            Some(message) => message,
            None => {
                assert(is_routed(*self, item@, no_day, Route::Skip));
                return Ok(Route::Skip);
            },
        };
        let id = match member_id(message, "chatId") {
            Some(id) => id,
            None => {
                assert(is_routed(*self, item@, no_day, Route::Skip));
                return Ok(Route::Skip);
            },
        };
        let position = match self.find_stage(id.as_str()) {
            Some(position) => position,
            None => {
                assert(is_routed(*self, item@, no_day, Route::Skip));
                return Ok(Route::Skip);
            },
        };
        assert(belongs_to(self.stages@, item@, position as int));
        let timestamp_ms: i64 = match chat_item_timestamp_ms(message) {
            Some(timestamp_ms) => timestamp_ms,
            None => {
                return Err(AppError::InvalidTimestamp);
            },
        };
        assert(parser::sent_at(item@.object_member("chatItem"@)->0) == Some(timestamp_ms as int));
        match timestamp_is_in_range(timestamp_ms, self.start_date, self.end_date) {
            Ok(inside) => if inside {
                assert(calendar::has_local_time(timestamp_ms as int));
                assert(timestamp_ms == 0 || exists|time: LocalTime| #[trigger]
                    time.shows(timestamp_ms as int) && calendar::date_in_range(
                        time.date,
                        self.start_date,
                        self.end_date,
                    ));
                proof {
                    let day = if timestamp_ms == 0 {
                        no_day
                    } else {
                        let time = choose|time: LocalTime| #[trigger]
                            time.shows(timestamp_ms as int) && calendar::date_in_range(
                                time.date,
                                self.start_date,
                                self.end_date,
                            );
                        time.date
                    };
                    assert(is_routed(*self, item@, day, Route::Take { position }));
                }
                Ok(Route::Take { position })
            } else {
                proof {
                    let time = choose|time: LocalTime| #[trigger]
                        time.shows(timestamp_ms as int) && !calendar::date_in_range(
                            time.date,
                            self.start_date,
                            self.end_date,
                        );
                    assert(is_routed(*self, item@, time.date, Route::Skip));
                }
                Ok(Route::Skip)
            },
            Err(error) => Err(error),
        }
    }
}

/// A message goes to at most one document.
pub proof fn a_message_belongs_to_one_document(
    stages: Seq<ConversationStage>,
    item: JsonView,
    first: int,
    second: int,
)
    requires
        stage_ids(stages).no_duplicates(),
        belongs_to(stages, item, first),
        belongs_to(stages, item, second),
    ensures
        first == second,
{
    assert(stage_ids(stages)[first] == stages[first].conversation_id@);
    assert(stage_ids(stages)[second] == stages[second].conversation_id@);
}

// ---------------------------------------------------------------------------
// Messages
// ---------------------------------------------------------------------------

/// A message that was added to a document: its record, the copies that there are
/// to make, and whether it is the first message of the document.
pub struct StagedMessage {
    pub record: MessageRecord,
    pub orders: Vec<CopyOrder>,
    pub is_first: bool,
}

/// The documents but one stay as they are.
pub open spec fn others_unchanged(
    before: Seq<ConversationStage>,
    after: Seq<ConversationStage>,
    position: int,
) -> bool {
    &&& after.len() == before.len()
    &&& forall|i: int| 0 <= i < before.len() && i != position ==> #[trigger] after[i] == before[i]
}

/// A record tells a message of a chat, given the files that were copied before and
/// what was found of its attachments. The clock and a long text in a file of its own
/// are those of the machine and of the archive.
pub open spec fn is_record(
    index: ArchiveIndex,
    id: Seq<char>,
    media: CopierView,
    message: JsonView,
    sources: Seq<Option<Seq<char>>>,
    record: MessageView,
) -> bool {
    exists|time: LocalTime, conversation: Conversation, long_text: Option<Seq<u8>>|
        {
            &&& parser::sent_at(message) is Some
            &&& time.shows(parser::sent_at(message)->0)
            &&& index.conversation(id) == Some(conversation@)
            &&& record == #[trigger] message::message_told(
                message,
                conversation,
                index,
                media,
                archive::sent_ms(message),
                time,
                long_text,
                sources,
            )
        }
}

/// A message was added to the document at a position, with what was found of its
/// attachments, and nothing else changed.
pub open spec fn adds(
    index: ArchiveIndex,
    before: Staging,
    position: int,
    message: JsonView,
    sources: Seq<Option<Seq<char>>>,
    after: Staging,
) -> bool {
    &&& 0 <= position < before.stages@.len()
    &&& after.is_well_formed()
    &&& after.format == before.format
    &&& after.start_date == before.start_date
    &&& after.end_date == before.end_date
    &&& after.include_media == before.include_media
    &&& others_unchanged(before.stages@, after.stages@, position)
    &&& {
        let stage = before.stages@[position]@;
        let record = after.stages@[position]@.records.last();
        &&& after.stages@[position]@ == (StageView {
            media: message::attach_all(stage.media, message::pointers_of(message), sources).0,
            messages: stage.messages.push(message),
            records: stage.records.push(record),
            ..stage
        })
        &&& is_record(index, stage.conversation_id, stage.media, message, sources, record)
    }
}

proof fn lemma_sums_change(
    before: Seq<ConversationStage>,
    after: Seq<ConversationStage>,
    position: int,
)
    requires
        0 <= position < before.len(),
        others_unchanged(before, after, position),
    ensures
        message_sum(after) == message_sum(before) - before[position].message_count
            + after[position].message_count,
        attachment_sum(after) == attachment_sum(before) - before[position].media.attachment_count
            + after[position].media.attachment_count,
    decreases before.len(),
{
    let shorter_before = before.drop_last();
    let shorter_after = after.drop_last();
    if position == before.len() - 1 {
        assert(shorter_before =~= shorter_after) by {
            assert forall|i: int| 0 <= i < shorter_before.len() implies shorter_before[i]
                == shorter_after[i] by {
                assert(after[i] == before[i]);
            }
        }
    } else {
        assert(others_unchanged(shorter_before, shorter_after, position)) by {
            assert forall|i: int| 0 <= i < shorter_before.len() && i != position implies
                #[trigger] shorter_after[i] == shorter_before[i] by {
                assert(after[i] == before[i]);
            }
        }
        lemma_sums_change(shorter_before, shorter_after, position);
        assert(after[before.len() - 1] == before[before.len() - 1]);
    }
}

proof fn lemma_sums_bound(stages: Seq<ConversationStage>, position: int)
    requires
        0 <= position < stages.len(),
    ensures
        stages[position].message_count <= message_sum(stages),
        stages[position].media.attachment_count <= attachment_sum(stages),
    decreases stages.len(),
{
    if position < stages.len() - 1 {
        lemma_sums_bound(stages.drop_last(), position);
        assert(stages.drop_last()[position] == stages[position]);
    }
}

impl Staging {
    /// What the files of a message are asked for.
    pub fn needs(&self, position: usize, message: &Json) -> (needs: MediaNeeds)
        requires
            position < self.stages@.len(),
        ensures
            match message::long_text_pointer(message@) {
                Some(pointer) => copier::is_place(
                    self.stages@[position as int]@.media.source_root,
                    pointer,
                    needs.long_text,
                ),
                None => needs.long_text is None,
            },
            needs.attachments@.len() == message::pointers_of(message@).len(),
            forall|i: int|
                0 <= i < needs.attachments@.len() ==> copier::is_place(
                    self.stages@[position as int]@.media.source_root,
                    message::pointers_of(message@)[i],
                    #[trigger] needs.attachments@[i],
                ),
    {
        media_needs(message, &self.stages[position].media)
    }

    /// The counters can take one more message with so many attachments.
    pub open spec fn can_count(&self, attachments: nat) -> bool {
        self.messages_staged < u64::MAX && self.attachments_staged + attachments <= u64::MAX
    }

    /// Whether the counters can take one more message with so many attachments.
    pub fn has_room(&self, attachments: usize) -> (room: bool)
        ensures
            room == self.can_count(attachments as nat),
    {
        self.messages_staged < u64::MAX && attachments as u64 <= u64::MAX - self.attachments_staged
    }

    /// Adds a message to the document at a position.
    pub fn add_message(
        &mut self,
        index: &ArchiveIndex,
        position: usize,
        message: &Json,
        found: FoundMedia,
    ) -> (result: Result<StagedMessage, AppError>)
        requires
            old(self).is_well_formed(),
            position < old(self).stages@.len(),
            found.sources@.len() == message::pointers_of(message@).len(),
            old(self).can_count(message::pointers_of(message@).len()),
        ensures
            final(self).is_well_formed(),
            final(self).format == old(self).format,
            final(self).start_date == old(self).start_date,
            final(self).end_date == old(self).end_date,
            final(self).include_media == old(self).include_media,
            others_unchanged(old(self).stages@, final(self).stages@, position as int),
            result is Ok ==> adds(
                *index,
                *old(self),
                position as int,
                message@,
                message::shown_sources(found.sources@),
                *final(self),
            ),
            ({
                let before = old(self).stages@[position as int]@;
                let after = final(self).stages@[position as int]@;
                let sent = parser::sent_at(message@);
                let known = index.conversation(before.conversation_id);
                let sources = message::shown_sources(found.sources@);
                let attached = message::attach_all(
                    before.media,
                    message::pointers_of(message@),
                    sources,
                );
                match result {
                    Ok(staged) => {
                        &&& known is Some
                        &&& sent is Some
                        &&& calendar::has_local_time(sent->0)
                        &&& after == (StageView {
                            media: attached.0,
                            messages: before.messages.push(message@),
                            records: before.records.push(staged.record@),
                            ..before
                        })
                        &&& staged.is_first == (before.messages.len() == 0)
                        &&& message::shown_orders(staged.orders@) == attached.2
                        &&& exists|time: LocalTime, conversation: Conversation|
                            #![trigger time.shows(sent->0), conversation@]
                            time.shows(sent->0) && known == Some(conversation@)
                                && staged.record@ == message::message_told(
                                message@,
                                conversation,
                                *index,
                                before.media,
                                archive::sent_ms(message@),
                                time,
                                message::shown_bytes(found.long_text),
                                sources,
                            )
                    },
                    Err(error) => {
                        &&& after == before
                        &&& if known is None {
                            error is UnknownConversation
                        } else {
                            error is InvalidTimestamp && (sent is None
                                || !calendar::has_local_time(sent->0))
                        }
                    },
                }
            }),
    {
        let ghost before = self.stages@;
        let ghost pointers = message::pointers_of(message@);
        let ghost sources = message::shown_sources(found.sources@);
        proof {
            lemma_sums_bound(before, position as int);
            message::lemma_attachment_count(before[position as int].media@, pointers, sources);
        }
        let conversation = match index.find_conversation(
            self.stages[position].conversation_id.as_str(),
        ) {
            Some(conversation) => conversation,
            None => {
                return Err(AppError::UnknownConversation);
            },
        };
        let is_first = self.stages[position].message_count == 0;
        let done = normalize_message(
            message,
            conversation,
            index,
            &mut self.stages[position].media,
            found,
        );
        match done {
            Ok((record, orders)) => {
                self.stages[position].message_count = self.stages[position].message_count + 1;
                let ghost told = self.stages@[position as int].messages@.push(message@);
                self.stages[position].messages = Ghost(told);
                let ghost records = self.stages@[position as int].records@.push(record@);
                self.stages[position].records = Ghost(records);
                self.messages_staged = self.messages_staged + 1;
                self.attachments_staged = self.attachments_staged + found_count(&record);
                proof {
                    assert(others_unchanged(before, self.stages@, position as int));
                    lemma_sums_change(before, self.stages@, position as int);
                    assert(stage_ids(self.stages@) =~= stage_ids(before));
                    assert(self.stages@[position as int]@ =~= (StageView {
                        media: message::attach_all(
                            before[position as int].media@,
                            pointers,
                            sources,
                        ).0,
                        messages: before[position as int].messages@.push(message@),
                        records: before[position as int].records@.push(record@),
                        ..before[position as int]@
                    }));
                    assert(is_record(
                        *index,
                        before[position as int]@.conversation_id,
                        before[position as int]@.media,
                        message@,
                        sources,
                        record@,
                    ));
                }
                Ok(StagedMessage { record, orders, is_first })
            },
            Err(error) => {
                proof {
                    assert(others_unchanged(before, self.stages@, position as int));
                    lemma_sums_change(before, self.stages@, position as int);
                    assert(stage_ids(self.stages@) =~= stage_ids(before));
                    assert(self.stages@[position as int]@ =~= before[position as int]@);
                }
                Err(error)
            },
        }
    }
}

fn found_count(record: &MessageRecord) -> (count: u64)
    ensures
        count == record@.attachments.len(),
{
    record.attachments.len() as u64
}

// ---------------------------------------------------------------------------
// Head and foot
// ---------------------------------------------------------------------------

impl Staging {
    /// The head of the document at a position.
    pub fn header(
        &self,
        index: &ArchiveIndex,
        position: usize,
        exported_at: &str,
        timezone: &str,
    ) -> (result: Result<String, AppError>)
        requires
            index.is_well_formed(),
            position < self.stages@.len(),
        ensures
            ({
                let known = index.conversation(self.stages@[position as int]@.conversation_id);
                match result {
                    Ok(header) => exists|conversation: Conversation, authors: Seq<AuthorRecord>|
                        {
                            &&& known == Some(#[trigger] conversation@)
                            &&& #[trigger] message::is_participant_list(
                                authors,
                                *index,
                                conversation@.author_ids,
                            )
                            &&& header@ == match self.format {
                                ExportFormat::Json => documents::json_header_text(
                                    exported_at@,
                                    timezone@,
                                    conversation,
                                    self.start_date,
                                    self.end_date,
                                    self.include_media,
                                    authors,
                                ),
                                ExportFormat::Markdown => markdown::markdown_header_text(
                                    exported_at@,
                                    conversation.name@,
                                    self.start_date,
                                    self.end_date,
                                    self.include_media,
                                    authors,
                                ),
                            }
                        },
                    Err(error) => known is None && error is UnknownConversation,
                }
            }),
    {
        let conversation = match index.find_conversation(
            self.stages[position].conversation_id.as_str(),
        ) {
            Some(conversation) => conversation,
            None => {
                return Err(AppError::UnknownConversation);
            },
        };
        assert(conversation.is_well_formed()) by {
            let k = choose|k: int|
                0 <= k < index.conversations@.len() && index.conversations@[k] == *conversation;
            assert(index.conversations@[k].is_well_formed());
        }
        let authors = participants(index, conversation);
        let ghost known = *conversation;
        let ghost listed = authors@;
        assert(message::is_participant_list(listed, *index, known@.author_ids));
        match self.format {
            ExportFormat::Json => json_header(
                exported_at,
                timezone,
                conversation,
                self.start_date,
                self.end_date,
                self.include_media,
                &authors,
            ),
            ExportFormat::Markdown => Ok(
                markdown_header(
                    exported_at,
                    conversation.name.as_str(),
                    self.start_date,
                    self.end_date,
                    self.include_media,
                    &authors,
                ),
            ),
        }
    }

    /// The foot of the document at a position.
    pub fn footer(&self, position: usize) -> (result: Result<String, AppError>)
        requires
            position < self.stages@.len(),
        ensures
            ({
                let stage = self.stages@[position as int];
                match result {
                    Ok(footer) => footer@ == match self.format {
                        ExportFormat::Json => documents::json_footer_text(
                            stage.message_count,
                            stage.media.copied_count,
                            stage.media.missing_count,
                        ),
                        ExportFormat::Markdown => Seq::empty(),
                    },
                    Err(_) => false,
                }
            }),
    {
        match self.format {
            ExportFormat::Json => json_footer(
                self.stages[position].message_count,
                self.stages[position].media.copied_count,
                self.stages[position].media.missing_count,
            ),
            ExportFormat::Markdown => {
                let empty = String::new();
                assert(empty@ =~= Seq::<char>::empty());
                Ok(empty)
            },
        }
    }
}

// ---------------------------------------------------------------------------
// Totals
// ---------------------------------------------------------------------------

/// The totals of an export.
#[derive(Debug, Clone, Copy, PartialEq, Eq, Structural)]
pub struct StagedExport {
    pub messages_exported: u64,
    pub media_copied: u64,
    pub media_missing: u64,
}

proof fn lemma_media_sums(stages: Seq<ConversationStage>)
    requires
        forall|i: int| 0 <= i < stages.len() ==> (#[trigger] stages[i]).is_well_formed(),
    ensures
        copied_sum(stages) <= attachment_sum(stages),
        missing_sum(stages) <= attachment_sum(stages),
    decreases stages.len(),
{
    if stages.len() > 0 {
        let rest = stages.drop_last();
        assert forall|i: int| 0 <= i < rest.len() implies (#[trigger] rest[i]).is_well_formed() by {
            assert(rest[i] == stages[i]);
        }
        lemma_media_sums(rest);
        assert(stages[stages.len() - 1].is_well_formed());
        assert(stages.last().media@.copied.len() == stages.last().media.copied@.len());
    }
}

proof fn lemma_prefix_sums(stages: Seq<ConversationStage>, shorter: int)
    requires
        0 <= shorter <= stages.len(),
    ensures
        copied_sum(stages.take(shorter)) <= copied_sum(stages),
        missing_sum(stages.take(shorter)) <= missing_sum(stages),
    decreases stages.len(),
{
    if shorter == stages.len() {
        assert(stages.take(shorter) =~= stages);
    } else {
        lemma_prefix_sums(stages.drop_last(), shorter);
        assert(stages.drop_last().take(shorter) =~= stages.take(shorter));
    }
}

impl Staging {
    /// The totals over all documents.
    pub fn totals(&self) -> (totals: StagedExport)
        requires
            self.is_well_formed(),
        ensures
            totals.messages_exported == message_sum(self.stages@),
            totals.media_copied == copied_sum(self.stages@),
            totals.media_missing == missing_sum(self.stages@),
    {
        let ghost all = self.stages@;
        let mut media_copied: u64 = 0;
        let mut media_missing: u64 = 0;
        let mut i: usize = 0;
        proof {
            lemma_media_sums(all);
        }
        assert(all.take(0).len() == 0);
        while i < self.stages.len()
            invariant
                i <= self.stages@.len(),
                all == self.stages@,
                self.is_well_formed(),
                copied_sum(all) <= attachment_sum(all),
                missing_sum(all) <= attachment_sum(all),
                media_copied == copied_sum(all.take(i as int)),
                media_missing == missing_sum(all.take(i as int)),
            decreases self.stages@.len() - i,
        {
            proof {
                assert(all.take(i as int + 1).drop_last() =~= all.take(i as int));
                assert(all.take(i as int + 1).last() == all[i as int]);
                lemma_prefix_sums(all, i as int + 1);
                assert(all[i as int].is_well_formed());
                assert(all[i as int].media@.copied.len() == all[i as int].media.copied@.len());
            }
            media_copied = media_copied + self.stages[i].media.copied_count;
            media_missing = media_missing + self.stages[i].media.missing_count;
            i = i + 1;
        }
        assert(all.take(i as int) =~= all);
        StagedExport { messages_exported: self.messages_staged, media_copied, media_missing }
    }
}

/// The total number of messages is that of the messages in the documents.
pub open spec fn told_sum(stages: Seq<ConversationStage>) -> nat
    decreases stages.len(),
{
    if stages.len() == 0 {
        0
    } else {
        told_sum(stages.drop_last()) + stages.last()@.messages.len()
    }
}

/// Every message that is counted stands in a document, and every message in a
/// document is counted.
pub proof fn the_total_counts_every_message(stages: Seq<ConversationStage>)
    requires
        forall|i: int| 0 <= i < stages.len() ==> (#[trigger] stages[i]).is_well_formed(),
    ensures
        message_sum(stages) == told_sum(stages),
    decreases stages.len(),
{
    if stages.len() > 0 {
        let rest = stages.drop_last();
        assert forall|i: int| 0 <= i < rest.len() implies (#[trigger] rest[i]).is_well_formed() by {
            assert(rest[i] == stages[i]);
        }
        the_total_counts_every_message(rest);
        assert(stages[stages.len() - 1].is_well_formed());
    }
}

/// No two documents of an export have the same media folder, so that files of the
/// same name do not collide, whatever the mode.
pub proof fn documents_have_media_folders_of_their_own(
    index: ArchiveIndex,
    request: MultiExportRequest,
    ids: Seq<Seq<char>>,
    files: Seq<Seq<char>>,
    staging_directory: Seq<char>,
    first: int,
    second: int,
)
    requires
        0 <= first < second < ids.len(),
        files_fit(request.mode, ids.len(), files.len()),
        plan::media_names_differ(files),
        !stage_fails(index, request.mode, ids, files, first),
        !stage_fails(index, request.mode, ids, files, second),
    ensures
        fresh_stage(
            index,
            request,
            ids,
            files,
            staging_directory,
            first,
        ).media.media_directory_name != fresh_stage(
            index,
            request,
            ids,
            files,
            staging_directory,
            second,
        ).media.media_directory_name,
{
    if request.mode is Combined {
        combined_media_folders_differ(
            ids.len(),
            names::media_folder_name(files[0])->0,
            first,
            second,
        );
    } else {
        assert(names::media_folder_name(files[first]) != names::media_folder_name(files[second]));
    }
}

/// The documents of a combined file have media folders that differ, so that files
/// of the same name do not collide.
pub proof fn combined_media_folders_differ(
    count: nat,
    media_root: Seq<char>,
    first: int,
    second: int,
)
    requires
        0 <= first < count,
        0 <= second < count,
        first != second,
    ensures
        stage_media_folder(ConversationExportMode::Combined, count, first, media_root)
            != stage_media_folder(ConversationExportMode::Combined, count, second, media_root),
{
    let a = stage_media_folder(ConversationExportMode::Combined, count, first, media_root);
    let b = stage_media_folder(ConversationExportMode::Combined, count, second, media_root);
    let start = media_root.len() + "/conversation-"@.len();
    text::reading_undoes_padding((first + 1) as nat, 4);
    text::reading_undoes_padding((second + 1) as nat, 4);
    if a == b {
        assert(a.skip(start as int) =~= text::padded((first + 1) as nat, 4));
        assert(b.skip(start as int) =~= text::padded((second + 1) as nat, 4));
    }
}

// ---------------------------------------------------------------------------
// A pass over an archive
// ---------------------------------------------------------------------------

/// Every document holds the messages of its chat that the export takes from some
/// items, in order, and no others.
pub open spec fn holds_selected(
    staging: Staging,
    items: Seq<JsonView>,
    days: Seq<CalendarDate>,
) -> bool {
    forall|i: int|
        0 <= i < staging.stages@.len() ==> (#[trigger] staging.stages@[i])@.messages
            == selected_messages(
            items,
            days,
            staging.stages@[i].conversation_id@,
            staging.start_date,
            staging.end_date,
        )
}

/// What becomes of the documents when an item is routed and, where it is taken,
/// added with what was found of its attachments.
pub open spec fn is_step(
    index: ArchiveIndex,
    before: Staging,
    item: JsonView,
    day: CalendarDate,
    sources: Seq<Option<Seq<char>>>,
    after: Staging,
) -> bool {
    exists|route: Route| #[trigger]
        is_routed(before, item, day, route) && match route {
            Route::Take { position } => adds(
                index,
                before,
                position as int,
                item.object_member("chatItem"@)->0,
                sources,
                after,
            ),
            Route::Skip => after == before,
        }
}

/// The documents before the first item, between the items, and after the last.
pub open spec fn is_pass(
    index: ArchiveIndex,
    states: Seq<Staging>,
    items: Seq<JsonView>,
    days: Seq<CalendarDate>,
    sources: Seq<Seq<Option<Seq<char>>>>,
) -> bool {
    &&& states.len() == items.len() + 1
    &&& days.len() == items.len()
    &&& sources.len() == items.len()
    &&& forall|i: int|
        0 <= i < items.len() ==> is_step(
            index,
            states[i],
            #[trigger] items[i],
            days[i],
            sources[i],
            states[i + 1],
        )
}

/// How many of some items are messages that an export of some chats takes.
pub open spec fn selected_count(
    items: Seq<JsonView>,
    days: Seq<CalendarDate>,
    ids: Seq<Seq<char>>,
    start: Option<CalendarDate>,
    end: Option<CalendarDate>,
) -> nat
    decreases items.len(),
{
    if items.len() == 0 {
        0
    } else {
        let before = selected_count(items.drop_last(), days.drop_last(), ids, start, end);
        match archive::chat_of(items.last()) {
            Some(id) => if ids.contains(id) && is_selected(
                items.last(),
                days.last(),
                id,
                start,
                end,
            ) {
                before + 1
            } else {
                before
            },
            None => before,
        }
    }
}

/// Documents without a message hold what an export takes from no items.
pub proof fn empty_documents_hold_no_items(staging: Staging)
    requires
        forall|i: int|
            0 <= i < staging.stages@.len() ==> (#[trigger] staging.stages@[i])@.messages.len() == 0,
    ensures
        holds_selected(staging, Seq::empty(), Seq::empty()),
{
    assert forall|i: int| 0 <= i < staging.stages@.len() implies (
    #[trigger] staging.stages@[i])@.messages == selected_messages(
        Seq::empty(),
        Seq::empty(),
        staging.stages@[i].conversation_id@,
        staging.start_date,
        staging.end_date,
    ) by {
        assert(staging.stages@[i]@.messages =~= Seq::empty());
    }
}

/// Where an item is routed and, where it is taken, added, the documents hold what
/// the export takes from the items up to and with it.
pub proof fn a_step_keeps_the_selection(
    index: ArchiveIndex,
    before: Staging,
    items: Seq<JsonView>,
    days: Seq<CalendarDate>,
    item: JsonView,
    day: CalendarDate,
    sources: Seq<Option<Seq<char>>>,
    after: Staging,
)
    requires
        before.is_well_formed(),
        days.len() == items.len(),
        holds_selected(before, items, days),
        is_step(index, before, item, day, sources, after),
    ensures
        after.is_well_formed(),
        after.start_date == before.start_date,
        after.end_date == before.end_date,
        stage_ids(after.stages@) == stage_ids(before.stages@),
        holds_selected(after, items.push(item), days.push(day)),
{
    let route = choose|route: Route| #[trigger]
        is_routed(before, item, day, route) && match route {
            Route::Take { position } => adds(
                index,
                before,
                position as int,
                item.object_member("chatItem"@)->0,
                sources,
                after,
            ),
            Route::Skip => after == before,
        };
    assert(items.push(item).drop_last() =~= items);
    assert(days.push(day).drop_last() =~= days);
    assert forall|i: int| 0 <= i < after.stages@.len() implies {
        &&& (#[trigger] after.stages@[i]).conversation_id@ == before.stages@[i].conversation_id@
        &&& after.stages@[i]@.messages == selected_messages(
            items.push(item),
            days.push(day),
            after.stages@[i].conversation_id@,
            after.start_date,
            after.end_date,
        )
    } by {
        assert(before.stages@[i]@.messages == selected_messages(
            items,
            days,
            before.stages@[i].conversation_id@,
            before.start_date,
            before.end_date,
        ));
        match route {
            Route::Take { position } => {
                if i == position {
                    assert(after.stages@[i]@.conversation_id == before.stages@[i]@.conversation_id);
                } else if belongs_to(before.stages@, item, i) {
                    a_message_belongs_to_one_document(
                        before.stages@,
                        item,
                        i,
                        position as int,
                    );
                }
            },
            Route::Skip => {
                assert(!belongs_to(before.stages@, item, i) || !is_selected(
                    item,
                    day,
                    before.stages@[i].conversation_id@,
                    before.start_date,
                    before.end_date,
                ));
            },
        }
    }
    assert(stage_ids(after.stages@) =~= stage_ids(before.stages@));
}

/// The sum of the messages that an export takes from some items, chat by chat.
spec fn selected_in_chats(
    items: Seq<JsonView>,
    days: Seq<CalendarDate>,
    ids: Seq<Seq<char>>,
    start: Option<CalendarDate>,
    end: Option<CalendarDate>,
) -> nat
    decreases ids.len(),
{
    if ids.len() == 0 {
        0
    } else {
        selected_in_chats(items, days, ids.drop_last(), start, end) + selected_messages(
            items,
            days,
            ids.last(),
            start,
            end,
        ).len()
    }
}

proof fn lemma_one_more_selected(
    items: Seq<JsonView>,
    days: Seq<CalendarDate>,
    ids: Seq<Seq<char>>,
    start: Option<CalendarDate>,
    end: Option<CalendarDate>,
)
    requires
        items.len() > 0,
        ids.no_duplicates(),
    ensures
        ({
            let before = selected_in_chats(items.drop_last(), days.drop_last(), ids, start, end);
            let chat = archive::chat_of(items.last());
            selected_in_chats(items, days, ids, start, end) == before + if chat is Some
                && ids.contains(chat->0) && is_selected(
                items.last(),
                days.last(),
                chat->0,
                start,
                end,
            ) {
                1nat
            } else {
                0nat
            }
        }),
    decreases ids.len(),
{
    if ids.len() > 0 {
        let rest = ids.drop_last();
        lemma_one_more_selected(items, days, rest, start, end);
        if archive::chat_of(items.last()) is Some {
            let id = archive::chat_of(items.last())->0;
            if rest.contains(id) {
                let k = choose|k: int| 0 <= k < rest.len() && rest[k] == id;
                assert(ids[k] == id);
                assert(ids[ids.len() - 1] != id);
            } else if ids.contains(id) {
                let k = choose|k: int| 0 <= k < ids.len() && ids[k] == id;
                if k < rest.len() {
                    assert(rest[k] == id);
                }
            } else {
                assert(ids[ids.len() - 1] != id);
            }
        }
    }
}

proof fn lemma_selected_in_chats(
    items: Seq<JsonView>,
    days: Seq<CalendarDate>,
    ids: Seq<Seq<char>>,
    start: Option<CalendarDate>,
    end: Option<CalendarDate>,
)
    requires
        ids.no_duplicates(),
    ensures
        selected_in_chats(items, days, ids, start, end) == selected_count(
            items,
            days,
            ids,
            start,
            end,
        ),
    decreases items.len(),
{
    if items.len() == 0 {
        lemma_none_selected(items, days, ids, start, end);
    } else {
        lemma_selected_in_chats(items.drop_last(), days.drop_last(), ids, start, end);
        lemma_one_more_selected(items, days, ids, start, end);
    }
}

proof fn lemma_none_selected(
    items: Seq<JsonView>,
    days: Seq<CalendarDate>,
    ids: Seq<Seq<char>>,
    start: Option<CalendarDate>,
    end: Option<CalendarDate>,
)
    requires
        items.len() == 0,
    ensures
        selected_in_chats(items, days, ids, start, end) == 0,
    decreases ids.len(),
{
    if ids.len() > 0 {
        lemma_none_selected(items, days, ids.drop_last(), start, end);
    }
}

proof fn lemma_sum_of_selected(
    stages: Seq<ConversationStage>,
    items: Seq<JsonView>,
    days: Seq<CalendarDate>,
    start: Option<CalendarDate>,
    end: Option<CalendarDate>,
)
    requires
        forall|i: int|
            0 <= i < stages.len() ==> (#[trigger] stages[i]).is_well_formed()
                && stages[i]@.messages == selected_messages(
                items,
                days,
                stages[i].conversation_id@,
                start,
                end,
            ),
    ensures
        message_sum(stages) == selected_in_chats(items, days, stage_ids(stages), start, end),
    decreases stages.len(),
{
    if stages.len() > 0 {
        let rest = stages.drop_last();
        assert forall|i: int| 0 <= i < rest.len() implies (#[trigger] rest[i]).is_well_formed()
            && rest[i]@.messages == selected_messages(
            items,
            days,
            rest[i].conversation_id@,
            start,
            end,
        ) by {
            assert(rest[i] == stages[i]);
        }
        lemma_sum_of_selected(rest, items, days, start, end);
        assert(stage_ids(stages).drop_last() =~= stage_ids(rest));
        assert(stages[stages.len() - 1].is_well_formed());
        assert(stages.last()@.messages == selected_messages(
            items,
            days,
            stages.last().conversation_id@,
            start,
            end,
        ));
    }
}

/// Where the documents hold what an export takes from some items, the total is the
/// number of messages of their chats that it takes.
pub proof fn the_total_counts_the_selected_messages(
    staging: Staging,
    items: Seq<JsonView>,
    days: Seq<CalendarDate>,
)
    requires
        staging.is_well_formed(),
        holds_selected(staging, items, days),
    ensures
        message_sum(staging.stages@) == selected_count(
            items,
            days,
            stage_ids(staging.stages@),
            staging.start_date,
            staging.end_date,
        ),
{
    let ids = stage_ids(staging.stages@);
    assert forall|i: int| 0 <= i < staging.stages@.len() implies (
    #[trigger] staging.stages@[i]).is_well_formed() && staging.stages@[i]@.messages
        == selected_messages(
        items,
        days,
        staging.stages@[i].conversation_id@,
        staging.start_date,
        staging.end_date,
    ) by {}
    lemma_sum_of_selected(
        staging.stages@,
        items,
        days,
        staging.start_date,
        staging.end_date,
    );
    lemma_selected_in_chats(items, days, ids, staging.start_date, staging.end_date);
}

/// An export drops nothing and adds nothing: after a pass over all items, every
/// document holds the messages of its chat that lie in the range, in order, and
/// the total counts them.
pub proof fn an_export_holds_the_selected_messages(
    index: ArchiveIndex,
    states: Seq<Staging>,
    items: Seq<JsonView>,
    days: Seq<CalendarDate>,
    sources: Seq<Seq<Option<Seq<char>>>>,
)
    requires
        is_pass(index, states, items, days, sources),
        states[0].is_well_formed(),
        holds_selected(states[0], Seq::empty(), Seq::empty()),
    ensures
        states.last().is_well_formed(),
        states.last().start_date == states[0].start_date,
        states.last().end_date == states[0].end_date,
        stage_ids(states.last().stages@) == stage_ids(states[0].stages@),
        holds_selected(states.last(), items, days),
        message_sum(states.last().stages@) == selected_count(
            items,
            days,
            stage_ids(states[0].stages@),
            states[0].start_date,
            states[0].end_date,
        ),
    decreases items.len(),
{
    if items.len() == 0 {
        assert(items =~= Seq::empty());
        assert(days =~= Seq::empty());
    } else {
        let last = items.len() - 1;
        lemma_shorter_pass(index, states, items, days, sources);
        an_export_holds_the_selected_messages(
            index,
            states.drop_last(),
            items.drop_last(),
            days.drop_last(),
            sources.drop_last(),
        );
        assert(states.drop_last().last() == states[last]);
        assert(is_step(index, states[last], items[last], days[last], sources[last], states[last + 1]));
        a_step_keeps_the_selection(
            index,
            states[last],
            items.drop_last(),
            days.drop_last(),
            items[last],
            days[last],
            sources[last],
            states[last + 1],
        );
        assert(items.drop_last().push(items[last]) =~= items);
        assert(days.drop_last().push(days[last]) =~= days);
    }
    the_total_counts_the_selected_messages(states.last(), items, days);
}

pub proof fn lemma_shorter_pass(
    index: ArchiveIndex,
    states: Seq<Staging>,
    items: Seq<JsonView>,
    days: Seq<CalendarDate>,
    sources: Seq<Seq<Option<Seq<char>>>>,
)
    requires
        is_pass(index, states, items, days, sources),
        items.len() > 0,
    ensures
        is_pass(index, states.drop_last(), items.drop_last(), days.drop_last(), sources.drop_last()),
        states.drop_last()[0] == states[0],
{
    let fewer = items.drop_last();
    assert forall|i: int| 0 <= i < fewer.len() implies is_step(
        index,
        states.drop_last()[i],
        #[trigger] fewer[i],
        days.drop_last()[i],
        sources.drop_last()[i],
        states.drop_last()[i + 1],
    ) by {
        assert(is_step(index, states[i], items[i], days[i], sources[i], states[i + 1]));
    }
}

/// Where the range is open, an export takes every message of a chat: those that
/// the index counts.
pub proof fn an_open_range_takes_every_message(
    items: Seq<JsonView>,
    days: Seq<CalendarDate>,
    id: Seq<char>,
)
    ensures
        selected_messages(items, days, id, None, None) == archive::messages_of(items, id),
    decreases items.len(),
{
    if items.len() > 0 {
        an_open_range_takes_every_message(items.drop_last(), days.drop_last(), id);
    }
}

// ---------------------------------------------------------------------------
// Two passes over an archive
// ---------------------------------------------------------------------------

/// The same files were copied and the same were missing, wherever the copies are.
pub open spec fn copies_alike(left: CopierView, right: CopierView) -> bool {
    &&& left.include_media == right.include_media
    &&& left.missing_count == right.missing_count
    &&& left.copied.len() == right.copied.len()
    &&& forall|i: int|
        0 <= i < left.copied.len() ==> (#[trigger] left.copied[i]).source == right.copied[i].source
}

proof fn lemma_known_alike(
    left: Seq<copier::CopiedView>,
    right: Seq<copier::CopiedView>,
    source: Seq<char>,
)
    requires
        left.len() == right.len(),
        forall|i: int| 0 <= i < left.len() ==> (#[trigger] left[i]).source == right[i].source,
    ensures
        copier::path_of_copy(left, source) is Some == copier::path_of_copy(right, source) is Some,
    decreases left.len(),
{
    if left.len() > 0 {
        assert(left[left.len() - 1].source == right[right.len() - 1].source);
        assert forall|i: int| 0 <= i < left.drop_last().len() implies (
        #[trigger] left.drop_last()[i]).source == right.drop_last()[i].source by {
            assert(left[i].source == right[i].source);
        }
        lemma_known_alike(left.drop_last(), right.drop_last(), source);
    }
}

proof fn lemma_attached_alike(
    left: CopierView,
    right: CopierView,
    pointers: Seq<JsonView>,
    sources: Seq<Option<Seq<char>>>,
)
    requires
        copies_alike(left, right),
    ensures
        copies_alike(
            message::attach_all(left, pointers, sources).0,
            message::attach_all(right, pointers, sources).0,
        ),
    decreases pointers.len(),
{
    if pointers.len() > 0 {
        lemma_attached_alike(left, right, pointers.drop_last(), sources.drop_last());
        let a = message::attach_all(left, pointers.drop_last(), sources.drop_last()).0;
        let b = message::attach_all(right, pointers.drop_last(), sources.drop_last()).0;
        if let Some(source) = sources.last() {
            lemma_known_alike(a.copied, b.copied, source);
        }
        let after_a = a.with_attachment(pointers.last(), sources.last());
        let after_b = b.with_attachment(pointers.last(), sources.last());
        assert forall|i: int| 0 <= i < after_a.copied.len() implies (
        #[trigger] after_a.copied[i]).source == after_b.copied[i].source by {
            if i < a.copied.len() {
                assert(after_a.copied[i] == a.copied[i]);
                assert(after_b.copied[i] == b.copied[i]);
            }
        }
    }
}

/// Two exports of the same chats and dates stand at the same point: each document
/// holds the same messages in both, and as many files were copied and missing.
pub open spec fn are_alike(left: Staging, right: Staging) -> bool {
    &&& left.is_well_formed()
    &&& right.is_well_formed()
    &&& left.start_date == right.start_date
    &&& left.end_date == right.end_date
    &&& left.stages@.len() == right.stages@.len()
    &&& forall|i: int|
        0 <= i < left.stages@.len() ==> {
            &&& (#[trigger] left.stages@[i])@.conversation_id == right.stages@[i]@.conversation_id
            &&& left.stages@[i]@.messages == right.stages@[i]@.messages
            &&& copies_alike(left.stages@[i]@.media, right.stages@[i]@.media)
        }
}

/// The place of an item is the same in exports that are alike.
proof fn lemma_same_route(
    left: Staging,
    right: Staging,
    item: JsonView,
    day: CalendarDate,
    left_route: Route,
    right_route: Route,
)
    requires
        are_alike(left, right),
        is_routed(left, item, day, left_route),
        is_routed(right, item, day, right_route),
    ensures
        left_route == right_route,
{
    match (left_route, right_route) {
        (Route::Take { position: first }, Route::Take { position: second }) => {
            assert(left.stages@[second as int]@.conversation_id
                == right.stages@[second as int]@.conversation_id);
            assert(belongs_to(left.stages@, item, second as int));
            a_message_belongs_to_one_document(left.stages@, item, first as int, second as int);
        },
        (Route::Take { position }, Route::Skip) => {
            assert(left.stages@[position as int]@.conversation_id
                == right.stages@[position as int]@.conversation_id);
            assert(belongs_to(right.stages@, item, position as int));
        },
        (Route::Skip, Route::Take { position }) => {
            assert(left.stages@[position as int]@.conversation_id
                == right.stages@[position as int]@.conversation_id);
            assert(belongs_to(left.stages@, item, position as int));
        },
        (Route::Skip, Route::Skip) => {},
    }
}

/// Exports that are alike stay so where both go on with the same item.
proof fn lemma_step_stays_alike(
    index: ArchiveIndex,
    left: Staging,
    right: Staging,
    item: JsonView,
    day: CalendarDate,
    sources: Seq<Option<Seq<char>>>,
    left_after: Staging,
    right_after: Staging,
)
    requires
        are_alike(left, right),
        is_step(index, left, item, day, sources, left_after),
        is_step(index, right, item, day, sources, right_after),
    ensures
        are_alike(left_after, right_after),
{
    let message = item.object_member("chatItem"@)->0;
    let route = choose|route: Route| #[trigger]
        is_routed(left, item, day, route) && match route {
            Route::Take { position } => adds(index, left, position as int, message, sources, left_after),
            Route::Skip => left_after == left,
        };
    let other = choose|route: Route| #[trigger]
        is_routed(right, item, day, route) && match route {
            Route::Take { position } => adds(index, right, position as int, message, sources, right_after),
            Route::Skip => right_after == right,
        };
    lemma_same_route(left, right, item, day, route, other);
    if let Route::Take { position } = route {
        assert forall|i: int| 0 <= i < left_after.stages@.len() implies {
            &&& (#[trigger] left_after.stages@[i])@.conversation_id
                == right_after.stages@[i]@.conversation_id
            &&& left_after.stages@[i]@.messages == right_after.stages@[i]@.messages
            &&& copies_alike(left_after.stages@[i]@.media, right_after.stages@[i]@.media)
        } by {
            assert(left.stages@[i]@.conversation_id == right.stages@[i]@.conversation_id);
            if i == position {
                lemma_attached_alike(
                    left.stages@[i]@.media,
                    right.stages@[i]@.media,
                    message::pointers_of(message),
                    sources,
                );
            } else {
                assert(left_after.stages@[i] == left.stages@[i]);
                assert(right_after.stages@[i] == right.stages@[i]);
            }
        }
    }
}

proof fn lemma_sums_alike(left: Seq<ConversationStage>, right: Seq<ConversationStage>)
    requires
        left.len() == right.len(),
        forall|i: int|
            0 <= i < left.len() ==> (#[trigger] left[i]).is_well_formed()
                && right[i].is_well_formed() && left[i]@.messages == right[i]@.messages
                && copies_alike(left[i]@.media, right[i]@.media),
    ensures
        message_sum(left) == message_sum(right),
        copied_sum(left) == copied_sum(right),
        missing_sum(left) == missing_sum(right),
    decreases left.len(),
{
    if left.len() > 0 {
        let fewer = left.drop_last();
        assert forall|i: int| 0 <= i < fewer.len() implies (#[trigger] fewer[i]).is_well_formed()
            && right.drop_last()[i].is_well_formed() && fewer[i]@.messages
            == right.drop_last()[i]@.messages && copies_alike(
            fewer[i]@.media,
            right.drop_last()[i]@.media,
        ) by {
            assert(fewer[i] == left[i]);
        }
        lemma_sums_alike(fewer, right.drop_last());
        assert(left[left.len() - 1].is_well_formed());
        assert(left.last()@.messages == right.last()@.messages);
    }
}

proof fn lemma_pass_stays_alike(
    index: ArchiveIndex,
    left: Seq<Staging>,
    right: Seq<Staging>,
    items: Seq<JsonView>,
    days: Seq<CalendarDate>,
    sources: Seq<Seq<Option<Seq<char>>>>,
)
    requires
        is_pass(index, left, items, days, sources),
        is_pass(index, right, items, days, sources),
        are_alike(left[0], right[0]),
    ensures
        are_alike(left.last(), right.last()),
    decreases items.len(),
{
    if items.len() > 0 {
        let last = items.len() - 1;
        lemma_shorter_pass(index, left, items, days, sources);
        lemma_shorter_pass(index, right, items, days, sources);
        lemma_pass_stays_alike(
            index,
            left.drop_last(),
            right.drop_last(),
            items.drop_last(),
            days.drop_last(),
            sources.drop_last(),
        );
        assert(is_step(index, left[last], items[last], days[last], sources[last], left[last + 1]));
        assert(is_step(index, right[last], items[last], days[last], sources[last], right[last + 1]));
        lemma_step_stays_alike(
            index,
            left[last],
            right[last],
            items[last],
            days[last],
            sources[last],
            left[last + 1],
            right[last + 1],
        );
    }
}

/// A combined export and one into separate files hold the same: where they take
/// the same chats and dates from the same archive, every document holds the same
/// messages in both, and the totals are the same.
pub proof fn both_modes_export_the_same(
    index: ArchiveIndex,
    combined: MultiExportRequest,
    separate: MultiExportRequest,
    ids: Seq<Seq<char>>,
    combined_files: Seq<Seq<char>>,
    separate_files: Seq<Seq<char>>,
    combined_folder: Seq<char>,
    separate_folder: Seq<char>,
    left: Seq<Staging>,
    right: Seq<Staging>,
    items: Seq<JsonView>,
    days: Seq<CalendarDate>,
    sources: Seq<Seq<Option<Seq<char>>>>,
)
    requires
        combined.start_date == separate.start_date,
        combined.end_date == separate.end_date,
        combined.include_media == separate.include_media,
        is_pass(index, left, items, days, sources),
        is_pass(index, right, items, days, sources),
        left[0].is_well_formed(),
        left[0].is_fresh(index, combined, ids, combined_files, combined_folder),
        right[0].is_well_formed(),
        right[0].is_fresh(index, separate, ids, separate_files, separate_folder),
    ensures
        are_alike(left.last(), right.last()),
        message_sum(left.last().stages@) == message_sum(right.last().stages@),
        copied_sum(left.last().stages@) == copied_sum(right.last().stages@),
        missing_sum(left.last().stages@) == missing_sum(right.last().stages@),
{
    assert forall|i: int| 0 <= i < left[0].stages@.len() implies {
        &&& (#[trigger] left[0].stages@[i])@.conversation_id
            == right[0].stages@[i]@.conversation_id
        &&& left[0].stages@[i]@.messages == right[0].stages@[i]@.messages
        &&& copies_alike(left[0].stages@[i]@.media, right[0].stages@[i]@.media)
    } by {
        assert(right[0].stages@[i]@ == fresh_stage(
            index,
            separate,
            ids,
            separate_files,
            separate_folder,
            i,
        ));
    }
    lemma_pass_stays_alike(index, left, right, items, days, sources);
    let a = left.last().stages@;
    let b = right.last().stages@;
    assert forall|i: int| 0 <= i < a.len() implies (#[trigger] a[i]).is_well_formed()
        && b[i].is_well_formed() && a[i]@.messages == b[i]@.messages && copies_alike(
        a[i]@.media,
        b[i]@.media,
    ) by {
        assert(a[i]@.messages == b[i]@.messages);
        assert(b[i].is_well_formed());
    }
    lemma_sums_alike(a, b);
}

/// Nothing was copied, and nothing is to be.
pub open spec fn copies_nothing(staging: Staging) -> bool {
    forall|i: int|
        0 <= i < staging.stages@.len() ==> !(#[trigger] staging.stages@[i])@.media.include_media
            && staging.stages@[i]@.media.copied.len() == 0
}

proof fn lemma_nothing_attached(
    copier: CopierView,
    pointers: Seq<JsonView>,
    sources: Seq<Option<Seq<char>>>,
)
    requires
        !copier.include_media,
        copier.copied.len() == 0,
    ensures
        !message::attach_all(copier, pointers, sources).0.include_media,
        message::attach_all(copier, pointers, sources).0.copied.len() == 0,
    decreases pointers.len(),
{
    if pointers.len() > 0 {
        lemma_nothing_attached(copier, pointers.drop_last(), sources.drop_last());
    }
}

proof fn lemma_nothing_copied(stages: Seq<ConversationStage>)
    requires
        forall|i: int| 0 <= i < stages.len() ==> (#[trigger] stages[i])@.media.copied.len() == 0,
    ensures
        copied_sum(stages) == 0,
    decreases stages.len(),
{
    if stages.len() > 0 {
        let rest = stages.drop_last();
        assert forall|i: int| 0 <= i < rest.len() implies (#[trigger] rest[i])@.media.copied.len()
            == 0 by {
            assert(rest[i] == stages[i]);
        }
        lemma_nothing_copied(rest);
        assert(stages[stages.len() - 1]@.media.copied.len() == 0);
    }
}

/// An export without media copies no file.
pub proof fn an_export_without_media_copies_nothing(
    index: ArchiveIndex,
    states: Seq<Staging>,
    items: Seq<JsonView>,
    days: Seq<CalendarDate>,
    sources: Seq<Seq<Option<Seq<char>>>>,
)
    requires
        is_pass(index, states, items, days, sources),
        copies_nothing(states[0]),
    ensures
        copies_nothing(states.last()),
        copied_sum(states.last().stages@) == 0,
    decreases items.len(),
{
    if items.len() > 0 {
        let last = items.len() - 1;
        lemma_shorter_pass(index, states, items, days, sources);
        an_export_without_media_copies_nothing(
            index,
            states.drop_last(),
            items.drop_last(),
            days.drop_last(),
            sources.drop_last(),
        );
        let before = states[last];
        let after = states[last + 1];
        let message = items[last].object_member("chatItem"@)->0;
        assert(is_step(index, before, items[last], days[last], sources[last], after));
        assert forall|i: int| 0 <= i < after.stages@.len() implies !(
        #[trigger] after.stages@[i])@.media.include_media && after.stages@[i]@.media.copied.len()
            == 0 by {
            assert(!before.stages@[i]@.media.include_media);
            lemma_nothing_attached(
                before.stages@[i]@.media,
                message::pointers_of(message),
                sources[last],
            );
        }
    }
    lemma_nothing_copied(states.last().stages@);
}

} // verus!
