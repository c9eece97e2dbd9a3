//! What is asked of an export, and whether it can be done.

use vstd::prelude::*;

use crate::calendar::{self, parse_date, range_is_reversed, CalendarDate, LocalTime};
use crate::error::AppError;
use crate::model::{ArchiveIndex, Conversation};
use crate::names::{self, make_unique, media_directory_for_output, slugify};
use crate::names::{validate_output_extension, ExportFormat};
use crate::path::{self, find_file_name, find_parent, find_stem, is_same_place, is_within};
use crate::path::join_path;
use crate::text::{self, contains_text, decimal_text, join3};

verus! {

/// An export of one chat into a new folder.
#[derive(Debug, Clone)]
pub struct ExportRequest {
    pub conversation_id: String,
    pub start_date: Option<CalendarDate>,
    pub end_date: Option<CalendarDate>,
    pub include_media: bool,
    pub format: ExportFormat,
    pub destination: String,
}

/// What came of an export of one chat.
#[derive(Debug, Clone)]
pub struct ExportResult {
    pub output_directory: String,
    pub output_file: String,
    pub messages_exported: u64,
    pub media_copied: u64,
    pub media_missing: u64,
}

#[derive(Debug, Clone, Copy, PartialEq, Eq, Structural)]
pub enum ConversationExportMode {
    Combined,
    Separate,
}

/// An export of several chats into one file or several.
#[derive(Debug, Clone)]
pub struct MultiExportRequest {
    pub conversation_ids: Vec<String>,
    pub start_date: Option<CalendarDate>,
    pub end_date: Option<CalendarDate>,
    pub include_media: bool,
    pub format: ExportFormat,
    pub output_file: String,
    pub mode: ConversationExportMode,
}

/// What came of an export of several chats.
#[derive(Debug, Clone)]
pub struct MultiExportResult {
    pub output_files: Vec<String>,
    pub messages_exported: u64,
    pub media_copied: u64,
    pub media_missing: u64,
}

// ---------------------------------------------------------------------------
// One chat
// ---------------------------------------------------------------------------

/// The chat to export, where the request can be met.
pub fn check_request<'a>(
    index: &'a ArchiveIndex,
    request: &ExportRequest,
    destination_is_folder: bool,
) -> (result: Result<&'a Conversation, AppError>)
    ensures
        match result {
            Ok(conversation) => {
                &&& !calendar::is_reversed(request.start_date, request.end_date)
                &&& destination_is_folder
                &&& index.conversation(request.conversation_id@) == Some(conversation@)
                &&& index.conversations@.contains(*conversation)
            },
            Err(error) => if calendar::is_reversed(request.start_date, request.end_date) {
                error is ReversedDateRange
            } else if !destination_is_folder {
                error is InvalidDestination
            } else {
                error is UnknownConversation && index.conversation(
                    request.conversation_id@,
                ) is None
            },
        },
{
    if range_is_reversed(request.start_date, request.end_date) {
        return Err(AppError::ReversedDateRange);
    }
    if !destination_is_folder {
        return Err(AppError::InvalidDestination);
    }
    match index.find_conversation(request.conversation_id.as_str()) {
        Some(conversation) => Ok(conversation),
        None => Err(AppError::UnknownConversation),
    }
}

/// The name of the folder of an export, before it is told apart from others.
pub open spec fn export_base(conversation_name: Seq<char>, time: LocalTime) -> Seq<char> {
    "signal-chat-"@ + names::chat_slug(conversation_name) + "-"@ + calendar::stamp_text(time)
}

/// The last attempt to find a name for the folder of an export.
pub open spec fn last_attempt() -> nat {
    9999
}

/// The name of the folder of an export, by attempt; the last one is told apart by
/// the number of the process.
pub open spec fn export_name(base: Seq<char>, attempt: nat, process_id: nat) -> Seq<char> {
    if attempt < last_attempt() {
        names::candidate(base, attempt)
    } else {
        base + "-"@ + text::decimal(process_id)
    }
}

/// The name of the folder of an export, by attempt: the caller tries one after
/// the other until a name is free, and takes the last one as it is.
pub fn unique_export_name(
    conversation_name: &str,
    time: &LocalTime,
    attempt: u32,
    process_id: u32,
) -> (name: String)
    ensures
        name@ == export_name(
            export_base(conversation_name@, *time),
            attempt as nat,
            process_id as nat,
        ),
{
    let mut base = join3("signal-chat-", slugify(conversation_name).as_str(), "-");
    base.append(time.to_stamp().as_str());
    if attempt == 0 {
        base
    } else if attempt < 9999 {
        join3(base.as_str(), "-", decimal_text(attempt as u64 + 1).as_str())
    } else {
        join3(base.as_str(), "-", decimal_text(process_id as u64).as_str())
    }
}

/// Whether an attempt is the last one.
pub fn is_last_attempt(attempt: u32) -> (last: bool)
    ensures
        last == (attempt >= last_attempt()),
{
    attempt >= 9999
}

/// The name of the folder in which an export is put together, by attempt.
pub open spec fn staging_text(process_id: nat, nonce: Seq<char>, attempt: nat) -> Seq<char> {
    ".signal-filter-"@ + text::decimal(process_id) + "-"@ + nonce + "-"@ + text::decimal(attempt)
}

/// The name of the folder in which an export is put together, by attempt.
pub fn staging_name(process_id: u32, nonce: &str, attempt: u32) -> (name: String)
    ensures
        name@ == staging_text(process_id as nat, nonce@, attempt as nat),
{
    let mut name = join3(".signal-filter-", decimal_text(process_id as u64).as_str(), "-");
    name.append(nonce);
    name.append("-");
    name.append(decimal_text(attempt as u64).as_str());
    name
}

// ---------------------------------------------------------------------------
// The chats that are selected
// ---------------------------------------------------------------------------

/// Each text once, where it stands first.
pub open spec fn first_occurrences(ids: Seq<Seq<char>>) -> Seq<Seq<char>>
    decreases ids.len(),
{
    if ids.len() == 0 {
        Seq::empty()
    } else {
        let before = first_occurrences(ids.drop_last());
        if before.contains(ids.last()) {
            before
        } else {
            before.push(ids.last())
        }
    }
}

/// Nothing is selected twice, and nothing that was selected is lost.
pub proof fn first_occurrences_hold_each_once(ids: Seq<Seq<char>>)
    ensures
        first_occurrences(ids).no_duplicates(),
        forall|id: Seq<char>| #[trigger] first_occurrences(ids).contains(id) == ids.contains(id),
        first_occurrences(ids).len() <= ids.len(),
    decreases ids.len(),
{
    if ids.len() > 0 {
        let rest = ids.drop_last();
        first_occurrences_hold_each_once(rest);
        let before = first_occurrences(rest);
        let all = first_occurrences(ids);
        assert forall|id: Seq<char>| #[trigger] all.contains(id) == ids.contains(id) by {
            if ids.contains(id) {
                let k = choose|k: int| 0 <= k < ids.len() && ids[k] == id;
                if k < rest.len() {
                    assert(rest[k] == id);
                    assert(before.contains(id));
                    let m = choose|m: int| 0 <= m < before.len() && before[m] == id;
                    assert(all[m] == id);
                } else if !before.contains(id) {
                    assert(all[before.len() as int] == id);
                }
            }
            if all.contains(id) {
                let k = choose|k: int| 0 <= k < all.len() && all[k] == id;
                if k < before.len() {
                    assert(before[k] == id);
                    assert(before.contains(id));
                    assert(rest.contains(id));
                    let m = choose|m: int| 0 <= m < rest.len() && rest[m] == id;
                    assert(ids[m] == id);
                } else {
                    assert(ids[ids.len() - 1] == id);
                }
            }
        }
        assert(all.no_duplicates()) by {
            assert forall|i: int, j: int| 0 <= i < all.len() && 0 <= j < all.len() && i
                != j implies all[i] != all[j] by {
                if i < before.len() && j < before.len() {
                    assert(before[i] != before[j]);
                } else if i < before.len() {
                    assert(before.contains(before[i]));
                } else {
                    assert(before.contains(before[j]));
                }
            }
        }
    }
}

fn distinct_ids(ids: &Vec<String>) -> (distinct: Vec<String>)
    ensures
        text::texts(distinct@) == first_occurrences(text::texts(ids@)),
{
    let ghost all = text::texts(ids@);
    let mut distinct: Vec<String> = Vec::new();
    let mut i: usize = 0;
    assert(text::texts(distinct@) =~= first_occurrences(all.take(0)));
    while i < ids.len()
        invariant
            i <= ids@.len(),
            all == text::texts(ids@),
            text::texts(distinct@) == first_occurrences(all.take(i as int)),
        decreases ids@.len() - i,
    {
        let ghost before = text::texts(distinct@);
        assert(all.take(i as int + 1).drop_last() =~= all.take(i as int));
        assert(all.take(i as int + 1).last() == ids@[i as int]@);
        proof {
            names::lemma_holds_text(distinct@, ids@[i as int]@);
        }
        if !contains_text(&distinct, ids[i].as_str()) {
            distinct.push(ids[i].clone());
            assert(text::texts(distinct@) =~= before.push(ids@[i as int]@));
        }
        i = i + 1;
    }
    assert(all.take(i as int) =~= all);
    distinct
}

// ---------------------------------------------------------------------------
// The files to write
// ---------------------------------------------------------------------------

/// What is wrong with the chats that give separate files their names.
pub enum NameFault {
    UnknownChat,
    BadTimestamp,
}

/// What is wrong with a chat whose name goes into the name of a file.
pub open spec fn name_fault(index: ArchiveIndex, id: Seq<char>, dated: bool) -> Option<NameFault> {
    match index.conversation(id) {
        None => Some(NameFault::UnknownChat),
        Some(conversation) => match conversation.last_timestamp_ms {
            Some(last) => if dated && !calendar::has_local_time(last as int) {
                Some(NameFault::BadTimestamp)
            } else {
                None
            },
            None => None,
        },
    }
}

/// The first chat in whose name something is wrong decides.
pub open spec fn first_name_fault(
    index: ArchiveIndex,
    ids: Seq<Seq<char>>,
    dated: bool,
) -> Option<NameFault>
    decreases ids.len(),
{
    if ids.len() == 0 {
        None
    } else {
        match first_name_fault(index, ids.drop_last(), dated) {
            Some(fault) => Some(fault),
            None => name_fault(index, ids.last(), dated),
        }
    }
}

/// The base name of the file of a chat. Where the chosen name is a date, it is
/// the chat's name and the date of its last message; else the chosen name and
/// the chat's name.
pub open spec fn is_base_name(
    index: ArchiveIndex,
    id: Seq<char>,
    stem: Seq<char>,
    dated: bool,
    base: Seq<char>,
) -> bool {
    &&& index.conversation(id) is Some
    &&& {
        let conversation = index.conversation(id)->0;
        let slug = names::chat_slug(conversation.name);
        if dated {
            match conversation.last_timestamp_ms {
                Some(last) => exists|time: LocalTime| #[trigger]
                    time.shows(last as int) && base == slug + "-"@ + calendar::date_text(time.date),
                None => base == slug + "-"@ + stem,
            }
        } else {
            base == stem + "-"@ + slug
        }
    }
}

/// The path of the file with a name.
pub open spec fn output_path(folder: Seq<char>, name: Seq<char>, format: ExportFormat) -> Seq<char> {
    path::joined(folder, name + "."@ + format.extension_text())
}

/// The chosen name is a date, so that it is no name to put before others.
pub open spec fn is_dated(output_file: Seq<char>) -> bool {
    path::file_stem(output_file) matches Some(stem) && calendar::date_read(stem) is Some
}

/// One file for all the chats: a combined file, or the file of the only chat.
pub open spec fn is_single_file(mode: ConversationExportMode, ids: Seq<Seq<char>>) -> bool {
    mode is Combined || ids.len() == 1
}

/// The folder of a path; the current folder, where it has none.
pub open spec fn folder_of(output_file: Seq<char>) -> Seq<char> {
    match path::parent(output_file) {
        Some(folder) => folder,
        None => "."@,
    }
}

/// The files of an export: the chosen one for a single file; else one for each
/// chat, in the same folder, under names that differ.
pub open spec fn are_output_files(
    index: ArchiveIndex,
    output_file: Seq<char>,
    format: ExportFormat,
    mode: ConversationExportMode,
    ids: Seq<Seq<char>>,
    files: Seq<Seq<char>>,
) -> bool {
    if is_single_file(mode, ids) {
        files == seq![output_file]
    } else {
        exists|bases: Seq<Seq<char>>|
            {
                &&& bases.len() == ids.len()
                &&& path::file_stem(output_file) is Some
                &&& forall|i: int|
                    0 <= i < ids.len() ==> is_base_name(
                        index,
                        ids[i],
                        path::file_stem(output_file)->0,
                        is_dated(output_file),
                        #[trigger] bases[i],
                    )
                &&& files == #[trigger] named_files(output_file, format, bases)
            }
    }
}

/// The files with base names, made to differ.
pub open spec fn named_files(
    output_file: Seq<char>,
    format: ExportFormat,
    bases: Seq<Seq<char>>,
) -> Seq<Seq<char>> {
    names::unique_names(bases).map_values(
        |name: Seq<char>| output_path(folder_of(output_file), name, format),
    )
}

proof fn lemma_joined_has_no_slash(first: Seq<char>, second: Seq<char>)
    requires
        !first.contains('/'),
        !second.contains('/'),
    ensures
        !(first + "-"@ + second).contains('/'),
        (first + "-"@ + second).len() > 0,
{
    reveal_strlit("-");
    let whole = first + "-"@ + second;
    assert forall|i: int| 0 <= i < whole.len() implies #[trigger] whole[i] != '/' by {
        if i < first.len() {
            assert(whole[i] == first[i]);
            assert(first.contains(first[i]));
        } else if i > first.len() {
            assert(whole[i] == second[i - first.len() - 1]);
            assert(second.contains(second[i - first.len() - 1]));
        }
    }
}

fn base_name(index: &ArchiveIndex, id: &str, stem: &str, dated: bool) -> (result: Result<
    String,
    AppError,
>)
    requires
        !stem@.contains('/'),
    ensures
        match result {
            Ok(base) => is_base_name(*index, id@, stem@, dated, base@) && name_fault(
                *index,
                id@,
                dated,
            ) is None && !base@.contains('/') && base@.len() > 0,
            Err(error) => match name_fault(*index, id@, dated) {
                Some(NameFault::UnknownChat) => error is UnknownConversation,
                Some(NameFault::BadTimestamp) => error is InvalidTimestamp,
                None => false,
            },
        },
{
    let conversation = match index.find_conversation(id) {
        Some(conversation) => conversation,
        None => {
            return Err(AppError::UnknownConversation);
        },
    };
    let slug = slugify(conversation.name.as_str());
    if dated {
        match conversation.last_local_datetime() {
            Ok(Some(time)) => {
                assert(time.shows(conversation.last_timestamp_ms->0 as int));
                proof {
                    calendar::lemma_date_text_has_no_slash(time.date);
                    lemma_joined_has_no_slash(slug@, calendar::date_text(time.date));
                }
                Ok(join3(slug.as_str(), "-", time.date.to_text().as_str()))
            },
            Ok(None) => {
                proof {
                    lemma_joined_has_no_slash(slug@, stem@);
                }
                Ok(join3(slug.as_str(), "-", stem))
            },
            Err(error) => Err(error),
        }
    } else {
        proof {
            lemma_joined_has_no_slash(stem@, slug@);
        }
        Ok(join3(stem, "-", slug.as_str()))
    }
}

/// A name is a date as `YYYY-MM-DD`.
pub open spec fn is_written_date(name: Seq<char>) -> bool {
    exists|day: CalendarDate|
        calendar::is_known_date(day) && name == #[trigger] calendar::date_text(day)
}

/// No two of the media folders of some files have the same name.
pub open spec fn media_names_differ(files: Seq<Seq<char>>) -> bool {
    forall|i: int, j: int|
        0 <= i < j < files.len() ==> names::media_folder_name(#[trigger] files[i])
            != names::media_folder_name(#[trigger] files[j])
}

/// The files stand in one folder, under names that differ and that end with the
/// extension of their format.
pub open spec fn share_a_folder(
    folder: Seq<char>,
    format: ExportFormat,
    files: Seq<Seq<char>>,
) -> bool {
    &&& forall|i: int|
        0 <= i < files.len() ==> {
            &&& path::file_name(#[trigger] files[i]) is Some
            &&& path::components(files[i]) == path::components(folder).push(
                path::file_name(files[i])->0,
            )
            &&& names::has_extension(files[i], format)
        }
    &&& forall|i: int, j: int|
        0 <= i < j < files.len() ==> path::file_name(#[trigger] files[i]) != path::file_name(
            #[trigger] files[j],
        )
}

/// The files of an export of some chats. No two of them are the same, nor have
/// two of them media folders of the same name, and all stand in the folder of the
/// chosen file. Where the chosen name is a date,
/// the files are called by the dates of the chats.
pub fn explicit_output_files(
    index: &ArchiveIndex,
    output_file: &str,
    format: ExportFormat,
    mode: ConversationExportMode,
    conversation_ids: &Vec<String>,
) -> (result: Result<Vec<String>, AppError>)
    ensures
        ({
            let ids = text::texts(conversation_ids@);
            match result {
                Ok(files) => are_output_files(
                    *index,
                    output_file@,
                    format,
                    mode,
                    ids,
                    text::texts(files@),
                ) && (!is_single_file(mode, ids) ==> path::file_stem(output_file@) is Some
                    && path::file_stem(output_file@)->0.len() > 0 && first_name_fault(
                    *index,
                    ids,
                    is_dated(output_file@),
                ) is None),
                Err(error) => !is_single_file(mode, ids) && if path::file_stem(output_file@) is None
                    || path::file_stem(output_file@)->0.len() == 0 {
                    error is InvalidOutputFile
                } else {
                    match first_name_fault(*index, ids, is_dated(output_file@)) {
                        Some(NameFault::UnknownChat) => error is UnknownConversation,
                        Some(NameFault::BadTimestamp) => error is InvalidTimestamp,
                        None => false,
                    }
                },
            }
        }),
        result matches Ok(files) ==> text::texts(files@).no_duplicates() && media_names_differ(
            text::texts(files@),
        ),
        result matches Ok(files) ==> !is_single_file(mode, text::texts(conversation_ids@)) || (
        path::file_name(output_file@) is Some && names::has_extension(output_file@, format))
            ==> share_a_folder(folder_of(output_file@), format, text::texts(files@)),
        result matches Ok(files) ==> !is_single_file(mode, text::texts(conversation_ids@))
            && is_written_date(path::file_stem(output_file@)->0) ==> is_dated(output_file@),
{
    let ghost ids = text::texts(conversation_ids@);
    let is_combined = match mode {
        ConversationExportMode::Combined => true,
        ConversationExportMode::Separate => false,
    };
    if is_combined || conversation_ids.len() == 1 {
        let mut files: Vec<String> = Vec::new();
        files.push(output_file.to_owned());
        assert(text::texts(files@) =~= seq![output_file@]);
        proof {
            if path::file_name(output_file@) is Some {
                path::a_file_stands_in_its_folder(output_file@);
            }
        }
        return Ok(files);
    }
    let folder = match find_parent(output_file) {
        Some(folder) => folder,
        None => ".".to_owned(),
    };
    let stem = match find_stem(output_file) {
        Some(stem) => stem,
        None => {
            return Err(AppError::InvalidOutputFile);
        },
    };
    if stem.as_str().is_empty() {
        return Err(AppError::InvalidOutputFile);
    }
    let dated = parse_date(stem.as_str()).is_some();
    proof {
        path::lemma_stem_has_no_slash(output_file@);
    }
    let mut bases: Vec<String> = Vec::new();
    let mut i: usize = 0;
    assert(ids.take(0).len() == 0);
    while i < conversation_ids.len()
        invariant
            i <= conversation_ids@.len(),
            ids == text::texts(conversation_ids@),
            bases@.len() == i,
            first_name_fault(*index, ids.take(i as int), dated) is None,
            !is_single_file(mode, ids),
            path::file_stem(output_file@) == Some(stem@),
            stem@.len() > 0,
            !stem@.contains('/'),
            dated == is_dated(output_file@),
            forall|j: int|
                0 <= j < i ==> is_base_name(*index, ids[j], stem@, dated, (#[trigger] bases@[j])@)
                    && !bases@[j]@.contains('/') && bases@[j]@.len() > 0,
        decreases conversation_ids@.len() - i,
    {
        assert(ids.take(i as int + 1).drop_last() =~= ids.take(i as int));
        assert(ids[i as int] == conversation_ids@[i as int]@);
        match base_name(index, conversation_ids[i].as_str(), stem.as_str(), dated) {
            Ok(base) => {
                bases.push(base);
            },
            Err(error) => {
                proof {
                    lemma_first_name_fault(*index, ids, i as int, dated);
                }
                return Err(error);
            },
        }
        i = i + 1;
    }
    assert(ids.take(i as int) =~= ids);
    let stems = make_unique(&bases);
    let mut files: Vec<String> = Vec::new();
    let mut k: usize = 0;
    while k < stems.len()
        invariant
            k <= stems@.len(),
            files@.len() == k,
            folder@ == folder_of(output_file@),
            forall|j: int|
                0 <= j < k ==> (#[trigger] files@[j])@ == output_path(
                    folder@,
                    stems@[j]@,
                    format,
                ),
        decreases stems@.len() - k,
    {
        let name = join3(stems[k].as_str(), ".", format.extension());
        files.push(join_path(folder.as_str(), name.as_str()));
        k = k + 1;
    }
    proof {
        let all = text::texts(bases@);
        assert(text::texts(files@) =~= named_files(output_file@, format, all));
        assert forall|j: int| 0 <= j < ids.len() implies is_base_name(
            *index,
            ids[j],
            path::file_stem(output_file@)->0,
            is_dated(output_file@),
            #[trigger] all[j],
        ) by {
            assert(all[j] == bases@[j]@);
        }
        assert forall|j: int| 0 <= j < all.len() implies !(#[trigger] all[j]).contains('/')
            && all[j].len() > 0 by {
            assert(all[j] == bases@[j]@);
        }
        separate_files_differ(output_file@, format, all);
        separate_files_share_a_folder(output_file@, format, all);
        assert forall|i: int, j: int| 0 <= i < j < files@.len() implies names::media_folder_name(
            #[trigger] text::texts(files@)[i],
        ) != names::media_folder_name(#[trigger] text::texts(files@)[j]) by {
            separate_media_folders_differ(output_file@, format, all, i, j);
        }
    }
    Ok(files)
}

proof fn lemma_first_name_fault(index: ArchiveIndex, ids: Seq<Seq<char>>, k: int, dated: bool)
    requires
        0 <= k < ids.len(),
        first_name_fault(index, ids.take(k), dated) is None,
        name_fault(index, ids[k], dated) is Some,
    ensures
        first_name_fault(index, ids, dated) == name_fault(index, ids[k], dated),
    decreases ids.len(),
{
    if k == ids.len() - 1 {
        assert(ids.drop_last() =~= ids.take(k));
    } else {
        assert(ids.drop_last().take(k) =~= ids.take(k));
        lemma_first_name_fault(index, ids.drop_last(), k, dated);
    }
}

// ---------------------------------------------------------------------------
// Whether an export can be done
// ---------------------------------------------------------------------------

/// What was found on disk for an export: whether the folder of the chosen file is
/// there, its real path, and the real paths of the archive and its folder.
pub struct Places {
    pub folder_exists: bool,
    pub folder: Option<String>,
    pub source_file: Result<String, std::io::Error>,
    pub export_root: Result<String, std::io::Error>,
}

/// A file in a folder would stand in the archive: in the place of its main file,
/// of its metadata, of its media folder, or inside that folder.
pub open spec fn touches_source(
    folder: Seq<char>,
    name: Seq<char>,
    source_file: Seq<char>,
    export_root: Seq<char>,
) -> bool {
    let candidate = path::joined(folder, name);
    let files_root = path::joined(export_root, "files"@);
    ||| path::same_place(candidate, source_file)
    ||| path::same_place(candidate, path::joined(export_root, "main.jsonl"@))
    ||| path::same_place(candidate, path::joined(export_root, "metadata.json"@))
    ||| path::same_place(candidate, files_root)
    ||| path::lies_within(candidate, files_root)
}

/// An export file must not stand in the archive; its folder is given by its real
/// path, and so are the archive and its folder.
pub fn ensure_output_does_not_touch_source(
    folder: &str,
    output: &str,
    source_file: &str,
    export_root: &str,
) -> (result: Result<(), AppError>)
    ensures
        match (path::file_name(output@), result) {
            (None, Err(error)) => error is InvalidOutputFile,
            (None, Ok(())) => false,
            (Some(name), Ok(())) => !touches_source(folder@, name, source_file@, export_root@),
            (Some(name), Err(error)) => touches_source(folder@, name, source_file@, export_root@)
                && error is ProtectedSourceDestination,
        },
{
    let name = match find_file_name(output) {
        Some(name) => name,
        None => {
            return Err(AppError::InvalidOutputFile);
        },
    };
    let candidate = join_path(folder, name.as_str());
    let files_root = join_path(export_root, "files");
    if is_same_place(candidate.as_str(), source_file) || is_same_place(
        candidate.as_str(),
        join_path(export_root, "main.jsonl").as_str(),
    ) || is_same_place(candidate.as_str(), join_path(export_root, "metadata.json").as_str())
        || is_same_place(candidate.as_str(), files_root.as_str()) || is_within(
        candidate.as_str(),
        files_root.as_str(),
    ) {
        Err(AppError::ProtectedSourceDestination)
    } else {
        Ok(())
    }
}

/// An export that can be done: the chats, the files, and the media folder of each
/// file.
pub struct ExportPlan {
    pub conversation_ids: Vec<String>,
    pub output_files: Vec<String>,
    pub media_folders: Vec<String>,
}

/// Why an export is refused before its files are named.
pub enum Refusal {
    NothingSelected,
    ReversedDates,
    NoFolder,
    NoFileName,
    NoSource(std::io::Error),
    Protected,
    WrongExtension,
}

/// Why an export is refused before its files are named: the first reason that
/// holds.
pub open spec fn refusal(request: MultiExportRequest, places: Places) -> Option<Refusal> {
    let name = path::file_name(request.output_file@);
    if request.conversation_ids@.len() == 0 {
        Some(Refusal::NothingSelected)
    } else if calendar::is_reversed(request.start_date, request.end_date) {
        Some(Refusal::ReversedDates)
    } else if !places.folder_exists {
        Some(Refusal::NoFolder)
    } else if name is None {
        Some(Refusal::NoFileName)
    } else if places.folder is None {
        Some(Refusal::NoFolder)
    } else if places.source_file is Err {
        Some(Refusal::NoSource(places.source_file->Err_0))
    } else if places.export_root is Err {
        Some(Refusal::NoSource(places.export_root->Err_0))
    } else if touches_source(
        places.folder->0@,
        name->0,
        places.source_file->Ok_0@,
        places.export_root->Ok_0@,
    ) {
        Some(Refusal::Protected)
    } else if !names::has_extension(request.output_file@, request.format) {
        Some(Refusal::WrongExtension)
    } else {
        None
    }
}

/// The error for a refusal.
pub open spec fn is_refusal_error(reason: Refusal, error: AppError) -> bool {
    match reason {
        Refusal::NothingSelected => error is NoConversationsSelected,
        Refusal::ReversedDates => error is ReversedDateRange,
        Refusal::NoFolder => error is InvalidDestination,
        Refusal::NoFileName => error is InvalidOutputFile,
        Refusal::NoSource(cause) => error == AppError::OpenSource(cause),
        Refusal::Protected => error is ProtectedSourceDestination,
        Refusal::WrongExtension => error is OutputExtensionMismatch,
    }
}

/// A file of the export can be written: it does not stand in the archive.
pub open spec fn file_is_allowed(file: Seq<char>, places: Places) -> bool {
    path::file_name(file) is Some && !touches_source(
        places.folder->0@,
        path::file_name(file)->0,
        places.source_file->Ok_0@,
        places.export_root->Ok_0@,
    )
}

/// The media folder of a file stands beside it.
pub open spec fn is_media_folder(file: Seq<char>, folder: Seq<char>) -> bool {
    match names::media_folder_name(file) {
        Some(name) => folder == path::with_name(file, name),
        None => false,
    }
}

/// The media folders stand beside the files.
pub open spec fn are_media_folders(files: Seq<Seq<char>>, folders: Seq<Seq<char>>) -> bool {
    &&& folders.len() == files.len()
    &&& forall|i: int| 0 <= i < files.len() ==> is_media_folder(files[i], #[trigger] folders[i])
}

proof fn lemma_first_occurrences_empty(ids: Seq<Seq<char>>)
    ensures
        first_occurrences(ids).len() == 0 <==> ids.len() == 0,
{
    first_occurrences_hold_each_once(ids);
    if ids.len() > 0 {
        assert(ids.contains(ids[0]));
        assert(first_occurrences(ids).contains(ids[0]));
    }
}

/// What there is to write, or why nothing is.
pub open spec fn is_plan_result(
    index: ArchiveIndex,
    request: MultiExportRequest,
    places: Places,
    result: Result<ExportPlan, AppError>,
) -> bool {
    let ids = first_occurrences(text::texts(request.conversation_ids@));
    let dated = is_dated(request.output_file@);
    match result {
        Ok(plan) => {
            &&& refusal(request, places) is None
            &&& text::texts(plan.conversation_ids@) == ids
            &&& are_output_files(
                index,
                request.output_file@,
                request.format,
                request.mode,
                ids,
                text::texts(plan.output_files@),
            )
            &&& !is_single_file(request.mode, ids) ==> first_name_fault(
                index,
                ids,
                dated,
            ) is None
            &&& forall|i: int|
                0 <= i < plan.output_files@.len() ==> file_is_allowed(
                    (#[trigger] plan.output_files@[i])@,
                    places,
                )
            &&& are_media_folders(
                text::texts(plan.output_files@),
                text::texts(plan.media_folders@),
            )
            &&& text::texts(plan.output_files@).no_duplicates()
            &&& text::texts(plan.media_folders@).no_duplicates()
            &&& share_a_folder(
                folder_of(request.output_file@),
                request.format,
                text::texts(plan.output_files@),
            )
            &&& media_names_differ(text::texts(plan.output_files@))
            &&& !is_single_file(request.mode, ids) && is_written_date(
                path::file_stem(request.output_file@)->0,
            ) ==> dated
        },
        Err(error) => match refusal(request, places) {
            Some(reason) => is_refusal_error(reason, error),
            None => !is_single_file(request.mode, ids) && match first_name_fault(
                index,
                ids,
                dated,
            ) {
                Some(NameFault::UnknownChat) => error is UnknownConversation,
                Some(NameFault::BadTimestamp) => error is InvalidTimestamp,
                None => exists|files: Seq<Seq<char>>| #[trigger]
                    are_output_files(
                        index,
                        request.output_file@,
                        request.format,
                        request.mode,
                        ids,
                        files,
                    ) && is_file_error(files, places, error),
            },
        },
    }
}

/// Whether an export can be done, and what then to write.
pub fn plan_export(index: &ArchiveIndex, request: &MultiExportRequest, places: Places) -> (result:
    Result<ExportPlan, AppError>)
    ensures
        is_plan_result(*index, *request, places, result),
{
    let ghost given = text::texts(request.conversation_ids@);
    let conversation_ids = distinct_ids(&request.conversation_ids);
    let ghost ids = text::texts(conversation_ids@);
    proof {
        lemma_first_occurrences_empty(given);
        assert(given.len() == request.conversation_ids@.len());
        assert(ids.len() == conversation_ids@.len());
    }
    if conversation_ids.len() == 0 {
        return Err(AppError::NoConversationsSelected);
    }
    if range_is_reversed(request.start_date, request.end_date) {
        return Err(AppError::ReversedDateRange);
    }
    if !places.folder_exists {
        return Err(AppError::InvalidDestination);
    }
    if find_file_name(request.output_file.as_str()).is_none() {
        return Err(AppError::InvalidOutputFile);
    }
    let folder = match places.folder {
        Some(folder) => folder,
        None => {
            return Err(AppError::InvalidDestination);
        },
    };
    let source_file = match places.source_file {
        Ok(source_file) => source_file,
        Err(error) => {
            return Err(AppError::OpenSource(error));
        },
    };
    let export_root = match places.export_root {
        Ok(export_root) => export_root,
        Err(error) => {
            return Err(AppError::OpenSource(error));
        },
    };
    if let Err(error) = ensure_output_does_not_touch_source(
        folder.as_str(),
        request.output_file.as_str(),
        source_file.as_str(),
        export_root.as_str(),
    ) {
        return Err(error);
    }
    if let Err(error) = validate_output_extension(request.output_file.as_str(), request.format) {
        return Err(error);
    }
    proof {
        lemma_name_means_stem(request.output_file@);
    }
    let output_files = match explicit_output_files(
        index,
        request.output_file.as_str(),
        request.format,
        request.mode,
        &conversation_ids,
    ) {
        Ok(files) => files,
        Err(error) => {
            return Err(error);
        },
    };
    let ghost files = text::texts(output_files@);
    let mut i: usize = 0;
    while i < output_files.len()
        invariant
            i <= output_files@.len(),
            files == text::texts(output_files@),
            places.folder is Some,
            places.source_file is Ok,
            places.export_root is Ok,
            folder@ == places.folder->0@,
            source_file@ == places.source_file->Ok_0@,
            export_root@ == places.export_root->Ok_0@,
            ids == first_occurrences(text::texts(request.conversation_ids@)),
            refusal(*request, places) is None,
            are_output_files(
                *index,
                request.output_file@,
                request.format,
                request.mode,
                ids,
                files,
            ),
            !is_single_file(request.mode, ids) ==> first_name_fault(
                *index,
                ids,
                is_dated(request.output_file@),
            ) is None,
            files.no_duplicates(),
            media_names_differ(files),
            share_a_folder(folder_of(request.output_file@), request.format, files),
            forall|j: int|
                0 <= j < i ==> file_is_allowed((#[trigger] output_files@[j])@, places),
        decreases output_files@.len() - i,
    {
        assert(files[i as int] == output_files@[i as int]@);
        if let Err(error) = ensure_output_does_not_touch_source(
            folder.as_str(),
            output_files[i].as_str(),
            source_file.as_str(),
            export_root.as_str(),
        ) {
            proof {
                assert(is_file_error_at(files, places, i as int, error));
            }
            return Err(error);
        }
        i = i + 1;
    }
    let mut media_folders: Vec<String> = Vec::new();
    let mut k: usize = 0;
    while k < output_files.len()
        invariant
            k <= output_files@.len(),
            files == text::texts(output_files@),
            media_folders@.len() == k,
            ids == first_occurrences(text::texts(request.conversation_ids@)),
            refusal(*request, places) is None,
            are_output_files(
                *index,
                request.output_file@,
                request.format,
                request.mode,
                ids,
                files,
            ),
            !is_single_file(request.mode, ids) ==> first_name_fault(
                *index,
                ids,
                is_dated(request.output_file@),
            ) is None,
            files.no_duplicates(),
            media_names_differ(files),
            share_a_folder(folder_of(request.output_file@), request.format, files),
            forall|j: int|
                0 <= j < files.len() ==> file_is_allowed(#[trigger] files[j], places),
            forall|j: int|
                0 <= j < k ==> is_media_folder(files[j], (#[trigger] media_folders@[j])@),
        decreases output_files@.len() - k,
    {
        assert(files[k as int] == output_files@[k as int]@);
        assert(file_is_allowed(files[k as int], places));
        proof {
            lemma_name_means_stem(files[k as int]);
        }
        match media_directory_for_output(output_files[k].as_str()) {
            Ok(beside) => {
                media_folders.push(beside);
            },
            Err(error) => {
                return Err(error);
            },
        }
        k = k + 1;
    }
    assert forall|j: int| 0 <= j < output_files@.len() implies file_is_allowed(
        (#[trigger] output_files@[j])@,
        places,
    ) by {
        assert(files[j] == output_files@[j]@);
    }
    assert forall|j: int| 0 <= j < files.len() implies is_media_folder(
        files[j],
        #[trigger] text::texts(media_folders@)[j],
    ) by {
        assert(text::texts(media_folders@)[j] == media_folders@[j]@);
    }
    proof {
        lemma_media_folders_differ(files, text::texts(media_folders@));
    }
    Ok(ExportPlan { conversation_ids, output_files, media_folders })
}

/// The first file that cannot be written decides the error.
pub open spec fn is_file_error_at(
    files: Seq<Seq<char>>,
    places: Places,
    k: int,
    error: AppError,
) -> bool {
    &&& 0 <= k < files.len()
    &&& forall|j: int| 0 <= j < k ==> file_is_allowed(#[trigger] files[j], places)
    &&& !file_is_allowed(files[k], places)
    &&& if path::file_name(files[k]) is None {
        error is InvalidOutputFile
    } else {
        error is ProtectedSourceDestination
    }
}

/// A file cannot be written, and the error says why.
pub open spec fn is_file_error(files: Seq<Seq<char>>, places: Places, error: AppError) -> bool {
    exists|k: int| #[trigger] is_file_error_at(files, places, k, error)
}

/// A path with a name has a stem that is not empty.
proof fn lemma_name_means_stem(file: Seq<char>)
    requires
        path::file_name(file) is Some,
    ensures
        path::file_stem(file) is Some,
        path::file_stem(file)->0.len() > 0,
        names::media_folder_name(file) is Some,
{
    path::lemma_stem_is_not_empty(file);
}

/// The name of a media folder is the file name of its path.
pub proof fn lemma_media_folder_path(file: Seq<char>)
    requires
        names::media_folder_name(file) is Some,
    ensures
        ({
            let name = names::media_folder_name(file)->0;
            let folder = path::with_name(file, name);
            &&& path::file_name(folder) == Some(name)
            &&& path::components(folder) == path::components(path::parent(file)->0).push(name)
        }),
{
    reveal_strlit("-media");
    path::lemma_stem_has_no_slash(file);
    let stem = path::file_stem(file)->0;
    let name = names::media_folder_name(file)->0;
    assert forall|i: int| 0 <= i < name.len() implies #[trigger] name[i] != '/' by {
        if i < stem.len() {
            assert(name[i] == stem[i]);
            assert(stem.contains(stem[i]));
        } else {
            assert(name[i] == "-media"@[i - stem.len()]);
        }
    }
    assert(name.len() > 6);
    path::a_joined_name_stays_inside_its_folder(path::parent(file)->0, name);
}

proof fn lemma_media_folders_differ(files: Seq<Seq<char>>, folders: Seq<Seq<char>>)
    requires
        are_media_folders(files, folders),
        media_names_differ(files),
    ensures
        folders.no_duplicates(),
{
    assert forall|i: int, j: int| 0 <= i < j < folders.len() implies folders[i] != folders[j] by {
        assert(is_media_folder(files[i], folders[i]));
        assert(is_media_folder(files[j], folders[j]));
        lemma_media_folder_path(files[i]);
        lemma_media_folder_path(files[j]);
    }
}

// ---------------------------------------------------------------------------
// Laws
// ---------------------------------------------------------------------------

/// A list in which every id stands once holds each where it stood first.
pub proof fn distinct_ids_stay(ids: Seq<Seq<char>>)
    requires
        ids.no_duplicates(),
    ensures
        first_occurrences(ids) == ids,
    decreases ids.len(),
{
    if ids.len() == 0 {
        assert(first_occurrences(ids) =~= ids);
    } else {
        let rest = ids.drop_last();
        distinct_ids_stay(rest);
        assert(!rest.contains(ids.last())) by {
            if rest.contains(ids.last()) {
                let k = choose|k: int| 0 <= k < rest.len() && rest[k] == ids.last();
                assert(ids[k] == ids[ids.len() - 1]);
            }
        }
        assert(rest.push(ids.last()) =~= ids);
    }
}

/// Ids that stand in the list more than once say nothing: a request with them and
/// one in which each id stands only where it stood first are refused alike, and
/// have the same plans and errors.
pub proof fn repeated_ids_say_nothing(
    index: ArchiveIndex,
    request: MultiExportRequest,
    other: MultiExportRequest,
    places: Places,
    result: Result<ExportPlan, AppError>,
)
    requires
        text::texts(other.conversation_ids@) == first_occurrences(
            text::texts(request.conversation_ids@),
        ),
        other.start_date == request.start_date,
        other.end_date == request.end_date,
        other.include_media == request.include_media,
        other.format == request.format,
        other.output_file@ == request.output_file@,
        other.mode == request.mode,
    ensures
        first_occurrences(text::texts(other.conversation_ids@)) == first_occurrences(
            text::texts(request.conversation_ids@),
        ),
        refusal(other, places) == refusal(request, places),
        is_plan_result(index, other, places, result) == is_plan_result(
            index,
            request,
            places,
            result,
        ),
{
    let ids = text::texts(request.conversation_ids@);
    first_occurrences_hold_each_once(ids);
    distinct_ids_stay(first_occurrences(ids));
    lemma_first_occurrences_empty(ids);
    assert(ids.len() == request.conversation_ids@.len());
    assert(text::texts(other.conversation_ids@).len() == other.conversation_ids@.len());
}

/// An empty list of ids is refused before anything else is looked at, and for that
/// reason nothing else is.
pub proof fn only_an_empty_selection_selects_nothing(
    index: ArchiveIndex,
    request: MultiExportRequest,
    places: Places,
    result: Result<ExportPlan, AppError>,
)
    requires
        is_plan_result(index, request, places, result),
    ensures
        (result is Err && result->Err_0 is NoConversationsSelected)
            == (request.conversation_ids@.len() == 0),
{
}

/// The name suggested for several files is a date, so that the files are called
/// by the dates of the chats.
pub proof fn the_name_suggested_for_several_files_is_a_date(
    folder: Seq<char>,
    selected_count: nat,
    single_name: Option<Seq<char>>,
    last_date: CalendarDate,
    format: ExportFormat,
)
    requires
        selected_count != 1,
        calendar::is_known_date(last_date),
    ensures
        ({
            let name = names::default_filename(selected_count, single_name, last_date, true, format);
            let stem = path::file_stem(path::joined(folder, name));
            stem == Some(calendar::date_text(last_date)) && is_written_date(stem->0)
        }),
{
    let date = calendar::date_text(last_date);
    calendar::lemma_date_text_has_no_slash(last_date);
    lemma_stem_of_output(folder, date, format);
}

proof fn lemma_candidate_has_no_slash(base: Seq<char>, attempt: nat)
    requires
        !base.contains('/'),
    ensures
        !names::candidate(base, attempt).contains('/'),
{
    if attempt > 0 {
        reveal_strlit("-");
        let digits = text::decimal(attempt + 1);
        text::reading_undoes_writing(attempt + 1);
        text::a_value_is_made_of_digits(digits);
        let name = names::candidate(base, attempt);
        assert forall|i: int| 0 <= i < name.len() implies #[trigger] name[i] != '/' by {
            if i < base.len() {
                assert(name[i] == base[i]);
                assert(base.contains(base[i]));
            } else if i > base.len() {
                assert(name[i] == digits[i - base.len() - 1]);
                assert(text::is_digit(digits[i - base.len() - 1]));
            }
        }
    }
}

proof fn lemma_free_candidate_is_candidate(base: Seq<char>, used: Seq<Seq<char>>, attempt: nat)
    ensures
        exists|k: nat| names::free_candidate(base, used, attempt) == #[trigger] names::candidate(
            base,
            k,
        ),
    decreases used.len() - attempt,
{
    if attempt < used.len() && used.contains(names::candidate(base, attempt)) {
        lemma_free_candidate_is_candidate(base, used, attempt + 1);
    } else {
        assert(names::free_candidate(base, used, attempt) == names::candidate(base, attempt));
    }
}

proof fn lemma_unique_names_have_no_slash(bases: Seq<Seq<char>>)
    requires
        forall|i: int| 0 <= i < bases.len() ==> !(#[trigger] bases[i]).contains('/'),
    ensures
        forall|i: int|
            0 <= i < names::unique_names(bases).len() ==> !(#[trigger] names::unique_names(
                bases,
            )[i]).contains('/'),
    decreases bases.len(),
{
    if bases.len() > 0 {
        let rest = bases.drop_last();
        assert forall|i: int| 0 <= i < rest.len() implies !(#[trigger] rest[i]).contains('/') by {
            assert(rest[i] == bases[i]);
        }
        lemma_unique_names_have_no_slash(rest);
        let used = names::unique_names(rest);
        lemma_free_candidate_is_candidate(bases.last(), used, 0);
        let k = choose|k: nat|
            names::free_candidate(bases.last(), used, 0) == #[trigger] names::candidate(
                bases.last(),
                k,
            );
        assert(bases.last() == bases[bases.len() - 1]);
        lemma_candidate_has_no_slash(bases.last(), k);
        assert forall|i: int| 0 <= i < names::unique_names(bases).len() implies !(
        #[trigger] names::unique_names(bases)[i]).contains('/') by {
            if i < used.len() {
                assert(names::unique_names(bases)[i] == used[i]);
            }
        }
    }
}

/// No two chats are written to the same file.
pub proof fn separate_files_differ(
    output_file: Seq<char>,
    format: ExportFormat,
    bases: Seq<Seq<char>>,
)
    requires
        forall|i: int| 0 <= i < bases.len() ==> !(#[trigger] bases[i]).contains('/'),
    ensures
        named_files(output_file, format, bases).no_duplicates(),
        named_files(output_file, format, bases).len() == bases.len(),
{
    let stems = names::unique_names(bases);
    let files = named_files(output_file, format, bases);
    let folder = folder_of(output_file);
    let suffix = "."@ + format.extension_text();
    names::unique_names_differ(bases);
    lemma_unique_names_have_no_slash(bases);
    reveal_strlit(".");
    assert forall|i: int, j: int| 0 <= i < files.len() && 0 <= j < files.len() && i
        != j implies files[i] != files[j] by {
        let a = stems[i] + "."@ + format.extension_text();
        let b = stems[j] + "."@ + format.extension_text();
        assert(!path::is_rooted(a)) by {
            if stems[i].len() > 0 {
                assert(a[0] == stems[i][0]);
                assert(stems[i].contains(stems[i][0]));
            } else {
                assert(a[0] == '.');
            }
        }
        assert(!path::is_rooted(b)) by {
            if stems[j].len() > 0 {
                assert(b[0] == stems[j][0]);
                assert(stems[j].contains(stems[j][0]));
            } else {
                assert(b[0] == '.');
            }
        }
        assert(stems[i] != stems[j]);
        assert(a =~= stems[i] + suffix);
        assert(b =~= stems[j] + suffix);
        if files[i] == files[j] {
            path::lemma_joined_names(folder, a, b);
            assert(a == b);
            assert(a.len() == stems[i].len() + suffix.len());
            assert(stems[i] =~= a.take(stems[i].len() as int));
            assert(stems[j] =~= b.take(stems[j].len() as int));
        }
    }
}

proof fn lemma_stem_of_output(folder: Seq<char>, name: Seq<char>, format: ExportFormat)
    requires
        name.len() > 0,
        !name.contains('/'),
    ensures
        ({
            let file = output_path(folder, name, format);
            let whole = name + "."@ + format.extension_text();
            &&& path::file_stem(file) == Some(name)
            &&& path::file_name(file) == Some(whole)
            &&& path::components(file) == path::components(folder).push(whole)
            &&& names::has_extension(file, format)
        }),
{
    let extension = format.extension_text();
    let whole = name + "."@ + extension;
    reveal_strlit(".");
    reveal_strlit("md");
    reveal_strlit("json");
    assert(forall|i: int|
        0 <= i < extension.len() ==> #[trigger] extension[i] != '/' && extension[i] != '.');
    assert forall|i: int| 0 <= i < whole.len() implies #[trigger] whole[i] != '/' by {
        if i < name.len() {
            assert(whole[i] == name[i]);
            assert(name.contains(name[i]));
        } else if i > name.len() {
            assert(whole[i] == extension[i - name.len() - 1]);
        }
    }
    assert(whole.len() > 2);
    path::a_joined_name_stays_inside_its_folder(folder, whole);
    path::lemma_last_dot(whole);
    assert(whole[name.len() as int] == '.');
    assert forall|i: int| name.len() < i < whole.len() implies #[trigger] whole[i] != '.' by {
        assert(whole[i] == extension[i - name.len() - 1]);
    }
    assert(path::last_dot(whole) == name.len());
    assert(whole.take(name.len() as int) =~= name);
    assert(whole.skip(name.len() as int + 1) =~= extension);
}

/// The files of separate chats stand in the folder of the chosen file, each under
/// a name of its own.
pub proof fn separate_files_share_a_folder(
    output_file: Seq<char>,
    format: ExportFormat,
    bases: Seq<Seq<char>>,
)
    requires
        forall|i: int|
            0 <= i < bases.len() ==> (#[trigger] bases[i]).len() > 0 && !bases[i].contains('/'),
    ensures
        share_a_folder(folder_of(output_file), format, named_files(output_file, format, bases)),
{
    let stems = names::unique_names(bases);
    let files = named_files(output_file, format, bases);
    let folder = folder_of(output_file);
    names::unique_names_differ(bases);
    lemma_unique_names_have_no_slash(bases);
    lemma_unique_names_are_not_empty(bases);
    assert forall|i: int| 0 <= i < files.len() implies {
        &&& path::file_name(#[trigger] files[i]) is Some
        &&& path::components(files[i]) == path::components(folder).push(
            path::file_name(files[i])->0,
        )
        &&& names::has_extension(files[i], format)
    } by {
        lemma_stem_of_output(folder, stems[i], format);
    }
    assert forall|i: int, j: int| 0 <= i < j < files.len() implies path::file_name(
        #[trigger] files[i],
    ) != path::file_name(#[trigger] files[j]) by {
        lemma_stem_of_output(folder, stems[i], format);
        lemma_stem_of_output(folder, stems[j], format);
        assert(stems[i] != stems[j]);
        assert(path::file_stem(files[i]) != path::file_stem(files[j]));
    }
}

/// No two chats share a media folder.
pub proof fn separate_media_folders_differ(
    output_file: Seq<char>,
    format: ExportFormat,
    bases: Seq<Seq<char>>,
    first: int,
    second: int,
)
    requires
        forall|i: int|
            0 <= i < bases.len() ==> (#[trigger] bases[i]).len() > 0 && !bases[i].contains('/'),
        0 <= first < second < bases.len(),
    ensures
        ({
            let files = named_files(output_file, format, bases);
            &&& names::media_folder_name(files[first]) is Some
            &&& names::media_folder_name(files[second]) is Some
            &&& names::media_folder_name(files[first]) != names::media_folder_name(files[second])
        }),
{
    let stems = names::unique_names(bases);
    let folder = folder_of(output_file);
    names::unique_names_differ(bases);
    lemma_unique_names_have_no_slash(bases);
    lemma_unique_names_are_not_empty(bases);
    assert(!stems[first].contains('/') && !stems[second].contains('/'));
    assert(stems[first].len() > 0 && stems[second].len() > 0);
    lemma_stem_of_output(folder, stems[first], format);
    lemma_stem_of_output(folder, stems[second], format);
    let a = stems[first] + "-media"@;
    let b = stems[second] + "-media"@;
    if a == b {
        assert(stems[first] =~= a.take(a.len() - "-media"@.len()));
        assert(stems[second] =~= b.take(b.len() - "-media"@.len()));
    }
}

proof fn lemma_unique_names_are_not_empty(bases: Seq<Seq<char>>)
    requires
        forall|i: int| 0 <= i < bases.len() ==> (#[trigger] bases[i]).len() > 0,
    ensures
        forall|i: int|
            0 <= i < names::unique_names(bases).len() ==> (#[trigger] names::unique_names(
                bases,
            )[i]).len() > 0,
    decreases bases.len(),
{
    if bases.len() > 0 {
        let rest = bases.drop_last();
        assert forall|i: int| 0 <= i < rest.len() implies (#[trigger] rest[i]).len() > 0 by {
            assert(rest[i] == bases[i]);
        }
        lemma_unique_names_are_not_empty(rest);
        let used = names::unique_names(rest);
        lemma_free_candidate_is_candidate(bases.last(), used, 0);
        assert(bases.last() == bases[bases.len() - 1]);
        assert forall|i: int| 0 <= i < names::unique_names(bases).len() implies (
        #[trigger] names::unique_names(bases)[i]).len() > 0 by {
            if i < used.len() {
                assert(names::unique_names(bases)[i] == used[i]);
            }
        }
    }
}

} // verus!
