//! What an export will write, and when it is refused.

use vstd::prelude::*;

use crate::calendar::{self, LocalTime};
use crate::error::AppError;
use crate::model::ArchiveIndex;
use crate::names::{self, ExportFormat};
use crate::path;
use crate::plan::{
    self, ConversationExportMode, ExportPlan, MultiExportRequest, NameFault, Places, Refusal,
};
use crate::text;

verus! {

// ---------------------------------------------------------------------------
// Refusals
// ---------------------------------------------------------------------------

/// A request that nothing is wrong with is not refused; what is wrong is told, the
/// selection first, then the dates, the folder, the name, the archive, the place and
/// the extension.
pub proof fn a_request_is_refused_for_its_first_fault(request: MultiExportRequest, places: Places)
    ensures
        ({
            let told = plan::refusal(request, places);
            let name = path::file_name(request.output_file@);
            let chosen = request.conversation_ids@.len() > 0;
            let dated = chosen && !calendar::is_reversed(request.start_date, request.end_date);
            let placed = dated && places.folder_exists;
            let named = placed && name is Some && places.folder is Some;
            let sourced = named && places.source_file is Ok && places.export_root is Ok;
            let outside = sourced && !plan::touches_source(
                places.folder->0@,
                name->0,
                places.source_file->Ok_0@,
                places.export_root->Ok_0@,
            );
            &&& told is None <==> outside && names::has_extension(
                request.output_file@,
                request.format,
            )
            &&& !chosen <==> told == Some(Refusal::NothingSelected)
            &&& chosen && !dated <==> told == Some(Refusal::ReversedDates)
            &&& dated && !places.folder_exists ==> told == Some(Refusal::NoFolder)
            &&& placed && name is None <==> told == Some(Refusal::NoFileName)
            &&& placed && name is Some && places.folder is None ==> told == Some(
                Refusal::NoFolder,
            )
            &&& named && places.source_file is Err ==> told == Some(
                Refusal::NoSource(places.source_file->Err_0),
            )
            &&& named && places.source_file is Ok && places.export_root is Err ==> told == Some(
                Refusal::NoSource(places.export_root->Err_0),
            )
            &&& sourced && !outside <==> told == Some(Refusal::Protected)
            &&& outside && !names::has_extension(request.output_file@, request.format)
                <==> told == Some(Refusal::WrongExtension)
        }),
{
}

/// Each refusal has an error of its own.
pub proof fn each_refusal_has_its_error(cause: std::io::Error, error: AppError)
    ensures
        plan::is_refusal_error(Refusal::NothingSelected, error) <==> error
            == AppError::NoConversationsSelected,
        plan::is_refusal_error(Refusal::ReversedDates, error) <==> error
            == AppError::ReversedDateRange,
        plan::is_refusal_error(Refusal::NoFolder, error) <==> error
            == AppError::InvalidDestination,
        plan::is_refusal_error(Refusal::NoFileName, error) <==> error
            == AppError::InvalidOutputFile,
        plan::is_refusal_error(Refusal::NoSource(cause), error) <==> error
            == AppError::OpenSource(cause),
        plan::is_refusal_error(Refusal::Protected, error) <==> error
            == AppError::ProtectedSourceDestination,
        plan::is_refusal_error(Refusal::WrongExtension, error) <==> error
            == AppError::OutputExtensionMismatch,
{
}

/// The files of an archive are never written over: neither the file that was opened,
/// nor `main.jsonl` and `metadata.json` of its folder, nor its folder of media and what
/// lies in it.
pub proof fn the_archive_is_never_written_over(
    folder: Seq<char>,
    name: Seq<char>,
    source_file: Seq<char>,
    root: Seq<char>,
)
    ensures
        path::joined(folder, name) == source_file ==> plan::touches_source(
            folder,
            name,
            source_file,
            root,
        ),
        plan::touches_source(root, "main.jsonl"@, source_file, root),
        plan::touches_source(root, "metadata.json"@, source_file, root),
        plan::touches_source(root, "files"@, source_file, root),
        name.len() > 0 && !name.contains('/') && name != seq!['.'] && name != seq!['.', '.']
            ==> plan::touches_source(path::joined(root, "files"@), name, source_file, root),
{
    if name.len() > 0 && !name.contains('/') && name != seq!['.'] && name != seq!['.', '.'] {
        path::a_joined_name_stays_inside_its_folder(path::joined(root, "files"@), name);
    }
}

/// A file elsewhere may be written: one that is not in the place of a file of the
/// archive, nor within its folder of media.
pub proof fn other_files_may_be_written(
    folder: Seq<char>,
    name: Seq<char>,
    source_file: Seq<char>,
    root: Seq<char>,
)
    requires
        ({
            let place = path::joined(folder, name);
            &&& !path::same_place(place, source_file)
            &&& !path::same_place(place, path::joined(root, "main.jsonl"@))
            &&& !path::same_place(place, path::joined(root, "metadata.json"@))
            &&& !path::lies_within(place, path::joined(root, "files"@))
        }),
    ensures
        !plan::touches_source(folder, name, source_file, root),
{
    let place = path::joined(folder, name);
    let files = path::joined(root, "files"@);
    if path::same_place(place, files) {
        assert(path::components(files).is_prefix_of(path::components(place)));
    }
}

/// A request that is not refused, and that asks for one file, is met with that file and
/// its chats, each once; a request that is refused is not met.
pub proof fn a_single_file_is_planned_as_asked(
    index: ArchiveIndex,
    request: MultiExportRequest,
    places: Places,
    result: Result<ExportPlan, AppError>,
)
    requires
        plan::is_plan_result(index, request, places, result),
    ensures
        plan::refusal(request, places) is Some ==> result is Err && plan::is_refusal_error(
            plan::refusal(request, places)->0,
            result->Err_0,
        ),
        plan::refusal(request, places) is None && request.mode is Combined ==> result is Ok
            && text::texts(result->Ok_0.output_files@) == seq![request.output_file@] && text::texts(
            result->Ok_0.conversation_ids@,
        ) == plan::first_occurrences(text::texts(request.conversation_ids@)),
        plan::refusal(request, places) is None && request.conversation_ids@.len() == 1 ==> result
            is Ok && text::texts(result->Ok_0.output_files@) == seq![request.output_file@]
            && text::texts(result->Ok_0.conversation_ids@) == text::texts(
            request.conversation_ids@,
        ),
{
    let ids = text::texts(request.conversation_ids@);
    if ids.len() == 1 {
        assert(ids.drop_last() =~= Seq::empty());
        reveal_with_fuel(plan::first_occurrences, 2);
        assert(plan::first_occurrences(ids.drop_last()) =~= Seq::empty());
        assert(plan::first_occurrences(ids) =~= ids);
    }
}

// ---------------------------------------------------------------------------
// Names
// ---------------------------------------------------------------------------

/// Each id counts once, where it stands first.
pub proof fn an_id_counts_where_it_stands_first(ids: Seq<Seq<char>>, further: Seq<char>)
    ensures
        plan::first_occurrences(Seq::empty()).len() == 0,
        ids.contains(further) ==> plan::first_occurrences(ids.push(further))
            == plan::first_occurrences(ids),
        !ids.contains(further) ==> plan::first_occurrences(ids.push(further))
            == plan::first_occurrences(ids).push(further),
{
    assert(ids.push(further).drop_last() =~= ids);
    plan::first_occurrences_hold_each_once(ids);
    lemma_same_ids(ids, further);
}

proof fn lemma_same_ids(ids: Seq<Seq<char>>, id: Seq<char>)
    ensures
        plan::first_occurrences(ids).contains(id) <==> ids.contains(id),
    decreases ids.len(),
{
    if ids.len() > 0 {
        let rest = ids.drop_last();
        lemma_same_ids(rest, id);
        let before = plan::first_occurrences(rest);
        let after = plan::first_occurrences(ids);
        if ids.contains(id) {
            let i = choose|i: int| 0 <= i < ids.len() && ids[i] == id;
            if i < rest.len() {
                assert(rest[i] == id);
                assert(before.contains(id));
                let k = choose|k: int| 0 <= k < before.len() && before[k] == id;
                assert(after[k] == id);
            } else if !before.contains(id) {
                assert(after[after.len() - 1] == id);
            }
        }
        if after.contains(id) {
            let k = choose|k: int| 0 <= k < after.len() && after[k] == id;
            if k < before.len() {
                assert(before[k] == id);
                let i = choose|i: int| 0 <= i < rest.len() && rest[i] == id;
                assert(ids[i] == id);
            } else {
                assert(ids[ids.len() - 1] == id);
            }
        }
    }
}

/// The file of a chat is named by the chosen name and the chat; where the chosen name
/// is a date, by the chat and the day of its last message.
pub proof fn a_file_is_named_by_its_chat(
    index: ArchiveIndex,
    id: Seq<char>,
    stem: Seq<char>,
    base: Seq<char>,
    last: i64,
)
    requires
        index.conversation(id) is Some,
    ensures
        ({
            let chat = index.conversation(id)->0;
            let slug = names::chat_slug(chat.name);
            &&& plan::is_base_name(index, id, stem, false, base) <==> base == stem + seq!['-']
                + slug
            &&& chat.last_timestamp_ms is None ==> (plan::is_base_name(index, id, stem, true, base)
                <==> base == slug + seq!['-'] + stem)
            &&& chat.last_timestamp_ms == Some(last) && plan::is_base_name(
                index,
                id,
                stem,
                true,
                base,
            ) ==> exists|time: LocalTime| #[trigger]
                time.shows(last as int) && base == slug + seq!['-'] + calendar::date_text(
                    time.date,
                )
        }),
{
    reveal_strlit("-");
    assert("-"@ =~= seq!['-']);
}

/// A chat has no name for a file where the archive does not know it, or where its last
/// message has no day to name it by.
pub proof fn a_chat_without_a_name_is_told(index: ArchiveIndex, id: Seq<char>, last: i64)
    ensures
        index.conversation(id) is None ==> plan::name_fault(index, id, true) == Some(
            NameFault::UnknownChat,
        ) && plan::name_fault(index, id, false) == Some(NameFault::UnknownChat),
        index.conversation(id) is Some ==> plan::name_fault(index, id, false) is None,
        index.conversation(id) is Some && index.conversation(id)->0.last_timestamp_ms is None
            ==> plan::name_fault(index, id, true) is None,
        index.conversation(id) is Some && index.conversation(id)->0.last_timestamp_ms == Some(last)
            ==> plan::name_fault(index, id, true) == if calendar::has_local_time(last as int) {
            None
        } else {
            Some(NameFault::BadTimestamp)
        },
{
}

/// The first chat without a name is the one that is told.
pub proof fn the_first_chat_without_a_name_is_told(
    index: ArchiveIndex,
    ids: Seq<Seq<char>>,
    further: Seq<char>,
    dated: bool,
)
    ensures
        plan::first_name_fault(index, Seq::empty(), dated) is None,
        plan::first_name_fault(index, ids, dated) is Some ==> plan::first_name_fault(
            index,
            ids.push(further),
            dated,
        ) == plan::first_name_fault(index, ids, dated),
        plan::first_name_fault(index, ids, dated) is None ==> plan::first_name_fault(
            index,
            ids.push(further),
            dated,
        ) == plan::name_fault(index, further, dated),
{
    assert(ids.push(further).drop_last() =~= ids);
}

/// One file is written for a combined export and for one chat; else one for each.
pub proof fn several_chats_have_several_files(ids: Seq<Seq<char>>)
    ensures
        plan::is_single_file(ConversationExportMode::Combined, ids),
        plan::is_single_file(ConversationExportMode::Separate, ids) <==> ids.len() == 1,
{
}

/// A file stands in its folder with the extension of its format.
pub proof fn a_file_has_folder_and_extension(folder: Seq<char>, name: Seq<char>)
    ensures
        plan::output_path(folder, name, ExportFormat::Markdown) == path::joined(
            folder,
            name + seq!['.', 'm', 'd'],
        ),
        plan::output_path(folder, name, ExportFormat::Json) == path::joined(
            folder,
            name + seq!['.', 'j', 's', 'o', 'n'],
        ),
{
    reveal_strlit(".");
    reveal_strlit("md");
    reveal_strlit("json");
    assert(name + "."@ + "md"@ =~= name + seq!['.', 'm', 'd']);
    assert(name + "."@ + "json"@ =~= name + seq!['.', 'j', 's', 'o', 'n']);
}

/// The folder of a chosen file is the one that it stands in.
pub proof fn a_chosen_file_has_its_folder(file: Seq<char>)
    ensures
        path::parent(file) matches Some(folder) ==> plan::folder_of(file) == folder,
        path::parent(file) is None ==> plan::folder_of(file) == seq!['.'],
{
    reveal_strlit(".");
    assert("."@ =~= seq!['.']);
}

/// A chosen name is a date where its stem reads as one.
pub proof fn a_chosen_name_may_be_a_date(file: Seq<char>, stem: Seq<char>)
    ensures
        path::file_stem(file) == Some(stem) ==> (plan::is_dated(file) <==> calendar::date_read(stem)
            is Some),
        path::file_stem(file) is None ==> !plan::is_dated(file),
{
}

/// The files of several chats are named by their base names, made to differ, in the
/// folder of the chosen file.
pub proof fn several_files_share_the_chosen_folder(
    file: Seq<char>,
    format: ExportFormat,
    bases: Seq<Seq<char>>,
    place: int,
)
    requires
        0 <= place < names::unique_names(bases).len(),
    ensures
        plan::named_files(file, format, bases).len() == names::unique_names(bases).len(),
        plan::named_files(file, format, bases)[place] == plan::output_path(
            plan::folder_of(file),
            names::unique_names(bases)[place],
            format,
        ),
{
}

/// The media folder of a file stands beside it, named by its stem.
pub proof fn a_media_folder_stands_beside_its_file(file: Seq<char>, stem: Seq<char>, folder: Seq<char>)
    requires
        path::file_stem(file) == Some(stem),
        stem.len() > 0,
    ensures
        plan::is_media_folder(file, folder) <==> folder == path::joined(
            path::parent(file)->0,
            stem + "-media"@,
        ),
        path::parent(file) is Some,
{
    assert(path::file_name(file) is Some);
    path::a_file_stands_in_its_folder(file);
}

// ---------------------------------------------------------------------------
// Folders
// ---------------------------------------------------------------------------

/// The folder of an export of one chat is named by the chat and the time.
pub proof fn an_export_folder_tells_chat_and_time(name: Seq<char>, time: LocalTime)
    ensures
        plan::export_base(name, time) == "signal-chat-"@ + names::chat_slug(name) + seq!['-']
            + calendar::stamp_text(time),
{
    reveal_strlit("-");
    assert("-"@ =~= seq!['-']);
}

/// The first name that is tried is the plain one, and others have a number from two
/// on; the last of ten thousand has that of the process.
pub proof fn an_export_folder_is_told_apart(base: Seq<char>, attempt: nat, process_id: nat)
    ensures
        plan::export_name(base, 0, process_id) == base,
        0 < attempt < 9999 ==> plan::export_name(base, attempt, process_id) == base + seq!['-']
            + text::decimal(attempt + 1),
        attempt >= 9999 ==> plan::export_name(base, attempt, process_id) == base + seq!['-']
            + text::decimal(process_id),
{
    reveal_strlit("-");
    assert("-"@ =~= seq!['-']);
}

/// The folder in which an export is put together is hidden, and named by process,
/// chance and attempt.
pub proof fn a_staging_folder_is_told_apart(process_id: nat, nonce: Seq<char>, attempt: nat)
    ensures
        plan::staging_text(process_id, nonce, attempt) == ".signal-filter-"@ + text::decimal(
            process_id,
        ) + seq!['-'] + nonce + seq!['-'] + text::decimal(attempt),
        plan::staging_text(process_id, nonce, attempt).len() > 0,
        plan::staging_text(process_id, nonce, attempt)[0] == '.',
{
    reveal_strlit("-");
    reveal_strlit(".signal-filter-");
    assert("-"@ =~= seq!['-']);
}

/// A file may be written where it has a name and does not stand in the archive; the
/// first that may not be is the one that is told.
pub proof fn only_allowed_files_are_written(
    files: Seq<Seq<char>>,
    places: Places,
    place: int,
    error: AppError,
)
    ensures
        ({
            let name = path::file_name(files[place]);
            plan::file_is_allowed(files[place], places) <==> (name is Some && !plan::touches_source(
                places.folder->0@,
                name->0,
                places.source_file->Ok_0@,
                places.export_root->Ok_0@,
            ))
        }),
        plan::is_file_error_at(files, places, place, error) ==> (0 <= place < files.len()
            && !plan::file_is_allowed(files[place], places) && (error is InvalidOutputFile || error
            is ProtectedSourceDestination) && (error is InvalidOutputFile <==> path::file_name(
            files[place],
        ) is None) && forall|k: int|
            0 <= k < place ==> plan::file_is_allowed(#[trigger] files[k], places)),
{
}

/// The files of several chats are one for each chat, named by it, under names that
/// differ.
pub proof fn each_chat_has_a_file(
    index: ArchiveIndex,
    output_file: Seq<char>,
    format: ExportFormat,
    ids: Seq<Seq<char>>,
    files: Seq<Seq<char>>,
)
    requires
        plan::are_output_files(
            index,
            output_file,
            format,
            ConversationExportMode::Separate,
            ids,
            files,
        ),
        ids.len() != 1,
    ensures
        files.len() == ids.len(),
        exists|bases: Seq<Seq<char>>|
            {
                &&& bases.len() == ids.len()
                &&& files == #[trigger] plan::named_files(output_file, format, bases)
                &&& forall|k: int|
                    0 <= k < ids.len() ==> plan::is_base_name(
                        index,
                        ids[k],
                        path::file_stem(output_file)->0,
                        plan::is_dated(output_file),
                        #[trigger] bases[k],
                    )
            },
{
    let bases = choose|bases: Seq<Seq<char>>|
        {
            &&& bases.len() == ids.len()
            &&& path::file_stem(output_file) is Some
            &&& forall|i: int|
                0 <= i < ids.len() ==> plan::is_base_name(
                    index,
                    ids[i],
                    path::file_stem(output_file)->0,
                    plan::is_dated(output_file),
                    #[trigger] bases[i],
                )
            &&& files == #[trigger] plan::named_files(output_file, format, bases)
        };
    names::unique_names_differ(bases);
    lemma_as_many_names(bases);
    assert(files == plan::named_files(output_file, format, bases));
}

proof fn lemma_as_many_names(bases: Seq<Seq<char>>)
    ensures
        names::unique_names(bases).len() == bases.len(),
    decreases bases.len(),
{
    if bases.len() > 0 {
        lemma_as_many_names(bases.drop_last());
    }
}

/// A plan for several chats holds a file and a media folder for each of them, in order,
/// and no file of the archive; a request that is not refused is met, but for chats
/// without a name and files that may not be written.
pub proof fn several_files_are_planned_as_asked(
    index: ArchiveIndex,
    request: MultiExportRequest,
    places: Places,
    result: Result<ExportPlan, AppError>,
    place: int,
)
    requires
        plan::is_plan_result(index, request, places, result),
        plan::refusal(request, places) is None,
        request.mode is Separate,
        plan::first_occurrences(text::texts(request.conversation_ids@)).len() > 1,
    ensures
        ({
            let ids = plan::first_occurrences(text::texts(request.conversation_ids@));
            let fault = plan::first_name_fault(index, ids, plan::is_dated(request.output_file@));
            match result {
                Ok(planned) => {
                    &&& fault is None
                    &&& text::texts(planned.conversation_ids@) == ids
                    &&& planned.output_files@.len() == ids.len()
                    &&& planned.media_folders@.len() == ids.len()
                    &&& 0 <= place < ids.len() ==> plan::file_is_allowed(
                        planned.output_files@[place]@,
                        places,
                    ) && plan::is_media_folder(
                        planned.output_files@[place]@,
                        planned.media_folders@[place]@,
                    )
                },
                Err(error) => {
                    &&& fault == Some(NameFault::UnknownChat) ==> error is UnknownConversation
                    &&& fault == Some(NameFault::BadTimestamp) ==> error is InvalidTimestamp
                    &&& fault is None ==> error is InvalidOutputFile || error
                        is ProtectedSourceDestination
                },
            }
        }),
{
    let ids = plan::first_occurrences(text::texts(request.conversation_ids@));
    match result {
        Ok(planned) => {
            let files = text::texts(planned.output_files@);
            each_chat_has_a_file(index, request.output_file@, request.format, ids, files);
            if 0 <= place < ids.len() {
                assert(files[place] == planned.output_files@[place]@);
                let folders = text::texts(planned.media_folders@);
                assert(plan::is_media_folder(files[place], folders[place]));
                assert(folders[place] == planned.media_folders@[place]@);
            }
        },
        Err(error) => {},
    }
}

/// The first file that may not be written is the one that is told, for want of a name or
/// because it would stand in the archive.
pub proof fn the_first_file_in_the_archive_is_told(
    files: Seq<Seq<char>>,
    places: Places,
    place: int,
)
    requires
        0 <= place < files.len(),
        !plan::file_is_allowed(files[place], places),
        forall|k: int| 0 <= k < place ==> plan::file_is_allowed(#[trigger] files[k], places),
    ensures
        path::file_name(files[place]) is None ==> plan::is_file_error(
            files,
            places,
            AppError::InvalidOutputFile,
        ) && !plan::is_file_error(files, places, AppError::ProtectedSourceDestination),
        path::file_name(files[place]) is Some ==> plan::is_file_error(
            files,
            places,
            AppError::ProtectedSourceDestination,
        ) && !plan::is_file_error(files, places, AppError::InvalidOutputFile),
{
    let nameless = AppError::InvalidOutputFile;
    let protected = AppError::ProtectedSourceDestination;
    if path::file_name(files[place]) is None {
        assert(plan::is_file_error_at(files, places, place, nameless));
    } else {
        assert(plan::is_file_error_at(files, places, place, protected));
    }
    assert forall|k: int| #[trigger]
        plan::is_file_error_at(files, places, k, nameless) implies k == place by {
        if place < k {
            assert(plan::file_is_allowed(files[place], places));
        }
    }
    assert forall|k: int| #[trigger]
        plan::is_file_error_at(files, places, k, protected) implies k == place by {
        if place < k {
            assert(plan::file_is_allowed(files[place], places));
        }
    }
}

} // verus!
