//! What may be replaced, and what is put in place.

use vstd::prelude::*;

use crate::error::AppError;
use crate::install::{self, ArtifactKind, Check, Found, PairCheck};
use crate::path;

verus! {

/// A file may stand where a file goes and a folder where a folder goes; a link, or
/// anything else, may stand nowhere, and where nothing stands, nothing is in the way.
pub proof fn only_the_same_kind_may_be_replaced(cause: std::io::Error, kind: ArtifactKind)
    ensures
        install::entry_check(Found::Missing, kind) == Check::Absent,
        install::entry_check(Found::File, ArtifactKind::File) == Check::Present,
        install::entry_check(Found::Folder, ArtifactKind::Directory) == Check::Present,
        install::entry_check(Found::File, ArtifactKind::Directory) == Check::Unsafe,
        install::entry_check(Found::Folder, ArtifactKind::File) == Check::Unsafe,
        install::entry_check(Found::Link, kind) == Check::Unsafe,
        install::entry_check(Found::Other, kind) == Check::Unsafe,
        install::entry_check(Found::Unreadable(cause), kind) == Check::Unreadable(cause),
{
}

/// What is unsafe is told as such, and what cannot be read with its cause; nothing
/// else is an error.
pub proof fn a_check_is_told_by_its_error(cause: std::io::Error, error: AppError)
    ensures
        install::is_check_error(Check::Unsafe, error) <==> error == AppError::UnsafeDestination,
        install::is_check_error(Check::Unreadable(cause), error) <==> error
            == AppError::FinishExport(cause),
        !install::is_check_error(Check::Absent, error),
        !install::is_check_error(Check::Present, error),
        install::is_pair_error(PairCheck::Unsafe, error) <==> error
            == AppError::UnsafeDestination,
        install::is_pair_error(PairCheck::Unreadable(cause), error) <==> error
            == AppError::FinishExport(cause),
        install::is_pair_error(PairCheck::Taken, error) <==> error == AppError::OutputExists,
        !install::is_pair_error(PairCheck::Existing, error),
        !install::is_pair_error(PairCheck::New, error),
{
}

/// Without leave to overwrite, a document is never written where one stands, nor its
/// media where a media folder stands.
pub proof fn nothing_is_overwritten_without_leave(output: Found, media: Found, include_media: bool)
    ensures
        ({
            let check = install::pair_check(output, media, include_media, false);
            &&& check !is Existing
            &&& output !is Missing ==> check !is New
            &&& include_media && media !is Missing ==> check !is New
            &&& output is Missing && (media is Missing || !include_media) ==> check is New
            &&& output is File && (media is Missing || media is Folder || !include_media)
                ==> check is Taken
            &&& output is Missing && media is Folder && include_media ==> check is Taken
        }),
{
}

/// With leave to overwrite, a document and its media folder may be replaced where they
/// are a file and a folder, and only then.
pub proof fn only_documents_are_overwritten(output: Found, media: Found, include_media: bool)
    ensures
        ({
            let check = install::pair_check(output, media, include_media, true);
            &&& check is Existing <==> output is File && (media is Folder || media is Missing)
            &&& check is New <==> output is Missing && (!include_media || media is Folder || media
                is Missing)
            &&& check !is Taken
        }),
{
}

/// A link or a thing of another kind in the way is never written over, and a place that
/// cannot be read is told.
pub proof fn unsafe_places_are_refused(
    output: Found,
    media: Found,
    cause: std::io::Error,
    include_media: bool,
    overwrite: bool,
)
    ensures
        output is Folder || output is Link || output is Other ==> install::pair_check(
            output,
            media,
            include_media,
            overwrite,
        ) is Unsafe,
        output == Found::Unreadable(cause) ==> install::pair_check(
            output,
            media,
            include_media,
            overwrite,
        ) == PairCheck::Unreadable(cause),
        (output is Missing || output is File) && include_media && (media is File || media is Link
            || media is Other) ==> install::pair_check(output, media, include_media, overwrite)
            is Unsafe,
        (output is Missing || output is File) && include_media && media == Found::Unreadable(cause)
            ==> install::pair_check(output, media, include_media, overwrite)
            == PairCheck::Unreadable(cause),
{
}

/// A relative path leads from folder to folder, part by part.
pub proof fn a_path_leads_from_folder_to_folder(
    root: Seq<char>,
    parts: Seq<Seq<char>>,
    further: Seq<char>,
)
    ensures
        install::folder_after(root, Seq::empty()) == root,
        install::folder_after(root, parts.push(further)) == path::joined(
            install::folder_after(root, parts),
            further,
        ),
{
    assert(parts.push(further).drop_last() =~= parts);
}

/// A plain relative path does not start at the root, and no part of it leads up or
/// stays.
pub proof fn a_plain_relative_path_leads_down(relative: Seq<char>, place: int)
    ensures
        install::is_plain_relative(relative) && 0 <= place < path::components(relative).len()
            ==> path::components(relative)[place] != seq!['.'] && path::components(relative)[place]
            != seq!['.', '.'],
        relative.len() > 0 && relative[0] == '/' ==> !install::is_plain_relative(relative),
        0 <= place < path::components(relative).len() && path::components(relative)[place] == seq![
            '.',
            '.',
        ] ==> !install::is_plain_relative(relative),
{
    if install::is_plain_relative(relative) && 0 <= place < path::components(relative).len() {
        assert(path::is_name(path::components(relative)[place]));
    }
}

/// A document is put where it goes, from the staging folder, and its media folder with
/// it where media are exported or an old export is replaced; where no media were
/// staged, the old folder only goes.
pub proof fn a_document_is_put_in_place_with_its_media(
    staging: Seq<char>,
    output: Seq<char>,
    media: Seq<char>,
    existed: bool,
    staged: bool,
    include_media: bool,
    overwrite: bool,
)
    ensures
        ({
            let placed = install::pair_artifacts(
                staging,
                output,
                media,
                existed,
                staged,
                include_media,
                overwrite,
            );
            &&& placed.len() >= 1
            &&& placed[0].destination == output
            &&& placed[0].kind is File
            &&& placed[0].staged == Some(install::staged_path(staging, output))
            &&& placed.len() == 2 <==> include_media || (overwrite && existed)
            &&& placed.len() <= 2
            &&& placed.len() == 2 ==> placed[1].destination == media && placed[1].kind
                is Directory
            &&& placed.len() == 2 && staged ==> placed[1].staged == Some(
                install::staged_path(staging, media),
            )
            &&& placed.len() == 2 && !staged ==> placed[1].staged is None
        }),
{
}

/// What stands in the staging folder has the name that it will have.
pub proof fn a_staged_file_has_its_name(staging: Seq<char>, output: Seq<char>, name: Seq<char>)
    requires
        path::file_name(output) == Some(name),
    ensures
        install::staged_path(staging, output) == path::joined(staging, name),
        path::file_name(install::staged_path(staging, output)) == Some(name),
{
    path::lemma_file_name(output);
    path::a_joined_name_stays_inside_its_folder(staging, name);
}

/// All documents are put in place, one after the other, each with its media.
pub proof fn all_documents_are_put_in_place(
    staging: Seq<char>,
    outputs: Seq<Seq<char>>,
    media: Seq<Seq<char>>,
    existed: Seq<bool>,
    staged: Seq<bool>,
    output: Seq<char>,
    folder: Seq<char>,
    was_there: bool,
    was_staged: bool,
    include_media: bool,
    overwrite: bool,
)
    requires
        media.len() == outputs.len(),
        existed.len() == outputs.len(),
        staged.len() == outputs.len(),
    ensures
        outputs.len() == 0 ==> install::all_artifacts(
            staging,
            outputs,
            media,
            existed,
            staged,
            include_media,
            overwrite,
        ).len() == 0,
        install::all_artifacts(
            staging,
            outputs.push(output),
            media.push(folder),
            existed.push(was_there),
            staged.push(was_staged),
            include_media,
            overwrite,
        ) == install::all_artifacts(
            staging,
            outputs,
            media,
            existed,
            staged,
            include_media,
            overwrite,
        ) + install::pair_artifacts(
            staging,
            output,
            folder,
            was_there,
            was_staged,
            include_media,
            overwrite,
        ),
{
    assert(outputs.push(output).drop_last() =~= outputs);
    assert(media.push(folder).drop_last() =~= media);
    assert(existed.push(was_there).drop_last() =~= existed);
    assert(staged.push(was_staged).drop_last() =~= staged);
}

} // verus!
