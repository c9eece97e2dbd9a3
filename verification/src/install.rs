//! Moving a finished export into place, and undoing it where that fails.

use vstd::prelude::*;

use crate::error::AppError;
use crate::names::staged_path_for;
use crate::path::{self, component_texts, join_path};
use crate::text::{self, same_text};

verus! {

// ---------------------------------------------------------------------------
// Entries of folders
// ---------------------------------------------------------------------------

/// What stands at a path. A symbolic link is not followed.
#[derive(Debug)]
pub enum Found {
    Missing,
    File,
    Folder,
    Link,
    Other,
    Unreadable(std::io::Error),
}

/// What an export puts in place.
#[derive(Debug, Clone, Copy, PartialEq, Eq, Structural)]
pub enum ArtifactKind {
    File,
    Directory,
}

/// Whether something may be replaced.
pub enum Check {
    Absent,
    Present,
    Unsafe,
    Unreadable(std::io::Error),
}

/// Only a file may stand in the place of a file, and only a folder in that of a
/// folder.
pub open spec fn entry_check(found: Found, kind: ArtifactKind) -> Check {
    match found {
        Found::Missing => Check::Absent,
        Found::File => if kind is File {
            Check::Present
        } else {
            Check::Unsafe
        },
        Found::Folder => if kind is Directory {
            Check::Present
        } else {
            Check::Unsafe
        },
        Found::Link => Check::Unsafe,
        Found::Other => Check::Unsafe,
        Found::Unreadable(cause) => Check::Unreadable(cause),
    }
}

/// The error of a check, where it is one.
pub open spec fn is_check_error(check: Check, error: AppError) -> bool {
    match check {
        Check::Unsafe => error is UnsafeDestination,
        Check::Unreadable(cause) => error == AppError::FinishExport(cause),
        _ => false,
    }
}

/// Whether there is something that may be replaced.
pub fn validate_existing_artifact(found: Found, kind: ArtifactKind) -> (result: Result<
    bool,
    AppError,
>)
    ensures
        match result {
            Ok(present) => if present {
                entry_check(found, kind) is Present
            } else {
                entry_check(found, kind) is Absent
            },
            Err(error) => is_check_error(entry_check(found, kind), error),
        },
{
    match found {
        Found::Missing => Ok(false),
        Found::File => match kind {
            ArtifactKind::File => Ok(true),
            ArtifactKind::Directory => Err(AppError::UnsafeDestination),
        },
        Found::Folder => match kind {
            ArtifactKind::File => Err(AppError::UnsafeDestination),
            ArtifactKind::Directory => Ok(true),
        },
        Found::Link => Err(AppError::UnsafeDestination),
        Found::Other => Err(AppError::UnsafeDestination),
        Found::Unreadable(error) => Err(AppError::FinishExport(error)),
    }
}

/// How something is removed.
#[derive(Debug)]
pub enum Removal {
    Nothing,
    Folder,
    File,
    Impossible(std::io::Error),
}

/// How something is removed: a folder with all that is in it, anything else as a
/// file, so that a link goes and what it leads to stays.
pub fn removal_for(found: Found) -> (removal: Removal)
    ensures
        match found {
            Found::Missing => removal is Nothing,
            Found::Folder => removal is Folder,
            Found::Unreadable(error) => removal == Removal::Impossible(error),
            _ => removal is File,
        },
{
    match found {
        Found::Missing => Removal::Nothing,
        Found::Folder => Removal::Folder,
        Found::Unreadable(error) => Removal::Impossible(error),
        Found::File => Removal::File,
        Found::Link => Removal::File,
        Found::Other => Removal::File,
    }
}

/// A relative path whose parts all name entries.
pub open spec fn is_plain_relative(relative: Seq<char>) -> bool {
    !path::is_rooted(relative) && forall|i: int|
        0 <= i < path::components(relative).len() ==> path::is_name(
            #[trigger] path::components(relative)[i],
        )
}

/// The folder that the first parts of a relative path lead to.
pub open spec fn folder_after(root: Seq<char>, parts: Seq<Seq<char>>) -> Seq<char>
    decreases parts.len(),
{
    if parts.len() == 0 {
        root
    } else {
        path::joined(folder_after(root, parts.drop_last()), parts.last())
    }
}

/// The folders to create, each inside the one before, so that a relative path
/// below a root is there.
pub fn subfolders(root: &str, relative: &str) -> (result: Result<Vec<String>, AppError>)
    ensures
        match result {
            Ok(folders) => {
                let parts = path::components(relative@);
                &&& is_plain_relative(relative@)
                &&& folders@.len() == parts.len()
                &&& forall|i: int|
                    0 <= i < folders@.len() ==> (#[trigger] folders@[i])@ == folder_after(
                        root@,
                        parts.take(i + 1),
                    )
            },
            Err(error) => !is_plain_relative(relative@) && error is InvalidOutputFile,
        },
{
    let parts = component_texts(relative);
    let ghost all = path::components(relative@);
    let chars = text::to_chars(relative);
    if chars.len() > 0 && chars[0] == '/' {
        return Err(AppError::InvalidOutputFile);
    }
    let mut folders: Vec<String> = Vec::new();
    let mut current = root.to_owned();
    let mut i: usize = 0;
    assert(all.take(0).len() == 0);
    while i < parts.len()
        invariant
            i <= parts@.len(),
            all == path::components(relative@),
            text::texts(parts@) == all,
            parts@.len() == all.len(),
            !path::is_rooted(relative@),
            folders@.len() == i,
            current@ == folder_after(root@, all.take(i as int)),
            forall|j: int| 0 <= j < i ==> path::is_name(#[trigger] all[j]),
            forall|j: int|
                0 <= j < i ==> (#[trigger] folders@[j])@ == folder_after(root@, all.take(j + 1)),
        decreases parts@.len() - i,
    {
        assert(all[i as int] == parts@[i as int]@);
        proof {
            reveal_strlit(".");
            reveal_strlit("..");
            assert("."@ =~= path::dot());
            assert(".."@ =~= path::dot_dot());
        }
        if same_text(parts[i].as_str(), ".") || same_text(parts[i].as_str(), "..") {
            assert(!path::is_name(all[i as int]));
            return Err(AppError::InvalidOutputFile);
        }
        assert(all.take(i as int + 1).drop_last() =~= all.take(i as int));
        current = join_path(current.as_str(), parts[i].as_str());
        folders.push(current.clone());
        i = i + 1;
    }
    Ok(folders)
}

/// What is to be done where a folder on the way could not be made because
/// something stands there: a folder is used as it is, and anything else is
/// refused.
pub fn check_subfolder(found: Found, taken: std::io::Error) -> (result: Result<(), AppError>)
    ensures
        match found {
            Found::Folder => result is Ok,
            Found::Missing => result == Err::<(), AppError>(AppError::CreateExport(taken)),
            Found::Unreadable(cause) => result == Err::<(), AppError>(
                AppError::CreateExport(cause),
            ),
            _ => result is Err && result->Err_0 is UnsafeDestination,
        },
{
    match found {
        Found::Folder => Ok(()),
        Found::Missing => Err(AppError::CreateExport(taken)),
        Found::Unreadable(cause) => Err(AppError::CreateExport(cause)),
        Found::File => Err(AppError::UnsafeDestination),
        Found::Link => Err(AppError::UnsafeDestination),
        Found::Other => Err(AppError::UnsafeDestination),
    }
}

// ---------------------------------------------------------------------------
// Looking before anything is done
// ---------------------------------------------------------------------------

/// Whether a file and its media folder may be written.
pub enum PairCheck {
    New,
    Existing,
    Unsafe,
    Unreadable(std::io::Error),
    Taken,
}

/// Whether a file and its media folder may be written. The media folder counts
/// where media are exported, or where an existing export is replaced.
pub open spec fn pair_check(
    output: Found,
    media: Found,
    include_media: bool,
    overwrite_existing: bool,
) -> PairCheck {
    match entry_check(output, ArtifactKind::File) {
        Check::Unsafe => PairCheck::Unsafe,
        Check::Unreadable(cause) => PairCheck::Unreadable(cause),
        first => {
            let present = first is Present;
            let second = if include_media || (overwrite_existing && present) {
                entry_check(media, ArtifactKind::Directory)
            } else {
                Check::Absent
            };
            if second is Unsafe {
                PairCheck::Unsafe
            } else if second is Unreadable {
                PairCheck::Unreadable(second->Unreadable_0)
            } else if !overwrite_existing && (present || (include_media && second is Present)) {
                PairCheck::Taken
            } else if present {
                PairCheck::Existing
            } else {
                PairCheck::New
            }
        },
    }
}

/// The error of a pair that may not be written.
pub open spec fn is_pair_error(check: PairCheck, error: AppError) -> bool {
    match check {
        PairCheck::Unsafe => error is UnsafeDestination,
        PairCheck::Unreadable(cause) => error == AppError::FinishExport(cause),
        PairCheck::Taken => error is OutputExists,
        _ => false,
    }
}

fn check_pair(
    output: Found,
    media: Found,
    include_media: bool,
    overwrite_existing: bool,
) -> (result: Result<bool, AppError>)
    ensures
        match result {
            Ok(present) => if present {
                pair_check(output, media, include_media, overwrite_existing) is Existing
            } else {
                pair_check(output, media, include_media, overwrite_existing) is New
            },
            Err(error) => is_pair_error(
                pair_check(output, media, include_media, overwrite_existing),
                error,
            ),
        },
{
    let output_exists = match validate_existing_artifact(output, ArtifactKind::File) {
        Ok(present) => present,
        Err(error) => {
            return Err(error);
        },
    };
    let media_exists = if include_media || (overwrite_existing && output_exists) {
        match validate_existing_artifact(media, ArtifactKind::Directory) {
            Ok(present) => present,
            Err(error) => {
                return Err(error);
            },
        }
    } else {
        false
    };
    if !overwrite_existing && (output_exists || (include_media && media_exists)) {
        return Err(AppError::OutputExists);
    }
    Ok(output_exists)
}

/// What stands where a file and its media folder are to go.
pub struct FoundPair {
    pub output: Found,
    pub media: Found,
}

pub open spec fn found_pair_check(
    pair: FoundPair,
    include_media: bool,
    overwrite_existing: bool,
) -> PairCheck {
    pair_check(pair.output, pair.media, include_media, overwrite_existing)
}

/// Which of the files exist already, where all may be written; else the error of
/// the first that may not.
pub fn preflight_destinations(
    pairs: Vec<FoundPair>,
    include_media: bool,
    overwrite_existing: bool,
) -> (result: Result<Vec<bool>, AppError>)
    ensures
        match result {
            Ok(existing) => {
                &&& existing@.len() == pairs@.len()
                &&& forall|i: int|
                    0 <= i < pairs@.len() ==> {
                        let check = found_pair_check(
                            #[trigger] pairs@[i],
                            include_media,
                            overwrite_existing,
                        );
                        (check is Existing || check is New) && existing@[i] == (check is Existing)
                    }
            },
            Err(error) => exists|k: int|
                {
                    &&& 0 <= k < pairs@.len()
                    &&& is_pair_error(
                        found_pair_check(
                            #[trigger] pairs@[k],
                            include_media,
                            overwrite_existing,
                        ),
                        error,
                    )
                    &&& forall|j: int|
                        0 <= j < k ==> {
                            let check = found_pair_check(
                                #[trigger] pairs@[j],
                                include_media,
                                overwrite_existing,
                            );
                            check is Existing || check is New
                        }
                },
        },
{
    let ghost held = pairs@;
    let mut existing: Vec<bool> = Vec::new();
    for pair in it: pairs
        invariant
            it.seq() == held,
            held == pairs@,
            existing@.len() == it.index(),
            forall|i: int|
                0 <= i < existing@.len() ==> {
                    let check = found_pair_check(
                        #[trigger] held[i],
                        include_media,
                        overwrite_existing,
                    );
                    (check is Existing || check is New) && existing@[i] == (check is Existing)
                },
    {
        let ghost k = it.index() as int;
        assert(pair == held[k]);
        match check_pair(pair.output, pair.media, include_media, overwrite_existing) {
            Ok(present) => {
                existing.push(present);
            },
            Err(error) => {
                assert(is_pair_error(
                    found_pair_check(held[k], include_media, overwrite_existing),
                    error,
                ));
                return Err(error);
            },
        }
    }
    Ok(existing)
}

// ---------------------------------------------------------------------------
// What is put in place
// ---------------------------------------------------------------------------

/// A file or folder of the export: where it was put together, where it goes, and
/// what it is. Where nothing was put together, what stands in its place goes.
#[derive(Debug)]
pub struct InstallArtifact {
    pub staged: Option<String>,
    pub destination: String,
    pub kind: ArtifactKind,
}

#[verifier::ext_equal]
pub struct ArtifactView {
    pub staged: Option<Seq<char>>,
    pub destination: Seq<char>,
    pub kind: ArtifactKind,
}

impl InstallArtifact {
    pub open spec fn view(&self) -> ArtifactView {
        ArtifactView {
            staged: text::shown(self.staged),
            destination: self.destination@,
            kind: self.kind,
        }
    }
}

/// Where a path stands while the export is put together.
pub open spec fn staged_path(staging_directory: Seq<char>, final_path: Seq<char>) -> Seq<char> {
    path::joined(staging_directory, path::file_name(final_path)->0)
}

/// What is put in place for one document, its media folder after it where media
/// are exported or an existing export is replaced.
pub open spec fn pair_artifacts(
    staging_directory: Seq<char>,
    output: Seq<char>,
    media: Seq<char>,
    existed: bool,
    media_staged: bool,
    include_media: bool,
    overwrite_existing: bool,
) -> Seq<ArtifactView> {
    let document = ArtifactView {
        staged: Some(staged_path(staging_directory, output)),
        destination: output,
        kind: ArtifactKind::File,
    };
    if include_media || (overwrite_existing && existed) {
        seq![
            document,
            ArtifactView {
                staged: if media_staged {
                    Some(staged_path(staging_directory, media))
                } else {
                    None
                },
                destination: media,
                kind: ArtifactKind::Directory,
            },
        ]
    } else {
        seq![document]
    }
}

/// What is put in place for all documents.
pub open spec fn all_artifacts(
    staging_directory: Seq<char>,
    outputs: Seq<Seq<char>>,
    media: Seq<Seq<char>>,
    existed: Seq<bool>,
    media_staged: Seq<bool>,
    include_media: bool,
    overwrite_existing: bool,
) -> Seq<ArtifactView>
    decreases outputs.len(),
{
    if outputs.len() == 0 {
        Seq::empty()
    } else {
        all_artifacts(
            staging_directory,
            outputs.drop_last(),
            media.drop_last(),
            existed.drop_last(),
            media_staged.drop_last(),
            include_media,
            overwrite_existing,
        ) + pair_artifacts(
            staging_directory,
            outputs.last(),
            media.last(),
            existed.last(),
            media_staged.last(),
            include_media,
            overwrite_existing,
        )
    }
}

pub open spec fn shown_artifacts(artifacts: Seq<InstallArtifact>) -> Seq<ArtifactView> {
    artifacts.map_values(|artifact: InstallArtifact| artifact@)
}

/// What is put in place for all documents. `media_staged` tells for each document
/// whether a media folder was put together.
pub fn install_artifacts_for(
    staging_directory: &str,
    outputs: &Vec<String>,
    media: &Vec<String>,
    existed: &Vec<bool>,
    media_staged: &Vec<bool>,
    include_media: bool,
    overwrite_existing: bool,
) -> (result: Result<Vec<InstallArtifact>, AppError>)
    requires
        media@.len() == outputs@.len(),
        existed@.len() == outputs@.len(),
        media_staged@.len() == outputs@.len(),
    ensures
        match result {
            Ok(artifacts) => shown_artifacts(artifacts@) == all_artifacts(
                staging_directory@,
                text::texts(outputs@),
                text::texts(media@),
                existed@,
                media_staged@,
                include_media,
                overwrite_existing,
            ),
            Err(error) => error is InvalidOutputFile && exists|i: int|
                0 <= i < outputs@.len() && (path::file_name((#[trigger] outputs@[i])@) is None
                    || path::file_name(media@[i]@) is None),
        },
        (forall|i: int|
            0 <= i < outputs@.len() ==> path::file_name((#[trigger] outputs@[i])@) is Some
                && path::file_name(media@[i]@) is Some) ==> result is Ok,
{
    let ghost files = text::texts(outputs@);
    let ghost folders = text::texts(media@);
    let mut artifacts: Vec<InstallArtifact> = Vec::new();
    let mut i: usize = 0;
    assert(shown_artifacts(artifacts@) =~= Seq::<ArtifactView>::empty());
    assert(files.take(0).len() == 0);
    while i < outputs.len()
        invariant
            i <= outputs@.len(),
            files == text::texts(outputs@),
            folders == text::texts(media@),
            media@.len() == outputs@.len(),
            existed@.len() == outputs@.len(),
            media_staged@.len() == outputs@.len(),
            shown_artifacts(artifacts@) == all_artifacts(
                staging_directory@,
                files.take(i as int),
                folders.take(i as int),
                existed@.take(i as int),
                media_staged@.take(i as int),
                include_media,
                overwrite_existing,
            ),
        decreases outputs@.len() - i,
    {
        let ghost before = shown_artifacts(artifacts@);
        proof {
            assert(files.take(i as int + 1).drop_last() =~= files.take(i as int));
            assert(folders.take(i as int + 1).drop_last() =~= folders.take(i as int));
            assert(existed@.take(i as int + 1).drop_last() =~= existed@.take(i as int));
            assert(media_staged@.take(i as int + 1).drop_last() =~= media_staged@.take(i as int));
            assert(files[i as int] == outputs@[i as int]@);
            assert(folders[i as int] == media@[i as int]@);
        }
        let staged = match staged_path_for(staging_directory, outputs[i].as_str()) {
            Ok(staged) => staged,
            Err(error) => {
                assert(path::file_name(outputs@[i as int]@) is None);
                return Err(error);
            },
        };
        artifacts.push(
            InstallArtifact {
                staged: Some(staged),
                destination: outputs[i].clone(),
                kind: ArtifactKind::File,
            },
        );
        let ghost middle = shown_artifacts(artifacts@);
        assert(middle =~= before.push(artifacts@.last()@));
        if include_media || (overwrite_existing && existed[i]) {
            let staged_media = match staged_path_for(staging_directory, media[i].as_str()) {
                Ok(staged) => staged,
                Err(error) => {
                    assert(path::file_name(outputs@[i as int]@) is Some);
                    assert(path::file_name(media@[i as int]@) is None);
                    return Err(error);
                },
            };
            artifacts.push(
                InstallArtifact {
                    staged: if media_staged[i] {
                        Some(staged_media)
                    } else {
                        None
                    },
                    destination: media[i].clone(),
                    kind: ArtifactKind::Directory,
                },
            );
            assert(shown_artifacts(artifacts@) =~= middle.push(artifacts@.last()@));
        }
        assert(shown_artifacts(artifacts@) =~= before + pair_artifacts(
            staging_directory@,
            files[i as int],
            folders[i as int],
            existed@[i as int],
            media_staged@[i as int],
            include_media,
            overwrite_existing,
        ));
        i = i + 1;
    }
    assert(files.take(i as int) =~= files);
    assert(folders.take(i as int) =~= folders);
    assert(existed@.take(i as int) =~= existed@);
    assert(media_staged@.take(i as int) =~= media_staged@);
    Ok(artifacts)
}

} // verus!
