//! How an export runs, and how its files are put in place.

use vstd::prelude::*;

use crate::error::AppError;
use crate::install::{self, ArtifactKind, Found, FoundPair};
use crate::path;
use crate::plan;
use crate::run::{self, RunPhase, RunReply, RunStepView, RunView};
use crate::staging::StagedExport;
use crate::text;
use crate::transaction::{self, InstallView, Phase, Refused, Reply, StepView};

verus! {

// ---------------------------------------------------------------------------
// Runs
// ---------------------------------------------------------------------------

/// An export goes on where every file may be written, and ends where one may not,
/// without having made anything.
pub proof fn an_export_starts_where_all_places_are_free(
    run: RunView,
    pairs: Vec<FoundPair>,
    place: int,
)
    requires
        run.phase is Looking,
        0 <= place < pairs@.len(),
    ensures
        ({
            let after = run.after(RunReply::Found(pairs));
            let check = install::pair_check(
                pairs@[place].output,
                pairs@[place].media,
                run.include_media,
                run.overwrite_existing,
            );
            &&& check !is Existing && check !is New ==> after.phase is Finished && after.failed
                && after.folder == run.folder
            &&& (forall|k: int|
                0 <= k < pairs@.len() ==> ({
                    let other = install::pair_check(
                        (#[trigger] pairs@[k]).output,
                        pairs@[k].media,
                        run.include_media,
                        run.overwrite_existing,
                    );
                    other is Existing || other is New
                })) ==> after.phase == (RunPhase::MakingFolder { attempt: 0 }) && after.failed
                == run.failed && after.existing.len() == pairs@.len() && (after.existing[place]
                <==> check is Existing)
        }),
{
    let after = run.after(RunReply::Found(pairs));
    let check = install::found_pair_check(
        pairs@[place],
        run.include_media,
        run.overwrite_existing,
    );
    if forall|k: int|
        0 <= k < pairs@.len() ==> ({
            let other = install::pair_check(
                (#[trigger] pairs@[k]).output,
                pairs@[k].media,
                run.include_media,
                run.overwrite_existing,
            );
            other is Existing || other is New
        }) {
        assert(run::are_free(pairs@, run.include_media, run.overwrite_existing));
    }
    if run::are_free(pairs@, run.include_media, run.overwrite_existing) {
        assert(check is Existing || check is New);
    }
}

/// A folder is tried under up to a hundred names; where one is taken the next is tried,
/// and the one that was made is the one that is written to.
pub proof fn a_folder_is_tried_under_other_names(
    run: RunView,
    attempt: u32,
    cause: std::io::Error,
)
    requires
        run.phase == (RunPhase::MakingFolder { attempt }),
    ensures
        run.step() == (RunStepView::MakeFolder {
            path: path::joined(
                run.parent,
                plan::staging_text(run.process_id as nat, run.nonce, attempt as nat),
            ),
        }),
        attempt < 99 ==> run.after(RunReply::Taken).phase == (RunPhase::MakingFolder {
            attempt: (attempt + 1) as u32,
        }) && run.after(RunReply::Taken).failed == run.failed,
        attempt >= 99 ==> run.after(RunReply::Taken).phase is Finished && run.after(
            RunReply::Taken,
        ).failed,
        run.after(RunReply::Made).phase is Writing,
        run.after(RunReply::Made).step() == (RunStepView::Write {
            folder: path::joined(
                run.parent,
                plan::staging_text(run.process_id as nat, run.nonce, attempt as nat),
            ),
        }),
        run.after(RunReply::Failed(cause)).phase is Finished && run.after(
            RunReply::Failed(cause),
        ).failed,
{
}

/// What was written is put in place, by renaming the folder or by installing its files,
/// and its totals are kept; where writing failed, nothing is put in place.
pub proof fn what_was_written_is_put_in_place(
    run: RunView,
    folder: Seq<char>,
    totals: StagedExport,
    error: AppError,
)
    requires
        run.phase is Writing,
        run.folder == Some(folder),
    ensures
        ({
            let written = run.after(RunReply::Written(totals));
            let refused = run.after(RunReply::Refused(error));
            &&& written.phase is Placing
            &&& written.totals == Some(totals)
            &&& written.failed == run.failed
            &&& run.rename_to matches Some(to) ==> written.step() == (RunStepView::Rename {
                from: folder,
                to,
            })
            &&& run.rename_to is None ==> written.step() == (RunStepView::Install { folder })
            &&& refused.failed
            &&& refused.step() == (RunStepView::Clean { folder })
        }),
{
}

/// A folder that was renamed is not removed; else the folder is removed, whether its
/// files were put in place or not, and what failed stays failed.
pub proof fn the_folder_is_removed_at_the_end(
    run: RunView,
    folder: Seq<char>,
    cause: std::io::Error,
    error: AppError,
)
    requires
        run.phase is Placing,
        run.folder == Some(folder),
        !run.failed,
    ensures
        run.rename_to is Some ==> run.after(RunReply::Placed).phase is Finished && !run.after(
            RunReply::Placed,
        ).failed && run.after(RunReply::Placed).folder is None,
        run.rename_to is None ==> run.after(RunReply::Placed).step() == (RunStepView::Clean {
            folder,
        }) && !run.after(RunReply::Placed).failed,
        run.after(RunReply::Failed(cause)).failed && run.after(RunReply::Failed(cause)).step() == (
        RunStepView::Clean { folder }),
        run.after(RunReply::Refused(error)).failed && run.after(RunReply::Refused(error)).step()
            == (RunStepView::Clean { folder }),
        run.after(RunReply::Placed).totals == run.totals,
        ({
            let cleaning = run.after(RunReply::Failed(cause));
            let done = cleaning.after(RunReply::Cleaned);
            done.phase is Finished && done.failed && done.folder is None
        }),
{
}

/// What an export ends with tells what happened: the first place in the way, the folder
/// that could not be made, what could not be put in place, or the error that came.
pub proof fn an_export_tells_how_it_ended(
    run: RunView,
    cause: std::io::Error,
    came: AppError,
    error: AppError,
)
    ensures
        run::is_run_error(run, RunReply::Refused(came), error) <==> error == came,
        run.phase is Placing ==> (run::is_run_error(run, RunReply::Failed(cause), error) <==> error
            == AppError::FinishExport(cause)),
        run.phase is MakingFolder ==> (run::is_run_error(run, RunReply::Failed(cause), error)
            <==> error == AppError::CreateExport(cause)),
        run::is_run_error(run, RunReply::Taken, error) ==> error is CreateExport,
        !run::is_run_error(run, RunReply::Placed, error),
        !run::is_run_error(run, RunReply::Made, error),
        !run::is_run_error(run, RunReply::Cleaned, error),
{
}

// ---------------------------------------------------------------------------
// Installations
// ---------------------------------------------------------------------------

/// Every place is looked at before anything moves: a link, a thing of another kind or a
/// place that cannot be read ends the installation, and only then is there a folder to
/// keep what is replaced.
pub proof fn every_place_is_looked_at_first(
    view: InstallView,
    next: usize,
    found: Found,
    cause: std::io::Error,
)
    requires
        view.phase == (Phase::Checking { next }),
        next < view.artifacts.len(),
    ensures
        ({
            let after = view.after(Reply::Entry(found));
            let kind = view.artifacts[next as int].kind;
            let fits = found is Missing || (found is File && kind is File) || (found is Folder
                && kind is Directory);
            &&& view.step() == (StepView::Inspect {
                path: view.artifacts[next as int].destination,
            })
            &&& found == Found::Unreadable(cause) ==> after.phase is Finished && after.refused
                == Some(Refused::Unreadable(cause))
            &&& !fits && found !is Unreadable ==> after.phase is Finished && after.refused == Some(
                Refused::Unsafe,
            )
            &&& fits && next + 1 < view.artifacts.len() ==> after.phase == (Phase::Checking {
                next: (next + 1) as usize,
            }) && after.refused == view.refused
            &&& fits && next + 1 == view.artifacts.len() ==> after.phase is MakingFolder
                && after.refused == view.refused
            &&& after.saved == view.saved && after.installed == view.installed
        }),
{
}

/// What stands in the way is kept under a number of its own, before anything else takes
/// its place; where nothing stands, nothing is kept.
pub proof fn what_stands_in_the_way_is_kept(view: InstallView, next: usize, found: Found)
    requires
        view.phase == (Phase::Looking { next }),
        next < view.artifacts.len(),
        view.artifacts.len() <= usize::MAX,
    ensures
        ({
            let after = view.after(Reply::Entry(found));
            let place = view.artifacts[next as int].destination;
            &&& view.step() == (StepView::Inspect { path: place })
            &&& found is File || found is Folder || found is Link || found is Other ==> after.step()
                == (StepView::Move {
                from: place,
                to: path::joined(
                    view.backup_folder,
                    "artifact-"@ + text::padded(next as nat, 4),
                ),
            }) && after.after(Reply::Done).saved == view.saved.push(next as int)
            &&& found is Missing || found is Unreadable ==> after.saved == view.saved && (next + 1
                < view.artifacts.len() ==> after.phase == (Phase::Looking {
                next: (next + 1) as usize,
            }))
        }),
{
    lemma_installing(view, 0);
    let saving = view.after(Reply::Entry(found));
    if transaction::is_there(found) {
        let kept = InstallView { saved: view.saved.push(next as int), ..saving };
        lemma_installing(kept, 0);
    }
}

proof fn lemma_installing(view: InstallView, next: int)
    ensures
        view.installing_from(next).saved == view.saved,
        view.installing_from(next).installed == view.installed,
    decreases view.artifacts.len() - next,
{
    if 0 <= next < view.artifacts.len() && view.artifacts[next].staged is None {
        lemma_installing(view, next + 1);
    }
}

/// What was put together moves to its place; where that fails, what was put in place
/// goes, the last first, and then what was kept comes back, the last first.
pub proof fn a_failure_is_undone_backwards(view: InstallView, cause: std::io::Error)
    requires
        view.phase is Installing || view.phase is Saving,
        view.installed.len() <= usize::MAX,
        view.saved.len() <= usize::MAX,
    ensures
        ({
            let after = view.after(Reply::Failed(cause));
            &&& after.failed
            &&& view.installed.len() > 0 ==> after.step() == (StepView::Remove {
                path: view.artifacts[view.installed.last()].destination,
            })
            &&& view.installed.len() == 0 && view.saved.len() > 0 ==> after.step() == (
            StepView::Move {
                from: transaction::backup_path(view.backup_folder, view.saved.last()),
                to: view.artifacts[view.saved.last()].destination,
            })
            &&& view.installed.len() == 0 && view.saved.len() == 0 ==> after.phase is Finished
        }),
{
}

/// Undoing goes on to its end, whatever fails in it, and remembers that something did.
pub proof fn undoing_goes_on(view: InstallView, left: usize, cause: std::io::Error)
    requires
        view.phase == (Phase::Removing { left }) || view.phase == (Phase::Restoring { left }),
        left > 0,
        view.failed,
        view.saved.len() <= usize::MAX,
    ensures
        view.after(Reply::Failed(cause)).undo_failed,
        view.after(Reply::Done).undo_failed == view.undo_failed,
        view.after(Reply::Done).failed && view.after(Reply::Failed(cause)).failed,
        view.after(Reply::Failed(cause)).phase == view.after(Reply::Done).phase,
        left > 1 && view.phase is Removing ==> view.after(Reply::Done).phase == (Phase::Removing {
            left: (left - 1) as usize,
        }),
        left == 1 && view.phase is Removing && view.saved.len() > 0 ==> view.after(
            Reply::Done,
        ).phase == (Phase::Restoring { left: view.saved.len() as usize }),
        left > 1 && view.phase is Restoring ==> view.after(Reply::Done).phase == (
        Phase::Restoring { left: (left - 1) as usize }),
        left == 1 && view.phase is Restoring ==> view.after(Reply::Done).phase is Finished,
{
}

/// The first failure is the one that is told.
pub proof fn the_first_failure_is_told(known: std::io::Error, error: std::io::Error)
    ensures
        transaction::first_of(Some(known), error) == Some(known),
        transaction::first_of(None, error) == Some(error),
{
}

/// Where a place is in the way, the error of the first such place is the one that is
/// told.
pub proof fn the_first_place_in_the_way_is_told(
    run: RunView,
    pairs: Vec<FoundPair>,
    place: int,
    error: AppError,
)
    requires
        0 <= place < pairs@.len(),
        forall|k: int|
            0 <= k < place ==> ({
                let check = install::pair_check(
                    (#[trigger] pairs@[k]).output,
                    pairs@[k].media,
                    run.include_media,
                    run.overwrite_existing,
                );
                check is Existing || check is New
            }),
        ({
            let check = install::pair_check(
                pairs@[place].output,
                pairs@[place].media,
                run.include_media,
                run.overwrite_existing,
            );
            check !is Existing && check !is New
        }),
    ensures
        run::is_run_error(run, RunReply::Found(pairs), error) <==> install::is_pair_error(
            install::pair_check(
                pairs@[place].output,
                pairs@[place].media,
                run.include_media,
                run.overwrite_existing,
            ),
            error,
        ),
{
    let media = run.include_media;
    let overwrite = run.overwrite_existing;
    if run::is_run_error(run, RunReply::Found(pairs), error) {
        let k = choose|k: int|
            {
                &&& 0 <= k < pairs@.len()
                &&& install::is_pair_error(
                    install::found_pair_check(#[trigger] pairs@[k], media, overwrite),
                    error,
                )
                &&& forall|j: int|
                    0 <= j < k ==> {
                        let check = install::found_pair_check(
                            #[trigger] pairs@[j],
                            media,
                            overwrite,
                        );
                        check is Existing || check is New
                    }
            };
        if k < place {
            let check = install::found_pair_check(pairs@[k], media, overwrite);
            assert(check is Existing || check is New);
        }
        if place < k {
            let check = install::found_pair_check(pairs@[place], media, overwrite);
            assert(check is Existing || check is New);
        }
    }
    if install::is_pair_error(
        install::found_pair_check(pairs@[place], media, overwrite),
        error,
    ) {
        assert forall|j: int| 0 <= j < place implies {
            let check = install::found_pair_check(#[trigger] pairs@[j], media, overwrite);
            check is Existing || check is New
        } by {}
    }
}

} // verus!
