//! The course of an export: look, put together, put in place, clean up.

use vstd::prelude::*;

use crate::error::AppError;
use crate::install::{self, preflight_destinations, FoundPair};
use crate::names::ExportFormat;
use crate::path::{self, join_path};
use crate::plan::{self, staging_name, ExportPlan, ExportResult, MultiExportResult};
use crate::staging::StagedExport;
use crate::text::{self, copy_texts, join2};

verus! {

/// How the finished export gets to its place.
#[derive(Debug)]
pub enum Goal {
    /// File by file, over what stands there.
    Install,
    /// As a folder of its own, by its new name.
    Rename { to: String },
}

/// How far an export has come.
#[derive(Debug, Clone, Copy, PartialEq, Eq, Structural)]
pub enum RunPhase {
    /// Looking at what stands where the export goes.
    Looking,
    /// Making the folder in which the export is put together.
    MakingFolder { attempt: u32 },
    /// Putting the export together.
    Writing,
    /// Putting the export in place.
    Placing,
    /// Removing the folder in which the export was put together.
    Cleaning,
    Finished,
}

/// What there is to do next.
#[derive(Debug)]
pub enum RunStep {
    Look,
    MakeFolder { path: String },
    Write { folder: String },
    Install { folder: String },
    Rename { from: String, to: String },
    Clean { folder: String },
    Finish,
}

/// What came of it.
pub enum RunReply {
    Found(Vec<FoundPair>),
    Made,
    Taken,
    Failed(std::io::Error),
    Written(StagedExport),
    Placed,
    Refused(AppError),
    Cleaned,
}

/// An export under way.
pub struct ExportRun {
    pub goal: Goal,
    pub parent: String,
    pub process_id: u32,
    pub nonce: String,
    pub include_media: bool,
    pub overwrite_existing: bool,
    pub phase: RunPhase,
    pub folder: Option<String>,
    pub existing: Vec<bool>,
    pub totals: Option<StagedExport>,
    pub error: Option<AppError>,
}

/// An export under way, as mathematics sees it.
#[verifier::ext_equal]
pub struct RunView {
    pub rename_to: Option<Seq<char>>,
    pub parent: Seq<char>,
    pub process_id: u32,
    pub nonce: Seq<char>,
    pub include_media: bool,
    pub overwrite_existing: bool,
    pub phase: RunPhase,
    pub folder: Option<Seq<char>>,
    pub existing: Seq<bool>,
    pub totals: Option<StagedExport>,
    pub failed: bool,
}

/// What there is to do next, as mathematics sees it.
#[verifier::ext_equal]
pub enum RunStepView {
    Look,
    MakeFolder { path: Seq<char> },
    Write { folder: Seq<char> },
    Install { folder: Seq<char> },
    Rename { from: Seq<char>, to: Seq<char> },
    Clean { folder: Seq<char> },
    Finish,
}

impl RunStep {
    pub open spec fn view(&self) -> RunStepView {
        match self {
            RunStep::Look => RunStepView::Look,
            RunStep::MakeFolder { path } => RunStepView::MakeFolder { path: path@ },
            RunStep::Write { folder } => RunStepView::Write { folder: folder@ },
            RunStep::Install { folder } => RunStepView::Install { folder: folder@ },
            RunStep::Rename { from, to } => RunStepView::Rename { from: from@, to: to@ },
            RunStep::Clean { folder } => RunStepView::Clean { folder: folder@ },
            RunStep::Finish => RunStepView::Finish,
        }
    }
}

pub open spec fn goal_path(goal: Goal) -> Option<Seq<char>> {
    match goal {
        Goal::Install => None,
        Goal::Rename { to } => Some(to@),
    }
}

impl ExportRun {
    pub open spec fn view(&self) -> RunView {
        RunView {
            rename_to: goal_path(self.goal),
            parent: self.parent@,
            process_id: self.process_id,
            nonce: self.nonce@,
            include_media: self.include_media,
            overwrite_existing: self.overwrite_existing,
            phase: self.phase,
            folder: text::shown(self.folder),
            existing: self.existing@,
            totals: self.totals,
            failed: self.error is Some,
        }
    }

    pub open spec fn is_well_formed(&self) -> bool {
        self@.is_orderly()
    }
}

/// How often a name for the folder is tried.
pub open spec fn folder_attempts() -> u32 {
    100
}

/// The files that may be written, and which of them exist already.
pub open spec fn are_free(
    pairs: Seq<FoundPair>,
    include_media: bool,
    overwrite_existing: bool,
) -> bool {
    forall|i: int|
        0 <= i < pairs.len() ==> {
            let check = install::found_pair_check(
                #[trigger] pairs[i],
                include_media,
                overwrite_existing,
            );
            check is Existing || check is New
        }
}

pub open spec fn which_exist(
    pairs: Seq<FoundPair>,
    include_media: bool,
    overwrite_existing: bool,
) -> Seq<bool> {
    pairs.map_values(
        |pair: FoundPair|
            install::found_pair_check(pair, include_media, overwrite_existing) is Existing,
    )
}

impl RunView {
    /// The folder in which the export is put together, by attempt.
    pub open spec fn folder_path(self, attempt: u32) -> Seq<char> {
        path::joined(
            self.parent,
            plan::staging_text(self.process_id as nat, self.nonce, attempt as nat),
        )
    }

    /// There is a folder from when it is made until it is removed or renamed, and
    /// totals from when the export was put together.
    pub open spec fn is_orderly(self) -> bool {
        match self.phase {
            RunPhase::Looking => self.folder is None && self.totals is None && !self.failed,
            RunPhase::MakingFolder { attempt } => attempt < folder_attempts() && self.folder
                is None && self.totals is None && !self.failed,
            RunPhase::Writing => self.folder is Some && self.totals is None && !self.failed,
            RunPhase::Placing => self.folder is Some && self.totals is Some && !self.failed,
            RunPhase::Cleaning => self.folder is Some && (self.failed || self.totals is Some),
            RunPhase::Finished => self.folder is None && (self.failed || self.totals is Some),
        }
    }

    /// What there is to do next.
    pub open spec fn step(self) -> RunStepView {
        match self.phase {
            RunPhase::Looking => RunStepView::Look,
            RunPhase::MakingFolder { attempt } => RunStepView::MakeFolder {
                path: self.folder_path(attempt),
            },
            RunPhase::Writing => RunStepView::Write { folder: self.folder->0 },
            RunPhase::Placing => match self.rename_to {
                Some(to) => RunStepView::Rename { from: self.folder->0, to },
                None => RunStepView::Install { folder: self.folder->0 },
            },
            RunPhase::Cleaning => RunStepView::Clean { folder: self.folder->0 },
            RunPhase::Finished => RunStepView::Finish,
        }
    }

    /// The end, where nothing was made that must be removed.
    pub open spec fn given_up(self) -> RunView {
        RunView { phase: RunPhase::Finished, failed: true, ..self }
    }

    /// The export after the reply to a step.
    pub open spec fn after(self, reply: RunReply) -> RunView {
        match (self.phase, reply) {
            (RunPhase::Looking, RunReply::Found(pairs)) => if are_free(
                pairs@,
                self.include_media,
                self.overwrite_existing,
            ) {
                RunView {
                    phase: RunPhase::MakingFolder { attempt: 0 },
                    existing: which_exist(pairs@, self.include_media, self.overwrite_existing),
                    ..self
                }
            } else {
                self.given_up()
            },
            (RunPhase::MakingFolder { attempt }, RunReply::Made) => RunView {
                phase: RunPhase::Writing,
                folder: Some(self.folder_path(attempt)),
                ..self
            },
            (RunPhase::MakingFolder { attempt }, RunReply::Taken) => if attempt + 1
                < folder_attempts() {
                RunView {
                    phase: RunPhase::MakingFolder { attempt: (attempt + 1) as u32 },
                    ..self
                }
            } else {
                self.given_up()
            },
            (RunPhase::MakingFolder { .. }, RunReply::Failed(_)) => self.given_up(),
            (RunPhase::Writing, RunReply::Written(totals)) => RunView {
                phase: RunPhase::Placing,
                totals: Some(totals),
                ..self
            },
            (RunPhase::Writing, RunReply::Refused(_)) => RunView {
                phase: RunPhase::Cleaning,
                failed: true,
                ..self
            },
            (RunPhase::Placing, RunReply::Placed) => if self.rename_to is Some {
                RunView { phase: RunPhase::Finished, folder: None, ..self }
            } else {
                RunView { phase: RunPhase::Cleaning, ..self }
            },
            (RunPhase::Placing, RunReply::Refused(_)) => RunView {
                phase: RunPhase::Cleaning,
                failed: true,
                ..self
            },
            (RunPhase::Placing, RunReply::Failed(_)) => RunView {
                phase: RunPhase::Cleaning,
                failed: true,
                ..self
            },
            (RunPhase::Cleaning, RunReply::Cleaned) => RunView {
                phase: RunPhase::Finished,
                folder: None,
                ..self
            },
            _ => self,
        }
    }
}

/// A reply that answers a step.
pub open spec fn answers(phase: RunPhase, reply: RunReply) -> bool {
    match phase {
        RunPhase::Looking => reply is Found,
        RunPhase::MakingFolder { .. } => reply is Made || reply is Taken || reply is Failed,
        RunPhase::Writing => reply is Written || reply is Refused,
        RunPhase::Placing => reply is Placed || reply is Refused || reply is Failed,
        RunPhase::Cleaning => reply is Cleaned,
        RunPhase::Finished => false,
    }
}

/// `std::io::Error::new` of the kind `AlreadyExists` with a sentence. Nothing is
/// said of the error but that it is one.
#[verifier::external_body]
fn no_name_left() -> (error: std::io::Error) {
    std::io::Error::new(
        std::io::ErrorKind::AlreadyExists,
        "could not reserve a unique staging folder",
    )
}

/// The error that an export ends with, by the reply that ended it.
pub open spec fn is_run_error(run: RunView, reply: RunReply, error: AppError) -> bool {
    match reply {
        RunReply::Found(pairs) => exists|k: int|
            {
                &&& 0 <= k < pairs@.len()
                &&& install::is_pair_error(
                    install::found_pair_check(
                        #[trigger] pairs@[k],
                        run.include_media,
                        run.overwrite_existing,
                    ),
                    error,
                )
                &&& forall|j: int|
                    0 <= j < k ==> {
                        let check = install::found_pair_check(
                            #[trigger] pairs@[j],
                            run.include_media,
                            run.overwrite_existing,
                        );
                        check is Existing || check is New
                    }
            },
        RunReply::Taken => error is CreateExport,
        RunReply::Failed(cause) => if run.phase is Placing {
            error == AppError::FinishExport(cause)
        } else {
            error == AppError::CreateExport(cause)
        },
        RunReply::Refused(cause) => error == cause,
        _ => false,
    }
}

impl ExportRun {
    /// An export into files, over what stands there or not.
    pub fn start(
        parent: String,
        process_id: u32,
        nonce: String,
        include_media: bool,
        overwrite_existing: bool,
    ) -> (run: ExportRun)
        ensures
            run.is_well_formed(),
            run@ == (RunView {
                rename_to: None,
                parent: parent@,
                process_id,
                nonce: nonce@,
                include_media,
                overwrite_existing,
                phase: RunPhase::Looking,
                folder: None,
                existing: Seq::empty(),
                totals: None,
                failed: false,
            }),
    {
        ExportRun {
            goal: Goal::Install,
            parent,
            process_id,
            nonce,
            include_media,
            overwrite_existing,
            phase: RunPhase::Looking,
            folder: None,
            existing: Vec::new(),
            totals: None,
            error: None,
        }
    }

    /// An export into a new folder, for which a free name was found.
    pub fn start_single(
        parent: String,
        process_id: u32,
        nonce: String,
        include_media: bool,
        folder_name: &str,
    ) -> (run: ExportRun)
        ensures
            run.is_well_formed(),
            run@ == (RunView {
                rename_to: Some(path::joined(parent@, folder_name@)),
                parent: parent@,
                process_id,
                nonce: nonce@,
                include_media,
                overwrite_existing: false,
                phase: RunPhase::MakingFolder { attempt: 0 },
                folder: None,
                existing: Seq::empty(),
                totals: None,
                failed: false,
            }),
    {
        let to = join_path(parent.as_str(), folder_name);
        ExportRun {
            goal: Goal::Rename { to },
            parent,
            process_id,
            nonce,
            include_media,
            overwrite_existing: false,
            phase: RunPhase::MakingFolder { attempt: 0 },
            folder: None,
            existing: Vec::new(),
            totals: None,
            error: None,
        }
    }

    fn make_folder_path(&self, attempt: u32) -> (path: String)
        ensures
            path@ == self@.folder_path(attempt),
    {
        join_path(
            self.parent.as_str(),
            staging_name(self.process_id, self.nonce.as_str(), attempt).as_str(),
        )
    }

    fn made_folder(&self) -> (folder: String)
        requires
            self.folder is Some,
        ensures
            folder@ == self@.folder->0,
    {
        match &self.folder {
            Some(folder) => folder.clone(),
            None => String::new(),
        }
    }

    /// What there is to do next.
    pub fn step(&self) -> (step: RunStep)
        requires
            self.is_well_formed(),
        ensures
            step@ == self@.step(),
    {
        match self.phase {
            RunPhase::Looking => RunStep::Look,
            RunPhase::MakingFolder { attempt } => RunStep::MakeFolder {
                path: self.make_folder_path(attempt),
            },
            RunPhase::Writing => RunStep::Write { folder: self.made_folder() },
            RunPhase::Placing => match &self.goal {
                Goal::Rename { to } => RunStep::Rename {
                    from: self.made_folder(),
                    to: to.clone(),
                },
                Goal::Install => RunStep::Install { folder: self.made_folder() },
            },
            RunPhase::Cleaning => RunStep::Clean { folder: self.made_folder() },
            RunPhase::Finished => RunStep::Finish,
        }
    }

    /// Takes the reply to a step.
    pub fn advance(&mut self, reply: RunReply)
        requires
            old(self).is_well_formed(),
            answers(old(self).phase, reply),
        ensures
            final(self).is_well_formed(),
            final(self)@ == old(self)@.after(reply),
            final(self).error is Some && old(self).error is None ==> is_run_error(
                old(self)@,
                reply,
                final(self).error->0,
            ),
            old(self).error is Some ==> final(self).error == old(self).error,
    {
        let ghost before = self@;
        match (self.phase, reply) {
            (RunPhase::Looking, RunReply::Found(pairs)) => {
                let ghost held = pairs@;
                match preflight_destinations(pairs, self.include_media, self.overwrite_existing) {
                    Ok(existing) => {
                        assert(existing@ =~= which_exist(
                            held,
                            before.include_media,
                            before.overwrite_existing,
                        )) by {
                            assert forall|i: int| 0 <= i < held.len() implies existing@[i] == (
                            #[trigger] which_exist(
                                held,
                                before.include_media,
                                before.overwrite_existing,
                            )[i]) by {
                                let pair = held[i];
                            }
                        }
                        self.existing = existing;
                        self.phase = RunPhase::MakingFolder { attempt: 0 };
                    },
                    Err(error) => {
                        self.error = Some(error);
                        self.phase = RunPhase::Finished;
                    },
                }
            },
            (RunPhase::MakingFolder { attempt }, RunReply::Made) => {
                self.folder = Some(self.make_folder_path(attempt));
                self.phase = RunPhase::Writing;
            },
            (RunPhase::MakingFolder { attempt }, RunReply::Taken) => {
                if attempt + 1 < 100 {
                    self.phase = RunPhase::MakingFolder { attempt: attempt + 1 };
                } else {
                    self.error = Some(AppError::CreateExport(no_name_left()));
                    self.phase = RunPhase::Finished;
                }
            },
            (RunPhase::MakingFolder { .. }, RunReply::Failed(error)) => {
                self.error = Some(AppError::CreateExport(error));
                self.phase = RunPhase::Finished;
            },
            (RunPhase::Writing, RunReply::Written(totals)) => {
                self.totals = Some(totals);
                self.phase = RunPhase::Placing;
            },
            (RunPhase::Writing, RunReply::Refused(error)) => {
                self.error = Some(error);
                self.phase = RunPhase::Cleaning;
            },
            (RunPhase::Placing, RunReply::Placed) => {
                match &self.goal {
                    Goal::Rename { .. } => {
                        self.folder = None;
                        self.phase = RunPhase::Finished;
                    },
                    Goal::Install => {
                        self.phase = RunPhase::Cleaning;
                    },
                }
            },
            (RunPhase::Placing, RunReply::Refused(error)) => {
                self.error = Some(error);
                self.phase = RunPhase::Cleaning;
            },
            (RunPhase::Placing, RunReply::Failed(error)) => {
                self.error = Some(AppError::FinishExport(error));
                self.phase = RunPhase::Cleaning;
            },
            (RunPhase::Cleaning, RunReply::Cleaned) => {
                self.folder = None;
                self.phase = RunPhase::Finished;
            },
            _ => {},
        }
        assert(self@ =~= before.after(reply));
    }

    /// What came of the export.
    pub fn outcome(self) -> (result: Result<StagedExport, AppError>)
        requires
            self.is_well_formed(),
            self.phase is Finished,
        ensures
            match result {
                Ok(totals) => !self@.failed && self@.totals == Some(totals),
                Err(error) => self.error == Some(error),
            },
    {
        match (self.error, self.totals) {
            (Some(error), _) => Err(error),
            (None, Some(totals)) => Ok(totals),
            (None, None) => {
                assert(false);
                Ok(StagedExport { messages_exported: 0, media_copied: 0, media_missing: 0 })
            },
        }
    }
}

// ---------------------------------------------------------------------------
// Results
// ---------------------------------------------------------------------------

/// The result of an export into files.
pub fn multi_result(plan: &ExportPlan, totals: StagedExport) -> (result: MultiExportResult)
    ensures
        text::texts(result.output_files@) == text::texts(plan.output_files@),
        result.messages_exported == totals.messages_exported,
        result.media_copied == totals.media_copied,
        result.media_missing == totals.media_missing,
{
    MultiExportResult {
        output_files: copy_texts(&plan.output_files),
        messages_exported: totals.messages_exported,
        media_copied: totals.media_copied,
        media_missing: totals.media_missing,
    }
}

/// The result of an export into a new folder.
pub fn single_result(folder: String, format: ExportFormat, totals: StagedExport) -> (result:
    ExportResult)
    ensures
        result.output_directory@ == folder@,
        result.output_file@ == path::joined(folder@, "conversation."@ + format.extension_text()),
        result.messages_exported == totals.messages_exported,
        result.media_copied == totals.media_copied,
        result.media_missing == totals.media_missing,
{
    let output_file = join_path(
        folder.as_str(),
        join2("conversation.", format.extension()).as_str(),
    );
    ExportResult {
        output_directory: folder,
        output_file,
        messages_exported: totals.messages_exported,
        media_copied: totals.media_copied,
        media_missing: totals.media_missing,
    }
}

// ---------------------------------------------------------------------------
// Laws
// ---------------------------------------------------------------------------

/// The folder in which the export is put together is there or not.
pub open spec fn folder_is_left(left: bool, step: RunStepView, reply: RunReply) -> bool {
    match (step, reply) {
        (RunStepView::MakeFolder { .. }, RunReply::Made) => true,
        (RunStepView::Rename { .. }, RunReply::Placed) => false,
        (RunStepView::Clean { .. }, RunReply::Cleaned) => false,
        _ => left,
    }
}

/// The run knows whether the folder in which the export is put together is there,
/// so that at the end it never is.
pub proof fn the_staging_folder_never_stays(run: RunView, reply: RunReply, left: bool)
    requires
        run.is_orderly(),
        answers(run.phase, reply),
        left == (run.folder is Some),
    ensures
        run.after(reply).is_orderly(),
        folder_is_left(left, run.step(), reply) == (run.after(reply).folder is Some),
        run.after(reply).phase is Finished ==> !folder_is_left(left, run.step(), reply),
{
}

/// Nothing is put in place before the whole export was put together, and nothing
/// of an export that was refused.
pub proof fn only_a_whole_export_is_put_in_place(run: RunView)
    requires
        run.is_orderly(),
        run.step() is Install || run.step() is Rename,
    ensures
        run.totals is Some,
        !run.failed,
{
}

/// A bound on the steps that are left.
pub open spec fn steps_left(run: RunView) -> int {
    match run.phase {
        RunPhase::Looking => 105,
        RunPhase::MakingFolder { attempt } => 104 - attempt,
        RunPhase::Writing => 3,
        RunPhase::Placing => 2,
        RunPhase::Cleaning => 1,
        RunPhase::Finished => 0,
    }
}

/// Every export comes to an end: each step leaves fewer steps.
pub proof fn a_run_comes_to_an_end(run: RunView, reply: RunReply)
    requires
        run.is_orderly(),
        answers(run.phase, reply),
    ensures
        0 <= steps_left(run.after(reply)) < steps_left(run),
{
}

/// A run after a series of replies, and whether the folder in which the export is
/// put together is there.
pub open spec fn after_all(run: RunView, replies: Seq<RunReply>) -> (RunView, bool)
    decreases replies.len(),
{
    if replies.len() == 0 {
        (run, false)
    } else {
        let (before, left) = after_all(run, replies.drop_last());
        (before.after(replies.last()), folder_is_left(left, before.step(), replies.last()))
    }
}

/// Each of a series of replies answers the step that it is a reply to.
pub open spec fn are_answers(run: RunView, replies: Seq<RunReply>) -> bool
    decreases replies.len(),
{
    replies.len() == 0 || (are_answers(run, replies.drop_last()) && answers(
        after_all(run, replies.drop_last()).0.phase,
        replies.last(),
    ))
}

/// However an export turns out, when it ends the folder in which it was put
/// together is gone; and it ends with its totals or with an error.
pub proof fn an_export_ends_cleanly(run: RunView, replies: Seq<RunReply>)
    requires
        run.is_orderly(),
        run.folder is None,
        are_answers(run, replies),
    ensures
        ({
            let (end, left) = after_all(run, replies);
            &&& end.is_orderly()
            &&& left == (end.folder is Some)
            &&& end.phase is Finished ==> !left && (end.failed || end.totals is Some)
        }),
    decreases replies.len(),
{
    if replies.len() > 0 {
        an_export_ends_cleanly(run, replies.drop_last());
        let (before, left) = after_all(run, replies.drop_last());
        the_staging_folder_never_stays(before, replies.last(), left);
    }
}

} // verus!
