//! Putting an export in place in one go: what stood there is kept until all is in
//! place, and put back where something fails.

use vstd::prelude::*;

use crate::error::AppError;
use crate::install::{self, validate_existing_artifact, ArtifactView, Check, Found};
use crate::install::InstallArtifact;
use crate::names::{self, ExportFormat};
use crate::path::{self, join_path};
use crate::plan;
use crate::text::{self, join2, padded_text};

verus! {

/// How far an installation has come.
#[derive(Debug, Clone, Copy, PartialEq, Eq, Structural)]
pub enum Phase {
    /// Looking at what stands in the place of an artifact, before anything moves.
    Checking { next: usize },
    /// Making the folder that keeps what stood in place.
    MakingFolder,
    /// Looking whether there is something to keep.
    Looking { next: usize },
    /// Moving what stands in place to where it is kept.
    Saving { next: usize },
    /// Moving an artifact into place.
    Installing { next: usize },
    /// Undoing: removing the last artifact of those still in place.
    Removing { left: usize },
    /// Undoing: putting back the last of those still kept.
    Restoring { left: usize },
    Finished,
}

/// Why an installation ended before anything moved.
pub enum Refused {
    Unsafe,
    Unreadable(std::io::Error),
    NoFolder(std::io::Error),
}

/// What there is to do next.
#[derive(Debug)]
pub enum InstallStep {
    Inspect { path: String },
    MakeFolder { path: String },
    Move { from: String, to: String },
    Remove { path: String },
    Finish,
}

/// What came of it.
#[derive(Debug)]
pub enum Reply {
    Entry(Found),
    Done,
    Failed(std::io::Error),
}

/// An installation under way.
pub struct Installation {
    pub artifacts: Vec<InstallArtifact>,
    pub backup_folder: String,
    pub saved: Vec<usize>,
    pub installed: Vec<usize>,
    pub phase: Phase,
    pub refusal: Option<AppError>,
    pub failure: Option<std::io::Error>,
    pub undo_failure: Option<std::io::Error>,
    pub refused: Ghost<Option<Refused>>,
}

/// An installation under way, as mathematics sees it. `saved` and `installed`
/// hold the positions of artifacts.
#[verifier::ext_equal]
pub struct InstallView {
    pub artifacts: Seq<ArtifactView>,
    pub backup_folder: Seq<char>,
    pub saved: Seq<int>,
    pub installed: Seq<int>,
    pub phase: Phase,
    pub refused: Option<Refused>,
    pub failed: bool,
    pub undo_failed: bool,
}

/// What there is to do next, as mathematics sees it.
#[verifier::ext_equal]
pub enum StepView {
    Inspect { path: Seq<char> },
    MakeFolder { path: Seq<char> },
    Move { from: Seq<char>, to: Seq<char> },
    Remove { path: Seq<char> },
    Finish,
}

impl InstallStep {
    pub open spec fn view(&self) -> StepView {
        match self {
            InstallStep::Inspect { path } => StepView::Inspect { path: path@ },
            InstallStep::MakeFolder { path } => StepView::MakeFolder { path: path@ },
            InstallStep::Move { from, to } => StepView::Move { from: from@, to: to@ },
            InstallStep::Remove { path } => StepView::Remove { path: path@ },
            InstallStep::Finish => StepView::Finish,
        }
    }
}

pub open spec fn positions(held: Seq<usize>) -> Seq<int> {
    held.map_values(|position: usize| position as int)
}

/// Where what stood in the place of an artifact is kept.
pub open spec fn backup_path(folder: Seq<char>, position: int) -> Seq<char> {
    path::joined(folder, "artifact-"@ + text::padded(position as nat, 4))
}

impl Installation {
    pub open spec fn view(&self) -> InstallView {
        InstallView {
            artifacts: install::shown_artifacts(self.artifacts@),
            backup_folder: self.backup_folder@,
            saved: positions(self.saved@),
            installed: positions(self.installed@),
            phase: self.phase,
            refused: self.refused@,
            failed: self.failure is Some,
            undo_failed: self.undo_failure is Some,
        }
    }

    /// The error that was kept is the one that the refusal stands for.
    pub open spec fn is_well_formed(&self) -> bool {
        &&& self@.is_orderly()
        &&& match (self.refused@, self.refusal) {
            (None, None) => true,
            (Some(Refused::Unsafe), Some(error)) => error is UnsafeDestination,
            (Some(Refused::Unreadable(cause)), Some(error)) => error == AppError::FinishExport(
                cause,
            ),
            (Some(Refused::NoFolder(cause)), Some(error)) => error == AppError::FinishExport(cause),
            _ => false,
        }
    }
}

/// Positions below a bound, each greater than the one before.
pub open spec fn ascends(held: Seq<int>, bound: int) -> bool {
    &&& forall|i: int| 0 <= i < held.len() ==> 0 <= #[trigger] held[i] < bound
    &&& forall|i: int, j: int| 0 <= i < j < held.len() ==> #[trigger] held[i] < #[trigger] held[j]
}

impl InstallView {
    /// How far the saving has come.
    pub open spec fn save_bound(self) -> int {
        match self.phase {
            Phase::Checking { .. } => 0,
            Phase::MakingFolder => 0,
            Phase::Looking { next } => next as int,
            Phase::Saving { next } => next as int,
            _ => self.artifacts.len() as int,
        }
    }

    /// How far the installing has come.
    pub open spec fn install_bound(self) -> int {
        match self.phase {
            Phase::Checking { .. } => 0,
            Phase::MakingFolder => 0,
            Phase::Looking { .. } => 0,
            Phase::Saving { .. } => 0,
            Phase::Installing { next } => next as int,
            _ => self.artifacts.len() as int,
        }
    }

    /// The artifacts below a bound that were put together are installed.
    pub open spec fn installs_below(self, bound: int) -> bool {
        forall|i: int|
            0 <= i < bound && (#[trigger] self.artifacts[i]).staged is Some
                ==> self.installed.contains(i)
    }

    /// The phase points to something, and the lists are those of the artifacts
    /// that were passed.
    pub open spec fn is_orderly(self) -> bool {
        &&& ascends(self.saved, self.save_bound())
        &&& ascends(self.installed, self.install_bound())
        &&& forall|i: int|
            0 <= i < self.installed.len() ==> self.artifacts[#[trigger] self.installed[i]].staged
                is Some
        &&& match self.phase {
            Phase::Checking { next } => next < self.artifacts.len(),
            Phase::Looking { next } => next < self.artifacts.len(),
            Phase::Saving { next } => next < self.artifacts.len(),
            Phase::Installing { next } => next < self.artifacts.len()
                && self.artifacts[next as int].staged is Some,
            Phase::Removing { left } => 0 < left <= self.installed.len(),
            Phase::Restoring { left } => 0 < left <= self.saved.len(),
            _ => true,
        }
        &&& match self.phase {
            Phase::Checking { .. } => self.refused is None && !self.failed && !self.undo_failed,
            Phase::MakingFolder => self.refused is None && !self.failed && !self.undo_failed,
            Phase::Looking { .. } => self.refused is None && !self.failed && !self.undo_failed,
            Phase::Saving { .. } => self.refused is None && !self.failed && !self.undo_failed,
            Phase::Installing { .. } => self.refused is None && !self.failed && !self.undo_failed,
            Phase::Removing { .. } => self.refused is None && self.failed,
            Phase::Restoring { .. } => self.refused is None && self.failed,
            Phase::Finished => self.refused is Some ==> !self.failed && self.saved.len() == 0
                && self.installed.len() == 0,
        }
        &&& match self.phase {
            Phase::Installing { next } => self.installs_below(next as int),
            Phase::Finished => self.failed || self.refused is Some || self.installs_below(
                self.artifacts.len() as int,
            ),
            _ => true,
        }
    }

    /// What there is to do next.
    pub open spec fn step(self) -> StepView {
        match self.phase {
            Phase::Checking { next } => StepView::Inspect {
                path: self.artifacts[next as int].destination,
            },
            Phase::MakingFolder => StepView::MakeFolder { path: self.backup_folder },
            Phase::Looking { next } => StepView::Inspect {
                path: self.artifacts[next as int].destination,
            },
            Phase::Saving { next } => StepView::Move {
                from: self.artifacts[next as int].destination,
                to: backup_path(self.backup_folder, next as int),
            },
            Phase::Installing { next } => StepView::Move {
                from: self.artifacts[next as int].staged->0,
                to: self.artifacts[next as int].destination,
            },
            Phase::Removing { left } => StepView::Remove {
                path: self.artifacts[self.installed[left - 1]].destination,
            },
            Phase::Restoring { left } => StepView::Move {
                from: backup_path(self.backup_folder, self.saved[left - 1]),
                to: self.artifacts[self.saved[left - 1]].destination,
            },
            Phase::Finished => StepView::Finish,
        }
    }

    /// The first artifact from a position on that was put together.
    pub open spec fn installing_from(self, next: int) -> InstallView
        decreases self.artifacts.len() - next,
    {
        if next < 0 || next >= self.artifacts.len() {
            InstallView { phase: Phase::Finished, ..self }
        } else if self.artifacts[next].staged is Some {
            InstallView { phase: Phase::Installing { next: next as usize }, ..self }
        } else {
            self.installing_from(next + 1)
        }
    }

    pub open spec fn looking_from(self, next: int) -> InstallView {
        if next < self.artifacts.len() {
            InstallView { phase: Phase::Looking { next: next as usize }, ..self }
        } else {
            self.installing_from(0)
        }
    }

    pub open spec fn restoring(self) -> InstallView {
        if self.saved.len() > 0 {
            InstallView { phase: Phase::Restoring { left: self.saved.len() as usize }, ..self }
        } else {
            InstallView { phase: Phase::Finished, ..self }
        }
    }

    /// The start of undoing.
    pub open spec fn undoing(self) -> InstallView {
        let failed = InstallView { failed: true, ..self };
        if self.installed.len() > 0 {
            InstallView {
                phase: Phase::Removing { left: self.installed.len() as usize },
                ..failed
            }
        } else {
            failed.restoring()
        }
    }

    /// The installation after the reply to a step.
    pub open spec fn after(self, reply: Reply) -> InstallView {
        match (self.phase, reply) {
            (Phase::Checking { next }, Reply::Entry(found)) => match install::entry_check(
                found,
                self.artifacts[next as int].kind,
            ) {
                Check::Unsafe => InstallView {
                    phase: Phase::Finished,
                    refused: Some(Refused::Unsafe),
                    ..self
                },
                Check::Unreadable(cause) => InstallView {
                    phase: Phase::Finished,
                    refused: Some(Refused::Unreadable(cause)),
                    ..self
                },
                _ => InstallView {
                    phase: if next + 1 < self.artifacts.len() {
                        Phase::Checking { next: (next + 1) as usize }
                    } else {
                        Phase::MakingFolder
                    },
                    ..self
                },
            },
            (Phase::MakingFolder, Reply::Done) => self.looking_from(0),
            (Phase::MakingFolder, Reply::Failed(cause)) => InstallView {
                phase: Phase::Finished,
                refused: Some(Refused::NoFolder(cause)),
                ..self
            },
            (Phase::Looking { next }, Reply::Entry(found)) => if is_there(found) {
                InstallView { phase: Phase::Saving { next }, ..self }
            } else {
                self.looking_from(next + 1)
            },
            (Phase::Saving { next }, Reply::Done) => InstallView {
                saved: self.saved.push(next as int),
                ..self
            }.looking_from(next + 1),
            (Phase::Saving { .. }, Reply::Failed(_)) => self.undoing(),
            (Phase::Installing { next }, Reply::Done) => InstallView {
                installed: self.installed.push(next as int),
                ..self
            }.installing_from(next + 1),
            (Phase::Installing { .. }, Reply::Failed(_)) => self.undoing(),
            (Phase::Removing { left }, result) => {
                let marked = InstallView {
                    undo_failed: self.undo_failed || result is Failed,
                    ..self
                };
                if left > 1 {
                    InstallView { phase: Phase::Removing { left: (left - 1) as usize }, ..marked }
                } else {
                    marked.restoring()
                }
            },
            (Phase::Restoring { left }, result) => {
                let marked = InstallView {
                    undo_failed: self.undo_failed || result is Failed,
                    ..self
                };
                if left > 1 {
                    InstallView { phase: Phase::Restoring { left: (left - 1) as usize }, ..marked }
                } else {
                    InstallView { phase: Phase::Finished, ..marked }
                }
            },
            _ => self,
        }
    }
}

/// The first failure of those so far and one more.
pub open spec fn first_of(known: Option<std::io::Error>, error: std::io::Error) -> Option<
    std::io::Error,
> {
    if known is Some {
        known
    } else {
        Some(error)
    }
}

/// Something stands at a path that was looked at.
pub open spec fn is_there(found: Found) -> bool {
    !(found is Missing) && !(found is Unreadable)
}

/// A reply that answers a step.
pub open spec fn answers(phase: Phase, reply: Reply) -> bool {
    match phase {
        Phase::Checking { .. } => reply is Entry,
        Phase::Looking { .. } => reply is Entry,
        Phase::Finished => false,
        _ => reply is Done || reply is Failed,
    }
}

// ---------------------------------------------------------------------------
// The installation as it runs
// ---------------------------------------------------------------------------

proof fn lemma_installing_from(view: InstallView, next: int)
    requires
        0 <= next <= view.artifacts.len(),
        view.artifacts.len() <= usize::MAX,
        ascends(view.saved, view.artifacts.len() as int),
        ascends(view.installed, next),
        forall|i: int|
            0 <= i < view.installed.len() ==> view.artifacts[#[trigger] view.installed[i]].staged
                is Some,
        view.installs_below(next),
        view.refused is None,
        !view.failed,
        !view.undo_failed,
    ensures
        view.installing_from(next).is_orderly(),
    decreases view.artifacts.len() - next,
{
    if next < view.artifacts.len() && view.artifacts[next].staged is None {
        assert(ascends(view.installed, next + 1)) by {
            assert forall|i: int| 0 <= i < view.installed.len() implies 0
                <= #[trigger] view.installed[i] < next + 1 by {}
        }
        lemma_installing_from(view, next + 1);
    }
}

proof fn lemma_step_stays_orderly(view: InstallView, reply: Reply)
    requires
        view.is_orderly(),
        view.artifacts.len() <= usize::MAX,
        answers(view.phase, reply),
    ensures
        view.after(reply).is_orderly(),
        view.after(reply).artifacts == view.artifacts,
        view.after(reply).backup_folder == view.backup_folder,
{
    let count = view.artifacts.len() as int;
    lemma_installing_keeps_artifacts(view, 0);
    lemma_ascends_len(view.saved, view.save_bound());
    lemma_ascends_len(view.installed, view.install_bound());
    match (view.phase, reply) {
        (Phase::MakingFolder, Reply::Done) => {
            if count == 0 {
                lemma_installing_from(view, 0);
            }
        },
        (Phase::Looking { next }, Reply::Entry(found)) => {
            if !is_there(found) {
                assert(ascends(view.saved, next + 1)) by {
                    assert forall|i: int| 0 <= i < view.saved.len() implies 0
                        <= #[trigger] view.saved[i] < next + 1 by {}
                }
                if next + 1 >= count {
                    lemma_installing_from(view, 0);
                }
            }
        },
        (Phase::Saving { next }, Reply::Done) => {
            let more = InstallView { saved: view.saved.push(next as int), ..view };
            lemma_pushed_position(view.saved, next as int);
            lemma_installing_keeps_artifacts(more, 0);
            if next + 1 >= count {
                lemma_installing_from(more, 0);
            }
        },
        (Phase::Saving { next }, Reply::Failed(_)) => {
            lemma_wider_bound(view.saved, next as int, count);
        },
        (Phase::Installing { next }, Reply::Done) => {
            let more = InstallView { installed: view.installed.push(next as int), ..view };
            lemma_pushed_position(view.installed, next as int);
            assert forall|i: int| 0 <= i < more.installed.len() implies more.artifacts[
            #[trigger] more.installed[i]].staged is Some by {
                if i < view.installed.len() {
                    assert(more.installed[i] == view.installed[i]);
                }
            }
            lemma_push_contains(view.installed, next as int);
            assert(more.installs_below(next + 1)) by {
                assert forall|i: int|
                    0 <= i < next + 1 && (#[trigger] more.artifacts[i]).staged is Some implies
                    more.installed.contains(i) by {
                    if i < next {
                        assert(view.artifacts[i].staged is Some);
                        assert(view.installed.contains(i));
                    }
                }
            }
            lemma_installing_keeps_artifacts(more, next + 1);
            lemma_installing_from(more, next + 1);
        },
        (Phase::Installing { next }, Reply::Failed(_)) => {
            lemma_wider_bound(view.installed, next as int, count);
        },
        _ => {},
    }
}

/// There are no more positions below a bound than the bound allows.
proof fn lemma_ascends_len(held: Seq<int>, bound: int)
    requires
        ascends(held, bound),
        bound >= 0,
    ensures
        held.len() <= bound,
    decreases held.len(),
{
    if held.len() > 0 {
        let rest = held.drop_last();
        assert forall|i: int| 0 <= i < rest.len() implies 0 <= #[trigger] rest[i]
            < held.last() by {
            assert(rest[i] == held[i]);
            assert(held[i] < held[held.len() - 1]);
        }
        assert forall|i: int, j: int| 0 <= i < j < rest.len() implies #[trigger] rest[i]
            < #[trigger] rest[j] by {
            assert(held[i] < held[j]);
        }
        assert(0 <= held[held.len() - 1] < bound);
        lemma_ascends_len(rest, held.last());
    }
}

proof fn lemma_wider_bound(held: Seq<int>, bound: int, wider: int)
    requires
        ascends(held, bound),
        bound <= wider,
    ensures
        ascends(held, wider),
{
    assert forall|i: int| 0 <= i < held.len() implies 0 <= #[trigger] held[i] < wider by {}
}

proof fn lemma_pushed_position(held: Seq<int>, position: int)
    requires
        ascends(held, position),
        position >= 0,
    ensures
        ascends(held.push(position), position + 1),
{
    let more = held.push(position);
    assert forall|i: int| 0 <= i < more.len() implies 0 <= #[trigger] more[i] < position + 1 by {
        if i < held.len() {
            assert(more[i] == held[i]);
        }
    }
    assert forall|i: int, j: int| 0 <= i < j < more.len() implies #[trigger] more[i]
        < #[trigger] more[j] by {
        assert(more[i] == held[i]);
        if j < held.len() {
            assert(more[j] == held[j]);
        }
    }
}

proof fn lemma_installing_keeps_artifacts(view: InstallView, next: int)
    ensures
        view.installing_from(next).artifacts == view.artifacts,
        view.installing_from(next).backup_folder == view.backup_folder,
        view.installing_from(next).saved == view.saved,
        view.installing_from(next).installed == view.installed,
        view.installing_from(next).refused == view.refused,
        view.installing_from(next).failed == view.failed,
        view.installing_from(next).undo_failed == view.undo_failed,
    decreases view.artifacts.len() - next,
{
    if 0 <= next < view.artifacts.len() && view.artifacts[next].staged is None {
        lemma_installing_keeps_artifacts(view, next + 1);
    }
}

impl Installation {
    /// An installation of some artifacts, with the folder in which the export was
    /// put together.
    pub fn start(staging_directory: &str, artifacts: Vec<InstallArtifact>) -> (installation:
        Installation)
        ensures
            installation.is_well_formed(),
            installation@ == (InstallView {
                artifacts: install::shown_artifacts(artifacts@),
                backup_folder: path::joined(staging_directory@, "backups"@),
                saved: Seq::empty(),
                installed: Seq::empty(),
                phase: if artifacts@.len() > 0 {
                    Phase::Checking { next: 0 }
                } else {
                    Phase::MakingFolder
                },
                refused: None,
                failed: false,
                undo_failed: false,
            }),
    {
        let phase = if artifacts.len() > 0 {
            Phase::Checking { next: 0 }
        } else {
            Phase::MakingFolder
        };
        let installation = Installation {
            artifacts,
            backup_folder: join_path(staging_directory, "backups"),
            saved: Vec::new(),
            installed: Vec::new(),
            phase,
            refusal: None,
            failure: None,
            undo_failure: None,
            refused: Ghost(None),
        };
        assert(installation@.saved =~= Seq::<int>::empty());
        assert(installation@.installed =~= Seq::<int>::empty());
        installation
    }

    fn make_backup_path(&self, position: usize) -> (kept: String)
        ensures
            kept@ == backup_path(self.backup_folder@, position as int),
    {
        let name = join2("artifact-", padded_text(position as u64, 4).as_str());
        join_path(self.backup_folder.as_str(), name.as_str())
    }

    /// What there is to do next.
    pub fn step(&self) -> (step: InstallStep)
        requires
            self.is_well_formed(),
        ensures
            step@ == self@.step(),
    {
        assert(self@.artifacts.len() == self.artifacts@.len());
        match self.phase {
            Phase::Checking { next } => {
                assert(self@.artifacts[next as int] == self.artifacts@[next as int]@);
                InstallStep::Inspect { path: self.artifacts[next].destination.clone() }
            },
            Phase::MakingFolder => InstallStep::MakeFolder { path: self.backup_folder.clone() },
            Phase::Looking { next } => {
                assert(self@.artifacts[next as int] == self.artifacts@[next as int]@);
                InstallStep::Inspect { path: self.artifacts[next].destination.clone() }
            },
            Phase::Saving { next } => {
                assert(self@.artifacts[next as int] == self.artifacts@[next as int]@);
                InstallStep::Move {
                    from: self.artifacts[next].destination.clone(),
                    to: self.make_backup_path(next),
                }
            },
            Phase::Installing { next } => {
                assert(self@.artifacts[next as int] == self.artifacts@[next as int]@);
                match &self.artifacts[next].staged {
                    Some(staged) => InstallStep::Move {
                        from: staged.clone(),
                        to: self.artifacts[next].destination.clone(),
                    },
                    None => InstallStep::Finish,
                }
            },
            Phase::Removing { left } => {
                let position: usize = self.installed[left - 1];
                assert(self@.installed[left - 1] == position as int);
                assert(self@.artifacts[position as int] == self.artifacts@[position as int]@);
                InstallStep::Remove { path: self.artifacts[position].destination.clone() }
            },
            Phase::Restoring { left } => {
                let position: usize = self.saved[left - 1];
                assert(self@.saved[left - 1] == position as int);
                assert(self@.artifacts[position as int] == self.artifacts@[position as int]@);
                InstallStep::Move {
                    from: self.make_backup_path(position),
                    to: self.artifacts[position].destination.clone(),
                }
            },
            Phase::Finished => InstallStep::Finish,
        }
    }

    fn first_staged(&self, from: usize) -> (phase: Phase)
        requires
            from <= self.artifacts@.len(),
        ensures
            phase == self@.installing_from(from as int).phase,
    {
        let mut next: usize = from;
        assert(self@.artifacts.len() == self.artifacts@.len());
        while next < self.artifacts.len()
            invariant
                next <= self.artifacts@.len(),
                self@.artifacts.len() == self.artifacts@.len(),
                self@.installing_from(from as int) == self@.installing_from(next as int),
            decreases self.artifacts@.len() - next,
        {
            assert(self@.artifacts[next as int] == self.artifacts@[next as int]@);
            if self.artifacts[next].staged.is_some() {
                return Phase::Installing { next };
            }
            next = next + 1;
        }
        Phase::Finished
    }

    fn first_look(&self, from: usize) -> (phase: Phase)
        requires
            from <= self.artifacts@.len(),
        ensures
            phase == self@.looking_from(from as int).phase,
    {
        if from < self.artifacts.len() {
            Phase::Looking { next: from }
        } else {
            self.first_staged(0)
        }
    }

    fn first_restore(&self) -> (phase: Phase)
        ensures
            phase == self@.restoring().phase,
    {
        if self.saved.len() > 0 {
            Phase::Restoring { left: self.saved.len() }
        } else {
            Phase::Finished
        }
    }

    fn first_undo(&self) -> (phase: Phase)
        ensures
            phase == self@.undoing().phase,
    {
        if self.installed.len() > 0 {
            Phase::Removing { left: self.installed.len() }
        } else {
            self.first_restore()
        }
    }

    fn note_undo(&mut self, reply: Reply)
        requires
            reply is Done || reply is Failed,
        ensures
            final(self)@ == (InstallView {
                undo_failed: old(self)@.undo_failed || reply is Failed,
                ..old(self)@
            }),
            final(self).refusal == old(self).refusal,
            final(self).artifacts == old(self).artifacts,
            final(self).saved == old(self).saved,
            final(self).installed == old(self).installed,
            final(self).failure == old(self).failure,
            final(self).undo_failure == if old(self).undo_failure is Some {
                old(self).undo_failure
            } else if reply is Failed {
                Some(reply->Failed_0)
            } else {
                None
            },
    {
        if let Reply::Failed(error) = reply {
            if self.undo_failure.is_none() {
                self.undo_failure = Some(error);
            }
        }
    }

    /// Takes the reply to a step. Of the errors of undoing the first is kept.
    pub fn advance(&mut self, reply: Reply)
        requires
            old(self).is_well_formed(),
            answers(old(self).phase, reply),
        ensures
            final(self).is_well_formed(),
            final(self)@ == old(self)@.after(reply),
            final(self).failure == match (old(self).phase, reply) {
                (Phase::Saving { .. }, Reply::Failed(error)) => Some(error),
                (Phase::Installing { .. }, Reply::Failed(error)) => Some(error),
                _ => old(self).failure,
            },
            final(self).undo_failure == match (old(self).phase, reply) {
                (Phase::Removing { .. }, Reply::Failed(error)) => first_of(
                    old(self).undo_failure,
                    error,
                ),
                (Phase::Restoring { .. }, Reply::Failed(error)) => first_of(
                    old(self).undo_failure,
                    error,
                ),
                _ => old(self).undo_failure,
            },
    {
        let ghost before = self@;
        let count = self.artifacts.len();
        proof {
            assert(before.artifacts.len() == count);
            lemma_step_stays_orderly(before, reply);
            lemma_installing_keeps_artifacts(before, 0);
        }
        match (self.phase, reply) {
            (Phase::Checking { next }, Reply::Entry(found)) => {
                assert(before.artifacts[next as int] == self.artifacts@[next as int]@);
                let ghost check = install::entry_check(found, before.artifacts[next as int].kind);
                match validate_existing_artifact(found, self.artifacts[next].kind) {
                    Ok(_) => {
                        self.phase = if next + 1 < count {
                            Phase::Checking { next: next + 1 }
                        } else {
                            Phase::MakingFolder
                        };
                    },
                    Err(error) => {
                        self.refusal = Some(error);
                        self.refused = Ghost(
                            Some(
                                if check is Unsafe {
                                    Refused::Unsafe
                                } else {
                                    Refused::Unreadable(check->Unreadable_0)
                                },
                            ),
                        );
                        self.phase = Phase::Finished;
                    },
                }
            },
            (Phase::MakingFolder, Reply::Done) => {
                self.phase = self.first_look(0);
            },
            (Phase::MakingFolder, Reply::Failed(error)) => {
                self.refused = Ghost(Some(Refused::NoFolder(error)));
                self.refusal = Some(AppError::FinishExport(error));
                self.phase = Phase::Finished;
            },
            (Phase::Looking { next }, Reply::Entry(found)) => {
                let there = match found {
                    Found::Missing => false,
                    Found::Unreadable(_) => false,
                    _ => true,
                };
                self.phase = if there {
                    Phase::Saving { next }
                } else {
                    self.first_look(next + 1)
                };
            },
            (Phase::Saving { next }, Reply::Done) => {
                self.saved.push(next);
                let ghost more = InstallView { saved: before.saved.push(next as int), ..before };
                assert(self@ =~= more) by {
                    assert(positions(self.saved@) =~= before.saved.push(next as int));
                }
                proof {
                    lemma_installing_keeps_artifacts(more, 0);
                }
                self.phase = self.first_look(next + 1);
            },
            (Phase::Saving { .. }, Reply::Failed(error)) => {
                self.phase = self.first_undo();
                self.failure = Some(error);
            },
            (Phase::Installing { next }, Reply::Done) => {
                self.installed.push(next);
                let ghost more = InstallView {
                    installed: before.installed.push(next as int),
                    ..before
                };
                assert(self@ =~= more) by {
                    assert(positions(self.installed@) =~= before.installed.push(next as int));
                }
                proof {
                    lemma_installing_keeps_artifacts(more, next + 1);
                }
                self.phase = self.first_staged(next + 1);
            },
            (Phase::Installing { .. }, Reply::Failed(error)) => {
                self.phase = self.first_undo();
                self.failure = Some(error);
            },
            (Phase::Removing { left }, result) => {
                self.note_undo(result);
                self.phase = if left > 1 {
                    Phase::Removing { left: left - 1 }
                } else {
                    self.first_restore()
                };
            },
            (Phase::Restoring { left }, result) => {
                self.note_undo(result);
                self.phase = if left > 1 {
                    Phase::Restoring { left: left - 1 }
                } else {
                    Phase::Finished
                };
            },
            _ => {},
        }
        assert(self@ =~= before.after(reply));
    }
}

/// `std::io::Error::other` with a sentence that names both errors. Nothing is
/// said of the error but that it is one.
#[verifier::external_body]
fn describe_both(failure: &std::io::Error, undoing: &std::io::Error) -> (error: std::io::Error) {
    std::io::Error::other(
        format!(
            "export failed ({failure}); restoring the previous export also failed ({undoing})"
        ),
    )
}

impl Installation {
    /// What came of the installation.
    pub fn outcome(self) -> (result: Result<(), AppError>)
        requires
            self.is_well_formed(),
            self.phase is Finished,
        ensures
            match result {
                Ok(()) => self@.refused is None && !self@.failed,
                Err(error) => match self@.refused {
                    Some(Refused::Unsafe) => error is UnsafeDestination,
                    Some(Refused::Unreadable(cause)) => error == AppError::FinishExport(cause),
                    Some(Refused::NoFolder(cause)) => error == AppError::FinishExport(cause),
                    None => self@.failed && error is FinishExport && (!self@.undo_failed ==> error
                        == AppError::FinishExport(self.failure->0)),
                },
            },
    {
        if let Some(error) = self.refusal {
            return Err(error);
        }
        match self.failure {
            Some(failure) => match self.undo_failure {
                Some(undoing) => Err(AppError::FinishExport(describe_both(&failure, &undoing))),
                None => Err(AppError::FinishExport(failure)),
            },
            None => Ok(()),
        }
    }
}

// ---------------------------------------------------------------------------
// Files, and what the steps do to them
// ---------------------------------------------------------------------------

/// What a path holds: a file or folder, told apart by a number, or nothing.
pub open spec fn at(files: Map<Seq<char>, int>, path: Seq<char>) -> Option<int> {
    if files.contains_key(path) {
        Some(files[path])
    } else {
        None
    }
}

/// The files after a step. A step that failed changes nothing.
pub open spec fn effect(files: Map<Seq<char>, int>, step: StepView, reply: Reply) -> Map<
    Seq<char>,
    int,
> {
    match (step, reply) {
        (StepView::Move { from, to }, Reply::Done) => files.remove(from).insert(to, files[from]),
        (StepView::Remove { path }, Reply::Done) => files.remove(path),
        (StepView::MakeFolder { path }, Reply::Done) => files.insert(path, 0),
        _ => files,
    }
}

/// A reply that is true of the files: something is found where there is
/// something, and only what is there can be moved.
pub open spec fn is_true_of(files: Map<Seq<char>, int>, step: StepView, reply: Reply) -> bool {
    match (step, reply) {
        (StepView::Inspect { path }, Reply::Entry(found)) => is_there(found) == files.contains_key(
            path,
        ),
        (StepView::Move { from, .. }, Reply::Done) => files.contains_key(from),
        _ => true,
    }
}

impl InstallView {
    pub open spec fn destination(self, position: int) -> Seq<char> {
        self.artifacts[position].destination
    }

    pub open spec fn staged(self, position: int) -> Seq<char> {
        self.artifacts[position].staged->0
    }

    pub open spec fn backup(self, position: int) -> Seq<char> {
        backup_path(self.backup_folder, position)
    }

    /// The paths of an installation are apart from each other: no two artifacts
    /// go to one place or were put together in one, none was put together where
    /// one goes, and the folder that keeps what stood in place is used for nothing
    /// else and empty at first.
    pub open spec fn is_apart(self, files: Map<Seq<char>, int>) -> bool {
        let count = self.artifacts.len() as int;
        &&& forall|i: int, j: int|
            0 <= i < count && 0 <= j < count && i != j ==> #[trigger] self.destination(i)
                != #[trigger] self.destination(j)
        &&& forall|i: int, j: int|
            0 <= i < count && 0 <= j < count && i != j && self.artifacts[i].staged is Some
                && self.artifacts[j].staged is Some ==> #[trigger] self.staged(i)
                != #[trigger] self.staged(j)
        &&& forall|i: int, j: int|
            0 <= i < count && 0 <= j < count && self.artifacts[i].staged is Some
                ==> #[trigger] self.staged(i) != #[trigger] self.destination(j)
        &&& forall|i: int, j: int|
            0 <= i < count && 0 <= j < count ==> #[trigger] self.backup(i)
                != #[trigger] self.destination(j)
        &&& forall|i: int, j: int|
            0 <= i < count && 0 <= j < count && self.artifacts[j].staged is Some
                ==> #[trigger] self.backup(i) != #[trigger] self.staged(j)
        &&& forall|i: int| 0 <= i < count ==> !files.contains_key(#[trigger] self.backup(i))
        &&& forall|i: int|
            0 <= i < count ==> #[trigger] self.destination(i) != self.backup_folder
        &&& forall|i: int|
            0 <= i < count && self.artifacts[i].staged is Some ==> #[trigger] self.staged(i)
                != self.backup_folder
        &&& forall|i: int| 0 <= i < count ==> #[trigger] self.backup(i) != self.backup_folder
    }

    /// The artifacts that are in place.
    pub open spec fn in_place(self) -> Seq<int> {
        match self.phase {
            Phase::Removing { left } => self.installed.take(left as int),
            Phase::Restoring { .. } => Seq::empty(),
            Phase::Finished => if self.failed {
                Seq::empty()
            } else {
                self.installed
            },
            _ => self.installed,
        }
    }

    /// The artifacts of which what stood in their place is still kept.
    pub open spec fn kept(self) -> Seq<int> {
        match self.phase {
            Phase::Restoring { left } => self.saved.take(left as int),
            Phase::Finished => if self.failed {
                Seq::empty()
            } else {
                self.saved
            },
            _ => self.saved,
        }
    }

    /// What stood in the places that were passed is kept.
    pub open spec fn has_kept_all(self, first: Map<Seq<char>, int>) -> bool {
        match self.phase {
            Phase::Looking { .. } => self.keeps_below(first, self.save_bound()),
            Phase::Saving { .. } => self.keeps_below(first, self.save_bound()),
            Phase::Installing { .. } => self.keeps_below(first, self.save_bound()),
            Phase::Finished => self.failed || self.refused is Some || self.keeps_below(
                first,
                self.save_bound(),
            ),
            _ => true,
        }
    }

    pub open spec fn keeps_below(self, first: Map<Seq<char>, int>, bound: int) -> bool {
        forall|i: int|
            0 <= i < bound && first.contains_key(#[trigger] self.destination(i))
                ==> self.saved.contains(i)
    }

    /// The files are those that were there at first, but for the artifacts that
    /// are in place and for what is kept.
    pub open spec fn tracks(
        self,
        in_place: Seq<int>,
        kept: Seq<int>,
        first: Map<Seq<char>, int>,
        files: Map<Seq<char>, int>,
    ) -> bool {
        &&& forall|i: int| #[trigger]
            in_place.contains(i) ==> at(files, self.destination(i)) == at(first, self.staged(i))
                && first.contains_key(self.staged(i))
        &&& forall|i: int| #[trigger] self.installed.contains(i) ==> at(files, self.staged(i)) is None
        &&& forall|i: int| #[trigger]
            kept.contains(i) ==> {
                &&& first.contains_key(self.destination(i))
                &&& at(files, self.backup(i)) == at(first, self.destination(i))
                &&& !in_place.contains(i) ==> at(files, self.destination(i)) is None
            }
        &&& forall|i: int| #[trigger]
            self.installed.contains(i) ==> self.saved.contains(i) || !first.contains_key(
                self.destination(i),
            )
        &&& forall|path: Seq<char>|
            {
                &&& path != self.backup_folder
                &&& forall|i: int| #[trigger]
                    in_place.contains(i) ==> path != self.destination(i)
                &&& forall|i: int| #[trigger] kept.contains(i) ==> path != self.destination(i)
                &&& forall|i: int| #[trigger] kept.contains(i) ==> path != self.backup(i)
                &&& forall|i: int| #[trigger] self.installed.contains(i) ==> path != self.staged(i)
            } ==> #[trigger] at(files, path) == at(first, path)
    }

    /// The installation knows what became of the files that were there at first.
    /// Once undoing has failed, nothing is said.
    pub open spec fn knows(self, first: Map<Seq<char>, int>, files: Map<Seq<char>, int>) -> bool {
        self.undo_failed || (self.has_kept_all(first) && self.tracks(
            self.in_place(),
            self.kept(),
            first,
            files,
        ))
    }
}

/// Different positions are kept in different places.
pub proof fn backups_differ(folder: Seq<char>, first: int, second: int)
    requires
        0 <= first,
        0 <= second,
        first != second,
    ensures
        backup_path(folder, first) != backup_path(folder, second),
{
    reveal_strlit("artifact-");
    let a = "artifact-"@ + text::padded(first as nat, 4);
    let b = "artifact-"@ + text::padded(second as nat, 4);
    text::reading_undoes_padding(first as nat, 4);
    text::reading_undoes_padding(second as nat, 4);
    if backup_path(folder, first) == backup_path(folder, second) {
        assert(a[0] == 'a' && b[0] == 'a');
        path::lemma_joined_names(folder, a, b);
        assert(a.skip(9) =~= text::padded(first as nat, 4));
        assert(b.skip(9) =~= text::padded(second as nat, 4));
    }
}

proof fn lemma_push_contains(held: Seq<int>, position: int)
    ensures
        forall|i: int| #[trigger]
            held.push(position).contains(i) == (held.contains(i) || i == position),
{
    let more = held.push(position);
    assert forall|i: int| #[trigger] more.contains(i) == (held.contains(i) || i == position) by {
        if held.contains(i) {
            let k = choose|k: int| 0 <= k < held.len() && held[k] == i;
            assert(more[k] == i);
        }
        if i == position {
            assert(more[held.len() as int] == i);
        }
        if more.contains(i) {
            let k = choose|k: int| 0 <= k < more.len() && more[k] == i;
            if k < held.len() {
                assert(held[k] == i);
            }
        }
    }
}

proof fn lemma_drop_contains(held: Seq<int>, bound: int)
    requires
        held.len() > 0,
        ascends(held, bound),
    ensures
        forall|i: int| #[trigger]
            held.drop_last().contains(i) == (held.contains(i) && i != held.last()),
        held.contains(held.last()),
{
    let fewer = held.drop_last();
    assert(held[held.len() - 1] == held.last());
    assert forall|i: int| #[trigger] fewer.contains(i) == (held.contains(i) && i
        != held.last()) by {
        if fewer.contains(i) {
            let k = choose|k: int| 0 <= k < fewer.len() && fewer[k] == i;
            assert(held[k] == i);
            assert(held[k] < held[held.len() - 1]);
        }
        if held.contains(i) && i != held.last() {
            let k = choose|k: int| 0 <= k < held.len() && held[k] == i;
            assert(fewer[k] == i);
        }
    }
}

/// What stood in the place of an artifact is moved to where it is kept.
proof fn lemma_save(
    view: InstallView,
    position: int,
    first: Map<Seq<char>, int>,
    files: Map<Seq<char>, int>,
)
    requires
        view.is_apart(first),
        0 <= position < view.artifacts.len(),
        ascends(view.saved, position),
        view.installed.len() == 0,
        view.tracks(Seq::empty(), view.saved, first, files),
        files.contains_key(view.destination(position)),
    ensures
        ({
            let more = InstallView { saved: view.saved.push(position), ..view };
            let moved = files.remove(view.destination(position)).insert(
                view.backup(position),
                files[view.destination(position)],
            );
            more.tracks(Seq::empty(), more.saved, first, moved) && first.contains_key(
                view.destination(position),
            )
        }),
{
    let more = InstallView { saved: view.saved.push(position), ..view };
    let from = view.destination(position);
    let to = view.backup(position);
    let moved = files.remove(from).insert(to, files[from]);
    let none = Seq::<int>::empty();
    lemma_push_contains(view.saved, position);
    assert forall|i: int| #[trigger] view.saved.contains(i) implies 0 <= i < position by {
        let k = choose|k: int| 0 <= k < view.saved.len() && view.saved[k] == i;
        assert(0 <= view.saved[k] < position);
    }
    assert(at(files, from) == at(first, from)) by {
        assert forall|i: int| #[trigger] view.saved.contains(i) implies from
            != view.destination(i) && from != view.backup(i) by {}
    }
    assert forall|i: int| #[trigger] more.saved.contains(i) implies {
        &&& first.contains_key(more.destination(i))
        &&& at(moved, more.backup(i)) == at(first, more.destination(i))
        &&& at(moved, more.destination(i)) is None
    } by {
        if i != position {
            assert(view.saved.contains(i));
            backups_differ(view.backup_folder, i, position);
            assert(view.backup(i) != from);
            assert(view.destination(i) != to);
            assert(view.destination(i) != from);
        }
    }
    assert forall|path: Seq<char>|
        {
            &&& path != more.backup_folder
            &&& forall|i: int| #[trigger] none.contains(i) ==> path != more.destination(i)
            &&& forall|i: int| #[trigger] more.saved.contains(i) ==> path != more.destination(i)
            &&& forall|i: int| #[trigger] more.saved.contains(i) ==> path != more.backup(i)
            &&& forall|i: int| #[trigger] more.installed.contains(i) ==> path != more.staged(i)
        } implies #[trigger] at(moved, path) == at(first, path) by {
        assert(more.saved.contains(position));
        assert forall|i: int| #[trigger] view.saved.contains(i) implies path
            != view.destination(i) && path != view.backup(i) by {
            assert(more.saved.contains(i));
        }
        assert(at(files, path) == at(first, path));
    }
}

/// An artifact is moved into place.
proof fn lemma_install(
    view: InstallView,
    position: int,
    first: Map<Seq<char>, int>,
    files: Map<Seq<char>, int>,
)
    requires
        view.is_apart(first),
        0 <= position < view.artifacts.len(),
        view.artifacts[position].staged is Some,
        ascends(view.installed, position),
        ascends(view.saved, view.artifacts.len() as int),
        forall|i: int|
            0 <= i < view.installed.len() ==> view.artifacts[#[trigger] view.installed[i]].staged
                is Some,
        view.keeps_below(first, view.artifacts.len() as int),
        view.tracks(view.installed, view.saved, first, files),
        files.contains_key(view.staged(position)),
    ensures
        ({
            let more = InstallView { installed: view.installed.push(position), ..view };
            let moved = files.remove(view.staged(position)).insert(
                view.destination(position),
                files[view.staged(position)],
            );
            more.tracks(more.installed, more.saved, first, moved)
        }),
{
    let more = InstallView { installed: view.installed.push(position), ..view };
    let from = view.staged(position);
    let to = view.destination(position);
    let moved = files.remove(from).insert(to, files[from]);
    lemma_push_contains(view.installed, position);
    assert forall|i: int| #[trigger] view.installed.contains(i) implies 0 <= i < position
        && view.artifacts[i].staged is Some by {
        let k = choose|k: int| 0 <= k < view.installed.len() && view.installed[k] == i;
        assert(0 <= view.installed[k] < position);
        assert(view.artifacts[view.installed[k]].staged is Some);
    }
    assert forall|i: int| #[trigger] view.saved.contains(i) implies 0 <= i
        < view.artifacts.len() by {
        let k = choose|k: int| 0 <= k < view.saved.len() && view.saved[k] == i;
        assert(0 <= view.saved[k] < view.artifacts.len());
    }
    assert(at(files, from) == at(first, from)) by {
        assert forall|i: int| #[trigger] view.installed.contains(i) implies from
            != view.destination(i) && from != view.staged(i) by {}
        assert forall|i: int| #[trigger] view.saved.contains(i) implies from
            != view.destination(i) && from != view.backup(i) by {}
    }
    assert forall|i: int| #[trigger] more.installed.contains(i) implies at(
        moved,
        more.destination(i),
    ) == at(first, more.staged(i)) && first.contains_key(more.staged(i)) by {
        if i != position {
            assert(view.installed.contains(i));
            assert(view.destination(i) != from);
            assert(view.destination(i) != to);
        }
    }
    assert forall|i: int| #[trigger] more.installed.contains(i) implies at(
        moved,
        more.staged(i),
    ) is None by {
        if i != position {
            assert(view.installed.contains(i));
            assert(view.staged(i) != from);
            assert(view.staged(i) != to);
        } else {
            assert(from != to);
        }
    }
    assert forall|i: int| #[trigger] more.saved.contains(i) implies {
        &&& first.contains_key(more.destination(i))
        &&& at(moved, more.backup(i)) == at(first, more.destination(i))
        &&& !more.installed.contains(i) ==> at(moved, more.destination(i)) is None
    } by {
        assert(view.saved.contains(i));
        assert(view.backup(i) != from);
        assert(view.backup(i) != to);
        if !more.installed.contains(i) {
            assert(!view.installed.contains(i));
            assert(more.installed.contains(position));
            assert(i != position);
            assert(view.destination(i) != to);
            assert(view.destination(i) != from);
        }
    }
    assert forall|i: int| #[trigger] more.installed.contains(i) implies more.saved.contains(i)
        || !first.contains_key(more.destination(i)) by {
        if i != position {
            assert(view.installed.contains(i));
        }
    }
    assert forall|path: Seq<char>|
        {
            &&& path != more.backup_folder
            &&& forall|i: int| #[trigger] more.installed.contains(i) ==> path != more.destination(i)
            &&& forall|i: int| #[trigger] more.saved.contains(i) ==> path != more.destination(i)
            &&& forall|i: int| #[trigger] more.saved.contains(i) ==> path != more.backup(i)
            &&& forall|i: int| #[trigger] more.installed.contains(i) ==> path != more.staged(i)
        } implies #[trigger] at(moved, path) == at(first, path) by {
        assert(more.installed.contains(position));
        assert forall|i: int| #[trigger] view.installed.contains(i) implies path
            != view.destination(i) && path != view.staged(i) by {
            assert(more.installed.contains(i));
        }
        assert forall|i: int| #[trigger] view.saved.contains(i) implies path
            != view.destination(i) && path != view.backup(i) by {
            assert(more.saved.contains(i));
        }
        assert(at(files, path) == at(first, path));
    }
}

/// The last artifact in place is removed.
proof fn lemma_remove(
    view: InstallView,
    in_place: Seq<int>,
    first: Map<Seq<char>, int>,
    files: Map<Seq<char>, int>,
)
    requires
        view.is_apart(first),
        in_place.len() > 0,
        ascends(in_place, view.artifacts.len() as int),
        ascends(view.saved, view.artifacts.len() as int),
        ascends(view.installed, view.artifacts.len() as int),
        forall|i: int| #[trigger] in_place.contains(i) ==> view.installed.contains(i),
        forall|i: int|
            0 <= i < view.installed.len() ==> view.artifacts[#[trigger] view.installed[i]].staged
                is Some,
        view.tracks(in_place, view.saved, first, files),
    ensures
        view.tracks(
            in_place.drop_last(),
            view.saved,
            first,
            files.remove(view.destination(in_place.last())),
        ),
{
    let fewer = in_place.drop_last();
    let position = in_place.last();
    let gone = view.destination(position);
    let left = files.remove(gone);
    let count = view.artifacts.len() as int;
    lemma_drop_contains(in_place, count);
    assert(in_place[in_place.len() - 1] == position);
    assert forall|i: int| #[trigger] view.installed.contains(i) implies 0 <= i < count
        && view.artifacts[i].staged is Some by {
        let k = choose|k: int| 0 <= k < view.installed.len() && view.installed[k] == i;
        assert(0 <= view.installed[k] < count);
        assert(view.artifacts[view.installed[k]].staged is Some);
    }
    assert forall|i: int| #[trigger] view.saved.contains(i) implies 0 <= i < count by {
        let k = choose|k: int| 0 <= k < view.saved.len() && view.saved[k] == i;
        assert(0 <= view.saved[k] < count);
    }
    assert(view.installed.contains(position));
    assert forall|i: int| #[trigger] fewer.contains(i) implies at(left, view.destination(i)) == at(
        first,
        view.staged(i),
    ) && first.contains_key(view.staged(i)) by {
        assert(in_place.contains(i));
        assert(view.installed.contains(i));
        assert(view.destination(i) != gone);
    }
    assert forall|i: int| #[trigger] view.installed.contains(i) implies at(
        left,
        view.staged(i),
    ) is None by {
        assert(at(files, view.staged(i)) is None);
    }
    assert forall|i: int| #[trigger] view.saved.contains(i) implies {
        &&& first.contains_key(view.destination(i))
        &&& at(left, view.backup(i)) == at(first, view.destination(i))
        &&& !fewer.contains(i) ==> at(left, view.destination(i)) is None
    } by {
        assert(view.backup(i) != gone);
        if !fewer.contains(i) && i != position {
            assert(!in_place.contains(i));
        }
    }
    assert forall|path: Seq<char>|
        {
            &&& path != view.backup_folder
            &&& forall|i: int| #[trigger] fewer.contains(i) ==> path != view.destination(i)
            &&& forall|i: int| #[trigger] view.saved.contains(i) ==> path != view.destination(i)
            &&& forall|i: int| #[trigger] view.saved.contains(i) ==> path != view.backup(i)
            &&& forall|i: int| #[trigger] view.installed.contains(i) ==> path != view.staged(i)
        } implies #[trigger] at(left, path) == at(first, path) by {
        if path == gone {
            assert(!view.saved.contains(position));
            assert(!first.contains_key(gone));
        } else {
            assert forall|i: int| #[trigger] in_place.contains(i) implies path
                != view.destination(i) by {
                if i != position {
                    assert(fewer.contains(i));
                }
            }
            assert(at(files, path) == at(first, path));
        }
    }
}

/// The last of what is kept is put back.
proof fn lemma_restore(
    view: InstallView,
    kept: Seq<int>,
    first: Map<Seq<char>, int>,
    files: Map<Seq<char>, int>,
)
    requires
        view.is_apart(first),
        kept.len() > 0,
        ascends(kept, view.artifacts.len() as int),
        ascends(view.installed, view.artifacts.len() as int),
        forall|i: int|
            0 <= i < view.installed.len() ==> view.artifacts[#[trigger] view.installed[i]].staged
                is Some,
        view.tracks(Seq::empty(), kept, first, files),
    ensures
        view.tracks(
            Seq::empty(),
            kept.drop_last(),
            first,
            files.remove(view.backup(kept.last())).insert(
                view.destination(kept.last()),
                files[view.backup(kept.last())],
            ),
        ),
{
    let fewer = kept.drop_last();
    let position = kept.last();
    let from = view.backup(position);
    let to = view.destination(position);
    let moved = files.remove(from).insert(to, files[from]);
    let none = Seq::<int>::empty();
    let count = view.artifacts.len() as int;
    lemma_drop_contains(kept, count);
    assert(kept[kept.len() - 1] == position);
    assert forall|i: int| #[trigger] kept.contains(i) implies 0 <= i < count by {
        let k = choose|k: int| 0 <= k < kept.len() && kept[k] == i;
        assert(0 <= kept[k] < count);
    }
    assert forall|i: int| #[trigger] view.installed.contains(i) implies 0 <= i < count
        && view.artifacts[i].staged is Some by {
        let k = choose|k: int| 0 <= k < view.installed.len() && view.installed[k] == i;
        assert(0 <= view.installed[k] < count);
        assert(view.artifacts[view.installed[k]].staged is Some);
    }
    assert(kept.contains(position));
    assert(at(files, from) == at(first, to));
    assert forall|i: int| #[trigger] view.installed.contains(i) implies at(
        moved,
        view.staged(i),
    ) is None by {
        assert(at(files, view.staged(i)) is None);
        assert(view.staged(i) != to);
    }
    assert forall|i: int| #[trigger] fewer.contains(i) implies {
        &&& first.contains_key(view.destination(i))
        &&& at(moved, view.backup(i)) == at(first, view.destination(i))
        &&& at(moved, view.destination(i)) is None
    } by {
        assert(kept.contains(i));
        backups_differ(view.backup_folder, i, position);
        assert(view.backup(i) != to);
        assert(view.destination(i) != to);
        assert(view.destination(i) != from);
        assert(!none.contains(i));
    }
    assert forall|path: Seq<char>|
        {
            &&& path != view.backup_folder
            &&& forall|i: int| #[trigger] none.contains(i) ==> path != view.destination(i)
            &&& forall|i: int| #[trigger] fewer.contains(i) ==> path != view.destination(i)
            &&& forall|i: int| #[trigger] fewer.contains(i) ==> path != view.backup(i)
            &&& forall|i: int| #[trigger] view.installed.contains(i) ==> path != view.staged(i)
        } implies #[trigger] at(moved, path) == at(first, path) by {
        if path == from {
            assert(from != to);
            assert(!first.contains_key(from));
        } else if path != to {
            assert forall|i: int| #[trigger] kept.contains(i) implies path != view.destination(i)
                && path != view.backup(i) by {
                if i != position {
                    assert(fewer.contains(i));
                }
            }
            assert(at(files, path) == at(first, path));
        }
    }
}

proof fn lemma_tracks_alike(
    view: InstallView,
    other: InstallView,
    in_place: Seq<int>,
    kept: Seq<int>,
    first: Map<Seq<char>, int>,
    files: Map<Seq<char>, int>,
)
    requires
        view.tracks(in_place, kept, first, files),
        other.artifacts == view.artifacts,
        other.backup_folder == view.backup_folder,
        other.installed == view.installed,
        other.saved == view.saved,
    ensures
        other.tracks(in_place, kept, first, files),
{
    assert forall|i: int| other.destination(i) == view.destination(i) && other.staged(i)
        == view.staged(i) && other.backup(i) == view.backup(i) by {}
    assert forall|path: Seq<char>|
        {
            &&& path != other.backup_folder
            &&& forall|i: int| #[trigger] in_place.contains(i) ==> path != other.destination(i)
            &&& forall|i: int| #[trigger] kept.contains(i) ==> path != other.destination(i)
            &&& forall|i: int| #[trigger] kept.contains(i) ==> path != other.backup(i)
            &&& forall|i: int| #[trigger] other.installed.contains(i) ==> path != other.staged(i)
        } implies #[trigger] at(files, path) == at(first, path) by {
        assert forall|i: int| #[trigger] in_place.contains(i) implies path
            != view.destination(i) by {
            assert(path != other.destination(i));
        }
        assert forall|i: int| #[trigger] kept.contains(i) implies path != view.destination(i)
            && path != view.backup(i) by {
            assert(path != other.destination(i) && path != other.backup(i));
        }
        assert forall|i: int| #[trigger] view.installed.contains(i) implies path
            != view.staged(i) by {
            assert(path != other.staged(i));
        }
    }
}

// ---------------------------------------------------------------------------
// Laws
// ---------------------------------------------------------------------------

proof fn lemma_installing_knows(
    view: InstallView,
    next: int,
    first: Map<Seq<char>, int>,
    files: Map<Seq<char>, int>,
)
    requires
        0 <= next,
        !view.failed,
        view.keeps_below(first, view.artifacts.len() as int),
        view.tracks(view.installed, view.saved, first, files),
    ensures
        view.installing_from(next).knows(first, files),
    decreases view.artifacts.len() - next,
{
    if next < view.artifacts.len() && view.artifacts[next].staged is None {
        lemma_installing_knows(view, next + 1, first, files);
    } else {
        let after = view.installing_from(next);
        lemma_tracks_alike(view, after, view.installed, view.saved, first, files);
        assert(after.in_place() == view.installed);
        assert(after.kept() == view.saved);
        assert forall|i: int|
            0 <= i < view.artifacts.len() && first.contains_key(
                #[trigger] after.destination(i),
            ) implies after.saved.contains(i) by {
            assert(first.contains_key(view.destination(i)));
        }
    }
}

proof fn lemma_looking_knows(
    view: InstallView,
    next: int,
    first: Map<Seq<char>, int>,
    files: Map<Seq<char>, int>,
)
    requires
        0 <= next <= view.artifacts.len(),
        view.artifacts.len() <= usize::MAX,
        !view.failed,
        view.installed.len() == 0,
        view.keeps_below(first, next),
        view.tracks(view.installed, view.saved, first, files),
    ensures
        view.looking_from(next).knows(first, files),
{
    if next < view.artifacts.len() {
        let after = view.looking_from(next);
        lemma_tracks_alike(view, after, view.installed, view.saved, first, files);
        assert forall|i: int| 0 <= i < next && first.contains_key(
            #[trigger] after.destination(i),
        ) implies after.saved.contains(i) by {
            assert(first.contains_key(view.destination(i)));
        }
    } else {
        lemma_installing_knows(view, 0, first, files);
    }
}

proof fn lemma_restoring_knows(
    view: InstallView,
    first: Map<Seq<char>, int>,
    files: Map<Seq<char>, int>,
)
    requires
        view.saved.len() <= usize::MAX,
        view.failed,
        view.tracks(Seq::empty(), view.saved, first, files),
    ensures
        view.restoring().knows(first, files),
{
    let after = view.restoring();
    lemma_tracks_alike(view, after, Seq::empty(), view.saved, first, files);
    if view.saved.len() > 0 {
        assert(after.kept() =~= view.saved);
    } else {
        assert(after.kept() =~= view.saved);
    }
}

proof fn lemma_undoing_knows(
    view: InstallView,
    first: Map<Seq<char>, int>,
    files: Map<Seq<char>, int>,
)
    requires
        view.saved.len() <= usize::MAX,
        view.installed.len() <= usize::MAX,
        view.tracks(view.installed, view.saved, first, files),
    ensures
        view.undoing().knows(first, files),
{
    let failed = InstallView { failed: true, ..view };
    lemma_tracks_alike(view, failed, view.installed, view.saved, first, files);
    if view.installed.len() > 0 {
        let after = view.undoing();
        lemma_tracks_alike(view, after, view.installed, view.saved, first, files);
        assert(after.in_place() =~= view.installed);
    } else {
        assert(view.installed =~= Seq::<int>::empty());
        lemma_restoring_knows(failed, first, files);
    }
}

/// Every step keeps track of the files: whatever is replied, as long as it is
/// true of the files, what the installation knows of them stays right.
pub proof fn a_step_keeps_track_of_the_files(
    view: InstallView,
    reply: Reply,
    first: Map<Seq<char>, int>,
    files: Map<Seq<char>, int>,
)
    requires
        view.is_orderly(),
        view.artifacts.len() <= usize::MAX,
        view.is_apart(first),
        answers(view.phase, reply),
        view.knows(first, files),
        is_true_of(files, view.step(), reply),
    ensures
        view.after(reply).knows(first, effect(files, view.step(), reply)),
        view.after(reply).is_orderly(),
        view.after(reply).is_apart(first),
{
    lemma_step_stays_orderly(view, reply);
    lemma_apart_alike(view, view.after(reply), first);
    lemma_ascends_len(view.saved, view.save_bound());
    lemma_ascends_len(view.installed, view.install_bound());
    let count = view.artifacts.len() as int;
    let after = view.after(reply);
    let changed = effect(files, view.step(), reply);
    match (view.phase, reply) {
        (Phase::Checking { .. }, Reply::Entry(_)) => {
            lemma_tracks_alike(view, after, view.installed, view.saved, first, files);
        },
        (Phase::MakingFolder, Reply::Done) => {
            assert(view.saved.len() == 0 && view.installed.len() == 0);
            assert(view.tracks(view.installed, view.saved, first, changed)) by {
                assert forall|path: Seq<char>| path != view.backup_folder implies #[trigger] at(
                    changed,
                    path,
                ) == at(first, path) by {
                    assert(at(files, path) == at(first, path));
                }
            }
            lemma_looking_knows(view, 0, first, changed);
        },
        (Phase::MakingFolder, Reply::Failed(_)) => {
            lemma_tracks_alike(view, after, view.installed, view.saved, first, files);
        },
        (Phase::Looking { next }, Reply::Entry(found)) => {
            assert(view.installed.len() == 0);
            let here = view.destination(next as int);
            assert(at(files, here) == at(first, here)) by {
                assert forall|i: int| #[trigger] view.saved.contains(i) implies here
                    != view.destination(i) && here != view.backup(i) by {
                    let k = choose|k: int| 0 <= k < view.saved.len() && view.saved[k] == i;
                    assert(0 <= view.saved[k] < next);
                }
            }
            if is_there(found) {
                lemma_tracks_alike(view, after, view.installed, view.saved, first, files);
                assert forall|i: int|
                    0 <= i < after.save_bound() && first.contains_key(
                        #[trigger] after.destination(i),
                    ) implies after.saved.contains(i) by {
                    assert(first.contains_key(view.destination(i)));
                }
            } else {
                assert(view.keeps_below(first, next + 1));
                lemma_looking_knows(view, next + 1, first, files);
            }
        },
        (Phase::Saving { next }, Reply::Done) => {
            assert(view.installed.len() == 0);
            assert(view.installed =~= Seq::<int>::empty());
            lemma_save(view, next as int, first, files);
            let more = InstallView { saved: view.saved.push(next as int), ..view };
            lemma_push_contains(view.saved, next as int);
            assert(more.keeps_below(first, next + 1)) by {
                assert forall|i: int|
                    0 <= i < next + 1 && first.contains_key(
                        #[trigger] more.destination(i),
                    ) implies more.saved.contains(i) by {
                    if i < next {
                        assert(first.contains_key(view.destination(i)));
                    }
                }
            }
            lemma_looking_knows(more, next + 1, first, changed);
        },
        (Phase::Saving { .. }, Reply::Failed(_)) => {
            lemma_undoing_knows(view, first, files);
        },
        (Phase::Installing { next }, Reply::Done) => {
            lemma_install(view, next as int, first, files);
            let more = InstallView { installed: view.installed.push(next as int), ..view };
            assert(more.keeps_below(first, count)) by {
                assert forall|i: int|
                    0 <= i < count && first.contains_key(
                        #[trigger] more.destination(i),
                    ) implies more.saved.contains(i) by {
                    assert(first.contains_key(view.destination(i)));
                }
            }
            lemma_installing_knows(more, next + 1, first, changed);
        },
        (Phase::Installing { .. }, Reply::Failed(_)) => {
            lemma_undoing_knows(view, first, files);
        },
        (Phase::Removing { left }, Reply::Done) => {
            if !view.undo_failed {
                let in_place = view.installed.take(left as int);
                lemma_prefix_ascends(view.installed, left as int, count);
                lemma_remove(view, in_place, first, files);
                assert(in_place.last() == view.installed[left - 1]);
                let marked = InstallView { undo_failed: false, ..view };
                lemma_tracks_alike(
                    view,
                    marked,
                    in_place.drop_last(),
                    view.saved,
                    first,
                    changed,
                );
                if left > 1 {
                    lemma_tracks_alike(
                        view,
                        after,
                        in_place.drop_last(),
                        view.saved,
                        first,
                        changed,
                    );
                    assert(after.in_place() =~= in_place.drop_last());
                } else {
                    assert(in_place.drop_last() =~= Seq::<int>::empty());
                    lemma_restoring_knows(marked, first, changed);
                }
            }
        },
        (Phase::Restoring { left }, Reply::Done) => {
            if !view.undo_failed {
                let kept = view.saved.take(left as int);
                lemma_prefix_ascends(view.saved, left as int, count);
                lemma_restore(view, kept, first, files);
                assert(kept.last() == view.saved[left - 1]);
                lemma_tracks_alike(
                    view,
                    after,
                    Seq::empty(),
                    kept.drop_last(),
                    first,
                    changed,
                );
                assert(after.kept() =~= kept.drop_last());
            }
        },
        _ => {},
    }
}

proof fn lemma_prefix_ascends(held: Seq<int>, shorter: int, bound: int)
    requires
        ascends(held, bound),
        0 <= shorter <= held.len(),
    ensures
        ascends(held.take(shorter), bound),
        forall|i: int| #[trigger] held.take(shorter).contains(i) ==> held.contains(i),
{
    let fewer = held.take(shorter);
    assert forall|i: int| 0 <= i < fewer.len() implies 0 <= #[trigger] fewer[i] < bound by {
        assert(fewer[i] == held[i]);
    }
    assert forall|i: int, j: int| 0 <= i < j < fewer.len() implies #[trigger] fewer[i]
        < #[trigger] fewer[j] by {
        assert(held[i] < held[j]);
    }
    assert forall|i: int| #[trigger] fewer.contains(i) implies held.contains(i) by {
        let k = choose|k: int| 0 <= k < fewer.len() && fewer[k] == i;
        assert(held[k] == i);
    }
}

proof fn lemma_apart_alike(view: InstallView, other: InstallView, first: Map<Seq<char>, int>)
    requires
        view.is_apart(first),
        other.artifacts == view.artifacts,
        other.backup_folder == view.backup_folder,
    ensures
        other.is_apart(first),
{
    assert forall|i: int| #[trigger] other.destination(i) == view.destination(i) by {}
    assert forall|i: int| #[trigger] other.staged(i) == view.staged(i) by {}
    assert forall|i: int| #[trigger] other.backup(i) == view.backup(i) by {}
}

/// At first the installation knows the files.
pub proof fn a_new_installation_knows_the_files(view: InstallView, files: Map<Seq<char>, int>)
    requires
        view.phase is Checking || view.phase is MakingFolder,
        view.saved.len() == 0,
        view.installed.len() == 0,
    ensures
        view.knows(files, files),
{
}

/// Where an installation fails and is undone, every path holds what it held
/// before, but for the places where the export was put together.
pub proof fn a_failed_installation_leaves_everything_as_it_was(
    view: InstallView,
    first: Map<Seq<char>, int>,
    files: Map<Seq<char>, int>,
    path: Seq<char>,
)
    requires
        view.is_orderly(),
        view.phase is Finished,
        view.failed || view.refused is Some,
        !view.undo_failed,
        view.knows(first, files),
        path != view.backup_folder,
        forall|i: int|
            0 <= i < view.artifacts.len() && view.artifacts[i].staged is Some ==> path
                != #[trigger] view.staged(i),
    ensures
        at(files, path) == at(first, path),
{
    let count = view.artifacts.len() as int;
    assert forall|i: int| #[trigger] view.installed.contains(i) implies path != view.staged(i) by {
        let k = choose|k: int| 0 <= k < view.installed.len() && view.installed[k] == i;
        assert(0 <= view.installed[k] < count);
        assert(view.artifacts[view.installed[k]].staged is Some);
    }
    assert(forall|i: int| !view.in_place().contains(i));
    assert(forall|i: int| !view.kept().contains(i));
}

/// Nothing is moved into place before all that stood there is kept.
pub proof fn all_is_kept_before_anything_is_replaced(
    view: InstallView,
    first: Map<Seq<char>, int>,
    files: Map<Seq<char>, int>,
    position: int,
)
    requires
        view.is_orderly(),
        view.phase is Installing,
        view.knows(first, files),
        0 <= position < view.artifacts.len(),
        first.contains_key(view.destination(position)),
    ensures
        at(files, view.backup(position)) == at(first, view.destination(position)),
{
    assert(view.saved.contains(position));
    assert(view.kept().contains(position));
}

/// Where an installation succeeds, every artifact that was put together stands in
/// its place, and where nothing was put together, nothing is left in place.
pub proof fn a_finished_installation_is_complete(
    view: InstallView,
    first: Map<Seq<char>, int>,
    files: Map<Seq<char>, int>,
    position: int,
)
    requires
        view.is_orderly(),
        view.is_apart(first),
        view.phase is Finished,
        !view.failed,
        !view.undo_failed,
        view.refused is None,
        view.knows(first, files),
        0 <= position < view.artifacts.len(),
    ensures
        view.artifacts[position].staged is Some ==> first.contains_key(view.staged(position))
            && at(files, view.destination(position)) == at(first, view.staged(position)),
        view.artifacts[position].staged is None ==> at(files, view.destination(position)) is None,
{
    let here = view.destination(position);
    if view.artifacts[position].staged is Some {
        assert(view.installed.contains(position));
        assert(view.in_place().contains(position));
    } else {
        assert forall|i: int| #[trigger] view.installed.contains(i) implies i != position
            && 0 <= i < view.artifacts.len() && view.artifacts[i].staged is Some by {
            let k = choose|k: int| 0 <= k < view.installed.len() && view.installed[k] == i;
            assert(view.artifacts[view.installed[k]].staged is Some);
            assert(0 <= view.installed[k] < view.artifacts.len());
        }
        if view.saved.contains(position) {
            assert(view.kept().contains(position));
        } else {
            assert(!first.contains_key(here));
            assert forall|i: int| #[trigger] view.saved.contains(i) implies here
                != view.destination(i) && here != view.backup(i) by {
                let k = choose|k: int| 0 <= k < view.saved.len() && view.saved[k] == i;
                assert(0 <= view.saved[k] < view.artifacts.len());
            }
            assert forall|i: int| #[trigger] view.installed.contains(i) implies here
                != view.destination(i) && here != view.staged(i) by {}
            assert(at(files, here) == at(first, here));
        }
    }
}

/// A path that an installation has nothing to do with: no artifact goes to it, was
/// put together there or is kept there.
pub open spec fn is_elsewhere(view: InstallView, path: Seq<char>) -> bool {
    &&& path != view.backup_folder
    &&& forall|i: int|
        0 <= i < view.artifacts.len() ==> path != #[trigger] view.destination(i)
    &&& forall|i: int|
        0 <= i < view.artifacts.len() && view.artifacts[i].staged is Some ==> path
            != #[trigger] view.staged(i)
    &&& forall|i: int| 0 <= i < view.artifacts.len() ==> path != #[trigger] view.backup(i)
}

/// Where an installation succeeds, every path that it has nothing to do with holds
/// what it held before.
pub proof fn a_finished_installation_touches_nothing_else(
    view: InstallView,
    first: Map<Seq<char>, int>,
    files: Map<Seq<char>, int>,
    path: Seq<char>,
)
    requires
        view.is_orderly(),
        view.phase is Finished,
        !view.failed,
        !view.undo_failed,
        view.refused is None,
        view.knows(first, files),
        is_elsewhere(view, path),
    ensures
        at(files, path) == at(first, path),
{
    assert forall|i: int| #[trigger] view.installed.contains(i) implies path != view.staged(i)
        && path != view.destination(i) by {
        let k = choose|k: int| 0 <= k < view.installed.len() && view.installed[k] == i;
        assert(0 <= view.installed[k] < view.artifacts.len());
        assert(view.artifacts[view.installed[k]].staged is Some);
    }
    assert forall|i: int| #[trigger] view.saved.contains(i) implies path != view.destination(i)
        && path != view.backup(i) by {
        let k = choose|k: int| 0 <= k < view.saved.len() && view.saved[k] == i;
        assert(0 <= view.saved[k] < view.artifacts.len());
    }
}

/// A bound on the steps that are left.
pub open spec fn steps_left(view: InstallView) -> int {
    let count = view.artifacts.len() as int;
    match view.phase {
        Phase::Checking { next } => 6 * count + 9 - next,
        Phase::MakingFolder => 5 * count + 8,
        Phase::Looking { next } => 3 * count + 6 + 2 * (count - next),
        Phase::Saving { next } => 3 * count + 5 + 2 * (count - next),
        Phase::Installing { next } => 2 * count + 3 + (count - next),
        Phase::Removing { left } => count + 1 + left,
        Phase::Restoring { left } => left as int,
        Phase::Finished => 0,
    }
}

proof fn lemma_installing_steps(view: InstallView, next: int)
    requires
        0 <= next <= view.artifacts.len() <= usize::MAX,
    ensures
        0 <= steps_left(view.installing_from(next)) <= 2 * view.artifacts.len() + 3 + (
        view.artifacts.len() - next),
    decreases view.artifacts.len() - next,
{
    lemma_installing_keeps_artifacts(view, next);
    if next < view.artifacts.len() && view.artifacts[next].staged is None {
        lemma_installing_steps(view, next + 1);
    }
}

/// Every installation comes to an end: each step leaves fewer steps.
pub proof fn an_installation_comes_to_an_end(view: InstallView, reply: Reply)
    requires
        view.is_orderly(),
        view.artifacts.len() <= usize::MAX,
        answers(view.phase, reply),
    ensures
        0 <= steps_left(view.after(reply)) < steps_left(view),
{
    lemma_ascends_len(view.saved, view.save_bound());
    lemma_ascends_len(view.installed, view.install_bound());
    lemma_installing_steps(view, 0);
    match (view.phase, reply) {
        (Phase::Saving { next }, Reply::Done) => {
            let more = InstallView { saved: view.saved.push(next as int), ..view };
            lemma_installing_steps(more, 0);
        },
        (Phase::Installing { next }, Reply::Done) => {
            let more = InstallView { installed: view.installed.push(next as int), ..view };
            lemma_installing_steps(more, next + 1);
        },
        _ => {},
    }
}

/// An installation and the files, after a series of replies.
pub open spec fn after_all(
    view: InstallView,
    files: Map<Seq<char>, int>,
    replies: Seq<Reply>,
) -> (InstallView, Map<Seq<char>, int>)
    decreases replies.len(),
{
    if replies.len() == 0 {
        (view, files)
    } else {
        let (before, held) = after_all(view, files, replies.drop_last());
        (before.after(replies.last()), effect(held, before.step(), replies.last()))
    }
}

/// Each of a series of replies answers the step that it is a reply to, and is true
/// of the files as they then are.
pub open spec fn are_true(
    view: InstallView,
    files: Map<Seq<char>, int>,
    replies: Seq<Reply>,
) -> bool
    decreases replies.len(),
{
    if replies.len() == 0 {
        true
    } else {
        let (before, held) = after_all(view, files, replies.drop_last());
        &&& are_true(view, files, replies.drop_last())
        &&& answers(before.phase, replies.last())
        &&& is_true_of(held, before.step(), replies.last())
    }
}

/// An installation before its first step.
pub open spec fn is_new(view: InstallView) -> bool {
    &&& view.is_orderly()
    &&& view.artifacts.len() <= usize::MAX
    &&& view.phase is Checking || view.phase is MakingFolder
    &&& view.saved.len() == 0
    &&& view.installed.len() == 0
}

proof fn lemma_after_all(view: InstallView, files: Map<Seq<char>, int>, replies: Seq<Reply>)
    requires
        is_new(view),
        view.is_apart(files),
        are_true(view, files, replies),
    ensures
        ({
            let (end, held) = after_all(view, files, replies);
            &&& end.is_orderly()
            &&& end.is_apart(files)
            &&& end.knows(files, held)
            &&& end.artifacts == view.artifacts
            &&& end.backup_folder == view.backup_folder
        }),
    decreases replies.len(),
{
    if replies.len() == 0 {
        a_new_installation_knows_the_files(view, files);
    } else {
        lemma_after_all(view, files, replies.drop_last());
        let (before, held) = after_all(view, files, replies.drop_last());
        lemma_step_stays_orderly(before, replies.last());
        a_step_keeps_track_of_the_files(before, replies.last(), files, held);
    }
}

/// An installation is all or nothing. However its steps turn out, as long as what
/// is undone can be undone: where it ends without an error, every artifact stands
/// in its place, and every path that it has nothing to do with holds what it held
/// before; where it ends with one, every path holds what it held before, but
/// for the places where the export was put together.
pub proof fn an_installation_is_all_or_nothing(
    view: InstallView,
    files: Map<Seq<char>, int>,
    replies: Seq<Reply>,
)
    requires
        is_new(view),
        view.is_apart(files),
        are_true(view, files, replies),
        after_all(view, files, replies).0.phase is Finished,
        !after_all(view, files, replies).0.undo_failed,
    ensures
        ({
            let (end, held) = after_all(view, files, replies);
            if end.failed || end.refused is Some {
                forall|path: Seq<char>|
                    path != view.backup_folder && (forall|i: int|
                        0 <= i < view.artifacts.len() && view.artifacts[i].staged is Some ==> path
                            != #[trigger] view.staged(i)) ==> #[trigger] at(held, path) == at(
                        files,
                        path,
                    )
            } else {
                &&& forall|i: int|
                    0 <= i < view.artifacts.len() ==> at(held, #[trigger] view.destination(i))
                        == if view.artifacts[i].staged is Some {
                        at(files, view.staged(i))
                    } else {
                        None
                    }
                &&& forall|path: Seq<char>|
                    is_elsewhere(view, path) ==> #[trigger] at(held, path) == at(files, path)
            }
        }),
{
    lemma_after_all(view, files, replies);
    let (end, held) = after_all(view, files, replies);
    if end.failed || end.refused is Some {
        assert forall|path: Seq<char>|
            path != view.backup_folder && (forall|i: int|
                0 <= i < view.artifacts.len() && view.artifacts[i].staged is Some ==> path
                    != #[trigger] view.staged(i)) implies #[trigger] at(held, path) == at(
            files,
            path,
        ) by {
            assert forall|i: int|
                0 <= i < end.artifacts.len() && end.artifacts[i].staged is Some implies path
                != #[trigger] end.staged(i) by {
                assert(end.staged(i) == view.staged(i));
            }
            a_failed_installation_leaves_everything_as_it_was(end, files, held, path);
        }
    } else {
        assert forall|i: int| 0 <= i < view.artifacts.len() implies at(
            held,
            #[trigger] view.destination(i),
        ) == if view.artifacts[i].staged is Some {
            at(files, view.staged(i))
        } else {
            None
        } by {
            a_finished_installation_is_complete(end, files, held, i);
            assert(end.destination(i) == view.destination(i));
            assert(end.staged(i) == view.staged(i));
        }
        assert forall|path: Seq<char>| is_elsewhere(view, path) implies #[trigger] at(held, path)
            == at(files, path) by {
            assert(is_elsewhere(end, path)) by {
                assert forall|i: int| 0 <= i < end.artifacts.len() implies path
                    != #[trigger] end.destination(i) by {
                    assert(end.destination(i) == view.destination(i));
                }
                assert forall|i: int|
                    0 <= i < end.artifacts.len() && end.artifacts[i].staged is Some implies path
                    != #[trigger] end.staged(i) by {
                    assert(end.staged(i) == view.staged(i));
                }
                assert forall|i: int| 0 <= i < end.artifacts.len() implies path
                    != #[trigger] end.backup(i) by {
                    assert(end.backup(i) == view.backup(i));
                }
            }
            a_finished_installation_touches_nothing_else(end, files, held, path);
        }
    }
}

// ---------------------------------------------------------------------------
// What is installed for an export
// ---------------------------------------------------------------------------

/// No two of the documents and media folders of an export have the same name.
pub open spec fn names_differ(outputs: Seq<Seq<char>>, media: Seq<Seq<char>>) -> bool {
    &&& forall|i: int, j: int|
        0 <= i < j < outputs.len() ==> path::file_name(#[trigger] outputs[i]) != path::file_name(
            #[trigger] outputs[j],
        )
    &&& forall|i: int, j: int|
        0 <= i < j < media.len() ==> path::file_name(#[trigger] media[i]) != path::file_name(
            #[trigger] media[j],
        )
    &&& forall|i: int, j: int|
        0 <= i < outputs.len() && 0 <= j < media.len() ==> path::file_name(#[trigger] outputs[i])
            != path::file_name(#[trigger] media[j])
}

/// An artifact is the document at a position, or its media folder.
pub open spec fn is_of(
    artifact: ArtifactView,
    staging: Seq<char>,
    outputs: Seq<Seq<char>>,
    media: Seq<Seq<char>>,
    position: int,
) -> bool {
    &&& 0 <= position < outputs.len()
    &&& artifact.destination == outputs[position] || artifact.destination == media[position]
    &&& artifact.staged is Some ==> artifact.staged->0 == install::staged_path(
        staging,
        artifact.destination,
    )
}

/// An artifact belongs to one of the documents.
pub open spec fn is_of_some(
    artifact: ArtifactView,
    staging: Seq<char>,
    outputs: Seq<Seq<char>>,
    media: Seq<Seq<char>>,
) -> bool {
    exists|position: int| is_of(artifact, staging, outputs, media, position)
}

proof fn lemma_artifacts_of_documents(
    staging: Seq<char>,
    outputs: Seq<Seq<char>>,
    media: Seq<Seq<char>>,
    existed: Seq<bool>,
    media_staged: Seq<bool>,
    include_media: bool,
    overwrite_existing: bool,
)
    requires
        media.len() == outputs.len(),
        existed.len() == outputs.len(),
        media_staged.len() == outputs.len(),
        names_differ(outputs, media),
    ensures
        ({
            let all = install::all_artifacts(
                staging,
                outputs,
                media,
                existed,
                media_staged,
                include_media,
                overwrite_existing,
            );
            &&& forall|k: int|
                0 <= k < all.len() ==> is_of_some(#[trigger] all[k], staging, outputs, media)
            &&& forall|k: int, l: int|
                0 <= k < l < all.len() ==> path::file_name((#[trigger] all[k]).destination)
                    != path::file_name((#[trigger] all[l]).destination)
        }),
    decreases outputs.len(),
{
    if outputs.len() > 0 {
        let last = outputs.len() - 1;
        lemma_artifacts_of_documents(
            staging,
            outputs.drop_last(),
            media.drop_last(),
            existed.drop_last(),
            media_staged.drop_last(),
            include_media,
            overwrite_existing,
        );
        let before = install::all_artifacts(
            staging,
            outputs.drop_last(),
            media.drop_last(),
            existed.drop_last(),
            media_staged.drop_last(),
            include_media,
            overwrite_existing,
        );
        let pair = install::pair_artifacts(
            staging,
            outputs[last],
            media[last],
            existed[last],
            media_staged[last],
            include_media,
            overwrite_existing,
        );
        let all = install::all_artifacts(
            staging,
            outputs,
            media,
            existed,
            media_staged,
            include_media,
            overwrite_existing,
        );
        assert(all == before + pair);
        assert forall|k: int| 0 <= k < all.len() implies is_of_some(
            #[trigger] all[k],
            staging,
            outputs,
            media,
        ) by {
            if k < before.len() {
                assert(is_of_some(before[k], staging, outputs.drop_last(), media.drop_last()));
                let d = choose|d: int|
                    is_of(before[k], staging, outputs.drop_last(), media.drop_last(), d);
                assert(is_of(all[k], staging, outputs, media, d));
            } else {
                assert(all[k] == pair[k - before.len()]);
                assert(is_of(all[k], staging, outputs, media, last));
            }
        }
        assert forall|k: int, l: int| 0 <= k < l < all.len() implies path::file_name(
            (#[trigger] all[k]).destination,
        ) != path::file_name((#[trigger] all[l]).destination) by {
            if l >= before.len() {
                assert(all[l] == pair[l - before.len()]);
                if k < before.len() {
                    assert(all[k] == before[k]);
                    assert(is_of_some(before[k], staging, outputs.drop_last(), media.drop_last()));
                    let d = choose|d: int|
                        is_of(before[k], staging, outputs.drop_last(), media.drop_last(), d);
                    assert(outputs.drop_last()[d] == outputs[d]);
                    assert(media.drop_last()[d] == media[d]);
                } else {
                    assert(all[k] == pair[k - before.len()]);
                }
            } else {
                assert(all[k] == before[k] && all[l] == before[l]);
            }
        }
    }
}

/// The names of planned documents and media folders.
proof fn lemma_planned_names(
    folder: Seq<char>,
    format: ExportFormat,
    outputs: Seq<Seq<char>>,
    media: Seq<Seq<char>>,
)
    requires
        plan::share_a_folder(folder, format, outputs),
        plan::media_names_differ(outputs),
        plan::are_media_folders(outputs, media),
    ensures
        names_differ(outputs, media),
        forall|i: int|
            0 <= i < outputs.len() ==> path::file_name(#[trigger] outputs[i]) is Some
                && path::file_name(outputs[i])->0 != "backups"@,
        forall|i: int|
            0 <= i < media.len() ==> path::file_name(#[trigger] media[i]) is Some
                && path::file_name(media[i])->0 != "backups"@ && path::components(media[i])
                == path::components(folder).push(path::file_name(media[i])->0),
{
    reveal_strlit("md");
    reveal_strlit("json");
    reveal_strlit("-media");
    reveal_strlit("backups");
    assert forall|i: int| 0 <= i < outputs.len() implies path::file_name(#[trigger] outputs[i])
        is Some && path::file_name(outputs[i])->0.last() != 'a' && path::file_name(outputs[i])->0
        != "backups"@ by {
        let name = path::file_name(outputs[i])->0;
        path::lemma_last_dot(name);
        let extension = name.skip(path::last_dot(name) + 1);
        assert(names::has_extension(outputs[i], format));
        let end = extension.len() - 1;
        assert(text::ascii_lower(extension[end]) == text::ascii_lower(
            format.extension_text()[end],
        ));
        assert(extension[end] == name.last());
    }
    assert forall|i: int| 0 <= i < media.len() implies path::file_name(#[trigger] media[i])
        == names::media_folder_name(outputs[i]) && path::file_name(media[i]) is Some
        && path::file_name(media[i])->0.last() == 'a' && path::file_name(media[i])->0 != "backups"@
        && path::components(media[i]) == path::components(folder).push(
        path::file_name(media[i])->0,
    ) by {
        assert(plan::is_media_folder(outputs[i], media[i]));
        let file = outputs[i];
        let name = names::media_folder_name(file)->0;
        plan::lemma_media_folder_path(file);
        path::a_file_stands_in_its_folder(file);
        let above = path::components(path::parent(file)->0);
        assert(above =~= path::components(file).drop_last());
        assert(path::components(folder) =~= path::components(file).drop_last());
        assert(name.last() == "-media"@[5]);
        assert("backups"@.last() == 's');
    }
    assert forall|i: int, j: int| 0 <= i < j < media.len() implies path::file_name(
        #[trigger] media[i],
    ) != path::file_name(#[trigger] media[j]) by {
        assert(names::media_folder_name(outputs[i]) != names::media_folder_name(outputs[j]));
    }
}

/// The name of the folder in which an export is put together is a plain one.
proof fn lemma_staging_name(process_id: nat, nonce: Seq<char>, attempt: nat)
    requires
        !nonce.contains('/'),
    ensures
        ({
            let name = plan::staging_text(process_id, nonce, attempt);
            &&& name.len() > 2
            &&& !name.contains('/')
            &&& path::is_name(name)
        }),
{
    reveal_strlit(".signal-filter-");
    reveal_strlit("-");
    let first = text::decimal(process_id);
    let last = text::decimal(attempt);
    text::reading_undoes_writing(process_id);
    text::reading_undoes_writing(attempt);
    text::a_value_is_made_of_digits(first);
    text::a_value_is_made_of_digits(last);
    assert(!".signal-filter-"@.contains('/'));
    assert(!"-"@.contains('/'));
    assert(!first.contains('/')) by {
        if first.contains('/') {
            let i = choose|i: int| 0 <= i < first.len() && first[i] == '/';
            assert(text::is_digit(first[i]));
        }
    }
    assert(!last.contains('/')) by {
        if last.contains('/') {
            let i = choose|i: int| 0 <= i < last.len() && last[i] == '/';
            assert(text::is_digit(last[i]));
        }
    }
    lemma_no_slash(".signal-filter-"@, first);
    lemma_no_slash(".signal-filter-"@ + first, "-"@);
    lemma_no_slash(".signal-filter-"@ + first + "-"@, nonce);
    lemma_no_slash(".signal-filter-"@ + first + "-"@ + nonce, "-"@);
    lemma_no_slash(".signal-filter-"@ + first + "-"@ + nonce + "-"@, last);
}

proof fn lemma_no_slash(left: Seq<char>, right: Seq<char>)
    requires
        !left.contains('/'),
        !right.contains('/'),
    ensures
        !(left + right).contains('/'),
{
    let whole = left + right;
    assert forall|i: int| 0 <= i < whole.len() implies #[trigger] whole[i] != '/' by {
        if i < left.len() {
            assert(left.contains(left[i]));
        } else {
            assert(right.contains(right[i - left.len()]));
        }
    }
}

/// The paths of an export that was planned are apart from each other, so that its
/// installation is all or nothing. The export is put together in a new folder
/// inside the one that the documents go to.
pub proof fn a_planned_export_is_apart(
    view: InstallView,
    files: Map<Seq<char>, int>,
    folder: Seq<char>,
    format: ExportFormat,
    outputs: Seq<Seq<char>>,
    media: Seq<Seq<char>>,
    existed: Seq<bool>,
    media_staged: Seq<bool>,
    include_media: bool,
    overwrite_existing: bool,
    process_id: nat,
    nonce: Seq<char>,
    attempt: nat,
)
    requires
        plan::share_a_folder(folder, format, outputs),
        plan::media_names_differ(outputs),
        plan::are_media_folders(outputs, media),
        existed.len() == outputs.len(),
        media_staged.len() == outputs.len(),
        !nonce.contains('/'),
        ({
            let staging = path::joined(folder, plan::staging_text(process_id, nonce, attempt));
            &&& view.artifacts == install::all_artifacts(
                staging,
                outputs,
                media,
                existed,
                media_staged,
                include_media,
                overwrite_existing,
            )
            &&& view.backup_folder == path::joined(staging, "backups"@)
        }),
        forall|i: int|
            0 <= i < view.artifacts.len() ==> !files.contains_key(#[trigger] view.backup(i)),
    ensures
        view.is_apart(files),
{
    let staging = path::joined(folder, plan::staging_text(process_id, nonce, attempt));
    let above = path::components(folder);
    let count = view.artifacts.len() as int;
    lemma_planned_names(folder, format, outputs, media);
    lemma_artifacts_of_documents(
        staging,
        outputs,
        media,
        existed,
        media_staged,
        include_media,
        overwrite_existing,
    );
    lemma_staging_name(process_id, nonce, attempt);
    path::a_joined_name_stays_inside_its_folder(
        folder,
        plan::staging_text(process_id, nonce, attempt),
    );
    let inside = path::components(staging);
    reveal_strlit("backups");
    assert(!"backups"@.contains('/'));
    path::a_joined_name_stays_inside_its_folder(staging, "backups"@);
    assert forall|i: int| 0 <= i < count implies path::components(#[trigger] view.destination(i))
        == above.push(path::file_name(view.destination(i))->0) && path::file_name(
        view.destination(i),
    ) is Some && path::file_name(view.destination(i))->0 != "backups"@ by {
        assert(is_of_some(view.artifacts[i], staging, outputs, media));
        let d = choose|d: int| is_of(view.artifacts[i], staging, outputs, media, d);
        assert(path::file_name(outputs[d]) is Some);
        assert(path::file_name(media[d]) is Some);
    }
    assert forall|i: int| 0 <= i < count && view.artifacts[i].staged is Some implies
        path::components(#[trigger] view.staged(i)) == inside.push(
        path::file_name(view.destination(i))->0,
    ) by {
        assert(is_of_some(view.artifacts[i], staging, outputs, media));
        path::lemma_file_name(view.destination(i));
        path::a_joined_name_stays_inside_its_folder(
            staging,
            path::file_name(view.destination(i))->0,
        );
    }
    assert forall|i: int| 0 <= i < count implies path::components(#[trigger] view.backup(i)).len()
        == inside.len() + 2 by {
        lemma_backup_name(view.backup_folder, i);
    }
    assert forall|i: int, j: int| 0 <= i < count && 0 <= j < count && i != j implies
        path::file_name(#[trigger] view.destination(i)) != path::file_name(
        #[trigger] view.destination(j),
    ) by {
        assert(path::file_name(view.artifacts[i].destination) != path::file_name(
            view.artifacts[j].destination,
        ));
    }
    assert forall|i: int, j: int|
        0 <= i < count && 0 <= j < count && i != j && view.artifacts[i].staged is Some
            && view.artifacts[j].staged is Some implies #[trigger] view.staged(i)
        != #[trigger] view.staged(j) by {
        let a = path::components(view.staged(i));
        let b = path::components(view.staged(j));
        assert(a.last() == path::file_name(view.destination(i))->0);
        assert(b.last() == path::file_name(view.destination(j))->0);
    }
    assert forall|i: int, j: int|
        0 <= i < count && 0 <= j < count && view.artifacts[i].staged is Some implies
        #[trigger] view.staged(i) != #[trigger] view.destination(j) by {
        assert(path::components(view.staged(i)).len() == above.len() + 2);
        assert(path::components(view.destination(j)).len() == above.len() + 1);
    }
    assert forall|i: int| 0 <= i < count && view.artifacts[i].staged is Some implies
        #[trigger] view.staged(i) != view.backup_folder by {
        assert(path::components(view.staged(i)).last() == path::file_name(
            view.destination(i),
        )->0);
        assert(path::components(view.backup_folder).last() == "backups"@);
    }
}

/// What stood in place is kept under a plain name.
proof fn lemma_backup_name(folder: Seq<char>, position: int)
    requires
        0 <= position,
    ensures
        path::components(backup_path(folder, position)).len() == path::components(folder).len() + 1,
{
    reveal_strlit("artifact-");
    let number = text::padded(position as nat, 4);
    text::reading_undoes_padding(position as nat, 4);
    text::a_value_is_made_of_digits(number);
    assert(!"artifact-"@.contains('/'));
    assert(!number.contains('/')) by {
        if number.contains('/') {
            let i = choose|i: int| 0 <= i < number.len() && number[i] == '/';
            assert(text::is_digit(number[i]));
        }
    }
    lemma_no_slash("artifact-"@, number);
    path::a_joined_name_stays_inside_its_folder(folder, "artifact-"@ + number);
}

} // verus!
