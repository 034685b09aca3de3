//! Synchronises a destination tree with a source tree: every destination file
//! whose base name matches a source file is overwritten with that source file.
//!
//! Nothing here touches a file system. A [`Job`] says what it needs next from
//! the outside (the kind of a root, the listing of a directory, a copy, a word
//! to the progress sink) and [`run`] takes the answer and says what comes
//! after. The caller begins with [`Job::action`], does what the action asks,
//! hands the answer to [`run`], and goes on with the action that `run` names
//! until that action is [`Action::Finish`] or [`Action::Fail`].
//!
//! The two halves can be had alone: [`walk::Walker`] collects the files below
//! one root, [`sync::Synchronizer`] matches two lists of files. Which files a
//! walk of a whole tree returns is stated in [`tree`], that it returns none
//! twice in [`unique`], and what a synchronisation leaves in the files in
//! [`effect`].

pub mod effect;
pub mod path;
pub mod sync;
pub mod tree;
pub mod unique;
pub mod walk;

use crate::path::FilePath;
use crate::sync::{in_range, lemma_plan_in_range};
use crate::sync::{CopyFault, MatchConfig, SyncActionView, SyncReport, SyncState};
use crate::sync::{SyncAction, Synchronizer};
use crate::walk::{file_in_reach, file_views, listing_view, Listed, Rules, WalkFault, WalkState};
use crate::walk::{DirEntry, FileEntry, RootKind, TraversalConfig, WalkError, Walker};
use vstd::prelude::*;

verus! {

/// What is to be synchronised, and how.
#[derive(Debug, PartialEq, Eq)]
pub struct Request {
    /// The root of the files that are copied from.
    pub source: FilePath,
    /// The root of the files that are copied onto.
    pub dest: FilePath,
    /// The bounds of both walks.
    pub traversal: TraversalConfig,
    /// How base names are compared.
    pub matching: MatchConfig,
}

/// A `Request` as a plain value.
pub struct RequestView {
    pub source: Seq<u8>,
    pub dest: Seq<u8>,
    pub rules: Rules,
    pub case_sensitive: bool,
}

impl View for Request {
    type V = RequestView;

    open spec fn view(&self) -> RequestView {
        RequestView {
            source: self.source@,
            dest: self.dest@,
            rules: self.traversal@,
            case_sensitive: self.matching.case_sensitive,
        }
    }
}

/// Why a job came to nothing.
#[derive(Debug, PartialEq, Eq)]
pub enum RunError {
    /// One of the two walks failed.
    Walk(WalkError),
    /// A copy failed.
    Copy(sync::CopyError),
}

/// A `RunError` as a plain value.
pub enum RunFault {
    Walk(WalkFault),
    Copy(CopyFault),
}

impl View for RunError {
    type V = RunFault;

    open spec fn view(&self) -> RunFault {
        match self {
            RunError::Walk(error) => RunFault::Walk(error@),
            RunError::Copy(error) => RunFault::Copy(error@),
        }
    }
}

/// What the outside has to say to a job.
#[derive(Debug, PartialEq, Eq)]
pub enum Event {
    /// The root that was to be probed is of this kind.
    Root(RootKind),
    /// The directory that was to be listed holds these entries.
    Listed(Vec<DirEntry>),
    /// The directory that was to be listed could not be listed.
    ListFailed,
    /// The copy was made, or the progress sink was told.
    Done,
    /// The copy could not be made.
    Failed,
}

/// An `Event` as a plain value.
pub enum EventView {
    Root(RootKind),
    Listed(Seq<Listed>),
    ListFailed,
    Done,
    Failed,
}

impl View for Event {
    type V = EventView;

    open spec fn view(&self) -> EventView {
        match self {
            Event::Root(kind) => EventView::Root(*kind),
            Event::Listed(entries) => EventView::Listed(listing_view(entries@)),
            Event::ListFailed => EventView::ListFailed,
            Event::Done => EventView::Done,
            Event::Failed => EventView::Failed,
        }
    }
}

/// What a job needs from the outside next.
#[derive(Debug, PartialEq, Eq)]
pub enum Action {
    /// Find out what is at this path. Answered by `Event::Root`.
    Probe(FilePath),
    /// List this directory. Answered by `Event::Listed` or
    /// `Event::ListFailed`.
    List(FilePath),
    /// Tell the progress sink how many ticks are to come. Answered by
    /// `Event::Done`.
    SetTotal(usize),
    /// Replace the content of `dest` by the content of `source`. Answered by
    /// `Event::Done` or `Event::Failed`.
    Copy { source: FilePath, dest: FilePath },
    /// Tell the progress sink that one more destination is dealt with.
    /// Answered by `Event::Done`.
    Tick,
    /// Tell the progress sink that all is done. The job is over and this is
    /// its report.
    Finish(SyncReport),
    /// Nothing more: the job is over and this is why it failed.
    Fail(RunError),
}

/// An `Action` as a plain value.
pub enum ActionView {
    Probe(Seq<u8>),
    List(Seq<u8>),
    SetTotal(usize),
    Copy { source: Seq<u8>, dest: Seq<u8> },
    Tick,
    Finish(SyncReport),
    Fail(RunFault),
}

impl View for Action {
    type V = ActionView;

    open spec fn view(&self) -> ActionView {
        match self {
            Action::Probe(path) => ActionView::Probe(path@),
            Action::List(path) => ActionView::List(path@),
            Action::SetTotal(total) => ActionView::SetTotal(*total),
            Action::Copy { source, dest } => ActionView::Copy { source: source@, dest: dest@ },
            Action::Tick => ActionView::Tick,
            Action::Finish(report) => ActionView::Finish(*report),
            Action::Fail(error) => ActionView::Fail(error@),
        }
    }
}

/// Where a job stands, as a plain value.
pub enum Stage {
    /// The kind of the source root is asked for.
    ProbingSource,
    /// The source tree is walked.
    WalkingSource(WalkState),
    /// The source files are known and the kind of the destination root is
    /// asked for.
    ProbingDest(Seq<Seq<u8>>),
    /// The source files are known and the destination tree is walked.
    WalkingDest(Seq<Seq<u8>>, WalkState),
    /// Both lists of files are known and are synchronised.
    Syncing(SyncState),
    /// A walk failed.
    Failed(WalkFault),
}

/// A job, as a plain value.
pub struct JobState {
    pub request: RequestView,
    pub stage: Stage,
}

impl JobState {
    /// The state in which the job for a request begins.
    pub open spec fn start(request: RequestView) -> JobState {
        JobState { request, stage: Stage::ProbingSource }
    }

    /// Where the job stands once the walk of the source tree stands at
    /// `walk`: in the walk while a directory waits, else at the destination
    /// root with the files of the walk, or at the walk's failure.
    pub open spec fn source_walked(walk: WalkState) -> Stage {
        if walk.pending().is_some() {
            Stage::WalkingSource(walk)
        } else {
            match walk.outcome() {
                Ok(files) => Stage::ProbingDest(files),
                Err(fault) => Stage::Failed(fault),
            }
        }
    }

    /// Where the job stands once the walk of the destination tree stands at
    /// `walk`: in the walk while a directory waits, else at the beginning of
    /// the synchronisation of the two lists, or at the walk's failure.
    pub open spec fn dest_walked(
        sources: Seq<Seq<u8>>,
        walk: WalkState,
        case_sensitive: bool,
    ) -> Stage {
        if walk.pending().is_some() {
            Stage::WalkingDest(sources, walk)
        } else {
            match walk.outcome() {
                Ok(files) => Stage::Syncing(SyncState::start(sources, files, case_sensitive)),
                Err(fault) => Stage::Failed(fault),
            }
        }
    }

    /// Where the job stands after `event`. An event that is no answer to the
    /// job's action changes nothing.
    pub open spec fn stage_after(self, event: EventView) -> Stage {
        let request = self.request;
        match (self.stage, event) {
            (Stage::ProbingSource, EventView::Root(kind)) => Self::source_walked(
                WalkState::start(request.source, kind, request.rules),
            ),
            (Stage::WalkingSource(walk), EventView::Listed(entries)) => Self::source_walked(
                walk.listed(entries),
            ),
            (Stage::WalkingSource(walk), EventView::ListFailed) => Self::source_walked(
                walk.list_failed(),
            ),
            (Stage::ProbingDest(sources), EventView::Root(kind)) => Self::dest_walked(
                sources,
                WalkState::start(request.dest, kind, request.rules),
                request.case_sensitive,
            ),
            (Stage::WalkingDest(sources, walk), EventView::Listed(entries)) => Self::dest_walked(
                sources,
                walk.listed(entries),
                request.case_sensitive,
            ),
            (Stage::WalkingDest(sources, walk), EventView::ListFailed) => Self::dest_walked(
                sources,
                walk.list_failed(),
                request.case_sensitive,
            ),
            (Stage::Syncing(sync), EventView::Done) => Stage::Syncing(sync.done()),
            (Stage::Syncing(sync), EventView::Failed) => Stage::Syncing(sync.copy_failed()),
            (stage, _) => stage,
        }
    }

    /// Every file of the list is in reach of `root` under the rules of the
    /// request.
    pub open spec fn all_in_reach(self, root: Seq<u8>, files: Seq<Seq<u8>>) -> bool {
        forall|i: int|
            0 <= i < files.len() ==> file_in_reach(self.request.rules, root, #[trigger] files[i])
    }

    /// A walk of the job goes from `root` under the rules of the request,
    /// and waits for a directory.
    pub open spec fn walks_from(self, root: Seq<u8>, walk: WalkState) -> bool {
        walk.root == root && walk.rules == self.request.rules && walk.pending().is_some()
    }

    /// What holds of every state of a job: its walks are those that the
    /// request asks for, and the files that it holds are in reach of their
    /// roots.
    pub open spec fn inv(self) -> bool {
        let request = self.request;
        match self.stage {
            Stage::ProbingSource => true,
            Stage::WalkingSource(walk) => self.walks_from(request.source, walk),
            Stage::ProbingDest(sources) => {
                &&& sources.len() <= usize::MAX
                &&& self.all_in_reach(request.source, sources)
            },
            Stage::WalkingDest(sources, walk) => {
                &&& sources.len() <= usize::MAX
                &&& self.all_in_reach(request.source, sources)
                &&& self.walks_from(request.dest, walk)
            },
            Stage::Syncing(sync) => {
                &&& sync.sources.len() <= usize::MAX
                &&& sync.dests.len() <= usize::MAX
                &&& self.all_in_reach(request.source, sync.sources)
                &&& self.all_in_reach(request.dest, sync.dests)
            },
            Stage::Failed(_) => true,
        }
    }

    /// The job after `event`.
    pub open spec fn after(self, event: EventView) -> JobState {
        JobState { stage: self.stage_after(event), ..self }
    }

    /// What the job needs from the outside.
    pub open spec fn action(self) -> ActionView {
        match self.stage {
            Stage::ProbingSource => ActionView::Probe(self.request.source),
            Stage::WalkingSource(walk) => ActionView::List(walk.frontier[0]),
            Stage::ProbingDest(_) => ActionView::Probe(self.request.dest),
            Stage::WalkingDest(_, walk) => ActionView::List(walk.frontier[0]),
            Stage::Syncing(sync) => match sync.action() {
                SyncActionView::SetTotal(total) => ActionView::SetTotal(total),
                SyncActionView::Copy { source, dest } => ActionView::Copy { source, dest },
                SyncActionView::Tick => ActionView::Tick,
                SyncActionView::Finish(report) => ActionView::Finish(report),
                SyncActionView::Abort(fault) => ActionView::Fail(RunFault::Copy(fault)),
            },
            Stage::Failed(fault) => ActionView::Fail(RunFault::Walk(fault)),
        }
    }
}

/// Where a job stands.
enum Phase {
    ProbingSource,
    WalkingSource(Walker),
    ProbingDest(Vec<FileEntry>),
    WalkingDest(Vec<FileEntry>, Walker),
    Syncing(Synchronizer),
    Failed(WalkError),
}

impl View for Phase {
    type V = Stage;

    closed spec fn view(&self) -> Stage {
        match self {
            Phase::ProbingSource => Stage::ProbingSource,
            Phase::WalkingSource(walker) => Stage::WalkingSource(walker@),
            Phase::ProbingDest(sources) => Stage::ProbingDest(file_views(sources@)),
            Phase::WalkingDest(sources, walker) => Stage::WalkingDest(
                file_views(sources@),
                walker@,
            ),
            Phase::Syncing(sync) => Stage::Syncing(sync@),
            Phase::Failed(error) => Stage::Failed(error@),
        }
    }
}

/// One synchronisation of a destination tree with a source tree, from the
/// probing of the source root to the report.
pub struct Job {
    request: Request,
    phase: Phase,
}

impl View for Job {
    type V = JobState;

    closed spec fn view(&self) -> JobState {
        JobState { request: self.request@, stage: self.phase@ }
    }
}

impl Job {
    #[verifier::type_invariant]
    spec fn well_formed(self) -> bool {
        self@.inv()
    }

    /// The job for `request`. It begins by asking what the source root is.
    pub fn new(request: Request) -> (job: Job)
        ensures
            job@ == JobState::start(request@),
            job@.inv(),
    {
        Job { request, phase: Phase::ProbingSource }
    }

    /// What the job needs from the outside now.
    pub fn action(&self) -> (action: Action)
        ensures
            action@ == self@.action(),
            self@.inv(),
    {
        proof {
            use_type_invariant(self);
        }
        match &self.phase {
            Phase::ProbingSource => Action::Probe(self.request.source.clone()),
            Phase::ProbingDest(_) => Action::Probe(self.request.dest.clone()),
            Phase::WalkingSource(walker) => list_pending(walker),
            Phase::WalkingDest(_, walker) => list_pending(walker),
            Phase::Syncing(sync) => match sync.action() {
                SyncAction::SetTotal(total) => Action::SetTotal(total),
                SyncAction::Copy { source, dest } => Action::Copy { source, dest },
                SyncAction::Tick => Action::Tick,
                SyncAction::Finish(report) => Action::Finish(report),
                SyncAction::Abort(error) => Action::Fail(RunError::Copy(error)),
            },
            Phase::Failed(error) => Action::Fail(RunError::Walk(error.clone())),
        }
    }
}

/// The request to list the directory that `walker` waits for.
fn list_pending(walker: &Walker) -> (action: Action)
    requires
        walker@.pending().is_some(),
    ensures
        action@ == ActionView::List(walker@.frontier[0]),
{
    match walker.pending() {
        Some(dir) => Action::List(dir.clone()),
        None => vstd::pervasive::unreached(),
    }
}

/// Where a job stands once its walk of the source tree stands at `walker`.
fn source_walked(walker: Walker) -> (phase: Phase)
    ensures
        phase@ == JobState::source_walked(walker@),
        forall|job: JobState|
            job.request.source == walker@.root && job.request.rules == walker@.rules
                ==> #[trigger] (JobState { stage: phase@, ..job }).inv(),
{
    if walker.pending().is_some() {
        Phase::WalkingSource(walker)
    } else {
        match walker.finish() {
            Ok(files) => {
                assert(file_views(files@).len() == files.len());
                Phase::ProbingDest(files)
            },
            Err(error) => Phase::Failed(error),
        }
    }
}

/// Where a job stands once its walk of the destination tree stands at
/// `walker`, the source files being `sources`.
fn dest_walked(sources: Vec<FileEntry>, walker: Walker, matching: MatchConfig) -> (phase: Phase)
    ensures
        phase@ == JobState::dest_walked(file_views(sources@), walker@, matching.case_sensitive),
        forall|job: JobState|
            job.request.dest == walker@.root && job.request.rules == walker@.rules
                && job.all_in_reach(job.request.source, file_views(sources@))
                ==> #[trigger] (JobState { stage: phase@, ..job }).inv(),
{
    assert(file_views(sources@).len() == sources.len());
    if walker.pending().is_some() {
        Phase::WalkingDest(sources, walker)
    } else {
        match walker.finish() {
            Ok(files) => {
                assert(file_views(files@).len() == files.len());
                Phase::Syncing(Synchronizer::new(sources, files, matching))
            },
            Err(error) => Phase::Failed(error),
        }
    }
}

/// A job has no file copied but one in reach of the source root, and has no
/// file overwritten but one in reach of the destination root: what the rules
/// of the request keep out of the walks, the job leaves alone.
pub proof fn lemma_copies_stay_in_reach(job: JobState)
    requires
        job.inv(),
    ensures
        job.action() matches ActionView::Copy { source, dest } ==> file_in_reach(
            job.request.rules,
            job.request.source,
            source,
        ) && file_in_reach(job.request.rules, job.request.dest, dest),
{
    if let Stage::Syncing(sync) = job.stage {
        lemma_plan_in_range(sync.sources, sync.dests, sync.case_sensitive);
        if let Some((source, dest)) = sync.copying() {
            assert(in_range(sync.steps()[sync.position - 1], sync.sources.len(), sync.dests.len()));
        }
    }
}

/// Runs `job` on from `event`, the outside's answer to the job's last action,
/// to the next thing that the job needs, and returns that action.
///
/// The job asks what the source root is, has the source tree listed directory
/// by directory, does the same for the destination, and then has every
/// destination file overwritten by each source file of a matching base name,
/// with a tick for the progress sink after each destination file. A walk that
/// fails and a copy that fails end the job at once. An event that is no
/// answer to the job's action changes nothing, and the action is named again.
pub fn run(job: &mut Job, event: Event) -> (action: Action)
    ensures
        final(job)@ == old(job)@.after(event@),
        final(job)@.inv(),
        action@ == final(job)@.action(),
{
    proof {
        use_type_invariant(&*job);
    }
    let mut phase = Phase::ProbingSource;
    core::mem::swap(&mut job.phase, &mut phase);
    let next = match (phase, event) {
        (Phase::ProbingSource, Event::Root(kind)) => source_walked(
            Walker::new(job.request.source.clone(), kind, job.request.traversal.clone()),
        ),
        (Phase::WalkingSource(mut walker), Event::Listed(entries)) => {
            walker.listed(&entries);
            source_walked(walker)
        },
        (Phase::WalkingSource(mut walker), Event::ListFailed) => {
            walker.list_failed();
            source_walked(walker)
        },
        (Phase::ProbingDest(sources), Event::Root(kind)) => dest_walked(
            sources,
            Walker::new(job.request.dest.clone(), kind, job.request.traversal.clone()),
            job.request.matching,
        ),
        (Phase::WalkingDest(sources, mut walker), Event::Listed(entries)) => {
            walker.listed(&entries);
            dest_walked(sources, walker, job.request.matching)
        },
        (Phase::WalkingDest(sources, mut walker), Event::ListFailed) => {
            walker.list_failed();
            dest_walked(sources, walker, job.request.matching)
        },
        (Phase::Syncing(mut sync), Event::Done) => {
            sync.done();
            Phase::Syncing(sync)
        },
        (Phase::Syncing(mut sync), Event::Failed) => {
            sync.copy_failed();
            Phase::Syncing(sync)
        },
        (phase, _) => phase,
    };
    job.phase = next;
    job.action()
}

} // verus!
