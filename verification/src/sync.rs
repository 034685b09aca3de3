//! The matcher and copier: which source file is copied over which destination
//! file, in what order, and what is said to the progress sink on the way.
//!
//! The synchroniser copies no file itself. It names one action at a time, and
//! the caller says how the action went.

use crate::path::{base_name, base_names_match, names_match};
use crate::path::FilePath;
use crate::walk::{file_views, FileEntry};
use vstd::prelude::*;

verus! {

/// How base names are compared.
#[derive(Clone, Copy, Debug, PartialEq, Eq, Hash, Structural)]
pub struct MatchConfig {
    /// Byte for byte when set; up to the case of ASCII letters otherwise.
    pub case_sensitive: bool,
}

impl Default for MatchConfig {
    /// Names are compared up to the case of ASCII letters.
    fn default() -> (config: MatchConfig)
        ensures
            config == (MatchConfig { case_sensitive: false }),
    {
        MatchConfig { case_sensitive: false }
    }
}

/// One step of a synchronisation. Files are named by their index in the list
/// of sources and in the list of destinations.
#[derive(Clone, Copy, Debug, PartialEq, Eq, Hash, Structural)]
pub enum Step {
    /// The destination's content is replaced by the source's.
    Copy { source: usize, dest: usize },
    /// One destination file has been dealt with.
    Tick,
}

/// What a synchronisation did, counted in files.
#[derive(Clone, Copy, Debug, PartialEq, Eq, Hash, Structural)]
pub struct SyncReport {
    /// Copies made.
    pub copied: usize,
    /// Destination files that a source file matched.
    pub updated: usize,
    /// Destination files that no source file matched.
    pub untouched: usize,
}

/// The source `source` and the destination `dest` have matching base names.
pub open spec fn files_match(source: Seq<u8>, dest: Seq<u8>, case_sensitive: bool) -> bool {
    names_match(base_name(source), base_name(dest), case_sensitive)
}

/// The copies that the destination `dest`, of index `index`, calls for: one
/// from every source that matches it, in the order of the sources.
pub open spec fn copies_into(
    sources: Seq<Seq<u8>>,
    dest: Seq<u8>,
    index: usize,
    case_sensitive: bool,
) -> Seq<Step>
    decreases sources.len(),
{
    if sources.len() == 0 {
        Seq::empty()
    } else {
        let earlier = copies_into(sources.drop_last(), dest, index, case_sensitive);
        if files_match(sources.last(), dest, case_sensitive) {
            earlier.push(Step::Copy { source: (sources.len() - 1) as usize, dest: index })
        } else {
            earlier
        }
    }
}

/// The steps of a synchronisation: for each destination in turn its copies,
/// then one tick.
pub open spec fn plan_of(sources: Seq<Seq<u8>>, dests: Seq<Seq<u8>>, case_sensitive: bool) -> Seq<
    Step,
>
    decreases dests.len(),
{
    if dests.len() == 0 {
        Seq::empty()
    } else {
        plan_of(sources, dests.drop_last(), case_sensitive) + copies_into(
            sources,
            dests.last(),
            (dests.len() - 1) as usize,
            case_sensitive,
        ).push(Step::Tick)
    }
}

/// How many copies a synchronisation makes.
pub open spec fn copies_made(sources: Seq<Seq<u8>>, dests: Seq<Seq<u8>>, case_sensitive: bool) -> nat
    decreases dests.len(),
{
    if dests.len() == 0 {
        0
    } else {
        copies_made(sources, dests.drop_last(), case_sensitive) + copies_into(
            sources,
            dests.last(),
            (dests.len() - 1) as usize,
            case_sensitive,
        ).len()
    }
}

/// How many of the destinations some source matches.
pub open spec fn files_updated(
    sources: Seq<Seq<u8>>,
    dests: Seq<Seq<u8>>,
    case_sensitive: bool,
) -> nat
    decreases dests.len(),
{
    if dests.len() == 0 {
        0
    } else {
        let earlier = files_updated(sources, dests.drop_last(), case_sensitive);
        if copies_into(sources, dests.last(), (dests.len() - 1) as usize, case_sensitive).len()
            > 0 {
            earlier + 1
        } else {
            earlier
        }
    }
}

/// The report of a synchronisation that ran to its end.
pub open spec fn is_report_of(
    report: SyncReport,
    sources: Seq<Seq<u8>>,
    dests: Seq<Seq<u8>>,
    case_sensitive: bool,
) -> bool {
    &&& report.copied == copies_made(sources, dests, case_sensitive)
    &&& report.updated == files_updated(sources, dests, case_sensitive)
    &&& report.untouched == dests.len() - files_updated(sources, dests, case_sensitive)
}

/// The base names of the files, in order.
fn base_names(files: &Vec<FileEntry>) -> (names: Vec<Vec<u8>>)
    ensures
        names@.len() == files@.len(),
        forall|k: int| 0 <= k < names@.len() ==> (#[trigger] names@[k])@ == base_name(files@[k]@),
{
    let mut names: Vec<Vec<u8>> = Vec::with_capacity(files.len());
    let mut k: usize = 0;
    while k < files.len()
        invariant
            k <= files.len(),
            names@.len() == k,
            forall|n: int| 0 <= n < k ==> (#[trigger] names@[n])@ == base_name(files@[n]@),
        decreases files.len() - k,
    {
        names.push(files[k].path.base_name());
        k += 1;
    }
    names
}

/// Plans a synchronisation: the steps in the order in which they are to be
/// taken, and the report that holds once all of them are taken.
///
/// Every destination is held against every source. Each source whose base
/// name matches gives one copy, so that the last of them decides what the
/// destination holds in the end. A destination that nothing matches gets no
/// copy. One tick follows the copies of each destination.
pub fn plan(sources: &Vec<FileEntry>, dests: &Vec<FileEntry>, config: &MatchConfig) -> (planned: (
    Vec<Step>,
    SyncReport,
))
    ensures
        planned.0@ == plan_of(file_views(sources@), file_views(dests@), config.case_sensitive),
        is_report_of(
            planned.1,
            file_views(sources@),
            file_views(dests@),
            config.case_sensitive,
        ),
{
    let ghost from = file_views(sources@);
    let ghost onto = file_views(dests@);
    let case_sensitive = config.case_sensitive;
    let source_names = base_names(sources);
    let mut steps: Vec<Step> = Vec::new();
    let mut copied: usize = 0;
    let mut updated: usize = 0;
    let mut d: usize = 0;
    while d < dests.len()
        invariant
            d <= dests.len(),
            from == file_views(sources@),
            onto == file_views(dests@),
            source_names@.len() == sources@.len(),
            forall|k: int|
                0 <= k < source_names@.len() ==> (#[trigger] source_names@[k])@ == base_name(
                    sources@[k]@,
                ),
            steps@ == plan_of(from, onto.take(d as int), case_sensitive),
            copied == copies_made(from, onto.take(d as int), case_sensitive),
            updated == files_updated(from, onto.take(d as int), case_sensitive),
            steps@.len() == copied + d,
            updated <= d,
        decreases dests.len() - d,
    {
        let dest_name = dests[d].path.base_name();
        let ghost dest = onto[d as int];
        let ghost planned = steps@;
        let ghost copied_before = copied;
        let mut any: bool = false;
        let mut j: usize = 0;
        while j < sources.len()
            invariant
                j <= sources.len(),
                d < dests.len(),
                from == file_views(sources@),
                dest == dests@[d as int]@,
                dest_name@ == base_name(dest),
                source_names@.len() == sources@.len(),
                forall|k: int|
                    0 <= k < source_names@.len() ==> (#[trigger] source_names@[k])@ == base_name(
                        sources@[k]@,
                    ),
                steps@ == planned + copies_into(from.take(j as int), dest, d, case_sensitive),
                copied == copied_before + copies_into(
                    from.take(j as int),
                    dest,
                    d,
                    case_sensitive,
                ).len(),
                any == (copies_into(from.take(j as int), dest, d, case_sensitive).len() > 0),
                planned.len() == copied_before + d,
            decreases sources.len() - j,
        {
            proof {
                assert(from.take(j + 1).drop_last() =~= from.take(j as int));
            }
            if base_names_match(&source_names[j], &dest_name, case_sensitive) {
                steps.push(Step::Copy { source: j, dest: d });
                assert(steps.len() == copied + d + 1);
                copied += 1;
                any = true;
            }
            j += 1;
        }
        steps.push(Step::Tick);
        if any {
            updated += 1;
        }
        proof {
            assert(from.take(j as int) =~= from);
            assert(onto.take(d + 1).drop_last() =~= onto.take(d as int));
        }
        d += 1;
    }
    assert(onto.take(d as int) =~= onto);
    (steps, SyncReport { copied, updated, untouched: dests.len() - updated })
}

/// Why a synchronisation stopped before its end.
#[derive(Debug, PartialEq, Eq)]
pub enum CopyError {
    /// The source could not be read, or the destination could not be written.
    Io { source: FilePath, dest: FilePath },
}

/// A `CopyError` as a plain value.
pub enum CopyFault {
    Io { source: Seq<u8>, dest: Seq<u8> },
}

impl View for CopyError {
    type V = CopyFault;

    open spec fn view(&self) -> CopyFault {
        match self {
            CopyError::Io { source, dest } => CopyFault::Io { source: source@, dest: dest@ },
        }
    }
}

/// What the caller of a synchronisation is to do next.
#[derive(Debug, PartialEq, Eq)]
pub enum SyncAction {
    /// Tell the progress sink how many ticks are to come.
    SetTotal(usize),
    /// Replace the content of `dest` by the content of `source`.
    Copy { source: FilePath, dest: FilePath },
    /// Tell the progress sink that one more destination is dealt with.
    Tick,
    /// Tell the progress sink that all is done. The synchronisation is over
    /// and this is its report.
    Finish(SyncReport),
    /// Nothing more: the synchronisation is over and failed on this copy.
    Abort(CopyError),
}

/// A `SyncAction` as a plain value.
pub enum SyncActionView {
    SetTotal(usize),
    Copy { source: Seq<u8>, dest: Seq<u8> },
    Tick,
    Finish(SyncReport),
    Abort(CopyFault),
}

impl View for SyncAction {
    type V = SyncActionView;

    open spec fn view(&self) -> SyncActionView {
        match self {
            SyncAction::SetTotal(total) => SyncActionView::SetTotal(*total),
            SyncAction::Copy { source, dest } => SyncActionView::Copy {
                source: source@,
                dest: dest@,
            },
            SyncAction::Tick => SyncActionView::Tick,
            SyncAction::Finish(report) => SyncActionView::Finish(*report),
            SyncAction::Abort(error) => SyncActionView::Abort(error@),
        }
    }
}

/// The step names files that the lists hold.
pub open spec fn in_range(step: Step, sources: nat, dests: nat) -> bool {
    match step {
        Step::Copy { source, dest } => source < sources && dest < dests,
        Step::Tick => true,
    }
}

/// Every step names files that the lists hold.
pub open spec fn all_in_range(steps: Seq<Step>, sources: nat, dests: nat) -> bool {
    forall|k: int| 0 <= k < steps.len() ==> in_range(#[trigger] steps[k], sources, dests)
}

/// The copies into a destination name sources of the list, and that
/// destination.
pub proof fn lemma_copies_in_range(
    sources: Seq<Seq<u8>>,
    dest: Seq<u8>,
    index: usize,
    case_sensitive: bool,
)
    requires
        sources.len() <= usize::MAX,
    ensures
        all_in_range(
            copies_into(sources, dest, index, case_sensitive),
            sources.len(),
            (index + 1) as nat,
        ),
    decreases sources.len(),
{
    if sources.len() > 0 {
        lemma_copies_in_range(sources.drop_last(), dest, index, case_sensitive);
    }
}

/// Every step of a plan names files that the lists hold.
pub proof fn lemma_plan_in_range(sources: Seq<Seq<u8>>, dests: Seq<Seq<u8>>, case_sensitive: bool)
    requires
        sources.len() <= usize::MAX,
        dests.len() <= usize::MAX,
    ensures
        all_in_range(plan_of(sources, dests, case_sensitive), sources.len(), dests.len()),
    decreases dests.len(),
{
    if dests.len() > 0 {
        let index = (dests.len() - 1) as usize;
        lemma_plan_in_range(sources, dests.drop_last(), case_sensitive);
        lemma_copies_in_range(sources, dests.last(), index, case_sensitive);
    }
}

/// A synchronisation in progress, as a plain value.
pub struct SyncState {
    /// The source files, in the order of their walk.
    pub sources: Seq<Seq<u8>>,
    /// The destination files, in the order of their walk.
    pub dests: Seq<Seq<u8>>,
    /// How base names are compared.
    pub case_sensitive: bool,
    /// How many actions are done with.
    pub position: nat,
    /// Whether the copy at `position` failed.
    pub failed: bool,
}

impl SyncState {
    /// The state in which a synchronisation begins.
    pub open spec fn start(sources: Seq<Seq<u8>>, dests: Seq<Seq<u8>>, case_sensitive: bool) -> SyncState {
        SyncState { sources, dests, case_sensitive, position: 0, failed: false }
    }

    /// The steps of the synchronisation.
    pub open spec fn steps(self) -> Seq<Step> {
        plan_of(self.sources, self.dests, self.case_sensitive)
    }

    /// The report of the synchronisation, once it has come to its end.
    pub open spec fn report(self) -> SyncReport {
        SyncReport {
            copied: copies_made(self.sources, self.dests, self.case_sensitive) as usize,
            updated: files_updated(self.sources, self.dests, self.case_sensitive) as usize,
            untouched: (self.dests.len() - files_updated(
                self.sources,
                self.dests,
                self.case_sensitive,
            )) as usize,
        }
    }

    /// The copy that is the current action, if the current action is one.
    pub open spec fn copying(self) -> Option<(Seq<u8>, Seq<u8>)> {
        if 1 <= self.position <= self.steps().len() {
            match self.steps()[self.position - 1] {
                Step::Copy { source, dest } => Some(
                    (self.sources[source as int], self.dests[dest as int]),
                ),
                Step::Tick => None,
            }
        } else {
            None
        }
    }

    /// The current action: first the total for the sink, then the steps one
    /// by one, then the finish with the report. A copy that failed is
    /// followed by nothing but the abort.
    pub open spec fn action(self) -> SyncActionView {
        if self.position == 0 {
            SyncActionView::SetTotal(self.dests.len() as usize)
        } else if self.position <= self.steps().len() {
            match self.copying() {
                Some((source, dest)) => if self.failed {
                    SyncActionView::Abort(CopyFault::Io { source, dest })
                } else {
                    SyncActionView::Copy { source, dest }
                },
                None => SyncActionView::Tick,
            }
        } else {
            SyncActionView::Finish(self.report())
        }
    }

    /// The state after the current action was done. After the finish and
    /// after an abort nothing changes.
    pub open spec fn done(self) -> SyncState {
        if !self.failed && self.position <= self.steps().len() {
            SyncState { position: self.position + 1, ..self }
        } else {
            self
        }
    }

    /// The state after the current action failed. Only a copy can fail:
    /// where the current action is none, nothing changes.
    pub open spec fn copy_failed(self) -> SyncState {
        if self.copying().is_some() {
            SyncState { failed: true, ..self }
        } else {
            self
        }
    }
}

/// A synchronisation in progress. It names the action to take, is told how
/// the action went, and names the next.
pub struct Synchronizer {
    sources: Vec<FileEntry>,
    dests: Vec<FileEntry>,
    config: MatchConfig,
    steps: Vec<Step>,
    report: SyncReport,
    announced: bool,
    cursor: usize,
    failed: bool,
}

impl View for Synchronizer {
    type V = SyncState;

    closed spec fn view(&self) -> SyncState {
        SyncState {
            sources: file_views(self.sources@),
            dests: file_views(self.dests@),
            case_sensitive: self.config.case_sensitive,
            position: if self.announced {
                (self.cursor + 1) as nat
            } else {
                0
            },
            failed: self.failed,
        }
    }
}

impl Synchronizer {
    #[verifier::type_invariant]
    spec fn well_formed(self) -> bool {
        &&& self.steps@ == self@.steps()
        &&& self.report == self@.report()
        &&& self.cursor <= self.steps@.len()
        &&& !self.announced ==> self.cursor == 0
        &&& self.failed ==> self@.copying().is_some()
    }

    /// Begins the synchronisation of the destination files `dests` with the
    /// source files `sources`.
    pub fn new(sources: Vec<FileEntry>, dests: Vec<FileEntry>, config: MatchConfig) -> (sync:
        Synchronizer)
        ensures
            sync@ == SyncState::start(
                file_views(sources@),
                file_views(dests@),
                config.case_sensitive,
            ),
    {
        let (steps, report) = plan(&sources, &dests, &config);
        Synchronizer {
            sources,
            dests,
            config,
            steps,
            report,
            announced: false,
            cursor: 0,
            failed: false,
        }
    }

    /// The action to take now.
    pub fn action(&self) -> (action: SyncAction)
        ensures
            action@ == self@.action(),
    {
        proof {
            use_type_invariant(self);
            assert(self@.sources.len() == self.sources.len());
            assert(self@.dests.len() == self.dests.len());
            lemma_plan_in_range(self@.sources, self@.dests, self@.case_sensitive);
        }
        if !self.announced {
            SyncAction::SetTotal(self.dests.len())
        } else if self.cursor < self.steps.len() {
            match self.steps[self.cursor] {
                Step::Copy { source, dest } => {
                    let from = self.sources[source].path.clone();
                    let onto = self.dests[dest].path.clone();
                    if self.failed {
                        SyncAction::Abort(CopyError::Io { source: from, dest: onto })
                    } else {
                        SyncAction::Copy { source: from, dest: onto }
                    }
                },
                Step::Tick => SyncAction::Tick,
            }
        } else {
            SyncAction::Finish(self.report)
        }
    }

    /// Takes note that the current action was done, and goes on to the next.
    pub fn done(&mut self)
        ensures
            final(self)@ == old(self)@.done(),
    {
        proof {
            use_type_invariant(&*self);
        }
        if self.failed {
            return ;
        }
        if !self.announced {
            self.announced = true;
        } else if self.cursor < self.steps.len() {
            self.cursor += 1;
        }
    }

    /// Takes note that the current action, a copy, failed. The
    /// synchronisation is over: no later copy is asked for.
    pub fn copy_failed(&mut self)
        ensures
            final(self)@ == old(self)@.copy_failed(),
    {
        proof {
            use_type_invariant(&*self);
        }
        if self.announced && self.cursor < self.steps.len() {
            match self.steps[self.cursor] {
                Step::Copy { .. } => {
                    self.failed = true;
                },
                Step::Tick => {},
            }
        }
    }
}

} // verus!
