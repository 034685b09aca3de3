//! What a synchronisation does to the content of files.
//!
//! The files are modelled as a map from paths to contents, a copy as the
//! update of one path by the content of another. Over this model the module
//! states what the steps of a synchronisation leave behind.

use crate::sync::{all_in_range, copies_into, files_match, in_range, lemma_plan_in_range, plan_of, Step};
use vstd::prelude::*;

verus! {

/// The files after one step. A copy gives the destination the content that
/// the source has; a tick changes nothing.
pub open spec fn after_step(
    files: Map<Seq<u8>, Seq<u8>>,
    step: Step,
    sources: Seq<Seq<u8>>,
    dests: Seq<Seq<u8>>,
) -> Map<Seq<u8>, Seq<u8>> {
    match step {
        Step::Copy { source, dest } => files.insert(
            dests[dest as int],
            files[sources[source as int]],
        ),
        Step::Tick => files,
    }
}

/// The files after the steps, taken in order.
pub open spec fn after_steps(
    files: Map<Seq<u8>, Seq<u8>>,
    steps: Seq<Step>,
    sources: Seq<Seq<u8>>,
    dests: Seq<Seq<u8>>,
) -> Map<Seq<u8>, Seq<u8>>
    decreases steps.len(),
{
    if steps.len() == 0 {
        files
    } else {
        after_step(
            after_steps(files, steps.drop_last(), sources, dests),
            steps.last(),
            sources,
            dests,
        )
    }
}

/// The files after a synchronisation in which every copy was made.
pub open spec fn synchronized(
    files: Map<Seq<u8>, Seq<u8>>,
    sources: Seq<Seq<u8>>,
    dests: Seq<Seq<u8>>,
    case_sensitive: bool,
) -> Map<Seq<u8>, Seq<u8>> {
    after_steps(files, plan_of(sources, dests, case_sensitive), sources, dests)
}

/// The step is a copy onto `path`.
pub open spec fn copies_onto(step: Step, dests: Seq<Seq<u8>>, path: Seq<u8>) -> bool {
    match step {
        Step::Copy { source, dest } => dests[dest as int] == path,
        Step::Tick => false,
    }
}

/// One of the steps is a copy onto `path`.
pub open spec fn writes(steps: Seq<Step>, dests: Seq<Seq<u8>>, path: Seq<u8>) -> bool {
    exists|k: int| 0 <= k < steps.len() && copies_onto(#[trigger] steps[k], dests, path)
}

/// The two maps give every source the same content.
pub open spec fn same_sources(
    a: Map<Seq<u8>, Seq<u8>>,
    b: Map<Seq<u8>, Seq<u8>>,
    sources: Seq<Seq<u8>>,
) -> bool {
    forall|j: int| 0 <= j < sources.len() ==> a[#[trigger] sources[j]] == b[sources[j]]
}

/// The source from which the last copy onto `path` among the steps is made;
/// `-1` where no step writes the path.
pub open spec fn last_writer(steps: Seq<Step>, dests: Seq<Seq<u8>>, path: Seq<u8>) -> int
    decreases steps.len(),
{
    if steps.len() == 0 {
        -1
    } else {
        match steps.last() {
            Step::Copy { source, dest } => if dests[dest as int] == path {
                source as int
            } else {
                last_writer(steps.drop_last(), dests, path)
            },
            Step::Tick => last_writer(steps.drop_last(), dests, path),
        }
    }
}

/// The last of the sources that matches `dest`; `-1` where none does.
pub open spec fn last_match(sources: Seq<Seq<u8>>, dest: Seq<u8>, case_sensitive: bool) -> int
    decreases sources.len(),
{
    if sources.len() == 0 {
        -1
    } else if files_match(sources.last(), dest, case_sensitive) {
        sources.len() - 1
    } else {
        last_match(sources.drop_last(), dest, case_sensitive)
    }
}

/// Where all steps name files that the lists hold, so do all but the last,
/// and so does the last.
proof fn lemma_earlier_in_range(steps: Seq<Step>, sources: nat, dests: nat)
    requires
        steps.len() > 0,
        all_in_range(steps, sources, dests),
    ensures
        all_in_range(steps.drop_last(), sources, dests),
        in_range(steps.last(), sources, dests),
{
    assert forall|k: int| 0 <= k < steps.len() - 1 implies in_range(
        #[trigger] steps.drop_last()[k],
        sources,
        dests,
    ) by {
        assert(steps.drop_last()[k] == steps[k]);
    }
    assert(steps.last() == steps[steps.len() - 1]);
}

/// Writing carries over from the earlier steps to all of them.
proof fn lemma_writes_grows(steps: Seq<Step>, dests: Seq<Seq<u8>>, path: Seq<u8>)
    requires
        steps.len() > 0,
    ensures
        writes(steps, dests, path) <==> writes(steps.drop_last(), dests, path) || copies_onto(
            steps.last(),
            dests,
            path,
        ),
{
    let earlier = steps.drop_last();
    if writes(earlier, dests, path) {
        let k = choose|k: int| 0 <= k < earlier.len() && copies_onto(#[trigger] earlier[k], dests, path);
        assert(steps[k] == earlier[k]);
    }
    if copies_onto(steps.last(), dests, path) {
        assert(steps[steps.len() - 1] == steps.last());
    }
    if writes(steps, dests, path) {
        let k = choose|k: int| 0 <= k < steps.len() && copies_onto(#[trigger] steps[k], dests, path);
        if k < earlier.len() {
            assert(earlier[k] == steps[k]);
        }
    }
}

/// A path that no step writes keeps its content, and is there afterwards
/// exactly if it was there before. A path that a step writes is there
/// afterwards.
pub proof fn lemma_unwritten_kept(
    files: Map<Seq<u8>, Seq<u8>>,
    steps: Seq<Step>,
    sources: Seq<Seq<u8>>,
    dests: Seq<Seq<u8>>,
    path: Seq<u8>,
)
    ensures
        !writes(steps, dests, path) ==> after_steps(files, steps, sources, dests)[path]
            == files[path],
        after_steps(files, steps, sources, dests).dom().contains(path) <==> files.dom().contains(
            path,
        ) || writes(steps, dests, path),
    decreases steps.len(),
{
    if steps.len() > 0 {
        lemma_unwritten_kept(files, steps.drop_last(), sources, dests, path);
        lemma_writes_grows(steps, dests, path);
    }
}

/// Started from two maps that give every source the same content, the same
/// steps end in two maps that give every source the same content, and the
/// same content to every path that a step writes.
pub proof fn lemma_same_sources_same_writes(
    a: Map<Seq<u8>, Seq<u8>>,
    b: Map<Seq<u8>, Seq<u8>>,
    steps: Seq<Step>,
    sources: Seq<Seq<u8>>,
    dests: Seq<Seq<u8>>,
)
    requires
        all_in_range(steps, sources.len(), dests.len()),
        same_sources(a, b, sources),
    ensures
        same_sources(
            after_steps(a, steps, sources, dests),
            after_steps(b, steps, sources, dests),
            sources,
        ),
        forall|path: Seq<u8>| #[trigger]
            writes(steps, dests, path) ==> after_steps(a, steps, sources, dests)[path]
                == after_steps(b, steps, sources, dests)[path],
    decreases steps.len(),
{
    if steps.len() > 0 {
        let earlier = steps.drop_last();
        lemma_earlier_in_range(steps, sources.len(), dests.len());
        lemma_same_sources_same_writes(a, b, earlier, sources, dests);
        let a_before = after_steps(a, earlier, sources, dests);
        let b_before = after_steps(b, earlier, sources, dests);
        let a_after = after_steps(a, steps, sources, dests);
        let b_after = after_steps(b, steps, sources, dests);
        // the last step reads a source, which both maps hold alike
        if let Step::Copy { source, dest } = steps.last() {
            assert(a_before[sources[source as int]] == b_before[sources[source as int]]);
        }
        assert forall|j: int| 0 <= j < sources.len() implies a_after[#[trigger] sources[j]]
            == b_after[sources[j]] by {
            assert(a_before[sources[j]] == b_before[sources[j]]);
        }
        assert forall|path: Seq<u8>| #[trigger] writes(steps, dests, path) implies a_after[path]
            == b_after[path] by {
            lemma_writes_grows(steps, dests, path);
        }
    }
}

/// Synchronising twice leaves what synchronising once leaves, where the
/// first run left the content of every source as it was.
pub proof fn lemma_synchronize_idempotent(
    files: Map<Seq<u8>, Seq<u8>>,
    sources: Seq<Seq<u8>>,
    dests: Seq<Seq<u8>>,
    case_sensitive: bool,
)
    requires
        sources.len() <= usize::MAX,
        dests.len() <= usize::MAX,
        same_sources(synchronized(files, sources, dests, case_sensitive), files, sources),
    ensures
        synchronized(
            synchronized(files, sources, dests, case_sensitive),
            sources,
            dests,
            case_sensitive,
        ) == synchronized(files, sources, dests, case_sensitive),
{
    let steps = plan_of(sources, dests, case_sensitive);
    let once = synchronized(files, sources, dests, case_sensitive);
    let twice = synchronized(once, sources, dests, case_sensitive);
    lemma_plan_in_range(sources, dests, case_sensitive);
    lemma_same_sources_same_writes(once, files, steps, sources, dests);
    assert forall|path: Seq<u8>| twice.dom().contains(path) == once.dom().contains(path) by {
        lemma_unwritten_kept(files, steps, sources, dests, path);
        lemma_unwritten_kept(once, steps, sources, dests, path);
    }
    assert forall|path: Seq<u8>| once.dom().contains(path) implies twice[path] == once[path] by {
        lemma_unwritten_kept(once, steps, sources, dests, path);
        if writes(steps, dests, path) {
            assert(after_steps(once, steps, sources, dests)[path] == after_steps(
                files,
                steps,
                sources,
                dests,
            )[path]);
        }
    }
    assert(twice =~= once);
}

/// `last_match` names the last source that matches, or `-1` where no source
/// matches.
pub proof fn lemma_last_match_is_last(sources: Seq<Seq<u8>>, dest: Seq<u8>, case_sensitive: bool)
    ensures
        -1 <= last_match(sources, dest, case_sensitive) < sources.len(),
        last_match(sources, dest, case_sensitive) >= 0 ==> files_match(
            sources[last_match(sources, dest, case_sensitive)],
            dest,
            case_sensitive,
        ),
        forall|j: int|
            last_match(sources, dest, case_sensitive) < j < sources.len() ==> !files_match(
                #[trigger] sources[j],
                dest,
                case_sensitive,
            ),
    decreases sources.len(),
{
    if sources.len() > 0 {
        let earlier = sources.drop_last();
        lemma_last_match_is_last(earlier, dest, case_sensitive);
        if !files_match(sources.last(), dest, case_sensitive) {
            let last = last_match(earlier, dest, case_sensitive);
            if last >= 0 {
                assert(earlier[last] == sources[last]);
            }
            assert forall|j: int| last < j < sources.len() implies !files_match(
                #[trigger] sources[j],
                dest,
                case_sensitive,
            ) by {
                if j < earlier.len() {
                    assert(earlier[j] == sources[j]);
                }
            }
        }
    }
}

/// A path that some step writes holds in the end what the source of the last
/// such step held at the beginning, where no step writes a source.
pub proof fn lemma_written_from_last_writer(
    files: Map<Seq<u8>, Seq<u8>>,
    steps: Seq<Step>,
    sources: Seq<Seq<u8>>,
    dests: Seq<Seq<u8>>,
    path: Seq<u8>,
)
    requires
        all_in_range(steps, sources.len(), dests.len()),
        forall|j: int| 0 <= j < sources.len() ==> !writes(steps, dests, #[trigger] sources[j]),
    ensures
        writes(steps, dests, path) <==> last_writer(steps, dests, path) >= 0,
        -1 <= last_writer(steps, dests, path) < sources.len(),
        writes(steps, dests, path) ==> after_steps(files, steps, sources, dests)[path]
            == files[sources[last_writer(steps, dests, path)]],
    decreases steps.len(),
{
    if steps.len() > 0 {
        let earlier = steps.drop_last();
        lemma_earlier_in_range(steps, sources.len(), dests.len());
        assert forall|j: int| 0 <= j < sources.len() implies !writes(
            earlier,
            dests,
            #[trigger] sources[j],
        ) by {
            lemma_writes_grows(steps, dests, sources[j]);
        }
        lemma_written_from_last_writer(files, earlier, sources, dests, path);
        lemma_writes_grows(steps, dests, path);
        // a copy reads what its source held at the beginning
        if let Step::Copy { source, dest } = steps.last() {
            lemma_unwritten_kept(files, earlier, sources, dests, sources[source as int]);
        }
    }
}

/// The last writer among steps put one after the other is the last writer
/// among the later ones, if they write the path at all, and else the last
/// writer among the earlier ones.
proof fn lemma_last_writer_of_both(
    earlier: Seq<Step>,
    later: Seq<Step>,
    dests: Seq<Seq<u8>>,
    path: Seq<u8>,
)
    ensures
        last_writer(earlier + later, dests, path) == if last_writer(later, dests, path) >= 0 {
            last_writer(later, dests, path)
        } else {
            last_writer(earlier, dests, path)
        },
    decreases later.len(),
{
    if later.len() == 0 {
        assert(earlier + later =~= earlier);
    } else {
        assert((earlier + later).drop_last() =~= earlier + later.drop_last());
        assert((earlier + later).last() == later.last());
        lemma_last_writer_of_both(earlier, later.drop_last(), dests, path);
    }
}

/// Among the copies into one destination the last writer of that
/// destination's path is the last source that matches it, and no other path
/// is written.
proof fn lemma_last_writer_of_copies(
    sources: Seq<Seq<u8>>,
    dests: Seq<Seq<u8>>,
    index: usize,
    case_sensitive: bool,
    path: Seq<u8>,
)
    requires
        sources.len() <= usize::MAX,
        index < dests.len(),
    ensures
        last_writer(copies_into(sources, dests[index as int], index, case_sensitive), dests, path)
            == if path == dests[index as int] {
            last_match(sources, path, case_sensitive)
        } else {
            -1
        },
    decreases sources.len(),
{
    if sources.len() > 0 {
        let dest = dests[index as int];
        let earlier = copies_into(sources.drop_last(), dest, index, case_sensitive);
        let copies = copies_into(sources, dest, index, case_sensitive);
        lemma_last_writer_of_copies(sources.drop_last(), dests, index, case_sensitive, path);
        if files_match(sources.last(), dest, case_sensitive) {
            assert(copies.drop_last() =~= earlier);
            assert(copies.last() == Step::Copy {
                source: (sources.len() - 1) as usize,
                dest: index,
            });
        }
    }
}

/// The last writer of a path does not depend on destinations that no step
/// names.
proof fn lemma_last_writer_within(
    steps: Seq<Step>,
    sources: nat,
    dests: Seq<Seq<u8>>,
    count: int,
    path: Seq<u8>,
)
    requires
        0 <= count <= dests.len(),
        all_in_range(steps, sources, count as nat),
    ensures
        last_writer(steps, dests, path) == last_writer(steps, dests.take(count), path),
    decreases steps.len(),
{
    if steps.len() > 0 {
        lemma_earlier_in_range(steps, sources, count as nat);
        lemma_last_writer_within(steps.drop_last(), sources, dests, count, path);
    }
}

/// In a synchronisation the last writer of a destination's path is the last
/// source that matches it, and no other path is written.
pub proof fn lemma_last_writer_of_plan(
    sources: Seq<Seq<u8>>,
    dests: Seq<Seq<u8>>,
    case_sensitive: bool,
    path: Seq<u8>,
)
    requires
        sources.len() <= usize::MAX,
        dests.len() <= usize::MAX,
    ensures
        last_writer(plan_of(sources, dests, case_sensitive), dests, path) == if dests.contains(
            path,
        ) {
            last_match(sources, path, case_sensitive)
        } else {
            -1
        },
    decreases dests.len(),
{
    if dests.len() > 0 {
        let fewer = dests.drop_last();
        let index = (dests.len() - 1) as usize;
        let earlier = plan_of(sources, fewer, case_sensitive);
        let copies = copies_into(sources, dests.last(), index, case_sensitive);
        let later = copies.push(Step::Tick);
        lemma_last_writer_of_plan(sources, fewer, case_sensitive, path);
        lemma_plan_in_range(sources, fewer, case_sensitive);
        lemma_last_writer_within(earlier, sources.len(), dests, fewer.len() as int, path);
        assert(dests.take(fewer.len() as int) =~= fewer);
        lemma_last_writer_of_copies(sources, dests, index, case_sensitive, path);
        assert(later.drop_last() =~= copies);
        assert(last_writer(later, dests, path) == last_writer(copies, dests, path));
        lemma_last_writer_of_both(earlier, later, dests, path);
        lemma_last_match_is_last(sources, path, case_sensitive);
        if fewer.contains(path) {
            let k = choose|k: int| 0 <= k < fewer.len() && fewer[k] == path;
            assert(dests[k] == path);
        }
        if dests.contains(path) && path != dests.last() {
            let k = choose|k: int| 0 <= k < dests.len() && dests[k] == path;
            assert(fewer[k] == path);
        }
        assert(dests[dests.len() - 1] == dests.last());
    } else {
        assert(!dests.contains(path));
    }
}

/// No source is overwritten: none is at the same time a destination that
/// some source matches.
pub open spec fn sources_kept(
    sources: Seq<Seq<u8>>,
    dests: Seq<Seq<u8>>,
    case_sensitive: bool,
) -> bool {
    forall|j: int, k: int|
        0 <= j < sources.len() && 0 <= k < dests.len() && #[trigger] sources[j]
            == #[trigger] dests[k] ==> last_match(sources, dests[k], case_sensitive) < 0
}

/// What a synchronisation leaves in a path, where no source is overwritten.
/// A destination that some source matches holds what the last such source
/// held. Every other path holds what it held.
pub proof fn lemma_last_match_wins(
    files: Map<Seq<u8>, Seq<u8>>,
    sources: Seq<Seq<u8>>,
    dests: Seq<Seq<u8>>,
    case_sensitive: bool,
    path: Seq<u8>,
)
    requires
        sources.len() <= usize::MAX,
        dests.len() <= usize::MAX,
        sources_kept(sources, dests, case_sensitive),
    ensures
        dests.contains(path) && last_match(sources, path, case_sensitive) >= 0 ==> synchronized(
            files,
            sources,
            dests,
            case_sensitive,
        )[path] == files[sources[last_match(sources, path, case_sensitive)]],
        !dests.contains(path) || last_match(sources, path, case_sensitive) < 0 ==> synchronized(
            files,
            sources,
            dests,
            case_sensitive,
        )[path] == files[path],
{
    let steps = plan_of(sources, dests, case_sensitive);
    lemma_plan_in_range(sources, dests, case_sensitive);
    assert forall|j: int| 0 <= j < sources.len() implies !writes(
        steps,
        dests,
        #[trigger] sources[j],
    ) by {
        lemma_no_source_written(sources, dests, case_sensitive, j);
    }
    lemma_written_from_last_writer(files, steps, sources, dests, path);
    lemma_last_writer_of_plan(sources, dests, case_sensitive, path);
    lemma_unwritten_kept(files, steps, sources, dests, path);
}

/// Where no source is overwritten, no step of the synchronisation writes a
/// source.
proof fn lemma_no_source_written(
    sources: Seq<Seq<u8>>,
    dests: Seq<Seq<u8>>,
    case_sensitive: bool,
    j: int,
)
    requires
        sources.len() <= usize::MAX,
        dests.len() <= usize::MAX,
        sources_kept(sources, dests, case_sensitive),
        0 <= j < sources.len(),
    ensures
        !writes(plan_of(sources, dests, case_sensitive), dests, sources[j]),
{
    let steps = plan_of(sources, dests, case_sensitive);
    let path = sources[j];
    lemma_plan_in_range(sources, dests, case_sensitive);
    lemma_last_writer_of_plan(sources, dests, case_sensitive, path);
    lemma_writer_known(steps, dests, path);
    if dests.contains(path) {
        let k = choose|k: int| 0 <= k < dests.len() && dests[k] == path;
        assert(sources[j] == dests[k]);
    }
}

/// A path that some step writes has a last writer.
proof fn lemma_writer_known(steps: Seq<Step>, dests: Seq<Seq<u8>>, path: Seq<u8>)
    ensures
        writes(steps, dests, path) ==> last_writer(steps, dests, path) >= 0,
    decreases steps.len(),
{
    if steps.len() > 0 {
        lemma_writer_known(steps.drop_last(), dests, path);
        lemma_writes_grows(steps, dests, path);
    }
}

} // verus!
