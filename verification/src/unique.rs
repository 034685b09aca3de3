//! No file is returned twice.
//!
//! Where no directory lists a name twice, a walk collects every file once.
//! The proof counts the separators of a path: an entry holds one more than
//! its directory, so that what one round collects is not collected again in
//! a later one.

use crate::path::{base_name, is_child, join, lemma_base_name_of_join, valid_name, SEPARATOR};
use crate::walk::{dir_taken, file_taken, walk_of, well_named};
use crate::walk::{Listed, RootKind, Rules, WalkFault, WalkState};
use vstd::prelude::*;

verus! {

/// How many separators the path holds.
pub open spec fn separators(path: Seq<u8>) -> nat
    decreases path.len(),
{
    if path.len() == 0 {
        0
    } else if path.last() == SEPARATOR {
        separators(path.drop_last()) + 1
    } else {
        separators(path.drop_last())
    }
}

/// The path of an entry: it is not empty and does not end in a separator.
pub open spec fn is_entry_path(path: Seq<u8>) -> bool {
    path.len() > 0 && path.last() != SEPARATOR
}

/// How many separators the entries of the directory `dir` hold.
pub open spec fn separators_below(dir: Seq<u8>) -> nat {
    if dir.len() == 0 || dir.last() == SEPARATOR {
        separators(dir)
    } else {
        separators(dir) + 1
    }
}

/// A path followed by a name that holds no separator holds as many
/// separators as the path alone.
proof fn lemma_separators_with_name(prefix: Seq<u8>, name: Seq<u8>)
    requires
        forall|i: int| 0 <= i < name.len() ==> name[i] != SEPARATOR,
    ensures
        separators(prefix + name) == separators(prefix),
    decreases name.len(),
{
    if name.len() == 0 {
        assert(prefix + name =~= prefix);
    } else {
        assert((prefix + name).drop_last() =~= prefix + name.drop_last());
        assert((prefix + name).last() == name.last());
        lemma_separators_with_name(prefix, name.drop_last());
    }
}

/// The path of an entry is an entry path, and holds as many separators as
/// the entries of its directory do.
pub proof fn lemma_separators_of_join(dir: Seq<u8>, name: Seq<u8>)
    requires
        valid_name(name),
    ensures
        is_entry_path(join(dir, name)),
        separators(join(dir, name)) == separators_below(dir),
{
    assert(join(dir, name).last() == name.last());
    if dir.len() == 0 || dir.last() == SEPARATOR {
        lemma_separators_with_name(dir, name);
    } else {
        assert(dir.push(SEPARATOR).drop_last() =~= dir);
        lemma_separators_with_name(dir.push(SEPARATOR), name);
    }
}

/// Two entries have the same path only if they have the same name and lie
/// in the same directory, for directories that are paths of entries.
pub proof fn lemma_join_is_injective(
    dir: Seq<u8>,
    name: Seq<u8>,
    other_dir: Seq<u8>,
    other_name: Seq<u8>,
)
    requires
        valid_name(name),
        valid_name(other_name),
        join(dir, name) == join(other_dir, other_name),
        dir == other_dir || (is_entry_path(dir) && is_entry_path(other_dir)),
    ensures
        name == other_name,
        dir == other_dir,
{
    lemma_base_name_of_join(dir, name);
    lemma_base_name_of_join(other_dir, other_name);
    if dir != other_dir {
        let path = join(dir, name);
        assert(path == dir.push(SEPARATOR) + name);
        assert(path == other_dir.push(SEPARATOR) + name);
        assert(dir.push(SEPARATOR) =~= path.take(path.len() - name.len()));
        assert(other_dir.push(SEPARATOR) =~= path.take(path.len() - name.len()));
        assert(dir =~= dir.push(SEPARATOR).drop_last());
        assert(other_dir =~= other_dir.push(SEPARATOR).drop_last());
    }
}

/// No name comes twice in the listing.
pub open spec fn names_once(entries: Seq<Listed>) -> bool {
    forall|i: int, j: int|
        #![trigger entries[i], entries[j]]
        0 <= i < j < entries.len() ==> entries[i].name != entries[j].name
}

/// No directory of the tree lists a name twice.
pub open spec fn lists_names_once(tree: Map<Seq<u8>, Seq<Listed>>) -> bool {
    forall|dir: Seq<u8>| tree.dom().contains(dir) ==> names_once(#[trigger] tree[dir])
}

/// Whatever `pick` takes of an entry, it takes as the entry's path in `dir`.
spec fn picks_paths_of(pick: spec_fn(Listed) -> Option<Seq<u8>>, dir: Seq<u8>) -> bool {
    forall|entry: Listed| (#[trigger] pick(entry)) matches Some(path) ==> path == join(dir, entry.name)
}

/// Every path of the list is an entry of `dir`, holds as many separators as
/// the entries of `dir` do, and comes once.
spec fn are_entries_once(paths: Seq<Seq<u8>>, dir: Seq<u8>) -> bool {
    &&& paths.no_duplicates()
    &&& forall|i: int|
        0 <= i < paths.len() ==> {
            &&& is_child(dir, #[trigger] paths[i])
            &&& is_entry_path(paths[i])
            &&& separators(paths[i]) == separators_below(dir)
        }
}

/// What is taken of a listing of valid names, none of which comes twice, are
/// entries of the directory, each taken once.
proof fn lemma_picked_once(
    entries: Seq<Listed>,
    pick: spec_fn(Listed) -> Option<Seq<u8>>,
    dir: Seq<u8>,
)
    requires
        names_once(entries),
        forall|i: int| 0 <= i < entries.len() ==> valid_name(#[trigger] entries[i].name),
        picks_paths_of(pick, dir),
    ensures
        are_entries_once(entries.filter_map(pick), dir),
    decreases entries.len(),
{
    let picked = entries.filter_map(pick);
    if entries.len() > 0 {
        let before = entries.drop_last();
        let earlier = before.filter_map(pick);
        assert forall|i: int, j: int| 0 <= i < j < before.len() implies before[i].name
            != before[j].name by {
            assert(before[i] == entries[i] && before[j] == entries[j]);
        }
        assert forall|i: int| 0 <= i < before.len() implies valid_name(
            #[trigger] before[i].name,
        ) by {
            assert(before[i] == entries[i]);
        }
        lemma_picked_once(before, pick, dir);
        let last = entries.last();
        assert(last == entries[entries.len() - 1]);
        if let Some(path) = pick(last) {
            assert(picked == earlier + seq![path]);
            lemma_base_name_of_join(dir, last.name);
            lemma_separators_of_join(dir, last.name);
            assert forall|i: int| 0 <= i < earlier.len() implies earlier[i] != path by {
                assert(earlier.contains(earlier[i]));
                before.lemma_filter_map_contains(pick, earlier[i]);
                let entry = choose|entry: Listed| #[trigger]
                    before.contains(entry) && pick(entry) == Some(earlier[i]);
                let m = choose|m: int| 0 <= m < before.len() && before[m] == entry;
                assert(entries[m] == entry);
                if earlier[i] == path {
                    lemma_join_is_injective(dir, entry.name, dir, last.name);
                }
            }
            assert forall|i: int, j: int|
                0 <= i < picked.len() && 0 <= j < picked.len() && i != j implies picked[i]
                != picked[j] by {
                if i < earlier.len() {
                    assert(picked[i] == earlier[i]);
                }
                if j < earlier.len() {
                    assert(picked[j] == earlier[j]);
                }
            }
            assert forall|i: int| 0 <= i < picked.len() implies {
                &&& is_child(dir, #[trigger] picked[i])
                &&& is_entry_path(picked[i])
                &&& separators(picked[i]) == separators_below(dir)
            } by {
                if i < earlier.len() {
                    assert(picked[i] == earlier[i]);
                }
            }
        } else {
            assert(picked == earlier);
        }
    }
}

/// No path of `paths` is an entry of a directory of `dirs`.
spec fn none_below(dirs: Seq<Seq<u8>>, paths: Seq<Seq<u8>>) -> bool {
    forall|i: int, j: int|
        #![trigger paths[i], dirs[j]]
        0 <= i < paths.len() && 0 <= j < dirs.len() ==> !is_child(dirs[j], paths[i])
}

/// Every directory of `dirs` is the path of an entry and holds `count`
/// separators.
spec fn are_at_level(dirs: Seq<Seq<u8>>, count: int) -> bool {
    forall|i: int|
        0 <= i < dirs.len() ==> is_entry_path(#[trigger] dirs[i]) && separators(dirs[i]) == count
}

/// What holds of every state of a walk in which no listing held a name
/// twice: nothing is held twice, nothing that is held lies in a directory
/// that is still to be listed, and the number of separators of a path tells
/// the round that it belongs to.
spec fn holds_once(state: WalkState) -> bool {
    let base = separators_below(state.root);
    &&& state.frontier.no_duplicates()
    &&& state.queued.no_duplicates()
    &&& state.files.no_duplicates()
    &&& state.depth == 0 ==> forall|i: int|
        0 <= i < state.frontier.len() ==> #[trigger] state.frontier[i] == state.root
    &&& state.depth >= 1 ==> are_at_level(state.frontier, base + state.depth - 1)
    &&& are_at_level(state.queued, (base + state.depth) as int)
    &&& forall|i: int|
        0 <= i < state.files.len() ==> separators(#[trigger] state.files[i]) <= base + state.depth
    &&& none_below(state.frontier, state.files)
    &&& none_below(state.frontier, state.queued)
}

/// Two lists without a path in common, each of which holds nothing twice,
/// hold nothing twice when put together.
proof fn lemma_joined_once(a: Seq<Seq<u8>>, b: Seq<Seq<u8>>)
    requires
        a.no_duplicates(),
        b.no_duplicates(),
        forall|i: int, j: int|
            #![trigger a[i], b[j]]
            0 <= i < a.len() && 0 <= j < b.len() ==> a[i] != b[j],
    ensures
        (a + b).no_duplicates(),
{
    let both = a + b;
    assert forall|i: int, j: int|
        0 <= i < both.len() && 0 <= j < both.len() && i != j implies both[i] != both[j] by {
        if i < a.len() && j >= a.len() {
            assert(both[i] == a[i] && both[j] == b[j - a.len()]);
        }
        if j < a.len() && i >= a.len() {
            assert(both[j] == a[j] && both[i] == b[i - a.len()]);
        }
    }
}

/// A walk begins holding nothing twice.
proof fn lemma_start_once(root: Seq<u8>, kind: RootKind, rules: Rules)
    ensures
        holds_once(WalkState::start(root, kind, rules)),
{
    let state = WalkState::start(root, kind, rules);
    assert(separators(root) <= separators_below(root));
}

/// The listing of the pending directory, if it holds valid names and none
/// twice, leaves the walk holding nothing twice.
proof fn lemma_listed_once(state: WalkState, entries: Seq<Listed>)
    requires
        holds_once(state),
        state.pending().is_some(),
        names_once(entries),
        forall|i: int| 0 <= i < entries.len() ==> valid_name(#[trigger] entries[i].name),
    ensures
        holds_once(state.listed(entries)),
{
    let first = state.frontier[0];
    let rules = state.rules;
    let base = separators_below(state.root);
    let after = state.listed(entries);
    let files = entries.filter_map(file_taken(rules, first));
    let dirs = entries.filter_map(dir_taken(rules, first));
    let queue = if state.depth + 1 < rules.max_depth {
        state.queued + dirs
    } else {
        state.queued
    };
    lemma_picked_once(entries, file_taken(rules, first), first);
    lemma_picked_once(entries, dir_taken(rules, first), first);
    // the entries of the pending directory hold the separators of this round
    assert(separators_below(first) == base + state.depth) by {
        assert(state.frontier[0] == first);
    }
    // what is taken now was not held before
    assert forall|i: int, j: int|
        #![trigger state.files[i], files[j]]
        0 <= i < state.files.len() && 0 <= j < files.len() implies state.files[i] != files[j] by {
        assert(is_child(state.frontier[0], files[j]));
    }
    lemma_joined_once(state.files, files);
    assert(after.files == state.files + files);
    if state.depth + 1 < rules.max_depth {
        assert forall|i: int, j: int|
            #![trigger state.queued[i], dirs[j]]
            0 <= i < state.queued.len() && 0 <= j < dirs.len() implies state.queued[i]
            != dirs[j] by {
            assert(is_child(state.frontier[0], dirs[j]));
        }
        lemma_joined_once(state.queued, dirs);
    }
    assert(are_at_level(queue, (base + state.depth) as int)) by {
        assert forall|i: int| 0 <= i < queue.len() implies is_entry_path(#[trigger] queue[i])
            && separators(queue[i]) == base + state.depth by {
            if i < state.queued.len() {
                assert(queue[i] == state.queued[i]);
            } else {
                assert(queue[i] == dirs[i - state.queued.len()]);
            }
        }
    }
    assert forall|i: int| 0 <= i < after.files.len() implies separators(
        #[trigger] after.files[i],
    ) <= base + state.depth by {
        if i < state.files.len() {
            assert(after.files[i] == state.files[i]);
        } else {
            assert(after.files[i] == files[i - state.files.len()]);
        }
    }
    if state.frontier.len() > 1 {
        // the round goes on, among directories that are paths of entries
        assert(state.depth >= 1) by {
            if state.depth == 0 {
                assert(state.frontier[0] == state.root && state.frontier[1] == state.root);
            }
        }
        assert(after.frontier == state.frontier.skip(1));
        assert(after.queued == queue);
        assert forall|i: int, j: int|
            0 <= i < after.frontier.len() && 0 <= j < after.frontier.len() && i != j implies after.frontier[i]
            != after.frontier[j] by {
            assert(after.frontier[i] == state.frontier[i + 1]);
            assert(after.frontier[j] == state.frontier[j + 1]);
        }
        assert forall|i: int| 0 <= i < after.frontier.len() implies is_entry_path(
            #[trigger] after.frontier[i],
        ) && separators(after.frontier[i]) == base + after.depth - 1 by {
            assert(after.frontier[i] == state.frontier[i + 1]);
        }
        assert forall|i: int, j: int|
            #![trigger after.files[i], after.frontier[j]]
            0 <= i < after.files.len() && 0 <= j < after.frontier.len() implies !is_child(
            after.frontier[j],
            after.files[i],
        ) by {
            let dir = state.frontier[j + 1];
            assert(after.frontier[j] == dir);
            if i < state.files.len() {
                assert(after.files[i] == state.files[i]);
            } else {
                let path = files[i - state.files.len()];
                assert(after.files[i] == path);
                if is_child(dir, path) {
                    assert(is_child(first, path));
                    lemma_join_is_injective(first, base_name(path), dir, base_name(path));
                    assert(state.frontier[0] == state.frontier[j + 1]);
                }
            }
        }
        assert forall|i: int, j: int|
            #![trigger after.queued[i], after.frontier[j]]
            0 <= i < after.queued.len() && 0 <= j < after.frontier.len() implies !is_child(
            after.frontier[j],
            after.queued[i],
        ) by {
            let dir = state.frontier[j + 1];
            assert(after.frontier[j] == dir);
            if i < state.queued.len() {
                assert(after.queued[i] == state.queued[i]);
            } else {
                let path = dirs[i - state.queued.len()];
                assert(after.queued[i] == path);
                if is_child(dir, path) {
                    assert(is_child(first, path));
                    lemma_join_is_injective(first, base_name(path), dir, base_name(path));
                    assert(state.frontier[0] == state.frontier[j + 1]);
                }
            }
        }
    } else {
        // the round is over: what was queued lies one round further down
        assert(after.frontier == queue);
        assert(after.queued.len() == 0);
        assert forall|i: int, j: int|
            #![trigger after.files[i], after.frontier[j]]
            0 <= i < after.files.len() && 0 <= j < after.frontier.len() implies !is_child(
            after.frontier[j],
            after.files[i],
        ) by {
            let dir = after.frontier[j];
            let path = after.files[i];
            if is_child(dir, path) {
                lemma_separators_of_join(dir, base_name(path));
            }
        }
    }
}

/// A walk that holds nothing twice and is run to its end on a tree in which
/// no directory lists a name twice holds nothing twice in the end.
proof fn lemma_run_once(state: WalkState, tree: Map<Seq<u8>, Seq<Listed>>)
    requires
        well_named(tree),
        lists_names_once(tree),
        state.bounded(),
        holds_once(state),
    ensures
        holds_once(state.run_on(tree)),
    decreases state.rounds_left(), state.frontier.len(),
{
    if let Some(dir) = state.pending() {
        if tree.dom().contains(dir) {
            assert forall|i: int| 0 <= i < tree[dir].len() implies valid_name(
                #[trigger] tree[dir][i].name,
            ) by {}
            lemma_listed_once(state, tree[dir]);
            lemma_run_once(state.listed(tree[dir]), tree);
        }
    }
}

/// Where no directory of the tree lists a name twice, no file comes twice
/// among the files of a walk.
pub proof fn lemma_walk_returns_no_file_twice(
    root: Seq<u8>,
    kind: RootKind,
    rules: Rules,
    tree: Map<Seq<u8>, Seq<Listed>>,
)
    requires
        well_named(tree),
        lists_names_once(tree),
    ensures
        walk_of(root, kind, rules, tree) matches Ok(files) ==> files.no_duplicates(),
{
    lemma_start_once(root, kind, rules);
    lemma_run_once(WalkState::start(root, kind, rules), tree);
}

} // verus!
