//! What a walk finds in a whole tree.
//!
//! A tree is given as the listing of every directory that can be listed. Over
//! it the module says which files a walk from a directory is to return, and
//! proves that the walk returns these and no others, and that it fails only
//! where a directory that it has to go into cannot be listed.

use crate::path::{base_name, is_child, join, lemma_base_name_of_join};
use crate::walk::{avoids_excluded, avoids_hidden, dir_taken, file_taken, leads_from};
use crate::walk::{shows_after_root, walk_of, well_named};
use crate::walk::{EntryKind, Listed, RootKind, Rules, WalkFault, WalkState};
use vstd::prelude::*;

verus! {

/// The entry is of `kind`, and `path` is its path in the directory `dir`.
pub open spec fn names(entry: Listed, dir: Seq<u8>, path: Seq<u8>, kind: EntryKind) -> bool {
    entry.kind == kind && path == join(dir, entry.name)
}

/// The tree lists `path` in the directory `dir` as an entry of `kind`.
pub open spec fn lists(
    tree: Map<Seq<u8>, Seq<Listed>>,
    dir: Seq<u8>,
    path: Seq<u8>,
    kind: EntryKind,
) -> bool {
    tree.dom().contains(dir) && exists|j: int|
        0 <= j < tree[dir].len() && names(#[trigger] tree[dir][j], dir, path, kind)
}

/// The kind of the path of index `k` in a chain of `len` paths that ends in
/// an entry of kind `last`: every path before the last is a directory.
pub open spec fn kind_at(len: int, k: int, last: EntryKind) -> EntryKind {
    if k == len - 1 {
        last
    } else {
        EntryKind::Directory
    }
}

/// `chain` goes down the tree: each of its paths after the first is listed
/// in the one before, the last as an entry of kind `last`, the others as
/// directories.
pub open spec fn goes_down(
    tree: Map<Seq<u8>, Seq<Listed>>,
    chain: Seq<Seq<u8>>,
    last: EntryKind,
) -> bool {
    forall|k: int|
        1 <= k < chain.len() ==> lists(
            tree,
            chain[k - 1],
            #[trigger] chain[k],
            kind_at(chain.len() as int, k, last),
        )
}

/// `chain` is the way of a walk from the directory `root` down to the file
/// `path`: it goes down the tree from the root to the file in at most
/// `max_depth` descents, the root's listing counted, and neither the file
/// nor a directory between the root and the file is excluded, nor is such a
/// directory hidden from the walk.
pub open spec fn is_way_to_file(
    tree: Map<Seq<u8>, Seq<Listed>>,
    rules: Rules,
    root: Seq<u8>,
    chain: Seq<Seq<u8>>,
    path: Seq<u8>,
) -> bool {
    &&& chain.len() >= 2
    &&& chain[0] == root
    &&& chain.last() == path
    &&& chain.len() - 1 <= rules.max_depth
    &&& goes_down(tree, chain, EntryKind::File)
    &&& avoids_excluded(rules, chain)
    &&& avoids_hidden(rules, chain)
}

/// A walk of the tree from the directory `root` is to return the file
/// `path`.
pub open spec fn found_file(
    tree: Map<Seq<u8>, Seq<Listed>>,
    rules: Rules,
    root: Seq<u8>,
    path: Seq<u8>,
) -> bool {
    exists|chain: Seq<Seq<u8>>| #[trigger] is_way_to_file(tree, rules, root, chain, path)
}

/// `chain` is the way of a walk from the directory `root` down to the
/// directory `path`: it goes down the tree through directories alone, and no
/// directory after the root is excluded or hidden from the walk.
pub open spec fn is_way_to_dir(
    tree: Map<Seq<u8>, Seq<Listed>>,
    rules: Rules,
    root: Seq<u8>,
    chain: Seq<Seq<u8>>,
    path: Seq<u8>,
) -> bool {
    &&& chain.len() >= 1
    &&& chain[0] == root
    &&& chain.last() == path
    &&& goes_down(tree, chain, EntryKind::Directory)
    &&& avoids_excluded(rules, chain)
    &&& shows_after_root(rules, chain, chain.len() as int)
}

/// A walk of the tree from the directory `root` is to go into the directory
/// `path`, which lies `depth` descents below the root, if the depth allows.
pub open spec fn found_dir(
    tree: Map<Seq<u8>, Seq<Listed>>,
    rules: Rules,
    root: Seq<u8>,
    path: Seq<u8>,
    depth: nat,
) -> bool {
    exists|chain: Seq<Seq<u8>>| #[trigger]
        is_way_to_dir(tree, rules, root, chain, path) && chain.len() == depth + 1
}

/// A walk of the tree from the directory `root` has to list the directory
/// `path`: it is to go into it, and the depth allows it.
pub open spec fn has_to_list(
    tree: Map<Seq<u8>, Seq<Listed>>,
    rules: Rules,
    root: Seq<u8>,
    path: Seq<u8>,
) -> bool {
    exists|depth: nat| depth < rules.max_depth && #[trigger] found_dir(tree, rules, root, path, depth)
}

/// Every directory that a walk from `root` has to list can be listed.
pub open spec fn all_listable(tree: Map<Seq<u8>, Seq<Listed>>, rules: Rules, root: Seq<u8>) -> bool {
    forall|path: Seq<u8>| #[trigger]
        has_to_list(tree, rules, root, path) ==> tree.dom().contains(path)
}

/// A way to a directory, made longer by an entry that the tree lists in the
/// directory, goes down the tree to that entry, holds nothing excluded if
/// the entry is not, and shows what it showed.
proof fn lemma_way_extended(
    tree: Map<Seq<u8>, Seq<Listed>>,
    rules: Rules,
    root: Seq<u8>,
    chain: Seq<Seq<u8>>,
    dir: Seq<u8>,
    j: int,
)
    requires
        is_way_to_dir(tree, rules, root, chain, dir),
        tree.dom().contains(dir),
        0 <= j < tree[dir].len(),
        rules.admits(join(dir, tree[dir][j].name)),
    ensures
        goes_down(tree, chain.push(join(dir, tree[dir][j].name)), tree[dir][j].kind),
        avoids_excluded(rules, chain.push(join(dir, tree[dir][j].name))),
        shows_after_root(rules, chain.push(join(dir, tree[dir][j].name)), chain.len() as int),
{
    let entry = tree[dir][j];
    let path = join(dir, entry.name);
    let longer = chain.push(path);
    assert forall|k: int| 1 <= k < longer.len() implies lists(
        tree,
        longer[k - 1],
        #[trigger] longer[k],
        kind_at(longer.len() as int, k, entry.kind),
    ) by {
        if k < chain.len() {
            assert(longer[k] == chain[k]);
            assert(longer[k - 1] == chain[k - 1]);
            assert(lists(
                tree,
                chain[k - 1],
                chain[k],
                kind_at(chain.len() as int, k, EntryKind::Directory),
            ));
        } else {
            assert(longer[k - 1] == dir);
            assert(names(tree[dir][j], dir, path, entry.kind));
        }
    }
    assert forall|k: int| 1 <= k < longer.len() implies rules.admits(#[trigger] longer[k]) by {
        if k < chain.len() {
            assert(longer[k] == chain[k]);
        }
    }
    assert forall|k: int| 1 <= k < chain.len() implies rules.shows(
        base_name(#[trigger] longer[k]),
    ) by {
        assert(longer[k] == chain[k]);
    }
}

/// A directory that the tree lists in a found directory, and that is shown
/// and not excluded, is found one descent further down.
proof fn lemma_child_dir_found(
    tree: Map<Seq<u8>, Seq<Listed>>,
    rules: Rules,
    root: Seq<u8>,
    dir: Seq<u8>,
    depth: nat,
    j: int,
)
    requires
        well_named(tree),
        found_dir(tree, rules, root, dir, depth),
        tree.dom().contains(dir),
        0 <= j < tree[dir].len(),
        dir_taken(rules, dir)(tree[dir][j]).is_some(),
    ensures
        found_dir(tree, rules, root, join(dir, tree[dir][j].name), depth + 1),
{
    let chain = choose|chain: Seq<Seq<u8>>| #[trigger]
        is_way_to_dir(tree, rules, root, chain, dir) && chain.len() == depth + 1;
    let entry = tree[dir][j];
    let path = join(dir, entry.name);
    let longer = chain.push(path);
    lemma_way_extended(tree, rules, root, chain, dir, j);
    lemma_base_name_of_join(dir, entry.name);
    assert forall|k: int| 1 <= k < longer.len() implies rules.shows(
        base_name(#[trigger] longer[k]),
    ) by {
        if k == chain.len() {
            assert(longer[k] == path);
        }
    }
    assert(is_way_to_dir(tree, rules, root, longer, path));
}

/// A file that the tree lists in a found directory that the depth allows to
/// be listed, and that is not excluded, is found.
proof fn lemma_child_file_found(
    tree: Map<Seq<u8>, Seq<Listed>>,
    rules: Rules,
    root: Seq<u8>,
    dir: Seq<u8>,
    depth: nat,
    j: int,
)
    requires
        found_dir(tree, rules, root, dir, depth),
        depth < rules.max_depth,
        tree.dom().contains(dir),
        0 <= j < tree[dir].len(),
        file_taken(rules, dir)(tree[dir][j]).is_some(),
    ensures
        found_file(tree, rules, root, join(dir, tree[dir][j].name)),
{
    let chain = choose|chain: Seq<Seq<u8>>| #[trigger]
        is_way_to_dir(tree, rules, root, chain, dir) && chain.len() == depth + 1;
    let path = join(dir, tree[dir][j].name);
    lemma_way_extended(tree, rules, root, chain, dir, j);
    assert(is_way_to_file(tree, rules, root, chain.push(path), path));
}

/// On the way to a file or to a directory every path before the last is a
/// found directory, and so is the last on the way to a directory.
proof fn lemma_on_the_way(
    tree: Map<Seq<u8>, Seq<Listed>>,
    rules: Rules,
    root: Seq<u8>,
    chain: Seq<Seq<u8>>,
    path: Seq<u8>,
    n: int,
)
    requires
        is_way_to_file(tree, rules, root, chain, path) && 0 <= n < chain.len() - 1
            || is_way_to_dir(tree, rules, root, chain, path) && 0 <= n < chain.len(),
    ensures
        found_dir(tree, rules, root, chain[n], n as nat),
{
    let part = chain.take(n + 1);
    let last = if is_way_to_file(tree, rules, root, chain, path) && 0 <= n < chain.len() - 1 {
        EntryKind::File
    } else {
        EntryKind::Directory
    };
    assert(goes_down(tree, chain, last));
    assert forall|k: int| 1 <= k < part.len() implies lists(
        tree,
        part[k - 1],
        #[trigger] part[k],
        kind_at(part.len() as int, k, EntryKind::Directory),
    ) by {
        assert(part[k] == chain[k]);
        assert(part[k - 1] == chain[k - 1]);
        assert(lists(tree, chain[k - 1], chain[k], kind_at(chain.len() as int, k, last)));
    }
    assert forall|k: int| 1 <= k < part.len() implies rules.admits(#[trigger] part[k]) by {
        assert(part[k] == chain[k]);
    }
    assert forall|k: int| 1 <= k < part.len() implies rules.shows(
        base_name(#[trigger] part[k]),
    ) by {
        assert(part[k] == chain[k]);
    }
    assert(is_way_to_dir(tree, rules, root, part, chain[n]));
}

/// What `pick` makes of an entry of a listing is among what it makes of the
/// listing.
proof fn lemma_picked_is_among(
    entries: Seq<Listed>,
    pick: spec_fn(Listed) -> Option<Seq<u8>>,
    j: int,
)
    requires
        0 <= j < entries.len(),
        pick(entries[j]).is_some(),
    ensures
        entries.filter_map(pick).contains(pick(entries[j]).unwrap()),
    decreases entries.len(),
{
    let picked = entries.filter_map(pick);
    let earlier = entries.drop_last().filter_map(pick);
    if j == entries.len() - 1 {
        assert(picked == earlier + seq![pick(entries[j]).unwrap()]);
        assert(picked[picked.len() - 1] == pick(entries[j]).unwrap());
    } else {
        lemma_picked_is_among(entries.drop_last(), pick, j);
        assert(entries.drop_last()[j] == entries[j]);
        let at = choose|at: int| 0 <= at < earlier.len() && earlier[at] == pick(entries[j]).unwrap();
        assert(picked[at] == earlier[at]);
    }
}

/// Every directory and file that the walk holds is found in the tree.
spec fn holds_found(state: WalkState, tree: Map<Seq<u8>, Seq<Listed>>) -> bool {
    &&& forall|i: int|
        0 <= i < state.frontier.len() ==> found_dir(
            tree,
            state.rules,
            state.root,
            #[trigger] state.frontier[i],
            state.depth,
        )
    &&& forall|i: int|
        0 <= i < state.queued.len() ==> found_dir(
            tree,
            state.rules,
            state.root,
            #[trigger] state.queued[i],
            state.depth + 1,
        )
    &&& forall|i: int|
        0 <= i < state.files.len() ==> found_file(
            tree,
            state.rules,
            state.root,
            #[trigger] state.files[i],
        )
}

/// If the entry of `dir` is a file to collect, the walk holds it.
spec fn file_held(state: WalkState, dir: Seq<u8>, entry: Listed) -> bool {
    file_taken(state.rules, dir)(entry) matches Some(path) ==> state.files.contains(path)
}

/// If the entry of `dir` is a directory to go into, and the depth allows
/// another round, the walk has queued it.
spec fn dir_held(state: WalkState, dir: Seq<u8>, entry: Listed) -> bool {
    dir_taken(state.rules, dir)(entry) matches Some(path) ==> state.depth + 1
        < state.rules.max_depth ==> state.queued.contains(path)
}

/// The tree lists `dir`, and the walk holds every file of it that is to be
/// collected.
spec fn files_held(state: WalkState, tree: Map<Seq<u8>, Seq<Listed>>, dir: Seq<u8>) -> bool {
    &&& tree.dom().contains(dir)
    &&& forall|j: int| 0 <= j < tree[dir].len() ==> file_held(state, dir, #[trigger] tree[dir][j])
}

/// The tree lists `dir`, and the walk holds what is to be taken of it in
/// this round.
spec fn is_dealt_with(state: WalkState, tree: Map<Seq<u8>, Seq<Listed>>, dir: Seq<u8>) -> bool {
    &&& files_held(state, tree, dir)
    &&& forall|j: int| 0 <= j < tree[dir].len() ==> dir_held(state, dir, #[trigger] tree[dir][j])
}

/// The walk has missed nothing so far: every found directory of this round
/// waits or is dealt with, and the files of every found directory of an
/// earlier round are held.
spec fn has_missed_nothing(state: WalkState, tree: Map<Seq<u8>, Seq<Listed>>) -> bool {
    &&& state.frontier.len() == 0 ==> state.queued.len() == 0
    &&& state.depth < state.rules.max_depth ==> forall|dir: Seq<u8>| #[trigger]
        found_dir(tree, state.rules, state.root, dir, state.depth) ==> state.frontier.contains(dir)
            || is_dealt_with(state, tree, dir)
    &&& forall|dir: Seq<u8>, depth: nat|
        depth < state.depth && #[trigger] found_dir(tree, state.rules, state.root, dir, depth)
            ==> files_held(state, tree, dir)
}

/// What holds of every state of a walk of a tree from a directory, as long
/// as it has not failed.
spec fn is_exact(state: WalkState, tree: Map<Seq<u8>, Seq<Listed>>) -> bool {
    &&& state.fault.is_none()
    &&& state.bounded()
    &&& holds_found(state, tree)
    &&& has_missed_nothing(state, tree)
}

/// After a listing of the pending directory by the tree, everything that the
/// walk holds is found in the tree.
proof fn lemma_listed_holds_found(state: WalkState, tree: Map<Seq<u8>, Seq<Listed>>)
    requires
        well_named(tree),
        state.bounded(),
        holds_found(state, tree),
        state.pending().is_some(),
        tree.dom().contains(state.pending().unwrap()),
    ensures
        holds_found(state.listed(tree[state.pending().unwrap()]), tree),
{
    let dir = state.frontier[0];
    let entries = tree[dir];
    let rules = state.rules;
    let root = state.root;
    let after = state.listed(entries);
    let files = entries.filter_map(file_taken(rules, dir));
    let dirs = entries.filter_map(dir_taken(rules, dir));
    assert(found_dir(tree, rules, root, state.frontier[0], state.depth));
    assert forall|i: int| 0 <= i < files.len() implies found_file(
        tree,
        rules,
        root,
        #[trigger] files[i],
    ) by {
        assert(files.contains(files[i]));
        entries.lemma_filter_map_contains(file_taken(rules, dir), files[i]);
        let entry = choose|entry: Listed| #[trigger]
            entries.contains(entry) && file_taken(rules, dir)(entry) == Some(files[i]);
        let j = choose|j: int| 0 <= j < entries.len() && entries[j] == entry;
        lemma_child_file_found(tree, rules, root, dir, state.depth, j);
    }
    assert forall|i: int| 0 <= i < dirs.len() implies found_dir(
        tree,
        rules,
        root,
        #[trigger] dirs[i],
        state.depth + 1,
    ) by {
        assert(dirs.contains(dirs[i]));
        entries.lemma_filter_map_contains(dir_taken(rules, dir), dirs[i]);
        let entry = choose|entry: Listed| #[trigger]
            entries.contains(entry) && dir_taken(rules, dir)(entry) == Some(dirs[i]);
        let j = choose|j: int| 0 <= j < entries.len() && entries[j] == entry;
        lemma_child_dir_found(tree, rules, root, dir, state.depth, j);
    }
    let queued = if state.depth + 1 < rules.max_depth {
        state.queued + dirs
    } else {
        state.queued
    };
    assert forall|i: int| 0 <= i < queued.len() implies found_dir(
        tree,
        rules,
        root,
        #[trigger] queued[i],
        state.depth + 1,
    ) by {
        if i < state.queued.len() {
            assert(queued[i] == state.queued[i]);
        } else {
            assert(queued[i] == dirs[i - state.queued.len()]);
        }
    }
    assert forall|i: int| 0 <= i < after.files.len() implies found_file(
        tree,
        rules,
        root,
        #[trigger] after.files[i],
    ) by {
        if i < state.files.len() {
            assert(after.files[i] == state.files[i]);
        } else {
            assert(after.files[i] == files[i - state.files.len()]);
        }
    }
    if state.frontier.len() > 1 {
        assert forall|i: int| 0 <= i < after.frontier.len() implies found_dir(
            tree,
            rules,
            root,
            #[trigger] after.frontier[i],
            after.depth,
        ) by {
            assert(after.frontier[i] == state.frontier[i + 1]);
        }
    }
}

/// What the walk queues in a round: the queued directories while the round
/// goes on, the frontier of the next round once it is over.
spec fn queue_after(state: WalkState, after: WalkState) -> Seq<Seq<u8>> {
    if state.frontier.len() > 1 {
        after.queued
    } else {
        after.frontier
    }
}

/// A listing of the pending directory by the tree loses nothing that the
/// walk held or had queued, and adds what is to be taken of the directory.
proof fn lemma_listed_takes(state: WalkState, tree: Map<Seq<u8>, Seq<Listed>>)
    requires
        state.pending().is_some(),
        tree.dom().contains(state.pending().unwrap()),
    ensures
        ({
            let dir = state.pending().unwrap();
            let after = state.listed(tree[dir]);
            let queue = queue_after(state, after);
            &&& after.rules == state.rules
            &&& after.root == state.root
            &&& after.fault.is_none()
            &&& forall|path: Seq<u8>| #[trigger]
                state.files.contains(path) ==> after.files.contains(path)
            &&& forall|path: Seq<u8>| #[trigger]
                state.queued.contains(path) ==> queue.contains(path)
            &&& forall|j: int|
                0 <= j < tree[dir].len() ==> (file_taken(state.rules, dir)(
                    #[trigger] tree[dir][j],
                ) matches Some(path) ==> after.files.contains(path))
            &&& state.depth + 1 < state.rules.max_depth ==> forall|j: int|
                0 <= j < tree[dir].len() ==> (dir_taken(state.rules, dir)(
                    #[trigger] tree[dir][j],
                ) matches Some(path) ==> queue.contains(path))
        }),
{
    let dir = state.pending().unwrap();
    let entries = tree[dir];
    let after = state.listed(entries);
    let queue = queue_after(state, after);
    let files = entries.filter_map(file_taken(state.rules, dir));
    let dirs = entries.filter_map(dir_taken(state.rules, dir));
    assert(after.files == state.files + files);
    assert forall|path: Seq<u8>| #[trigger] state.files.contains(path) implies after.files.contains(
        path,
    ) by {
        let i = choose|i: int| 0 <= i < state.files.len() && state.files[i] == path;
        assert(after.files[i] == path);
    }
    assert forall|path: Seq<u8>| #[trigger] state.queued.contains(path) implies queue.contains(
        path,
    ) by {
        let i = choose|i: int| 0 <= i < state.queued.len() && state.queued[i] == path;
        assert(queue[i] == path);
    }
    assert forall|j: int| 0 <= j < entries.len() implies (file_taken(state.rules, dir)(
        #[trigger] entries[j],
    ) matches Some(path) ==> after.files.contains(path)) by {
        if let Some(path) = file_taken(state.rules, dir)(entries[j]) {
            lemma_picked_is_among(entries, file_taken(state.rules, dir), j);
            let i = choose|i: int| 0 <= i < files.len() && files[i] == path;
            assert(after.files[state.files.len() + i] == path);
        }
    }
    if state.depth + 1 < state.rules.max_depth {
        assert(queue == state.queued + dirs);
        assert forall|j: int| 0 <= j < entries.len() implies (dir_taken(state.rules, dir)(
            #[trigger] entries[j],
        ) matches Some(path) ==> queue.contains(path)) by {
            if let Some(path) = dir_taken(state.rules, dir)(entries[j]) {
                lemma_picked_is_among(entries, dir_taken(state.rules, dir), j);
                let i = choose|i: int| 0 <= i < dirs.len() && dirs[i] == path;
                assert(queue[state.queued.len() + i] == path);
            }
        }
    }
}

/// A directory whose files the walk held is one whose files it holds after
/// the listing of the pending directory.
proof fn lemma_files_stay_held(
    state: WalkState,
    tree: Map<Seq<u8>, Seq<Listed>>,
    dir: Seq<u8>,
)
    requires
        state.pending().is_some(),
        tree.dom().contains(state.pending().unwrap()),
        files_held(state, tree, dir),
    ensures
        files_held(state.listed(tree[state.pending().unwrap()]), tree, dir),
{
    lemma_listed_takes(state, tree);
    let after = state.listed(tree[state.pending().unwrap()]);
    assert forall|j: int| 0 <= j < tree[dir].len() implies file_held(
        after,
        dir,
        #[trigger] tree[dir][j],
    ) by {
        assert(file_held(state, dir, tree[dir][j]));
    }
}

/// After a listing of the pending directory by the tree, the walk has still
/// missed nothing.
proof fn lemma_listed_misses_nothing(state: WalkState, tree: Map<Seq<u8>, Seq<Listed>>)
    requires
        well_named(tree),
        is_exact(state, tree),
        state.pending().is_some(),
        tree.dom().contains(state.pending().unwrap()),
    ensures
        has_missed_nothing(state.listed(tree[state.pending().unwrap()]), tree),
{
    let first = state.frontier[0];
    let rules = state.rules;
    let root = state.root;
    let after = state.listed(tree[first]);
    let queue = queue_after(state, after);
    lemma_listed_takes(state, tree);
    assert(files_held(after, tree, first)) by {
        assert forall|j: int| 0 <= j < tree[first].len() implies file_held(
            after,
            first,
            #[trigger] tree[first][j],
        ) by {}
    }
    if state.frontier.len() > 1 {
        // the round goes on
        assert(after.frontier[0] == state.frontier[1]);
        assert forall|dir: Seq<u8>| #[trigger]
            found_dir(tree, rules, root, dir, after.depth) implies after.frontier.contains(dir)
            || is_dealt_with(after, tree, dir) by {
            if state.frontier.contains(dir) {
                let i = choose|i: int| 0 <= i < state.frontier.len() && state.frontier[i] == dir;
                if i == 0 {
                    assert forall|j: int| 0 <= j < tree[first].len() implies dir_held(
                        after,
                        first,
                        #[trigger] tree[first][j],
                    ) by {}
                } else {
                    assert(after.frontier[i - 1] == dir);
                }
            } else {
                assert(is_dealt_with(state, tree, dir));
                lemma_files_stay_held(state, tree, dir);
                assert forall|j: int| 0 <= j < tree[dir].len() implies dir_held(
                    after,
                    dir,
                    #[trigger] tree[dir][j],
                ) by {
                    assert(dir_held(state, dir, tree[dir][j]));
                }
            }
        }
        assert forall|dir: Seq<u8>, depth: nat|
            depth < after.depth && #[trigger] found_dir(
                tree,
                rules,
                root,
                dir,
                depth,
            ) implies files_held(after, tree, dir) by {
            lemma_files_stay_held(state, tree, dir);
        }
    } else {
        // the round is over
        assert forall|dir: Seq<u8>, depth: nat|
            depth < after.depth && #[trigger] found_dir(
                tree,
                rules,
                root,
                dir,
                depth,
            ) implies files_held(after, tree, dir) by {
            if depth < state.depth {
                lemma_files_stay_held(state, tree, dir);
            } else if state.frontier.contains(dir) {
                let i = choose|i: int| 0 <= i < state.frontier.len() && state.frontier[i] == dir;
                assert(dir == first);
            } else {
                assert(is_dealt_with(state, tree, dir));
                lemma_files_stay_held(state, tree, dir);
            }
        }
        if after.depth < rules.max_depth {
            assert forall|dir: Seq<u8>| #[trigger]
                found_dir(tree, rules, root, dir, after.depth) implies after.frontier.contains(
                dir,
            ) by {
                let chain = choose|chain: Seq<Seq<u8>>| #[trigger]
                    is_way_to_dir(tree, rules, root, chain, dir) && chain.len() == after.depth
                        + 1;
                let parent = chain[state.depth as int];
                lemma_on_the_way(tree, rules, root, chain, dir, state.depth as int);
                assert(lists(
                    tree,
                    chain[chain.len() - 2],
                    chain[chain.len() - 1],
                    kind_at(chain.len() as int, chain.len() - 1, EntryKind::Directory),
                ));
                let j = choose|j: int|
                    0 <= j < tree[parent].len() && names(
                        #[trigger] tree[parent][j],
                        parent,
                        dir,
                        EntryKind::Directory,
                    );
                let entry = tree[parent][j];
                lemma_base_name_of_join(parent, entry.name);
                assert(rules.shows(base_name(chain[chain.len() - 1])));
                assert(rules.admits(chain[chain.len() - 1]));
                assert(dir_taken(rules, parent)(entry) == Some(dir));
                if state.frontier.contains(parent) {
                    let i = choose|i: int|
                        0 <= i < state.frontier.len() && state.frontier[i] == parent;
                    assert(parent == first);
                } else {
                    assert(is_dealt_with(state, tree, parent));
                    assert(dir_held(state, parent, tree[parent][j]));
                    assert(state.queued.contains(dir));
                }
                assert(queue.contains(dir));
            }
        }
    }
}

/// A listing of the pending directory by the tree keeps the walk exact.
proof fn lemma_listed_exact(state: WalkState, tree: Map<Seq<u8>, Seq<Listed>>)
    requires
        well_named(tree),
        is_exact(state, tree),
        state.pending().is_some(),
        tree.dom().contains(state.pending().unwrap()),
    ensures
        is_exact(state.listed(tree[state.pending().unwrap()]), tree),
        state.listed(tree[state.pending().unwrap()]).root == state.root,
        state.listed(tree[state.pending().unwrap()]).rules == state.rules,
{
    lemma_listed_holds_found(state, tree);
    lemma_listed_misses_nothing(state, tree);
}

/// A walk of a tree from a directory begins exact.
proof fn lemma_start_exact(root: Seq<u8>, rules: Rules, tree: Map<Seq<u8>, Seq<Listed>>)
    ensures
        is_exact(WalkState::start(root, RootKind::Directory, rules), tree),
{
    let state = WalkState::start(root, RootKind::Directory, rules);
    let chain = seq![root];
    assert(is_way_to_dir(tree, rules, root, chain, root));
    if rules.max_depth > 0 {
        assert(state.frontier[0] == root);
        assert forall|dir: Seq<u8>| #[trigger]
            found_dir(tree, rules, root, dir, 0) implies state.frontier.contains(dir) by {
            let way = choose|way: Seq<Seq<u8>>| #[trigger]
                is_way_to_dir(tree, rules, root, way, dir) && way.len() == 1;
            assert(dir == root);
        }
    }
}

/// What has come of a walk that was run to its end on the tree: it waits for
/// nothing and is exact, or it failed on a directory that it had to list and
/// that the tree does not list.
spec fn has_ended(state: WalkState, end: WalkState, tree: Map<Seq<u8>, Seq<Listed>>) -> bool {
    &&& end.root == state.root
    &&& end.rules == state.rules
    &&& match end.fault {
        None => is_exact(end, tree) && end.frontier.len() == 0,
        Some(WalkFault::Io(dir)) => has_to_list(tree, state.rules, state.root, dir)
            && !tree.dom().contains(dir),
        Some(WalkFault::NotFound(_)) => false,
    }
}

/// An exact walk that is run to its end on the tree has ended.
proof fn lemma_run_exact(state: WalkState, tree: Map<Seq<u8>, Seq<Listed>>)
    requires
        well_named(tree),
        is_exact(state, tree),
    ensures
        has_ended(state, state.run_on(tree), tree),
    decreases state.rounds_left(), state.frontier.len(),
{
    if let Some(dir) = state.pending() {
        if tree.dom().contains(dir) {
            lemma_listed_exact(state, tree);
            lemma_run_exact(state.listed(tree[dir]), tree);
        } else {
            assert(found_dir(tree, state.rules, state.root, state.frontier[0], state.depth));
        }
    }
}

/// The path of index `n + 1` on a way is an entry of the path of index `n`
/// that the walk is to take: as a directory before the end of the way, and
/// as what the way leads to at its end.
proof fn lemma_next_on_the_way(
    tree: Map<Seq<u8>, Seq<Listed>>,
    rules: Rules,
    chain: Seq<Seq<u8>>,
    last: EntryKind,
    n: int,
) -> (j: int)
    requires
        well_named(tree),
        0 <= n < chain.len() - 1,
        goes_down(tree, chain, last),
        avoids_excluded(rules, chain),
        n + 1 < chain.len() - 1 ==> rules.shows(base_name(chain[n + 1])),
    ensures
        tree.dom().contains(chain[n]),
        0 <= j < tree[chain[n]].len(),
        n + 1 < chain.len() - 1 ==> dir_taken(rules, chain[n])(tree[chain[n]][j]) == Some(
            chain[n + 1],
        ),
        n + 1 == chain.len() - 1 && last == EntryKind::File ==> file_taken(rules, chain[n])(
            tree[chain[n]][j],
        ) == Some(chain[n + 1]),
        n + 1 == chain.len() - 1 && last == EntryKind::Directory && rules.shows(
            base_name(chain[n + 1]),
        ) ==> dir_taken(rules, chain[n])(tree[chain[n]][j]) == Some(chain[n + 1]),
{
    let dir = chain[n];
    let kind = kind_at(chain.len() as int, n + 1, last);
    assert(lists(tree, chain[n + 1 - 1], chain[n + 1], kind));
    let j = choose|j: int|
        0 <= j < tree[dir].len() && names(#[trigger] tree[dir][j], dir, chain[n + 1], kind);
    lemma_base_name_of_join(dir, tree[dir][j].name);
    assert(rules.admits(chain[n + 1]));
    j
}

/// A walk that has come to its end exact holds every file that it was to
/// find.
proof fn lemma_found_file_is_held(
    end: WalkState,
    tree: Map<Seq<u8>, Seq<Listed>>,
    path: Seq<u8>,
)
    requires
        well_named(tree),
        is_exact(end, tree),
        end.frontier.len() == 0,
        found_file(tree, end.rules, end.root, path),
    ensures
        end.files.contains(path),
{
    let rules = end.rules;
    let root = end.root;
    let chain = choose|chain: Seq<Seq<u8>>| #[trigger]
        is_way_to_file(tree, rules, root, chain, path);
    let parent = chain.len() - 2;
    lemma_on_the_way(tree, rules, root, chain, path, parent);
    let j = lemma_next_on_the_way(tree, rules, chain, EntryKind::File, parent);
    if parent < end.depth {
        assert(files_held(end, tree, chain[parent]));
        assert(file_held(end, chain[parent], tree[chain[parent]][j]));
    } else {
        let n = end.depth as int;
        lemma_on_the_way(tree, rules, root, chain, path, n);
        assert(!end.frontier.contains(chain[n]));
        assert(is_dealt_with(end, tree, chain[n]));
        if n == parent {
            assert(file_held(end, chain[parent], tree[chain[parent]][j]));
        } else {
            assert(rules.shows(base_name(chain[n + 1])));
            let next = lemma_next_on_the_way(tree, rules, chain, EntryKind::File, n);
            assert(dir_held(end, chain[n], tree[chain[n]][next]));
            assert(end.queued.contains(chain[n + 1]));
        }
    }
}

/// A walk that has come to its end exact found listed every directory that
/// it had to list.
proof fn lemma_found_dir_is_listed(
    end: WalkState,
    tree: Map<Seq<u8>, Seq<Listed>>,
    path: Seq<u8>,
)
    requires
        well_named(tree),
        is_exact(end, tree),
        end.frontier.len() == 0,
        has_to_list(tree, end.rules, end.root, path),
    ensures
        tree.dom().contains(path),
{
    let rules = end.rules;
    let root = end.root;
    let depth = choose|depth: nat|
        depth < rules.max_depth && #[trigger] found_dir(tree, rules, root, path, depth);
    if depth < end.depth {
        assert(files_held(end, tree, path));
    } else {
        let chain = choose|chain: Seq<Seq<u8>>| #[trigger]
            is_way_to_dir(tree, rules, root, chain, path) && chain.len() == depth + 1;
        let n = end.depth as int;
        lemma_on_the_way(tree, rules, root, chain, path, n);
        assert(!end.frontier.contains(chain[n]));
        assert(is_dealt_with(end, tree, chain[n]));
        if n < depth {
            assert(rules.shows(base_name(chain[n + 1])));
            let next = lemma_next_on_the_way(tree, rules, chain, EntryKind::Directory, n);
            assert(dir_held(end, chain[n], tree[chain[n]][next]));
            assert(end.queued.contains(chain[n + 1]));
        }
    }
}

/// The walk of a tree from a directory succeeds exactly if every directory
/// that it has to list can be listed, and it then returns the files that it
/// is to find in the tree, and no others: a file is returned exactly if it
/// lies one to `max_depth` entries below the root, is not excluded, and
/// every directory between the root and the file is neither excluded nor
/// hidden from the walk. Where the walk fails, it fails on a directory that
/// it had to list and could not.
pub proof fn lemma_walk_finds_exactly(
    root: Seq<u8>,
    rules: Rules,
    tree: Map<Seq<u8>, Seq<Listed>>,
)
    requires
        well_named(tree),
    ensures
        match walk_of(root, RootKind::Directory, rules, tree) {
            Ok(files) => {
                &&& all_listable(tree, rules, root)
                &&& forall|path: Seq<u8>|
                    files.contains(path) <==> found_file(tree, rules, root, path)
            },
            Err(WalkFault::Io(dir)) => has_to_list(tree, rules, root, dir) && !tree.dom().contains(
                dir,
            ),
            Err(WalkFault::NotFound(_)) => false,
        },
{
    let state = WalkState::start(root, RootKind::Directory, rules);
    let end = state.run_on(tree);
    lemma_start_exact(root, rules, tree);
    lemma_run_exact(state, tree);
    if end.fault.is_none() {
        assert forall|path: Seq<u8>| #[trigger]
            has_to_list(tree, rules, root, path) implies tree.dom().contains(path) by {
            lemma_found_dir_is_listed(end, tree, path);
        }
        assert forall|path: Seq<u8>| end.files.contains(path) <==> found_file(
            tree,
            rules,
            root,
            path,
        ) by {
            if end.files.contains(path) {
                let i = choose|i: int| 0 <= i < end.files.len() && end.files[i] == path;
                assert(found_file(tree, rules, root, end.files[i]));
            }
            if found_file(tree, rules, root, path) {
                lemma_found_file_is_held(end, tree, path);
            }
        }
    }
}

/// A chain of at least two paths leads from `root` down to `path`, no
/// longer than the depth allows, on which neither the path nor a directory
/// between the root and the path is excluded, and no such directory is
/// hidden from the walk. Nothing is asked of the root.
pub open spec fn is_below_root(rules: Rules, root: Seq<u8>, path: Seq<u8>) -> bool {
    exists|chain: Seq<Seq<u8>>|
        {
            &&& #[trigger] leads_from(root, chain, path)
            &&& chain.len() >= 2
            &&& chain.len() - 1 <= rules.max_depth
            &&& avoids_excluded(rules, chain)
            &&& avoids_hidden(rules, chain)
        }
}

/// No file of the walk of a directory is the root itself: each lies at
/// least one entry below it, and neither the file nor a directory between
/// the root and the file is excluded, whether or not the root is.
pub proof fn lemma_directory_walk_is_below_root(
    root: Seq<u8>,
    rules: Rules,
    tree: Map<Seq<u8>, Seq<Listed>>,
)
    requires
        well_named(tree),
    ensures
        walk_of(root, RootKind::Directory, rules, tree) matches Ok(files) ==> forall|i: int|
            0 <= i < files.len() ==> is_below_root(rules, root, #[trigger] files[i]),
{
    lemma_walk_finds_exactly(root, rules, tree);
    if let Ok(files) = walk_of(root, RootKind::Directory, rules, tree) {
        assert forall|i: int| 0 <= i < files.len() implies is_below_root(
            rules,
            root,
            #[trigger] files[i],
        ) by {
            assert(files.contains(files[i]));
            let chain = choose|chain: Seq<Seq<u8>>| #[trigger]
                is_way_to_file(tree, rules, root, chain, files[i]);
            assert forall|k: int| 1 <= k < chain.len() implies is_child(
                chain[k - 1],
                #[trigger] chain[k],
            ) by {
                let kind = kind_at(chain.len() as int, k, EntryKind::File);
                assert(lists(tree, chain[k - 1], chain[k], kind));
                let j = choose|j: int|
                    0 <= j < tree[chain[k - 1]].len() && names(
                        #[trigger] tree[chain[k - 1]][j],
                        chain[k - 1],
                        chain[k],
                        kind,
                    );
                lemma_base_name_of_join(chain[k - 1], tree[chain[k - 1]][j].name);
            }
            assert(leads_from(root, chain, files[i]));
        }
    }
}

} // verus!
