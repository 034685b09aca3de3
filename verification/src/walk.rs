//! The tree walker: which files lie below a root, within a depth bound, with
//! hidden directories and excluded paths left out.
//!
//! The walker reads no directory itself. It names the directory whose listing
//! it needs next and takes the listing when the caller has it, so that it can
//! be driven by a file system, or by a table of listings.

use crate::path::{base_name, is_child, is_hidden, join, lemma_base_name_of_join, path_views, valid_name};
use crate::path::{EntryName, FilePath};
use vstd::prelude::*;

verus! {

/// What an entry of a directory turned out to be, links followed.
#[derive(Clone, Copy, Debug, PartialEq, Eq, Hash, Structural)]
pub enum EntryKind {
    /// Anything that cannot be listed.
    File,
    /// A directory.
    Directory,
}

/// What the root of a walk turned out to be.
#[derive(Clone, Copy, Debug, PartialEq, Eq, Hash, Structural)]
pub enum RootKind {
    /// The root exists and cannot be listed.
    File,
    /// The root is a directory.
    Directory,
    /// Nothing exists at the root.
    Missing,
}

/// One entry of a listing: the name under which the directory holds it, and
/// its kind.
#[derive(Debug, PartialEq, Eq)]
pub struct DirEntry {
    pub name: EntryName,
    pub kind: EntryKind,
}

/// A `DirEntry` as a plain value.
pub struct Listed {
    pub name: Seq<u8>,
    pub kind: EntryKind,
}

impl View for DirEntry {
    type V = Listed;

    open spec fn view(&self) -> Listed {
        Listed { name: self.name@, kind: self.kind }
    }
}

impl DirEntry {
    /// The entry `name` that is a file.
    pub fn file(name: EntryName) -> (entry: DirEntry)
        ensures
            entry@ == (Listed { name: name@, kind: EntryKind::File }),
    {
        DirEntry { name, kind: EntryKind::File }
    }

    /// The entry `name` that is a directory.
    pub fn directory(name: EntryName) -> (entry: DirEntry)
        ensures
            entry@ == (Listed { name: name@, kind: EntryKind::Directory }),
    {
        DirEntry { name, kind: EntryKind::Directory }
    }
}

/// A listing as plain values, in the order of the listing.
pub open spec fn listing_view(entries: Seq<DirEntry>) -> Seq<Listed> {
    Seq::new(entries.len(), |i: int| entries[i]@)
}

/// A regular file that a walk found, by its path.
#[derive(Debug, PartialEq, Eq, PartialOrd, Ord, Hash)]
pub struct FileEntry {
    pub path: FilePath,
}

impl View for FileEntry {
    type V = Seq<u8>;

    open spec fn view(&self) -> Seq<u8> {
        self.path@
    }
}

impl Clone for FileEntry {
    fn clone(&self) -> (copy: Self)
        ensures
            copy@ == self@,
    {
        FileEntry { path: self.path.clone() }
    }
}

impl FileEntry {
    /// The file at `path`.
    pub fn new(path: FilePath) -> (entry: FileEntry)
        ensures
            entry@ == path@,
    {
        FileEntry { path }
    }
}

/// The paths of a list of files, in order.
pub open spec fn file_views(files: Seq<FileEntry>) -> Seq<Seq<u8>> {
    Seq::new(files.len(), |i: int| files[i]@)
}

/// How a walk is bounded.
#[derive(Debug, PartialEq, Eq)]
pub struct TraversalConfig {
    /// How many directories deep the walk goes, the root counted.
    pub max_depth: usize,
    /// Whether directories with a hidden name that the walk meets below its
    /// root are gone into.
    pub include_hidden: bool,
    /// Paths that are neither collected nor gone into.
    pub excluded_paths: Vec<FilePath>,
}

/// A `TraversalConfig` as a plain value.
pub struct Rules {
    pub max_depth: nat,
    pub include_hidden: bool,
    pub excluded: Set<Seq<u8>>,
}

impl Rules {
    /// A directory of this name is gone into.
    pub open spec fn shows(self, name: Seq<u8>) -> bool {
        self.include_hidden || !is_hidden(name)
    }

    /// The path is not excluded.
    pub open spec fn admits(self, path: Seq<u8>) -> bool {
        !self.excluded.contains(path)
    }
}

impl View for TraversalConfig {
    type V = Rules;

    open spec fn view(&self) -> Rules {
        Rules {
            max_depth: self.max_depth as nat,
            include_hidden: self.include_hidden,
            excluded: path_views(self.excluded_paths@).to_set(),
        }
    }
}

impl Default for TraversalConfig {
    /// Depth 255, hidden directories left out, nothing excluded.
    fn default() -> (config: TraversalConfig)
        ensures
            config@ == (Rules { max_depth: 255, include_hidden: false, excluded: Set::empty() }),
    {
        let config = TraversalConfig {
            max_depth: 255,
            include_hidden: false,
            excluded_paths: Vec::new(),
        };
        assert(config@.excluded =~= Set::empty());
        config
    }
}

impl Clone for TraversalConfig {
    fn clone(&self) -> (copy: Self)
        ensures
            copy@ == self@,
    {
        let mut excluded_paths: Vec<FilePath> = Vec::with_capacity(self.excluded_paths.len());
        let mut i: usize = 0;
        while i < self.excluded_paths.len()
            invariant
                i <= self.excluded_paths.len(),
                excluded_paths.len() == i,
                forall|k: int| 0 <= k < i ==> excluded_paths@[k]@ == self.excluded_paths@[k]@,
            decreases self.excluded_paths.len() - i,
        {
            excluded_paths.push(self.excluded_paths[i].clone());
            i += 1;
        }
        assert(path_views(excluded_paths@) =~= path_views(self.excluded_paths@));
        TraversalConfig {
            max_depth: self.max_depth,
            include_hidden: self.include_hidden,
            excluded_paths,
        }
    }
}

impl TraversalConfig {
    /// Whether `path` is one of the excluded paths, byte for byte.
    pub fn excludes(&self, path: &FilePath) -> (excluded: bool)
        ensures
            excluded == !self@.admits(path@),
    {
        let ghost views = path_views(self.excluded_paths@);
        let mut i: usize = 0;
        while i < self.excluded_paths.len()
            invariant
                i <= self.excluded_paths.len(),
                views == path_views(self.excluded_paths@),
                forall|k: int| 0 <= k < i ==> views[k] != path@,
            decreases self.excluded_paths.len() - i,
        {
            if self.excluded_paths[i].same_as(path) {
                assert(views[i as int] == path@);
                return true;
            }
            i += 1;
        }
        false
    }
}

/// Why a walk gave no list of files.
#[derive(Debug, PartialEq, Eq)]
pub enum WalkError {
    /// Nothing exists at the root.
    NotFound(FilePath),
    /// The directory could not be listed.
    Io(FilePath),
}

/// A `WalkError` as a plain value.
pub enum WalkFault {
    NotFound(Seq<u8>),
    Io(Seq<u8>),
}

impl View for WalkError {
    type V = WalkFault;

    open spec fn view(&self) -> WalkFault {
        match self {
            WalkError::NotFound(path) => WalkFault::NotFound(path@),
            WalkError::Io(path) => WalkFault::Io(path@),
        }
    }
}

impl Clone for WalkError {
    fn clone(&self) -> (copy: Self)
        ensures
            copy@ == self@,
    {
        match self {
            WalkError::NotFound(path) => WalkError::NotFound(path.clone()),
            WalkError::Io(path) => WalkError::Io(path.clone()),
        }
    }
}

/// `chain` goes from `root` down to `path`: it begins with the root, ends
/// with the path, and each of its paths is an entry of the one before.
pub open spec fn leads_from(root: Seq<u8>, chain: Seq<Seq<u8>>, path: Seq<u8>) -> bool {
    &&& chain.len() >= 1
    &&& chain[0] == root
    &&& chain.last() == path
    &&& forall|k: int| 1 <= k < chain.len() ==> is_child(chain[k - 1], #[trigger] chain[k])
}

/// The last path of `chain` lies at most `max_depth` descents below the first.
pub open spec fn within_depth(rules: Rules, chain: Seq<Seq<u8>>) -> bool {
    chain.len() - 1 <= rules.max_depth
}

/// No path of `chain` after the first is excluded.
pub open spec fn avoids_excluded(rules: Rules, chain: Seq<Seq<u8>>) -> bool {
    forall|k: int| 1 <= k < chain.len() ==> rules.admits(#[trigger] chain[k])
}

/// Each path of `chain` after the first and before the one of index `count`
/// is a directory that the rules let the walk go into. The first path, the
/// root of the walk, is gone into whatever its name.
pub open spec fn shows_after_root(rules: Rules, chain: Seq<Seq<u8>>, count: int) -> bool {
    forall|k: int| 1 <= k < count ==> rules.shows(base_name(#[trigger] chain[k]))
}

/// No directory that `chain` passes through between its first path and its
/// last is hidden from the walk.
pub open spec fn avoids_hidden(rules: Rules, chain: Seq<Seq<u8>>) -> bool {
    shows_after_root(rules, chain, chain.len() - 1)
}

/// `path` may be collected as a file by a walk from `root`: a chain leads
/// down to it that is no longer than the depth allows and on which, after
/// the root, no directory is hidden from the walk and no path is excluded.
pub open spec fn file_in_reach(rules: Rules, root: Seq<u8>, path: Seq<u8>) -> bool {
    exists|chain: Seq<Seq<u8>>|
        {
            &&& #[trigger] leads_from(root, chain, path)
            &&& within_depth(rules, chain)
            &&& avoids_hidden(rules, chain)
            &&& avoids_excluded(rules, chain)
        }
}

/// `path` may be listed as a directory `depth` descents below `root`: a
/// chain of that many descents leads down to it on which, after the root,
/// no directory is hidden from the walk and no path is excluded.
pub open spec fn dir_in_reach(rules: Rules, root: Seq<u8>, path: Seq<u8>, depth: nat) -> bool {
    exists|chain: Seq<Seq<u8>>|
        {
            &&& #[trigger] leads_from(root, chain, path)
            &&& chain.len() == depth + 1
            &&& shows_after_root(rules, chain, chain.len() as int)
            &&& avoids_excluded(rules, chain)
        }
}

/// The path under which the entry is collected as a file of `dir`, if it is.
pub open spec fn file_taken(rules: Rules, dir: Seq<u8>) -> spec_fn(Listed) -> Option<Seq<u8>> {
    |entry: Listed|
        if entry.kind == EntryKind::File && rules.admits(join(dir, entry.name)) {
            Some(join(dir, entry.name))
        } else {
            None
        }
}

/// The path under which the entry is gone into as a directory of `dir`, if
/// it is.
pub open spec fn dir_taken(rules: Rules, dir: Seq<u8>) -> spec_fn(Listed) -> Option<Seq<u8>> {
    |entry: Listed|
        if entry.kind == EntryKind::Directory && rules.shows(entry.name) && rules.admits(
            join(dir, entry.name),
        ) {
            Some(join(dir, entry.name))
        } else {
            None
        }
}

/// A walk in progress, as a plain value.
pub struct WalkState {
    /// Where the walk began.
    pub root: Seq<u8>,
    /// What bounds it.
    pub rules: Rules,
    /// Why it failed, once it has.
    pub fault: Option<WalkFault>,
    /// How many descents below the root the directories of `frontier` lie.
    pub depth: nat,
    /// The directories of this round that are still to be listed, the next
    /// one first.
    pub frontier: Seq<Seq<u8>>,
    /// The directories found in this round, for the next.
    pub queued: Seq<Seq<u8>>,
    /// The files collected so far.
    pub files: Seq<Seq<u8>>,
}

impl WalkState {
    /// The state in which a walk from `root` begins, given what the root is.
    pub open spec fn start(root: Seq<u8>, kind: RootKind, rules: Rules) -> WalkState {
        WalkState {
            root,
            rules,
            fault: if kind == RootKind::Missing {
                Some(WalkFault::NotFound(root))
            } else {
                None
            },
            depth: 0,
            frontier: if kind == RootKind::Directory && rules.max_depth > 0 {
                seq![root]
            } else {
                Seq::empty()
            },
            queued: Seq::empty(),
            files: if kind == RootKind::File {
                seq![root]
            } else {
                Seq::empty()
            },
        }
    }

    /// The directory whose listing the walk waits for, if it waits for one.
    pub open spec fn pending(self) -> Option<Seq<u8>> {
        if self.fault.is_none() && self.frontier.len() > 0 {
            Some(self.frontier[0])
        } else {
            None
        }
    }

    /// The state after the pending directory was listed as `entries`. Files
    /// that the rules admit are collected. Directories that the rules admit
    /// and show are queued while the depth allows another round. When the
    /// round is over the queued directories become the frontier.
    pub open spec fn listed(self, entries: Seq<Listed>) -> WalkState {
        match self.pending() {
            None => self,
            Some(dir) => {
                let files = self.files + entries.filter_map(file_taken(self.rules, dir));
                let queued = if self.depth + 1 < self.rules.max_depth {
                    self.queued + entries.filter_map(dir_taken(self.rules, dir))
                } else {
                    self.queued
                };
                if self.frontier.len() > 1 {
                    WalkState { frontier: self.frontier.skip(1), queued, files, ..self }
                } else {
                    WalkState {
                        depth: self.depth + 1,
                        frontier: queued,
                        queued: Seq::empty(),
                        files,
                        ..self
                    }
                }
            },
        }
    }

    /// The state after the pending directory could not be listed.
    pub open spec fn list_failed(self) -> WalkState {
        match self.pending() {
            None => self,
            Some(dir) => WalkState { fault: Some(WalkFault::Io(dir)), ..self },
        }
    }

    /// The state in which the walk ends on `tree`, which holds the listing
    /// of every directory that can be listed. The walk has the directory
    /// listed that it waits for until it waits for none, and fails on the
    /// first that the tree does not list.
    pub open spec fn run_on(self, tree: Map<Seq<u8>, Seq<Listed>>) -> WalkState
        decreases self.rounds_left(), self.frontier.len(),
        when self.bounded()
    {
        match self.pending() {
            None => self,
            Some(dir) => if tree.dom().contains(dir) {
                self.listed(tree[dir]).run_on(tree)
            } else {
                self.list_failed()
            },
        }
    }

    /// What the walk comes to if it ends in this state: the files, unless it
    /// failed or a directory is still unlisted.
    pub open spec fn outcome(self) -> Result<Seq<Seq<u8>>, WalkFault> {
        match self.list_failed().fault {
            Some(fault) => Err(fault),
            None => Ok(self.files),
        }
    }

    /// How many rounds of listing the depth still allows.
    pub open spec fn rounds_left(self) -> nat {
        (self.rules.max_depth - self.depth) as nat
    }

    /// Directories wait only while the depth allows them to be listed.
    pub open spec fn bounded(self) -> bool {
        &&& self.frontier.len() > 0 ==> self.depth < self.rules.max_depth
        &&& self.queued.len() > 0 ==> self.depth + 1 < self.rules.max_depth
    }

    /// What holds of every state of a walk: it is bounded, and every
    /// directory and file that it holds is in reach of the root.
    pub open spec fn inv(self) -> bool {
        &&& self.bounded()
        &&& forall|i: int|
            0 <= i < self.frontier.len() ==> dir_in_reach(
                self.rules,
                self.root,
                #[trigger] self.frontier[i],
                self.depth,
            )
        &&& forall|i: int|
            0 <= i < self.queued.len() ==> dir_in_reach(
                self.rules,
                self.root,
                #[trigger] self.queued[i],
                self.depth + 1,
            )
        &&& forall|i: int|
            0 <= i < self.files.len() ==> file_in_reach(
                self.rules,
                self.root,
                #[trigger] self.files[i],
            )
    }
}

/// A chain that leads to a directory, made longer by an entry of the
/// directory, leads to the entry.
proof fn lemma_chain_extended(root: Seq<u8>, chain: Seq<Seq<u8>>, dir: Seq<u8>, name: Seq<u8>)
    requires
        leads_from(root, chain, dir),
        valid_name(name),
    ensures
        leads_from(root, chain.push(join(dir, name)), join(dir, name)),
        base_name(join(dir, name)) == name,
{
    lemma_base_name_of_join(dir, name);
}

/// A file that is listed in a directory in reach, and not excluded, is in
/// reach, provided the directory may be listed at all.
proof fn lemma_file_below(rules: Rules, root: Seq<u8>, dir: Seq<u8>, depth: nat, name: Seq<u8>)
    requires
        dir_in_reach(rules, root, dir, depth),
        depth < rules.max_depth,
        valid_name(name),
        rules.admits(join(dir, name)),
    ensures
        file_in_reach(rules, root, join(dir, name)),
{
    let chain = choose|chain: Seq<Seq<u8>>|
        {
            &&& #[trigger] leads_from(root, chain, dir)
            &&& chain.len() == depth + 1
            &&& shows_after_root(rules, chain, chain.len() as int)
            &&& avoids_excluded(rules, chain)
        };
    lemma_chain_extended(root, chain, dir, name);
    let longer = chain.push(join(dir, name));
    assert(avoids_hidden(rules, longer));
    assert(avoids_excluded(rules, longer));
}

/// A directory that is listed in a directory in reach, is shown and is not
/// excluded, is in reach one descent further down.
proof fn lemma_dir_below(rules: Rules, root: Seq<u8>, dir: Seq<u8>, depth: nat, name: Seq<u8>)
    requires
        dir_in_reach(rules, root, dir, depth),
        valid_name(name),
        rules.shows(name),
        rules.admits(join(dir, name)),
    ensures
        dir_in_reach(rules, root, join(dir, name), depth + 1),
{
    let chain = choose|chain: Seq<Seq<u8>>|
        {
            &&& #[trigger] leads_from(root, chain, dir)
            &&& chain.len() == depth + 1
            &&& shows_after_root(rules, chain, chain.len() as int)
            &&& avoids_excluded(rules, chain)
        };
    lemma_chain_extended(root, chain, dir, name);
    let longer = chain.push(join(dir, name));
    assert(shows_after_root(rules, longer, longer.len() as int));
    assert(avoids_excluded(rules, longer));
}

/// A walk begins in a state that meets the invariant.
pub proof fn lemma_start_inv(root: Seq<u8>, kind: RootKind, rules: Rules)
    ensures
        WalkState::start(root, kind, rules).inv(),
{
    assert(leads_from(root, seq![root], root));
}

/// Every listing brings the walk nearer to its end: it ends a round, of
/// which the depth allows no more than `max_depth`, or it leaves one
/// directory fewer to list in this round.
pub proof fn lemma_listed_nears_end(state: WalkState, entries: Seq<Listed>)
    requires
        state.bounded(),
        state.pending().is_some(),
    ensures
        state.listed(entries).rounds_left() < state.rounds_left() || (state.listed(
            entries,
        ).rounds_left() == state.rounds_left() && state.listed(entries).frontier.len()
            < state.frontier.len()),
{
}

/// What a walk of `tree` from `root` comes to.
pub open spec fn walk_of(
    root: Seq<u8>,
    kind: RootKind,
    rules: Rules,
    tree: Map<Seq<u8>, Seq<Listed>>,
) -> Result<Seq<Seq<u8>>, WalkFault> {
    WalkState::start(root, kind, rules).run_on(tree).outcome()
}

/// Every name in every listing of the tree is valid.
pub open spec fn well_named(tree: Map<Seq<u8>, Seq<Listed>>) -> bool {
    forall|dir: Seq<u8>, i: int|
        tree.dom().contains(dir) && 0 <= i < tree[dir].len() ==> valid_name(
            (#[trigger] tree[dir][i]).name,
        )
}

/// Every file that the listing of a directory in reach gives is in reach,
/// provided the directory may be listed at all.
proof fn lemma_files_taken_in_reach(
    rules: Rules,
    root: Seq<u8>,
    dir: Seq<u8>,
    depth: nat,
    entries: Seq<Listed>,
)
    requires
        dir_in_reach(rules, root, dir, depth),
        depth < rules.max_depth,
        forall|i: int| 0 <= i < entries.len() ==> valid_name(#[trigger] entries[i].name),
    ensures
        forall|i: int|
            0 <= i < entries.filter_map(file_taken(rules, dir)).len() ==> file_in_reach(
                rules,
                root,
                #[trigger] entries.filter_map(file_taken(rules, dir))[i],
            ),
{
    let taken = entries.filter_map(file_taken(rules, dir));
    assert forall|i: int| 0 <= i < taken.len() implies file_in_reach(
        rules,
        root,
        #[trigger] taken[i],
    ) by {
        entries.lemma_filter_map_contains(file_taken(rules, dir), taken[i]);
        let entry = choose|entry: Listed| #[trigger]
            entries.contains(entry) && file_taken(rules, dir)(entry) == Some(taken[i]);
        lemma_file_below(rules, root, dir, depth, entry.name);
    }
}

/// Every directory that the listing of a directory in reach gives is in
/// reach one descent further down.
proof fn lemma_dirs_taken_in_reach(
    rules: Rules,
    root: Seq<u8>,
    dir: Seq<u8>,
    depth: nat,
    entries: Seq<Listed>,
)
    requires
        dir_in_reach(rules, root, dir, depth),
        forall|i: int| 0 <= i < entries.len() ==> valid_name(#[trigger] entries[i].name),
    ensures
        forall|i: int|
            0 <= i < entries.filter_map(dir_taken(rules, dir)).len() ==> dir_in_reach(
                rules,
                root,
                #[trigger] entries.filter_map(dir_taken(rules, dir))[i],
                depth + 1,
            ),
{
    let taken = entries.filter_map(dir_taken(rules, dir));
    assert forall|i: int| 0 <= i < taken.len() implies dir_in_reach(
        rules,
        root,
        #[trigger] taken[i],
        depth + 1,
    ) by {
        entries.lemma_filter_map_contains(dir_taken(rules, dir), taken[i]);
        let entry = choose|entry: Listed| #[trigger]
            entries.contains(entry) && dir_taken(rules, dir)(entry) == Some(taken[i]);
        lemma_dir_below(rules, root, dir, depth, entry.name);
    }
}

/// A listing of valid names keeps the invariant.
pub proof fn lemma_listed_inv(state: WalkState, entries: Seq<Listed>)
    requires
        state.inv(),
        forall|i: int| 0 <= i < entries.len() ==> valid_name(#[trigger] entries[i].name),
    ensures
        state.listed(entries).inv(),
{
    if let Some(dir) = state.pending() {
        assert(dir == state.frontier[0]);
        lemma_files_taken_in_reach(state.rules, state.root, dir, state.depth, entries);
        lemma_dirs_taken_in_reach(state.rules, state.root, dir, state.depth, entries);
    }
}

/// A walk that is run to its end on a tree waits for nothing more, is still
/// the walk from the same root under the same rules, and meets the invariant
/// if it met it before.
pub proof fn lemma_run_on_inv(state: WalkState, tree: Map<Seq<u8>, Seq<Listed>>)
    requires
        state.inv(),
        well_named(tree),
    ensures
        state.run_on(tree).inv(),
        state.run_on(tree).pending().is_none(),
        state.run_on(tree).root == state.root,
        state.run_on(tree).rules == state.rules,
    decreases state.rounds_left(), state.frontier.len(),
{
    if let Some(dir) = state.pending() {
        if tree.dom().contains(dir) {
            lemma_listed_inv(state, tree[dir]);
            lemma_run_on_inv(state.listed(tree[dir]), tree);
        }
    }
}

/// Whatever the tree, the depth and the rest of the rules, every file of a
/// walk is in reach of the root: it lies at most `max_depth` descents below
/// the root, no directory between the root and the file is hidden from the
/// walk, and neither the file nor a directory between the root and the file
/// is excluded.
pub proof fn lemma_walk_in_reach(
    root: Seq<u8>,
    kind: RootKind,
    rules: Rules,
    tree: Map<Seq<u8>, Seq<Listed>>,
)
    requires
        well_named(tree),
    ensures
        walk_of(root, kind, rules, tree) matches Ok(files) ==> forall|i: int|
            0 <= i < files.len() ==> file_in_reach(rules, root, #[trigger] files[i]),
{
    lemma_start_inv(root, kind, rules);
    lemma_run_on_inv(WalkState::start(root, kind, rules), tree);
}

/// A chain of at most `max_depth` descents leads from `root` down to `path`.
pub open spec fn is_within(root: Seq<u8>, path: Seq<u8>, max_depth: nat) -> bool {
    exists|chain: Seq<Seq<u8>>| #[trigger]
        leads_from(root, chain, path) && chain.len() - 1 <= max_depth
}

/// A chain leads from `root` down to `path` on which no directory between
/// the root and the path has a hidden base name.
pub open spec fn is_below_no_hidden(root: Seq<u8>, path: Seq<u8>) -> bool {
    exists|chain: Seq<Seq<u8>>|
        {
            &&& #[trigger] leads_from(root, chain, path)
            &&& forall|k: int|
                1 <= k < chain.len() - 1 ==> !is_hidden(base_name(#[trigger] chain[k]))
        }
}

/// A chain leads from `root` down to `path` on which nothing is excluded,
/// neither the root nor the path.
pub open spec fn is_below_no_excluded(
    excluded: Set<Seq<u8>>,
    root: Seq<u8>,
    path: Seq<u8>,
) -> bool {
    exists|chain: Seq<Seq<u8>>|
        {
            &&& #[trigger] leads_from(root, chain, path)
            &&& forall|k: int| 0 <= k < chain.len() ==> !excluded.contains(#[trigger] chain[k])
        }
}

/// No file of a walk lies deeper below the root than the depth allows.
pub proof fn lemma_walk_within_depth(
    root: Seq<u8>,
    kind: RootKind,
    rules: Rules,
    tree: Map<Seq<u8>, Seq<Listed>>,
)
    requires
        well_named(tree),
    ensures
        walk_of(root, kind, rules, tree) matches Ok(files) ==> forall|i: int|
            0 <= i < files.len() ==> is_within(root, #[trigger] files[i], rules.max_depth),
{
    lemma_walk_in_reach(root, kind, rules, tree);
    if let Ok(files) = walk_of(root, kind, rules, tree) {
        assert forall|i: int| 0 <= i < files.len() implies is_within(
            root,
            #[trigger] files[i],
            rules.max_depth,
        ) by {
            assert(file_in_reach(rules, root, files[i]));
        }
    }
}

/// Where hidden directories are left out, no file of a walk lies in or
/// below a hidden directory that the walk would have had to go into: the
/// root is gone into whatever its name.
pub proof fn lemma_walk_avoids_hidden(
    root: Seq<u8>,
    kind: RootKind,
    rules: Rules,
    tree: Map<Seq<u8>, Seq<Listed>>,
)
    requires
        well_named(tree),
        !rules.include_hidden,
    ensures
        walk_of(root, kind, rules, tree) matches Ok(files) ==> forall|i: int|
            0 <= i < files.len() ==> is_below_no_hidden(root, #[trigger] files[i]),
{
    lemma_walk_in_reach(root, kind, rules, tree);
    if let Ok(files) = walk_of(root, kind, rules, tree) {
        assert forall|i: int| 0 <= i < files.len() implies is_below_no_hidden(
            root,
            #[trigger] files[i],
        ) by {
            assert(file_in_reach(rules, root, files[i]));
            let chain = choose|chain: Seq<Seq<u8>>|
                {
                    &&& #[trigger] leads_from(root, chain, files[i])
                    &&& within_depth(rules, chain)
                    &&& avoids_hidden(rules, chain)
                    &&& avoids_excluded(rules, chain)
                };
            assert forall|k: int| 1 <= k < chain.len() - 1 implies !is_hidden(
                base_name(#[trigger] chain[k]),
            ) by {
                assert(rules.shows(base_name(chain[k])));
            }
        }
    }
}

/// Where the root is not excluded, no file of a walk is excluded, nor is
/// any directory on the way from the root down to it.
pub proof fn lemma_walk_avoids_excluded(
    root: Seq<u8>,
    kind: RootKind,
    rules: Rules,
    tree: Map<Seq<u8>, Seq<Listed>>,
)
    requires
        well_named(tree),
        !rules.excluded.contains(root),
    ensures
        walk_of(root, kind, rules, tree) matches Ok(files) ==> forall|i: int|
            0 <= i < files.len() ==> is_below_no_excluded(
                rules.excluded,
                root,
                #[trigger] files[i],
            ),
{
    lemma_walk_in_reach(root, kind, rules, tree);
    if let Ok(files) = walk_of(root, kind, rules, tree) {
        assert forall|i: int| 0 <= i < files.len() implies is_below_no_excluded(
            rules.excluded,
            root,
            #[trigger] files[i],
        ) by {
            assert(file_in_reach(rules, root, files[i]));
            let chain = choose|chain: Seq<Seq<u8>>|
                {
                    &&& #[trigger] leads_from(root, chain, files[i])
                    &&& within_depth(rules, chain)
                    &&& avoids_hidden(rules, chain)
                    &&& avoids_excluded(rules, chain)
                };
            assert forall|k: int| 0 <= k < chain.len() implies !rules.excluded.contains(
                #[trigger] chain[k],
            ) by {
                if k >= 1 {
                    assert(rules.admits(chain[k]));
                }
            }
        }
    }
}

/// With depth zero the walk of a directory gives no files, whatever the
/// directory holds.
pub proof fn lemma_depth_zero_gives_nothing(
    root: Seq<u8>,
    rules: Rules,
    tree: Map<Seq<u8>, Seq<Listed>>,
)
    requires
        rules.max_depth == 0,
    ensures
        walk_of(root, RootKind::Directory, rules, tree) == Ok::<Seq<Seq<u8>>, WalkFault>(
            Seq::empty(),
        ),
{
}

/// A root that is a file is the one file of the walk, whatever the rules and
/// the tree.
pub proof fn lemma_file_root_is_the_walk(
    root: Seq<u8>,
    rules: Rules,
    tree: Map<Seq<u8>, Seq<Listed>>,
)
    ensures
        walk_of(root, RootKind::File, rules, tree) == Ok::<Seq<Seq<u8>>, WalkFault>(seq![root]),
{
}

/// A missing root fails the walk.
pub proof fn lemma_missing_root_fails(
    root: Seq<u8>,
    rules: Rules,
    tree: Map<Seq<u8>, Seq<Listed>>,
)
    ensures
        walk_of(root, RootKind::Missing, rules, tree) == Err::<Seq<Seq<u8>>, WalkFault>(
            WalkFault::NotFound(root),
        ),
{
}

/// What changes while a walk goes on.
struct Progress {
    fault: Option<WalkError>,
    depth: usize,
    frontier: Vec<FilePath>,
    cursor: usize,
    queued: Vec<FilePath>,
    files: Vec<FileEntry>,
}

impl Progress {
    spec fn state(self, root: Seq<u8>, rules: Rules) -> WalkState {
        WalkState {
            root,
            rules,
            fault: match self.fault {
                Some(error) => Some(error@),
                None => None,
            },
            depth: self.depth as nat,
            frontier: path_views(self.frontier@).skip(self.cursor as int),
            queued: path_views(self.queued@),
            files: file_views(self.files@),
        }
    }

    /// Progress that holds nothing.
    fn idle() -> (progress: Progress)
        ensures
            progress.cursor == 0,
            progress.depth == 0,
            progress.fault.is_none(),
            progress.frontier@.len() == 0,
            progress.queued@.len() == 0,
            progress.files@.len() == 0,
    {
        Progress {
            fault: None,
            depth: 0,
            frontier: Vec::new(),
            cursor: 0,
            queued: Vec::new(),
            files: Vec::new(),
        }
    }
}

/// A walk in progress. It names the directory to list next, takes the
/// listing, and in the end gives the files or the reason why there are none.
pub struct Walker {
    config: TraversalConfig,
    root: FilePath,
    progress: Progress,
}

impl View for Walker {
    type V = WalkState;

    closed spec fn view(&self) -> WalkState {
        self.progress.state(self.root@, self.config@)
    }
}

impl Walker {
    #[verifier::type_invariant]
    spec fn well_formed(self) -> bool {
        self.progress.cursor <= self.progress.frontier@.len() && self@.inv()
    }

    /// Begins a walk from `root`, which the caller found to be of `kind`.
    ///
    /// A root that is a file is the one file of the walk, whatever the
    /// configuration says. A root that is a directory waits to be listed,
    /// whatever its name and whether or not it is excluded, unless the depth
    /// is zero: the walk is then over and has no files. A missing root fails
    /// the walk.
    pub fn new(root: FilePath, kind: RootKind, config: TraversalConfig) -> (walker: Walker)
        ensures
            walker@ == WalkState::start(root@, kind, config@),
            walker@.inv(),
    {
        let mut progress = Progress::idle();
        match kind {
            RootKind::Missing => {
                progress.fault = Some(WalkError::NotFound(root.clone()));
            },
            RootKind::File => {
                progress.files.push(FileEntry::new(root.clone()));
            },
            RootKind::Directory => {
                if config.max_depth > 0 {
                    progress.frontier.push(root.clone());
                }
            },
        }
        proof {
            let state = progress.state(root@, config@);
            let start = WalkState::start(root@, kind, config@);
            assert(state.frontier =~= start.frontier);
            assert(state.queued =~= start.queued);
            assert(state.files =~= start.files);
            lemma_start_inv(root@, kind, config@);
        }
        Walker { config, root, progress }
    }

    /// The directory whose listing the walk waits for. `None` says that the
    /// walk is over.
    pub fn pending(&self) -> (dir: Option<&FilePath>)
        ensures
            match dir {
                Some(path) => self@.pending() == Some(path@),
                None => self@.pending().is_none(),
            },
    {
        proof {
            use_type_invariant(self);
        }
        if self.progress.fault.is_none() && self.progress.cursor < self.progress.frontier.len() {
            Some(&self.progress.frontier[self.progress.cursor])
        } else {
            None
        }
    }

    /// Takes the listing of the pending directory. Without a pending
    /// directory nothing changes.
    pub fn listed(&mut self, entries: &Vec<DirEntry>)
        ensures
            final(self)@ == old(self)@.listed(listing_view(entries@)),
            final(self)@.inv(),
    {
        proof {
            use_type_invariant(&*self);
        }
        if self.progress.fault.is_some() || self.progress.cursor >= self.progress.frontier.len() {
            return ;
        }
        let ghost before = self@;
        let ghost rules = self.config@;
        let ghost listing = listing_view(entries@);
        let dir = &self.progress.frontier[self.progress.cursor];
        let more = self.progress.depth + 1 < self.config.max_depth;
        let mut files: Vec<FileEntry> = Vec::new();
        let mut dirs: Vec<FilePath> = Vec::new();
        let mut i: usize = 0;
        while i < entries.len()
            invariant
                i <= entries.len(),
                rules == self.config@,
                listing == listing_view(entries@),
                file_views(files@) == listing.take(i as int).filter_map(file_taken(rules, dir@)),
                more ==> path_views(dirs@) == listing.take(i as int).filter_map(
                    dir_taken(rules, dir@),
                ),
                !more ==> dirs@.len() == 0,
                forall|k: int| 0 <= k < i ==> valid_name(#[trigger] listing[k].name),
            decreases entries.len() - i,
        {
            let entry = &entries[i];
            let path = dir.join(&entry.name);
            proof {
                listing.lemma_filter_map_take_succ(file_taken(rules, dir@), i as int);
                listing.lemma_filter_map_take_succ(dir_taken(rules, dir@), i as int);
            }
            if !self.config.excludes(&path) {
                match entry.kind {
                    EntryKind::File => {
                        files.push(FileEntry::new(path));
                    },
                    EntryKind::Directory => {
                        if more && (self.config.include_hidden || !entry.name.is_hidden()) {
                            dirs.push(path);
                        }
                    },
                }
            }
            i += 1;
        }
        assert(listing.take(i as int) =~= listing);
        let mut progress = Progress::idle();
        core::mem::swap(&mut self.progress, &mut progress);
        progress.files.append(&mut files);
        progress.queued.append(&mut dirs);
        progress.cursor += 1;
        if progress.cursor == progress.frontier.len() {
            progress.depth += 1;
            progress.frontier = Vec::new();
            core::mem::swap(&mut progress.frontier, &mut progress.queued);
            progress.cursor = 0;
        }
        proof {
            let after = before.listed(listing);
            let state = progress.state(self.root@, self.config@);
            assert(state.files =~= after.files);
            assert(state.queued =~= after.queued);
            assert(state.frontier =~= after.frontier);
            lemma_listed_inv(before, listing);
        }
        self.progress = progress;
    }

    /// Takes note that the pending directory could not be listed, which
    /// fails the walk. Without a pending directory nothing changes.
    pub fn list_failed(&mut self)
        ensures
            final(self)@ == old(self)@.list_failed(),
    {
        proof {
            use_type_invariant(&*self);
        }
        if self.progress.fault.is_none() && self.progress.cursor < self.progress.frontier.len() {
            let error = WalkError::Io(self.progress.frontier[self.progress.cursor].clone());
            self.progress.fault = Some(error);
        }
    }

    /// Ends the walk. The files come out in the order in which they were
    /// listed, whole or not at all: a failed walk gives its error, and a walk
    /// that is ended while a directory waits fails on that directory.
    ///
    /// Each file is in reach of the root: at most `max_depth` descents below
    /// it, with no directory between the root and the file hidden from the
    /// walk, and neither the file nor a directory between is excluded.
    pub fn finish(self) -> (result: Result<Vec<FileEntry>, WalkError>)
        ensures
            match result {
                Ok(files) => self@.outcome() == Ok::<Seq<Seq<u8>>, WalkFault>(file_views(files@)),
                Err(error) => self@.outcome() == Err::<Seq<Seq<u8>>, WalkFault>(error@),
            },
            result matches Ok(files) ==> forall|i: int|
                0 <= i < files@.len() ==> file_in_reach(self@.rules, self@.root, #[trigger] files@[i]@),
    {
        proof {
            use_type_invariant(&self);
        }
        let ghost state = self@;
        let progress = self.progress;
        match progress.fault {
            Some(error) => Err(error),
            None => {
                if progress.cursor < progress.frontier.len() {
                    Err(WalkError::Io(progress.frontier[progress.cursor].clone()))
                } else {
                    assert forall|i: int| 0 <= i < progress.files@.len() implies file_in_reach(
                        state.rules,
                        state.root,
                        #[trigger] progress.files@[i]@,
                    ) by {
                        assert(state.files[i] == progress.files@[i]@);
                    }
                    Ok(progress.files)
                }
            },
        }
    }
}

} // verus!
