use rprs::path::FilePath;
use rprs::sync::{plan, CopyError, MatchConfig, Step, SyncAction, SyncReport, Synchronizer};
use rprs::walk::FileEntry;
use std::collections::HashMap;

type Contents = HashMap<Vec<u8>, Vec<u8>>;

fn path(text: &str) -> FilePath {
    FilePath::from_text(text)
}

fn files(texts: &[&str]) -> Vec<FileEntry> {
    texts.iter().map(|text| FileEntry::new(path(text))).collect()
}

fn contents(pairs: &[(&str, &str)]) -> Contents {
    pairs
        .iter()
        .map(|(path, data)| (path.as_bytes().to_vec(), data.as_bytes().to_vec()))
        .collect()
}

fn content<'a>(all: &'a Contents, path: &str) -> &'a str {
    std::str::from_utf8(&all[path.as_bytes()]).unwrap()
}

const INSENSITIVE: MatchConfig = MatchConfig { case_sensitive: false };
const SENSITIVE: MatchConfig = MatchConfig { case_sensitive: true };

/// What the progress sink was told.
#[derive(Debug, Default, PartialEq, Eq)]
struct Sink {
    total: Option<usize>,
    ticks: usize,
    finished: bool,
}

/// Runs one synchronisation on `all`. A copy fails when its source is missing.
fn synchronize(
    sources: &[&str],
    dests: &[&str],
    config: MatchConfig,
    all: &mut Contents,
    sink: &mut Sink,
) -> Result<SyncReport, CopyError> {
    let mut sync = Synchronizer::new(files(sources), files(dests), config);
    loop {
        match sync.action() {
            SyncAction::SetTotal(total) => {
                assert_eq!(sink.total, None);
                sink.total = Some(total);
                sync.done();
            },
            SyncAction::Copy { source, dest } => match all.get(&source.bytes).cloned() {
                Some(data) => {
                    all.insert(dest.bytes, data);
                    sync.done();
                },
                None => sync.copy_failed(),
            },
            SyncAction::Tick => {
                sink.ticks += 1;
                sync.done();
            },
            SyncAction::Finish(report) => {
                sink.finished = true;
                return Ok(report);
            },
            SyncAction::Abort(error) => return Err(error),
        }
    }
}

fn actions(sources: &[&str], dests: &[&str], config: MatchConfig) -> Vec<SyncAction> {
    let mut sync = Synchronizer::new(files(sources), files(dests), config);
    let mut taken = Vec::new();
    loop {
        let action = sync.action();
        let last = matches!(action, SyncAction::Finish(_) | SyncAction::Abort(_));
        taken.push(action);
        if last {
            return taken;
        }
        sync.done();
    }
}

fn copy(source: &str, dest: &str) -> SyncAction {
    SyncAction::Copy { source: path(source), dest: path(dest) }
}

#[test]
fn names_are_compared_up_to_ascii_case_by_default() {
    assert_eq!(MatchConfig::default(), INSENSITIVE);
}

#[test]
fn case_is_ignored_unless_asked_for() {
    let mut all = contents(&[("s/Foo.txt", "new"), ("d/foo.txt", "old")]);
    let report =
        synchronize(&["s/Foo.txt"], &["d/foo.txt"], INSENSITIVE, &mut all, &mut Sink::default());
    assert_eq!(report, Ok(SyncReport { copied: 1, updated: 1, untouched: 0 }));
    assert_eq!(content(&all, "d/foo.txt"), "new");
}

#[test]
fn case_matters_when_asked_for() {
    let mut all = contents(&[("s/Foo.txt", "new"), ("d/foo.txt", "old")]);
    let report =
        synchronize(&["s/Foo.txt"], &["d/foo.txt"], SENSITIVE, &mut all, &mut Sink::default());
    assert_eq!(report, Ok(SyncReport { copied: 0, updated: 0, untouched: 1 }));
    assert_eq!(content(&all, "d/foo.txt"), "old");
    assert_eq!(
        actions(&["s/Foo.txt"], &["d/foo.txt"], SENSITIVE),
        vec![
            SyncAction::SetTotal(1),
            SyncAction::Tick,
            SyncAction::Finish(SyncReport { copied: 0, updated: 0, untouched: 1 })
        ]
    );
}

#[test]
fn bytes_outside_ascii_are_compared_as_they_stand() {
    let sources = ["s/\u{c9}t\u{e9}.txt"];
    let dests = ["d/\u{e9}t\u{e9}.txt", "d/\u{c9}T\u{e9}.TXT"];
    let (steps, _) = plan(&files(&sources), &files(&dests), &INSENSITIVE);
    assert_eq!(steps, vec![Step::Tick, Step::Copy { source: 0, dest: 1 }, Step::Tick]);
}

#[test]
fn only_the_base_name_is_compared() {
    let sources = ["a/b/x.txt", "x.txt/y", "x.txt"];
    let dests = ["c/d/e/x.txt", "y/x.txt/"];
    let (steps, report) = plan(&files(&sources), &files(&dests), &SENSITIVE);
    assert_eq!(
        steps,
        vec![
            Step::Copy { source: 0, dest: 0 },
            Step::Copy { source: 2, dest: 0 },
            Step::Tick,
            Step::Copy { source: 0, dest: 1 },
            Step::Copy { source: 2, dest: 1 },
            Step::Tick,
        ]
    );
    assert_eq!(report, SyncReport { copied: 4, updated: 2, untouched: 0 });
}

#[test]
fn synchronising_twice_leaves_what_once_leaves() {
    let start = contents(&[
        ("s/a.txt", "1"),
        ("s/sub/A.TXT", "2"),
        ("s/b.txt", "3"),
        ("d/a.txt", "x"),
        ("d/deep/B.txt", "y"),
        ("d/c.txt", "z"),
    ]);
    let sources = ["s/a.txt", "s/sub/A.TXT", "s/b.txt"];
    let dests = ["d/a.txt", "d/deep/B.txt", "d/c.txt"];
    let mut once = start.clone();
    let first = synchronize(&sources, &dests, INSENSITIVE, &mut once, &mut Sink::default());
    let mut twice = once.clone();
    let second = synchronize(&sources, &dests, INSENSITIVE, &mut twice, &mut Sink::default());
    assert_eq!(first, second);
    assert_eq!(twice, once);
    assert_ne!(once, start);
    assert_eq!(content(&once, "d/a.txt"), "2");
    assert_eq!(content(&once, "d/deep/B.txt"), "3");
    assert_eq!(content(&once, "d/c.txt"), "z");
}

#[test]
fn the_last_match_wins() {
    let mut all = contents(&[("a/X.txt", "from a"), ("b/X.txt", "from b"), ("X.txt", "old")]);
    let sources = ["a/X.txt", "b/X.txt"];
    let dests = ["X.txt"];
    let report = synchronize(&sources, &dests, INSENSITIVE, &mut all, &mut Sink::default());
    assert_eq!(report, Ok(SyncReport { copied: 2, updated: 1, untouched: 0 }));
    assert_eq!(content(&all, "X.txt"), "from b");
    for _ in 0..3 {
        let again = synchronize(&sources, &dests, INSENSITIVE, &mut all, &mut Sink::default());
        assert_eq!(again, report);
        assert_eq!(content(&all, "X.txt"), "from b");
    }
}

#[test]
fn every_match_is_copied_in_the_order_of_the_sources() {
    assert_eq!(
        actions(&["a/X.txt", "b/X.txt"], &["X.txt"], INSENSITIVE),
        vec![
            SyncAction::SetTotal(1),
            copy("a/X.txt", "X.txt"),
            copy("b/X.txt", "X.txt"),
            SyncAction::Tick,
            SyncAction::Finish(SyncReport { copied: 2, updated: 1, untouched: 0 })
        ]
    );
}

#[test]
fn the_order_of_the_sources_decides_which_match_is_last() {
    let mut all = contents(&[("a/X.txt", "from a"), ("b/X.txt", "from b"), ("X.txt", "old")]);
    synchronize(&["b/X.txt", "a/X.txt"], &["X.txt"], SENSITIVE, &mut all, &mut Sink::default())
        .unwrap();
    assert_eq!(content(&all, "X.txt"), "from a");
}

#[test]
fn a_destination_without_a_match_is_left_alone() {
    let mut all = contents(&[
        ("src/a.txt", "1"),
        ("src/b.txt", "2"),
        ("des/a.txt", "x"),
        ("des/c.txt", "y"),
    ]);
    let mut sink = Sink::default();
    let report = synchronize(
        &["src/a.txt", "src/b.txt"],
        &["des/a.txt", "des/c.txt"],
        INSENSITIVE,
        &mut all,
        &mut sink,
    );
    assert_eq!(report, Ok(SyncReport { copied: 1, updated: 1, untouched: 1 }));
    assert_eq!(content(&all, "des/a.txt"), "1");
    assert_eq!(content(&all, "des/c.txt"), "y");
    assert_eq!(content(&all, "src/a.txt"), "1");
    assert_eq!(content(&all, "src/b.txt"), "2");
    assert_eq!(all.len(), 4);
    assert_eq!(sink, Sink { total: Some(2), ticks: 2, finished: true });
}

#[test]
fn the_sink_hears_the_total_then_a_tick_for_every_destination_then_the_finish() {
    assert_eq!(
        actions(&["s/a", "s/b"], &["d/b", "d/x", "d/a"], SENSITIVE),
        vec![
            SyncAction::SetTotal(3),
            copy("s/b", "d/b"),
            SyncAction::Tick,
            SyncAction::Tick,
            copy("s/a", "d/a"),
            SyncAction::Tick,
            SyncAction::Finish(SyncReport { copied: 2, updated: 2, untouched: 1 })
        ]
    );
}

#[test]
fn plan_gives_for_each_destination_its_copies_and_a_tick() {
    let sources = files(&["s/a", "s/B", "t/b", "s/c"]);
    let dests = files(&["d/b", "d/zzz", "d/C", "d/A"]);
    let (steps, report) = plan(&sources, &dests, &INSENSITIVE);
    assert_eq!(
        steps,
        vec![
            Step::Copy { source: 1, dest: 0 },
            Step::Copy { source: 2, dest: 0 },
            Step::Tick,
            Step::Tick,
            Step::Copy { source: 3, dest: 2 },
            Step::Tick,
            Step::Copy { source: 0, dest: 3 },
            Step::Tick,
        ]
    );
    assert_eq!(report, SyncReport { copied: 4, updated: 3, untouched: 1 });

    let (steps, report) = plan(&sources, &dests, &SENSITIVE);
    assert_eq!(
        steps,
        vec![Step::Copy { source: 2, dest: 0 }, Step::Tick, Step::Tick, Step::Tick, Step::Tick]
    );
    assert_eq!(report, SyncReport { copied: 1, updated: 1, untouched: 3 });
}

#[test]
fn without_destinations_nothing_is_done() {
    assert_eq!(plan(&files(&["s/a"]), &files(&[]), &INSENSITIVE), (vec![], SyncReport { copied: 0, updated: 0, untouched: 0 }));
    assert_eq!(
        actions(&["s/a"], &[], INSENSITIVE),
        vec![
            SyncAction::SetTotal(0),
            SyncAction::Finish(SyncReport { copied: 0, updated: 0, untouched: 0 })
        ]
    );
}

#[test]
fn without_sources_every_destination_is_left_alone() {
    assert_eq!(
        actions(&[], &["d/a", "d/b"], INSENSITIVE),
        vec![
            SyncAction::SetTotal(2),
            SyncAction::Tick,
            SyncAction::Tick,
            SyncAction::Finish(SyncReport { copied: 0, updated: 0, untouched: 2 })
        ]
    );
}

#[test]
fn the_first_copy_that_fails_ends_the_synchronisation() {
    let mut all = contents(&[("s/a", "1"), ("s/c", "3"), ("d/a", "x"), ("d/b", "y"), ("d/c", "z")]);
    let mut sink = Sink::default();
    let result = synchronize(
        &["s/a", "s/b", "s/c"],
        &["d/a", "d/b", "d/c"],
        SENSITIVE,
        &mut all,
        &mut sink,
    );
    assert_eq!(result, Err(CopyError::Io { source: path("s/b"), dest: path("d/b") }));
    assert_eq!(content(&all, "d/a"), "1");
    assert_eq!(content(&all, "d/b"), "y");
    assert_eq!(content(&all, "d/c"), "z");
    assert_eq!(sink, Sink { total: Some(3), ticks: 1, finished: false });
}

#[test]
fn after_a_failed_copy_nothing_more_is_asked_for() {
    let mut sync = Synchronizer::new(files(&["s/a"]), files(&["d/a", "e/a"]), SENSITIVE);
    assert_eq!(sync.action(), SyncAction::SetTotal(2));
    sync.done();
    assert_eq!(sync.action(), copy("s/a", "d/a"));
    sync.copy_failed();
    let abort = SyncAction::Abort(CopyError::Io { source: path("s/a"), dest: path("d/a") });
    assert_eq!(sync.action(), abort);
    sync.done();
    assert_eq!(sync.action(), abort);
    sync.copy_failed();
    assert_eq!(sync.action(), abort);
}

#[test]
fn only_a_copy_can_fail() {
    let mut sync = Synchronizer::new(files(&["s/a"]), files(&["d/a"]), SENSITIVE);
    sync.copy_failed();
    assert_eq!(sync.action(), SyncAction::SetTotal(1));
    sync.done();
    sync.done();
    assert_eq!(sync.action(), SyncAction::Tick);
    sync.copy_failed();
    assert_eq!(sync.action(), SyncAction::Tick);
    sync.done();
    let finish = SyncAction::Finish(SyncReport { copied: 1, updated: 1, untouched: 0 });
    assert_eq!(sync.action(), finish);
    sync.copy_failed();
    assert_eq!(sync.action(), finish);
}

#[test]
fn the_finish_is_the_last_action() {
    let mut sync = Synchronizer::new(files(&[]), files(&[]), SENSITIVE);
    sync.done();
    let finish = SyncAction::Finish(SyncReport { copied: 0, updated: 0, untouched: 0 });
    assert_eq!(sync.action(), finish);
    sync.done();
    sync.done();
    assert_eq!(sync.action(), finish);
}

#[test]
fn asking_for_the_action_does_not_advance() {
    let sync = Synchronizer::new(files(&["s/a"]), files(&["d/a"]), SENSITIVE);
    assert_eq!(sync.action(), SyncAction::SetTotal(1));
    assert_eq!(sync.action(), SyncAction::SetTotal(1));
}

#[test]
fn a_destination_listed_twice_is_dealt_with_twice() {
    let (steps, report) = plan(&files(&["s/a"]), &files(&["d/a", "d/a"]), &SENSITIVE);
    assert_eq!(
        steps,
        vec![
            Step::Copy { source: 0, dest: 0 },
            Step::Tick,
            Step::Copy { source: 0, dest: 1 },
            Step::Tick
        ]
    );
    assert_eq!(report, SyncReport { copied: 2, updated: 2, untouched: 0 });
}

#[test]
fn a_file_that_is_source_and_destination_is_copied_onto_itself() {
    let mut all = contents(&[("t/a", "1"), ("u/a", "2")]);
    let both = ["t/a", "u/a"];
    let report = synchronize(&both, &both, SENSITIVE, &mut all, &mut Sink::default());
    assert_eq!(report, Ok(SyncReport { copied: 4, updated: 2, untouched: 0 }));
    assert_eq!(content(&all, "t/a"), "2");
    assert_eq!(content(&all, "u/a"), "2");
}
