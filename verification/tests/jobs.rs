use rprs::path::{EntryName, FilePath};
use rprs::sync::{CopyError, MatchConfig, SyncReport};
use rprs::walk::{DirEntry, RootKind, TraversalConfig, WalkError};
use rprs::{run, Action, Event, Job, Request, RunError};
use std::collections::{BTreeMap, HashSet};

fn path(text: &str) -> FilePath {
    FilePath::from_text(text)
}

/// A file system in memory: the content of every file by its path. The
/// directories are those that the paths go through.
#[derive(Clone, Debug, Default, PartialEq, Eq)]
struct Disk {
    files: BTreeMap<String, String>,
    unlistable: HashSet<String>,
    unreadable: HashSet<String>,
}

impl Disk {
    fn of(files: &[(&str, &str)]) -> Disk {
        let files = files.iter().map(|(path, data)| (path.to_string(), data.to_string())).collect();
        Disk { files, ..Disk::default() }
    }

    fn entries(&self, dir: &str) -> Vec<(String, bool)> {
        let prefix = format!("{}/", dir.trim_end_matches('/'));
        let mut entries: Vec<(String, bool)> = Vec::new();
        for path in self.files.keys() {
            if let Some(rest) = path.strip_prefix(&prefix) {
                let entry = match rest.split_once('/') {
                    Some((name, _)) => (name.to_string(), true),
                    None => (rest.to_string(), false),
                };
                if !entries.contains(&entry) {
                    entries.push(entry);
                }
            }
        }
        entries
    }

    fn probe(&self, path: &str) -> RootKind {
        if self.files.contains_key(path) {
            RootKind::File
        } else if !self.entries(path).is_empty() {
            RootKind::Directory
        } else {
            RootKind::Missing
        }
    }

    fn list(&self, dir: &str) -> Event {
        if self.unlistable.contains(dir) {
            return Event::ListFailed;
        }
        let entries = self.entries(dir);
        let entries = entries.iter().map(|(name, is_dir)| {
            let name = EntryName::from_text(name).unwrap();
            if *is_dir {
                DirEntry::directory(name)
            } else {
                DirEntry::file(name)
            }
        });
        Event::Listed(entries.collect())
    }

    fn copy(&mut self, source: &str, dest: &str) -> Event {
        if self.unreadable.contains(source) {
            return Event::Failed;
        }
        match self.files.get(source).cloned() {
            Some(data) => {
                self.files.insert(dest.to_string(), data);
                Event::Done
            },
            None => Event::Failed,
        }
    }
}

fn text(path: &FilePath) -> String {
    String::from_utf8(path.bytes.clone()).unwrap()
}

/// What was asked of the outside during a job, and how the job ended.
#[derive(Debug, PartialEq, Eq)]
struct Outcome {
    result: Result<SyncReport, RunError>,
    listed: Vec<String>,
    total: Option<usize>,
    ticks: usize,
    finished: bool,
}

fn carry_out(request: Request, disk: &mut Disk) -> Outcome {
    let mut job = Job::new(request);
    let mut outcome =
        Outcome { result: Ok(SyncReport { copied: 0, updated: 0, untouched: 0 }), listed: Vec::new(), total: None, ticks: 0, finished: false };
    let mut action = job.action();
    for _ in 0..10_000 {
        let event = match action {
            Action::Probe(root) => Event::Root(disk.probe(&text(&root))),
            Action::List(dir) => {
                outcome.listed.push(text(&dir));
                disk.list(&text(&dir))
            },
            Action::SetTotal(total) => {
                outcome.total = Some(total);
                Event::Done
            },
            Action::Copy { source, dest } => disk.copy(&text(&source), &text(&dest)),
            Action::Tick => {
                outcome.ticks += 1;
                Event::Done
            },
            Action::Finish(report) => {
                outcome.finished = true;
                outcome.result = Ok(report);
                return outcome;
            },
            Action::Fail(error) => {
                outcome.result = Err(error);
                return outcome;
            },
        };
        action = run(&mut job, event);
    }
    panic!("the job did not end");
}

fn request(source: &str, dest: &str) -> Request {
    Request {
        source: path(source),
        dest: path(dest),
        traversal: TraversalConfig::default(),
        matching: MatchConfig::default(),
    }
}

#[test]
fn a_destination_tree_is_synchronised_with_a_source_tree() {
    let mut disk =
        Disk::of(&[("src/a.txt", "1"), ("src/b.txt", "2"), ("des/a.txt", "x"), ("des/c.txt", "y")]);
    let outcome = carry_out(request("src", "des"), &mut disk);
    assert_eq!(
        outcome,
        Outcome {
            result: Ok(SyncReport { copied: 1, updated: 1, untouched: 1 }),
            listed: vec!["src".to_string(), "des".to_string()],
            total: Some(2),
            ticks: 2,
            finished: true,
        }
    );
    assert_eq!(
        disk,
        Disk::of(&[("src/a.txt", "1"), ("src/b.txt", "2"), ("des/a.txt", "1"), ("des/c.txt", "y")])
    );
}

#[test]
fn a_second_run_changes_nothing() {
    let mut disk = Disk::of(&[
        ("src/a.txt", "1"),
        ("src/deep/er/B.TXT", "2"),
        ("src/deep/a.txt", "3"),
        ("des/A.txt", "x"),
        ("des/sub/b.txt", "y"),
        ("des/sub/c.txt", "z"),
    ]);
    let first = carry_out(request("src", "des"), &mut disk);
    let once = disk.clone();
    let second = carry_out(request("src", "des"), &mut disk);
    assert_eq!(first, second);
    assert_eq!(disk, once);
    assert_eq!(disk.files["des/A.txt"], "3");
    assert_eq!(disk.files["des/sub/b.txt"], "2");
    assert_eq!(disk.files["des/sub/c.txt"], "z");
}

#[test]
fn the_job_asks_for_one_thing_after_the_other() {
    let disk = Disk::of(&[("s/a", "1"), ("s/sub/b", "2"), ("d/b", "x"), ("d/A", "y")]);
    let mut job = Job::new(request("s", "d"));
    assert_eq!(job.action(), Action::Probe(path("s")));
    assert_eq!(run(&mut job, Event::Root(RootKind::Directory)), Action::List(path("s")));
    assert_eq!(run(&mut job, disk.list("s")), Action::List(path("s/sub")));
    assert_eq!(run(&mut job, disk.list("s/sub")), Action::Probe(path("d")));
    assert_eq!(run(&mut job, Event::Root(RootKind::Directory)), Action::List(path("d")));
    assert_eq!(run(&mut job, disk.list("d")), Action::SetTotal(2));
    assert_eq!(
        run(&mut job, Event::Done),
        Action::Copy { source: path("s/a"), dest: path("d/A") }
    );
    assert_eq!(run(&mut job, Event::Done), Action::Tick);
    assert_eq!(
        run(&mut job, Event::Done),
        Action::Copy { source: path("s/sub/b"), dest: path("d/b") }
    );
    assert_eq!(run(&mut job, Event::Done), Action::Tick);
    let finish = Action::Finish(SyncReport { copied: 2, updated: 2, untouched: 0 });
    assert_eq!(run(&mut job, Event::Done), finish);
    assert_eq!(run(&mut job, Event::Done), finish);
    assert_eq!(job.action(), finish);
}

#[test]
fn an_event_that_is_no_answer_changes_nothing() {
    let mut job = Job::new(request("s", "d"));
    for event in [Event::Done, Event::Failed, Event::ListFailed, Event::Listed(Vec::new())] {
        assert_eq!(run(&mut job, event), Action::Probe(path("s")));
    }
    assert_eq!(run(&mut job, Event::Root(RootKind::Directory)), Action::List(path("s")));
    for event in [Event::Done, Event::Failed, Event::Root(RootKind::File)] {
        assert_eq!(run(&mut job, event), Action::List(path("s")));
    }
    assert_eq!(run(&mut job, Event::Listed(Vec::new())), Action::Probe(path("d")));
    assert_eq!(run(&mut job, Event::Listed(Vec::new())), Action::Probe(path("d")));
    assert_eq!(run(&mut job, Event::Root(RootKind::File)), Action::SetTotal(1));
    for event in [Event::Root(RootKind::File), Event::ListFailed, Event::Listed(Vec::new())] {
        assert_eq!(run(&mut job, event), Action::SetTotal(1));
    }
    assert_eq!(run(&mut job, Event::Failed), Action::SetTotal(1));
    assert_eq!(run(&mut job, Event::Done), Action::Tick);
}

#[test]
fn roots_may_be_files() {
    let mut disk = Disk::of(&[("new/Report.txt", "new"), ("old/report.txt", "old")]);
    let outcome = carry_out(request("new/Report.txt", "old/report.txt"), &mut disk);
    assert_eq!(outcome.result, Ok(SyncReport { copied: 1, updated: 1, untouched: 0 }));
    assert_eq!(outcome.listed, Vec::<String>::new());
    assert_eq!(disk.files["old/report.txt"], "new");
}

#[test]
fn the_case_policy_of_the_request_is_followed() {
    let mut disk = Disk::of(&[("new/Report.txt", "new"), ("old/report.txt", "old")]);
    let mut strict = request("new", "old");
    strict.matching = MatchConfig { case_sensitive: true };
    let outcome = carry_out(strict, &mut disk);
    assert_eq!(outcome.result, Ok(SyncReport { copied: 0, updated: 0, untouched: 1 }));
    assert_eq!(disk.files["old/report.txt"], "old");
}

#[test]
fn the_bounds_of_the_request_hold_for_both_walks() {
    let mut disk = Disk::of(&[
        ("s/a", "1"),
        ("s/.git/b", "2"),
        ("s/skip/c", "3"),
        ("s/x/y/d", "4"),
        ("d/a", "-"),
        ("d/b", "-"),
        ("d/c", "-"),
        ("d/d", "-"),
        ("d/x/y/a", "-"),
        ("d/.git/a", "-"),
        ("d/skip", "-"),
    ]);
    let mut bounded = request("s", "d");
    bounded.traversal = TraversalConfig {
        max_depth: 2,
        include_hidden: false,
        excluded_paths: vec![path("s/skip"), path("d/skip")],
    };
    let outcome = carry_out(bounded, &mut disk);
    assert_eq!(outcome.listed, vec!["s", "s/x", "d", "d/x"]);
    assert_eq!(outcome.result, Ok(SyncReport { copied: 1, updated: 1, untouched: 3 }));
    assert_eq!(disk.files["d/a"], "1");
    for untouched in ["d/b", "d/c", "d/d", "d/x/y/a", "d/.git/a", "d/skip"] {
        assert_eq!(disk.files[untouched], "-");
    }
}

#[test]
fn a_missing_source_root_fails_the_job_at_once() {
    let mut disk = Disk::of(&[("d/a", "x")]);
    let outcome = carry_out(request("gone", "d"), &mut disk);
    assert_eq!(outcome.result, Err(RunError::Walk(WalkError::NotFound(path("gone")))));
    assert_eq!(outcome.listed, Vec::<String>::new());
    assert_eq!(outcome.total, None);
}

#[test]
fn a_missing_destination_root_fails_the_job() {
    let mut disk = Disk::of(&[("s/a", "x")]);
    let outcome = carry_out(request("s", "gone"), &mut disk);
    assert_eq!(outcome.result, Err(RunError::Walk(WalkError::NotFound(path("gone")))));
    assert_eq!(outcome.listed, vec!["s"]);
    assert_eq!(outcome.total, None);
    assert!(!outcome.finished);
}

#[test]
fn a_directory_that_cannot_be_listed_fails_the_job() {
    let mut disk = Disk::of(&[("s/a", "1"), ("s/locked/b", "2"), ("d/a", "x")]);
    disk.unlistable.insert("s/locked".to_string());
    let before = disk.clone();
    let outcome = carry_out(request("s", "d"), &mut disk);
    assert_eq!(outcome.result, Err(RunError::Walk(WalkError::Io(path("s/locked")))));
    assert_eq!(outcome.listed, vec!["s", "s/locked"]);
    assert_eq!(disk, before);
}

#[test]
fn a_destination_directory_that_cannot_be_listed_fails_the_job() {
    let mut disk = Disk::of(&[("s/a", "1"), ("d/a", "x"), ("d/locked/a", "y")]);
    disk.unlistable.insert("d/locked".to_string());
    let before = disk.clone();
    let outcome = carry_out(request("s", "d"), &mut disk);
    assert_eq!(outcome.result, Err(RunError::Walk(WalkError::Io(path("d/locked")))));
    assert_eq!(disk, before);
    assert_eq!(outcome.total, None);
}

#[test]
fn a_copy_that_fails_ends_the_job() {
    let mut disk = Disk::of(&[("s/a", "1"), ("s/b", "2"), ("s/c", "3"), ("d/a", "x"), ("d/b", "y"), ("d/c", "z")]);
    disk.unreadable.insert("s/b".to_string());
    let outcome = carry_out(request("s", "d"), &mut disk);
    assert_eq!(
        outcome.result,
        Err(RunError::Copy(CopyError::Io { source: path("s/b"), dest: path("d/b") }))
    );
    assert_eq!(outcome.total, Some(3));
    assert_eq!(outcome.ticks, 1);
    assert!(!outcome.finished);
    assert_eq!(disk.files["d/a"], "1");
    assert_eq!(disk.files["d/b"], "y");
    assert_eq!(disk.files["d/c"], "z");
}

#[test]
fn a_failed_job_stays_failed() {
    let mut job = Job::new(request("s", "d"));
    let failure = Action::Fail(RunError::Walk(WalkError::NotFound(path("s"))));
    assert_eq!(run(&mut job, Event::Root(RootKind::Missing)), failure);
    for event in [Event::Done, Event::Root(RootKind::File), Event::Listed(Vec::new())] {
        assert_eq!(run(&mut job, event), failure);
    }
    assert_eq!(job.action(), failure);
}

#[test]
fn empty_trees_give_an_empty_report() {
    let mut job = Job::new(request("s", "d"));
    run(&mut job, Event::Root(RootKind::Directory));
    run(&mut job, Event::Listed(Vec::new()));
    run(&mut job, Event::Root(RootKind::Directory));
    assert_eq!(run(&mut job, Event::Listed(Vec::new())), Action::SetTotal(0));
    assert_eq!(
        run(&mut job, Event::Done),
        Action::Finish(SyncReport { copied: 0, updated: 0, untouched: 0 })
    );
}

#[test]
fn roots_with_hidden_names_are_synchronised() {
    let mut disk = Disk::of(&[
        (".new/a.txt", "1"),
        (".new/.git/b.txt", "2"),
        (".old/a.txt", "x"),
        (".old/b.txt", "y"),
    ]);
    let outcome = carry_out(request(".new", ".old"), &mut disk);
    assert_eq!(outcome.result, Ok(SyncReport { copied: 1, updated: 1, untouched: 1 }));
    assert_eq!(outcome.listed, vec![".new", ".old"]);
    assert_eq!(disk.files[".old/a.txt"], "1");
    assert_eq!(disk.files[".old/b.txt"], "y");
}
