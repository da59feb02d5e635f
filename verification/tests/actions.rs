use std::collections::BTreeMap;
use tidyrs::actions::{
    execute, numbered_path, pick_folder_dir, undo, Abort, AbortCause, Execution, FsReply,
    FsRequest, UndoEntry, UndoLog, UndoReport,
};
use tidyrs::calendar::{days_to_ymd, format_timestamp};
use tidyrs::paths::FilePath;
use tidyrs::plan::{Action, Plan};

#[derive(Debug, Clone, PartialEq, Eq)]
enum Node {
    File { bytes: Vec<u8>, mtime: Option<i64> },
    Dir,
}

/// A file system in memory. Paths are absolute and written plainly.
#[derive(Debug, Clone, PartialEq, Eq)]
struct Disk {
    nodes: BTreeMap<String, Node>,
    broken: Vec<String>,
}

fn text(p: &FilePath) -> String {
    String::from_utf8(p.bytes.clone()).unwrap()
}

impl Disk {
    fn new() -> Disk {
        let mut nodes = BTreeMap::new();
        nodes.insert(String::from("/d"), Node::Dir);
        Disk { nodes, broken: Vec::new() }
    }

    fn write(&mut self, path: &str, bytes: &[u8]) -> FilePath {
        self.write_at(path, bytes, Some(1000))
    }

    fn write_at(&mut self, path: &str, bytes: &[u8], mtime: Option<i64>) -> FilePath {
        self.nodes.insert(String::from(path), Node::File { bytes: bytes.to_vec(), mtime });
        FilePath::new(path)
    }

    fn has(&self, path: &str) -> bool {
        self.nodes.contains_key(path)
    }

    fn take(&mut self, path: &str) -> Vec<(String, Node)> {
        let inside = format!("{path}/");
        let keys: Vec<String> = self
            .nodes
            .keys()
            .filter(|k| *k == path || k.starts_with(&inside))
            .cloned()
            .collect();
        keys.into_iter().map(|k| (k.clone(), self.nodes.remove(&k).unwrap())).collect()
    }

    fn holds(&self, path: &str) -> bool {
        match path.rsplit_once('/') {
            Some(("", _)) => true,
            Some((up, _)) => self.nodes.get(up) == Some(&Node::Dir),
            None => true,
        }
    }

    fn perform(&mut self, request: &FsRequest) -> FsReply {
        let failed = |what: &str| FsReply::Failed(String::from(what));
        match request {
            FsRequest::Mtime(p) => match self.nodes.get(&text(p)) {
                Some(Node::File { mtime, .. }) => FsReply::Time(*mtime),
                Some(Node::Dir) => FsReply::Time(Some(1)),
                None => FsReply::Time(None),
            },
            FsRequest::Exists(p) => FsReply::Found(self.has(&text(p))),
            FsRequest::Trash(p) => {
                if self.broken.contains(&text(p)) || self.take(&text(p)).is_empty() {
                    failed("cannot trash")
                } else {
                    FsReply::Done
                }
            }
            FsRequest::CreateDirs(p) => {
                if self.broken.contains(&text(p)) {
                    return failed("cannot create");
                }
                let mut at = String::new();
                for part in text(p).split('/').filter(|s| !s.is_empty()) {
                    at = format!("{at}/{part}");
                    self.nodes.entry(at.clone()).or_insert(Node::Dir);
                }
                FsReply::Done
            }
            FsRequest::Rename(p, q) => {
                let (from, to) = (text(p), text(q));
                if self.broken.contains(&from) || !self.has(&from) || !self.holds(&to) {
                    return failed("cannot move");
                }
                for (k, node) in self.take(&from) {
                    self.nodes.insert(format!("{to}{}", &k[from.len()..]), node);
                }
                FsReply::Done
            }
            FsRequest::ReadDir(p) => {
                let path = text(p);
                if self.broken.contains(&path) || self.nodes.get(&path) != Some(&Node::Dir) {
                    return failed("cannot read");
                }
                let inside = format!("{path}/");
                FsReply::Empty(!self.nodes.keys().any(|k| k.starts_with(&inside)))
            }
            FsRequest::RemoveDir(p) => {
                if self.broken.contains(&format!("{}!", text(p))) {
                    return failed("cannot remove");
                }
                self.nodes.remove(&text(p));
                FsReply::Done
            }
        }
    }

    fn run(&mut self, plan: &Plan) -> Result<UndoLog, Abort> {
        let mut run: Execution = execute(plan, 77);
        while let Some(request) = run.request() {
            let reply = self.perform(&request);
            assert!(run.accepts(&reply));
            run.answer(reply);
        }
        run.finish()
    }

    fn run_undo(&mut self, log: &UndoLog) -> Result<UndoReport, String> {
        let mut run = undo(log);
        while let Some(request) = run.request() {
            let reply = self.perform(&request);
            assert!(run.accepts(&reply));
            run.answer(reply);
        }
        run.finish()
    }
}

fn fold(name: &str, files: Vec<FilePath>) -> Plan {
    Plan {
        dry_run: false,
        actions: vec![Action::FoldIntoFolder { folder_name: String::from(name), files }],
    }
}

#[test]
fn dry_run_is_noop() {
    let mut d = Disk::new();
    let f = d.write("/d/a.txt", b"hello");
    let plan = Plan {
        dry_run: true,
        actions: vec![Action::KeepOne { keep: FilePath::new("/dev/null"), trash: vec![f] }],
    };
    let log = d.run(&plan).unwrap();
    assert!(log.entries.is_empty());
    assert!(d.has("/d/a.txt"));
}

#[test]
fn fold_into_folder_moves_files() {
    let mut d = Disk::new();
    let a = d.write("/d/trip_1.jpg", b"a");
    let b = d.write("/d/trip_2.jpg", b"b");
    let c = d.write("/d/trip_3.jpg", b"c");
    let log = d.run(&fold("trip", vec![a, b, c])).unwrap();
    assert_eq!(d.nodes.get("/d/trip"), Some(&Node::Dir));
    assert!(d.has("/d/trip/trip_1.jpg"));
    assert!(d.has("/d/trip/trip_2.jpg"));
    assert!(d.has("/d/trip/trip_3.jpg"));
    assert!(!d.has("/d/trip_1.jpg"));
    // CreatedDir + 3 Moved
    assert_eq!(log.entries.len(), 4);
    assert_eq!(log.created_at, 77);
}

#[test]
fn fold_handles_name_collision() {
    let mut d = Disk::new();
    d.nodes.insert(String::from("/d/trip"), Node::Dir);
    d.write("/d/trip/photo.jpg", b"original");
    let incoming = d.write("/d/photo.jpg", b"incoming");
    d.run(&fold("trip", vec![incoming])).unwrap();
    assert!(d.has("/d/trip/photo.jpg"));
    assert_eq!(
        d.nodes.get("/d/trip/photo.jpg"),
        Some(&Node::File { bytes: b"original".to_vec(), mtime: Some(1000) })
    );
    assert!(d.has("/d/trip/photo_1.jpg"));
}

#[test]
fn undo_reverses_moves() {
    let mut d = Disk::new();
    let a = d.write("/d/trip_1.jpg", b"a");
    let b = d.write("/d/trip_2.jpg", b"b");
    let log = d.run(&fold("trip", vec![a, b])).unwrap();
    assert!(!d.has("/d/trip_1.jpg"));

    let report = d.run_undo(&log).unwrap();
    assert!(d.has("/d/trip_1.jpg"));
    assert!(d.has("/d/trip_2.jpg"));
    assert!(!d.has("/d/trip"));
    assert!(report.reversed >= 2);
}

#[test]
fn undo_skips_modified_file() {
    let mut d = Disk::new();
    let a = d.write("/d/trip_1.jpg", b"original");
    let log = d.run(&fold("trip", vec![a])).unwrap();
    // change after the move so mtime no longer matches
    d.write_at("/d/trip/trip_1.jpg", b"changed!", Some(1001));

    let report = d.run_undo(&log).unwrap();
    assert!(!report.skipped_modified.is_empty());
    assert!(d.has("/d/trip/trip_1.jpg"));
    assert!(!d.has("/d/trip_1.jpg"));
    assert_eq!(report.skipped_modified, vec![FilePath::new("/d/trip/trip_1.jpg")]);
    assert_eq!(
        report.skipped_other,
        vec![(FilePath::new("/d/trip"), String::from("dir not empty"))]
    );
}

#[test]
fn timestamp_format_is_yyyymmdd_hhmmss() {
    // 2023-11-14 22:13:20 UTC = 1700000000
    let s = format_timestamp(1_700_000_000);
    assert_eq!(s, "20231114-221320");
}

#[test]
fn plan_executes_and_undoes() {
    let mut d = Disk::new();
    let orig = d.write("/d/orig.bin", b"keep me");
    let dup1 = d.write("/d/dup1.bin", b"keep me");
    let dup2 = d.write("/d/dup2.bin", b"keep me");
    let folded_a = d.write("/d/a.txt", b"alpha");
    let folded_b = d.write("/d/b.txt", b"beta");

    // Build a plan with both action kinds
    let plan = Plan {
        dry_run: false,
        actions: vec![
            Action::KeepOne { keep: orig, trash: vec![dup1, dup2] },
            Action::FoldIntoFolder {
                folder_name: "letters".to_string(),
                files: vec![folded_a, folded_b],
            },
        ],
    };

    // Execute
    let log = d.run(&plan).unwrap();

    // Verify side effects
    assert!(d.has("/d/orig.bin"), "kept file should remain");
    assert!(!d.has("/d/dup1.bin"), "dup1 should be trashed");
    assert!(!d.has("/d/dup2.bin"), "dup2 should be trashed");
    assert_eq!(d.nodes.get("/d/letters"), Some(&Node::Dir), "letters folder created");
    assert!(d.has("/d/letters/a.txt"), "a.txt moved");
    assert!(d.has("/d/letters/b.txt"), "b.txt moved");
    assert!(!d.has("/d/a.txt"), "original a.txt gone");

    // Undo log has entries for trash + folder + moves
    assert!(log.entries.len() >= 4);

    // Undo (only reverses moves and dir creation; trash restore is best-effort/skipped)
    let report = d.run_undo(&log).unwrap();
    assert!(report.reversed >= 2, "should reverse at least 2 moves");
    assert!(d.has("/d/a.txt"), "a.txt restored to original location");
    assert!(d.has("/d/b.txt"), "b.txt restored to original location");
    assert!(!d.has("/d/letters"), "letters folder removed");

    // The trash entries are reported as skipped_other (not auto-restored)
    assert_eq!(report.skipped_other.len(), 2);
}

#[test]
fn dry_run_makes_no_changes() {
    let mut d = Disk::new();
    let f = d.write("/d/file.txt", b"hi");
    let plan = Plan {
        dry_run: true,
        actions: vec![Action::KeepOne { keep: FilePath::new("/nope"), trash: vec![f] }],
    };
    let log = d.run(&plan).unwrap();
    assert!(log.entries.is_empty(), "dry run should record nothing");
    assert!(d.has("/d/file.txt"), "file should still be there");
}

#[test]
fn undo_restores_all_but_the_trash() {
    let mut d = Disk::new();
    let a = d.write("/d/a.txt", b"a");
    let b = d.write_at("/d/b.txt", b"b", Some(-5));
    let gone = d.write("/d/gone.bin", b"x");
    let mut expected = d.clone();
    expected.take("/d/gone.bin");
    let plan = Plan {
        dry_run: false,
        actions: vec![
            Action::FoldIntoFolder { folder_name: String::from("f"), files: vec![a, b] },
            Action::Ignore,
            Action::DeleteAll { trash: vec![gone] },
        ],
    };
    let log = d.run(&plan).unwrap();
    assert_eq!(log.entries.len(), 4);
    let report = d.run_undo(&log).unwrap();
    assert_eq!(d, expected);
    assert_eq!(report.reversed, 3);
    assert!(report.skipped_modified.is_empty());
    assert_eq!(
        report.skipped_other,
        vec![(
            FilePath::new("/d/gone.bin"),
            String::from("trash restore not implemented")
        )]
    );
}

#[test]
fn taken_names_are_numbered_on() {
    let mut d = Disk::new();
    d.nodes.insert(String::from("/d/t"), Node::Dir);
    d.write("/d/t/n.tar.gz", b"0");
    d.write("/d/t/n.tar_1.gz", b"1");
    d.write("/d/t/n.tar_2.gz", b"2");
    let f = d.write("/d/n.tar.gz", b"new");
    let log = d.run(&fold("t", vec![f])).unwrap();
    assert!(d.has("/d/t/n.tar_3.gz"));
    match &log.entries[..] {
        [UndoEntry::Moved { from, to, mtime }] => {
            assert_eq!(from, &FilePath::new("/d/n.tar.gz"));
            assert_eq!(to, &FilePath::new("/d/t/n.tar_3.gz"));
            assert_eq!(*mtime, 1000);
        }
        other => panic!("unexpected log: {other:?}"),
    }
}

#[test]
fn numbers_go_behind_the_stem() {
    let numbered = |p: &str, n: u64| text(&numbered_path(&FilePath::new(p), n));
    assert_eq!(numbered("/a/photo.jpg", 1), "/a/photo_1.jpg");
    assert_eq!(numbered("/a/README", 12), "/a/README_12");
    assert_eq!(numbered("/a/.hidden", 3), "/a/.hidden_3");
    assert_eq!(numbered("plain.txt", 2), "plain_2.txt");
    assert_eq!(numbered("/", 1), "./_1");
    let odd = FilePath::from_bytes(b"/a/x\xff.b\xfe");
    assert_eq!(text(&numbered_path(&odd, 1)), "/a/x\u{fffd}_1.b\u{fffd}");
}

#[test]
fn folders_stand_beside_the_first_file() {
    let name = String::from("trip");
    let files = vec![FilePath::new("/d/x/a.jpg"), FilePath::new("/e/b.jpg")];
    assert_eq!(pick_folder_dir(&files, &name), Some(FilePath::new("/d/x/trip")));
    assert_eq!(pick_folder_dir(&vec![], &name), None);
    assert_eq!(pick_folder_dir(&vec![FilePath::new("/")], &name), None);
}

fn cause(r: Result<UndoLog, Abort>) -> (usize, AbortCause) {
    match r {
        Err(a) => (a.action, a.cause),
        Ok(log) => panic!("no abort: {log:?}"),
    }
}

#[test]
fn a_failed_trash_aborts() {
    let mut d = Disk::new();
    let f = d.write("/d/f", b"f");
    let plan = Plan {
        dry_run: false,
        actions: vec![
            Action::Ignore,
            Action::KeepOne { keep: FilePath::new("/d/k"), trash: vec![FilePath::new("/d/no"), f] },
        ],
    };
    match cause(d.run(&plan)) {
        (1, AbortCause::Trash { path, message }) => {
            assert_eq!(path, FilePath::new("/d/no"));
            assert_eq!(message, "cannot trash");
        }
        other => panic!("unexpected: {other:?}"),
    }
    assert!(d.has("/d/f"));
}

#[test]
fn a_failed_mkdir_aborts() {
    let mut d = Disk::new();
    let f = d.write("/d/f", b"f");
    d.broken.push(String::from("/d/t"));
    match cause(d.run(&fold("t", vec![f]))) {
        (0, AbortCause::Mkdir { path, message }) => {
            assert_eq!(path, FilePath::new("/d/t"));
            assert_eq!(message, "cannot create");
        }
        other => panic!("unexpected: {other:?}"),
    }
}

#[test]
fn a_failed_move_aborts() {
    let mut d = Disk::new();
    let f = d.write("/d/f", b"f");
    d.broken.push(String::from("/d/f"));
    match cause(d.run(&fold("t", vec![f]))) {
        (0, AbortCause::Move { from, to, message }) => {
            assert_eq!(from, FilePath::new("/d/f"));
            assert_eq!(to, FilePath::new("/d/t/f"));
            assert_eq!(message, "cannot move");
        }
        other => panic!("unexpected: {other:?}"),
    }
}

#[test]
fn nothing_to_fold_aborts() {
    let mut d = Disk::new();
    assert!(matches!(cause(d.run(&fold("t", vec![]))), (0, AbortCause::NoParent)));
}

#[test]
fn a_path_without_a_name_aborts() {
    let mut d = Disk::new();
    let f = d.write("/d/f", b"f");
    match cause(d.run(&fold("t", vec![f, FilePath::new("/d/..")]))) {
        (0, AbortCause::NoFileName { path }) => assert_eq!(path, FilePath::new("/d/..")),
        other => panic!("unexpected: {other:?}"),
    }
    assert!(d.has("/d/t/f"));
}

#[test]
fn undo_reports_what_is_missing_or_cannot_be_moved() {
    let mut d = Disk::new();
    let log = UndoLog {
        created_at: 1,
        entries: vec![
            UndoEntry::Moved { from: FilePath::new("/d/a"), to: FilePath::new("/d/b"), mtime: 5 },
            UndoEntry::Moved { from: FilePath::new("/d/x"), to: FilePath::new("/d/y"), mtime: 1000 },
        ],
    };
    d.write("/d/y", b"y");
    d.broken.push(String::from("/d/y"));
    let report = d.run_undo(&log).unwrap();
    assert_eq!(report.reversed, 0);
    assert_eq!(
        report.skipped_other,
        vec![
            (FilePath::new("/d/y"), String::from("cannot move")),
            (FilePath::new("/d/b"), String::from("missing")),
        ]
    );
}

#[test]
fn undo_ends_where_a_directory_cannot_be_read() {
    let mut d = Disk::new();
    d.nodes.insert(String::from("/d/t"), Node::Dir);
    d.broken.push(String::from("/d/t"));
    let log = UndoLog {
        created_at: 1,
        entries: vec![UndoEntry::CreatedDir { path: FilePath::new("/d/t") }],
    };
    match d.run_undo(&log) {
        Err(e) => assert_eq!(e, "cannot read"),
        Ok(r) => panic!("unexpected: {r:?}"),
    }
}

#[test]
fn undo_passes_over_directories_that_are_gone_or_stay() {
    let mut d = Disk::new();
    d.nodes.insert(String::from("/d/t"), Node::Dir);
    d.broken.push(String::from("/d/t!"));
    let log = UndoLog {
        created_at: 1,
        entries: vec![
            UndoEntry::CreatedDir { path: FilePath::new("/d/t") },
            UndoEntry::CreatedDir { path: FilePath::new("/d/u") },
        ],
    };
    let report = d.run_undo(&log).unwrap();
    assert_eq!(report.reversed, 0);
    assert!(report.skipped_other.is_empty());
    assert!(d.has("/d/t"));
}

#[test]
fn replies_of_the_wrong_kind_are_not_accepted() {
    let plan = fold("t", vec![FilePath::new("/d/f")]);
    let run = execute(&plan, 0);
    assert!(run.accepts(&FsReply::Found(true)));
    assert!(!run.accepts(&FsReply::Done));
    assert!(!run.accepts(&FsReply::Time(None)));
    assert!(!undo(&UndoLog::new(0)).accepts(&FsReply::Done));
}

#[test]
fn logs_are_named_by_their_time() {
    assert_eq!(UndoLog::new(1_700_000_000).file_name(), "undo-20231114-221320.json");
}

#[test]
fn times_around_the_epoch_and_far_off() {
    assert_eq!(format_timestamp(0), "19700101-000000");
    assert_eq!(format_timestamp(951_782_400), "20000229-000000");
    // days are rounded toward zero
    assert_eq!(format_timestamp(-1), "19700101-235959");
    assert_eq!(format_timestamp(-86_400), "19691231-000000");
    assert_eq!(format_timestamp(-62_198_755_200), "-0010101-000000");
    assert_eq!(days_to_ymd(-719_468), (0, 3, 1));
    assert_eq!(days_to_ymd(19_675), (2023, 11, 14));
    assert_eq!(days_to_ymd(11_016), (2000, 2, 29));
    assert_eq!(days_to_ymd(11_017), (2000, 3, 1));
}

#[test]
fn log_names_sort_by_time() {
    let times: [i64; 9] = [
        0,
        1,
        59,
        60,
        3_599,
        86_399,
        86_400,
        1_700_000_000,
        253_402_300_799,
    ];
    let names: Vec<String> = times.iter().map(|t| UndoLog::new(*t).file_name()).collect();
    for pair in names.windows(2) {
        assert!(pair[0] < pair[1]);
    }
    assert_eq!(names[0], "undo-19700101-000000.json");
    assert_eq!(names[8], "undo-99991231-235959.json");
    for t in times {
        let stamp = format_timestamp(t);
        assert_eq!(stamp.len(), 15);
        for (i, c) in stamp.chars().enumerate() {
            assert!(if i == 8 { c == '-' } else { c.is_ascii_digit() });
        }
    }
}

#[test]
fn folding_is_undone_with_the_contents() {
    let mut d = Disk::new();
    d.nodes.insert(String::from("/d/old"), Node::Dir);
    d.write("/d/old/a.txt", b"there before");
    let a = d.write_at("/d/a.txt", b"first", Some(5));
    let b = d.write_at("/d/b.txt", b"second", Some(6));
    let c = d.write_at("/d/c.txt", b"third", Some(7));
    let before = d.clone();
    let plan = Plan {
        dry_run: false,
        actions: vec![
            Action::FoldIntoFolder { folder_name: String::from("new"), files: vec![b, c] },
            Action::FoldIntoFolder { folder_name: String::from("old"), files: vec![a] },
        ],
    };
    let log = d.run(&plan).unwrap();
    assert_ne!(d, before);
    assert!(d.has("/d/old/a_1.txt"));
    let report = d.run_undo(&log).unwrap();
    assert_eq!(d, before);
    assert_eq!(report.reversed, log.entries.len());
    assert!(report.skipped_modified.is_empty());
    assert!(report.skipped_other.is_empty());
}
