use tidyrs::dedup::DupGroup;
use tidyrs::dirdup::{DirDup, DirEntry};
use tidyrs::paths::FilePath;
use tidyrs::plan::{Action, Group, GroupFile, GroupKind};
use tidyrs::report::{build, reclaimable_bytes, total_reclaimable};
use tidyrs::walker::FileEntry;

fn dup(hash_byte: u8, size: u64, paths: Vec<&str>) -> DupGroup {
    let files: Vec<FileEntry> = paths
        .iter()
        .map(|p| FileEntry { path: FilePath::new(p), size, mtime: 0 })
        .collect();
    let keep = files[0].path.clone();
    let trash = files[1..].iter().map(|f| f.path.clone()).collect();
    DupGroup { hash: [hash_byte; 32], files, keep, trash }
}

#[test]
fn dup_group_becomes_duplicate_kind() {
    let groups = build(vec![dup(0xab, 100, vec!["/a/x.txt", "/a/y.txt"])], vec![]);
    assert_eq!(groups.len(), 1);
    assert_eq!(groups[0].kind, GroupKind::Duplicate);
    assert!(groups[0].label.starts_with("hash:"));
    assert_eq!(groups[0].files.len(), 2);
}

#[test]
fn suggested_action_is_keep_one() {
    let groups = build(vec![dup(0x01, 100, vec!["/a/x.txt", "/a/y.txt"])], vec![]);
    match &groups[0].suggested {
        Action::KeepOne { keep, trash } => {
            assert_eq!(keep, &FilePath::new("/a/x.txt"));
            assert_eq!(trash.len(), 1);
        }
        other => panic!("unexpected action: {other:?}"),
    }
}

#[test]
fn sorted_by_reclaimable_desc() {
    let small = dup(0x01, 10, vec!["/a/s1", "/a/s2"]); // reclaim 10
    let big = dup(0x02, 1000, vec!["/a/b1", "/a/b2"]); // reclaim 1000
    let groups = build(vec![small, big], vec![]);
    assert_eq!(groups[0].label, format!("hash:{}", "02".repeat(6)));
    assert!(reclaimable_bytes(&groups[0]) > reclaimable_bytes(&groups[1]));
}

#[test]
fn reclaimable_counts_trash_only() {
    let groups = build(vec![dup(0x01, 100, vec!["/a", "/b", "/c"])], vec![]);
    // 3 files, keep 1, trash 2 → reclaim = 200
    assert_eq!(reclaimable_bytes(&groups[0]), 200);
}

fn dirs(hash_byte: u8, size: u64, paths: Vec<&str>) -> DirDup {
    let dirs: Vec<DirEntry> = paths
        .iter()
        .map(|p| DirEntry { path: FilePath::new(p), file_count: 2, total_size: size })
        .collect();
    let keep = dirs[0].path.clone();
    let trash = dirs[1..].iter().map(|d| d.path.clone()).collect();
    DirDup { hash: [hash_byte; 32], dirs, keep, trash }
}

#[test]
fn directories_are_labelled_and_mixed_in_by_size() {
    let groups = build(
        vec![dup(0x01, 10, vec!["/a", "/b"]), dup(0x02, 500, vec!["/c", "/d"])],
        vec![dirs(0xfe, 100, vec!["/x", "/y"])],
    );
    let labels: Vec<&str> = groups.iter().map(|g| g.label.as_str()).collect();
    assert_eq!(labels, vec!["hash:020202020202", "dir:fefefefefefe", "hash:010101010101"]);
    assert_eq!(groups[1].kind, GroupKind::DuplicateDir);
    assert_eq!(groups[1].files[1].path, FilePath::new("/y"));
    assert_eq!(groups[1].files[1].size, 100);
    assert_eq!(total_reclaimable(&groups), Some(610));
}

#[test]
fn groups_that_free_the_same_keep_their_order() {
    let groups = build(
        vec![dup(0x0a, 7, vec!["/a", "/b"]), dup(0x0b, 7, vec!["/c", "/d"])],
        vec![dirs(0x0c, 7, vec!["/x", "/y"])],
    );
    let labels: Vec<&str> = groups.iter().map(|g| g.label.as_str()).collect();
    assert_eq!(labels, vec!["hash:0a0a0a0a0a0a", "hash:0b0b0b0b0b0b", "dir:0c0c0c0c0c0c"]);
}

#[test]
fn other_actions_free_what_they_trash() {
    let file = GroupFile { path: FilePath::new("/a"), size: 40 };
    let mut g = Group {
        kind: GroupKind::NameCluster,
        files: vec![file.clone(), file],
        label: String::from("x"),
        suggested: Action::Ignore,
    };
    assert_eq!(reclaimable_bytes(&g), 0);
    g.suggested = Action::FoldIntoFolder {
        folder_name: String::from("f"),
        files: vec![FilePath::new("/a")],
    };
    assert_eq!(reclaimable_bytes(&g), 0);
    g.suggested = Action::DeleteAll { trash: vec![FilePath::new("/a"), FilePath::new("/b")] };
    assert_eq!(reclaimable_bytes(&g), 80);
    g.files.clear();
    assert_eq!(reclaimable_bytes(&g), 0);
}

#[test]
fn a_total_that_does_not_fit_is_none() {
    let big = dup(0x01, u64::MAX, vec!["/a", "/b"]);
    let small = dup(0x02, 1, vec!["/c", "/d"]);
    let groups = build(vec![big, small], vec![]);
    assert_eq!(total_reclaimable(&groups), None);
}
