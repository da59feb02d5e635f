use ignore::gitignore::GitignoreBuilder;
use tidyrs::paths::FilePath;
use tidyrs::walker::{
    visits, walk, walk_flags, walk_with, FileEntry, RootStatus, Seen, WalkError, WalkOpts,
};

fn opts() -> WalkOpts {
    WalkOpts {
        root: FilePath::new("/d"),
        min_size: 0,
        include_hidden: false,
        use_gitignore: false,
    }
}

fn seen(rel: &str, size: u64) -> Seen {
    Seen::File {
        size,
        modified: Some(0),
        path: Some(FilePath::new("/d").join(rel.as_bytes())),
    }
}

/// Meets the files of a tree as the settings and names allow.
fn meet(opts: &WalkOpts, files: &[(&str, u64)]) -> Vec<Seen> {
    let flags = walk_flags(opts);
    files
        .iter()
        .filter(|(rel, _)| {
            rel.split('/').all(|name| {
                visits(name.as_bytes()) && !(flags.hidden && name.starts_with('.'))
            })
        })
        .map(|(rel, size)| seen(rel, *size))
        .collect()
}

fn found(opts: &WalkOpts, files: &[(&str, u64)]) -> Vec<FileEntry> {
    walk(opts, RootStatus::Directory, meet(opts, files)).unwrap()
}

fn name(e: &FileEntry) -> Vec<u8> {
    e.path.file_name().unwrap()
}

#[test]
fn finds_regular_files() {
    let entries = found(&opts(), &[("a.txt", 5), ("sub/b.txt", 5)]);
    assert_eq!(entries.len(), 2);
}

#[test]
fn skips_under_min_size() {
    let mut o = opts();
    o.min_size = 1024;
    let entries = found(&o, &[("small.txt", 1), ("big.txt", 2048)]);
    assert_eq!(entries.len(), 1);
    assert_eq!(name(&entries[0]), b"big.txt".to_vec());
}

#[test]
fn skips_hidden_by_default() {
    let entries = found(&opts(), &[(".secret", 10), ("visible.txt", 10)]);
    assert_eq!(entries.len(), 1);
    assert_eq!(name(&entries[0]), b"visible.txt".to_vec());
}

#[test]
fn includes_hidden_when_flagged() {
    let mut o = opts();
    o.include_hidden = true;
    let entries = found(&o, &[(".secret", 10), ("visible.txt", 10)]);
    assert_eq!(entries.len(), 2);
}

#[test]
fn always_skips_dot_git() {
    let mut o = opts();
    o.include_hidden = true;
    let entries = found(&o, &[(".git/config", 15), ("real.txt", 14)]);
    assert_eq!(entries.len(), 1);
    assert_eq!(name(&entries[0]), b"real.txt".to_vec());
}

#[test]
fn respects_nested_gitignore_outside_git_repo() {
    // Simulate ~/Downloads/some-project/{.gitignore, target/build.bin}
    // The outer dir is NOT a git repo, but the project's .gitignore
    // should still cause `target/` to be skipped.
    let mut o = opts();
    o.use_gitignore = true;
    let flags = walk_flags(&o);
    assert!(flags.git_ignore && flags.parents && !flags.require_git);
    let mut builder = GitignoreBuilder::new("/d/project");
    builder.add_line(None, "target/").unwrap();
    let rules = builder.build().unwrap();
    let files: Vec<(&str, u64)> = [("project/src/main.rs", 2048), ("project/target/build.bin", 2048)]
        .into_iter()
        .filter(|(rel, _)| {
            !rules.matched_path_or_any_parents(format!("/d/{rel}"), false).is_ignore()
        })
        .collect();
    let entries = found(&o, &files);
    assert!(
        entries.iter().any(|e| name(e) == b"main.rs".to_vec()),
        "main.rs should be found"
    );
    assert!(
        !entries.iter().any(|e| String::from_utf8_lossy(&e.path.bytes).contains("target/")),
        "target/ should be filtered by nested .gitignore: {entries:?}"
    );
}

#[test]
fn errors_on_non_directory_root() {
    let o = WalkOpts { root: FilePath::new("/d/file.txt"), ..Default::default() };
    assert!(walk(&o, RootStatus::NotDirectory, vec![]).is_err());
}

#[test]
fn each_root_has_its_error() {
    let r = walk(&opts(), RootStatus::NotDirectory, vec![]);
    assert_eq!(r.unwrap_err(), WalkError::NotDirectory);
    let r = walk(&opts(), RootStatus::Unresolved, vec![]);
    assert_eq!(r.unwrap_err(), WalkError::Unresolved);
}

#[test]
fn only_readable_files_with_a_path_are_kept() {
    let met = vec![
        Seen::Unreadable,
        Seen::Other,
        Seen::NoMetadata,
        Seen::File { size: 9, modified: Some(1), path: None },
        Seen::File { size: 9, modified: None, path: Some(FilePath::new("/d/x")) },
        Seen::File { size: 9, modified: Some(123), path: Some(FilePath::new("/d/y")) },
    ];
    let entries = walk(&opts(), RootStatus::Directory, met).unwrap();
    assert_eq!(entries.len(), 2);
    assert_eq!(entries[0].mtime, 0);
    assert_eq!(entries[1].mtime, 123);
    assert_eq!(entries[1].size, 9);
}

#[test]
fn counts_are_reported_every_five_hundred_files() {
    let met: Vec<Seen> = (0..1001u64).map(|i| seen("f", i)).collect();
    let (entries, reports) = walk_with(&opts(), RootStatus::Directory, met).unwrap();
    assert_eq!(entries.len(), 1001);
    assert_eq!(reports, vec![500, 1000, 1001]);
    let (_, reports) = walk_with(&opts(), RootStatus::Directory, vec![]).unwrap();
    assert_eq!(reports, vec![0]);
}

#[test]
fn the_defaults_skip_small_and_hidden_files() {
    let o = WalkOpts::default();
    assert_eq!(o.min_size, 1024);
    let flags = walk_flags(&o);
    assert!(flags.hidden && flags.git_ignore && flags.git_global && flags.git_exclude);
    assert!(!flags.follow_links);
    assert_eq!(o.root, FilePath::new("."));
    assert!(!visits(b".git"));
    assert!(visits(b".github"));
}
