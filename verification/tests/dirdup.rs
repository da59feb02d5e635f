use tidyrs::dirdup::{
    drop_nested_duplicates, find_duplicate_dirs, pick_keeper_dir, try_find_duplicate_dirs, DirDup,
    DirEntry,
};
use tidyrs::dedup::hash_candidates;
use tidyrs::dirs::{ancestors_up_to, check_dir_sizes, dir_hash_candidates, files_to_hash};
use tidyrs::hashing::ContentHasher;
use tidyrs::paths::FilePath;
use tidyrs::walker::FileEntry;

struct File {
    entry: FileEntry,
    bytes: Vec<u8>,
}

fn write(rel: &str, bytes: &[u8]) -> File {
    let path = FilePath::new("/root").join(rel.as_bytes());
    File { entry: FileEntry { path, size: bytes.len() as u64, mtime: 0 }, bytes: bytes.to_vec() }
}

fn digest(bytes: &[u8]) -> [u8; 32] {
    let mut h = ContentHasher::new();
    h.update(bytes);
    h.finish()
}

fn hash_all(files: &[File]) -> (Vec<FileEntry>, Vec<Option<[u8; 32]>>) {
    let root = FilePath::new("/root");
    let entries: Vec<FileEntry> = files.iter().map(|f| f.entry.clone()).collect();
    let mut hashes: Vec<Option<[u8; 32]>> = vec![None; entries.len()];
    for i in dir_hash_candidates(&root, &entries) {
        hashes[i] = Some(digest(&files[i].bytes));
    }
    (entries, hashes)
}

fn find(files: &[File]) -> Vec<DirDup> {
    let root = FilePath::new("/root");
    let (entries, hashes) = hash_all(files);
    find_duplicate_dirs(&root, &entries, &hashes)
}

fn names(g: &DirDup) -> Vec<String> {
    g.dirs.iter().map(|d| String::from_utf8(d.path.file_name().unwrap()).unwrap()).collect()
}

#[test]
fn finds_two_identical_subdirs() {
    let entries = [
        write("a/file1.txt", b"content one"),
        write("a/file2.txt", b"content two"),
        write("b/file1.txt", b"content one"),
        write("b/file2.txt", b"content two"),
    ];
    let groups = find(&entries);
    assert_eq!(groups.len(), 1);
    let g = &groups[0];
    assert_eq!(g.dirs.len(), 2);
    let dir_names = names(g);
    assert!(dir_names.contains(&"a".to_string()));
    assert!(dir_names.contains(&"b".to_string()));
}

#[test]
fn ignores_subdirs_with_different_content() {
    let entries = [
        write("a/file1.txt", b"AAAAA"),
        write("a/file2.txt", b"BBBBB"),
        // b has different content but same file count / total size
        write("b/file1.txt", b"CCCCC"),
        write("b/file2.txt", b"DDDDD"),
    ];
    let groups = find(&entries);
    assert!(groups.is_empty());
}

#[test]
fn ignores_dirs_with_different_filenames() {
    let entries = [
        write("a/file1.txt", b"hello world"),
        write("a/file2.txt", b"more content"),
        // same content but renamed → different dir hash
        write("b/renamed1.txt", b"hello world"),
        write("b/renamed2.txt", b"more content"),
    ];
    let groups = find(&entries);
    assert!(groups.is_empty());
}

#[test]
fn does_not_flag_root() {
    let entries = [write("a.txt", b"hello"), write("b.txt", b"world")];
    let groups = find(&entries);
    assert!(groups.is_empty());
}

#[test]
fn drops_nested_duplicates() {
    // two parallel trees with identical structure. The grandparent + child are both dup.
    let entries = [
        write("a/sub/x.txt", b"data"),
        write("a/sub/y.txt", b"data2"),
        write("b/sub/x.txt", b"data"),
        write("b/sub/y.txt", b"data2"),
    ];
    let groups = find(&entries);
    // Should only report the top-level a/b duplicates, not a/sub vs b/sub
    assert_eq!(groups.len(), 1);
    let dir_names = names(&groups[0]);
    assert!(dir_names.contains(&"a".to_string()));
    assert!(dir_names.contains(&"b".to_string()));
}

#[test]
fn keeper_is_shallowest() {
    let entries = [
        write("shallow/a.txt", b"content"),
        write("shallow/b.txt", b"more content"),
        write("x/y/z/deep/a.txt", b"content"),
        write("x/y/z/deep/b.txt", b"more content"),
    ];
    let groups = find(&entries);
    assert_eq!(groups.len(), 1);
    assert_eq!(groups[0].keep.file_name().unwrap(), b"shallow".to_vec());
}

#[test]
fn skips_dirs_with_only_one_file() {
    let entries = [write("a/only.txt", b"single"), write("b/only.txt", b"single")];
    let groups = find(&entries);
    // one-file dirs are skipped (would just be regular dup detection)
    assert!(groups.is_empty());
}

#[test]
fn the_digest_is_that_of_the_sorted_manifest() {
    let entries = [
        write("a/z.txt", b"zz"),
        write("a/b/c.txt", b"c"),
        write("n/z.txt", b"zz"),
        write("n/b/c.txt", b"c"),
    ];
    let groups = find(&entries);
    assert_eq!(groups.len(), 1);
    let mut text: Vec<u8> = Vec::new();
    text.extend_from_slice(b"b/c.txt\0");
    text.extend_from_slice(&digest(b"c"));
    text.extend_from_slice(b"z.txt\0");
    text.extend_from_slice(&digest(b"zz"));
    assert_eq!(groups[0].hash, *blake3::hash(&text).as_bytes());
    assert_eq!(groups[0].dirs[0].file_count, 2);
    assert_eq!(groups[0].dirs[0].total_size, 3);
    assert_eq!(groups[0].reclaimable_bytes(), 3);
}

#[test]
fn names_that_are_not_text_are_replaced_in_the_manifest() {
    let file = |path: &[u8]| FileEntry { path: FilePath::from_bytes(path), size: 4, mtime: 0 };
    let entries = vec![
        file(b"/root/a/\xff"),
        file(b"/root/a/x"),
        file(b"/root/b/\xff"),
        file(b"/root/b/x"),
    ];
    let h = [3u8; 32];
    let root = FilePath::new("/root");
    let groups = find_duplicate_dirs(&root, &entries, &vec![Some(h); 4]);
    assert_eq!(groups.len(), 1);
    let mut text: Vec<u8> = Vec::new();
    text.extend_from_slice(b"x\0");
    text.extend_from_slice(&h);
    text.extend_from_slice("\u{fffd}\0".as_bytes());
    text.extend_from_slice(&h);
    assert_eq!(groups[0].hash, *blake3::hash(&text).as_bytes());
}

#[test]
fn a_file_without_a_digest_takes_its_directory_out() {
    let files = [
        write("a/1", b"one"),
        write("a/2", b"two"),
        write("b/1", b"one"),
        write("b/2", b"two"),
    ];
    let (entries, mut hashes) = hash_all(&files);
    hashes[3] = None;
    assert!(find_duplicate_dirs(&FilePath::new("/root"), &entries, &hashes).is_empty());
}

#[test]
fn only_files_in_lookalike_directories_are_hashed() {
    let root = FilePath::new("/root");
    let files = [
        write("a/1", b"one"),
        write("top.txt", b"x"),
        write("a/2", b"two"),
        write("b/1", b"six"),
        write("b/2", b"ten"),
        write("c/1", b"longer"),
        write("c/2", b"files"),
    ];
    let entries: Vec<FileEntry> = files.iter().map(|f| f.entry.clone()).collect();
    assert_eq!(dir_hash_candidates(&root, &entries), vec![0, 2, 3, 4]);
    assert!(dir_hash_candidates(&root, &vec![]).is_empty());
}

#[test]
fn ancestors_end_below_the_root() {
    let up = |p: &str, r: &str| ancestors_up_to(&FilePath::new(p), &FilePath::new(r));
    assert_eq!(
        up("/root/a/b/f", "/root"),
        vec![FilePath::new("/root/a/b"), FilePath::new("/root/a")]
    );
    assert!(up("/root/f", "/root").is_empty());
    assert_eq!(
        up("/x/f", "/root"),
        vec![FilePath::new("/x"), FilePath::new("/")]
    );
}

fn group(hash: u8, size: u64, paths: &[&str]) -> DirDup {
    let dirs: Vec<DirEntry> = paths
        .iter()
        .map(|p| DirEntry { path: FilePath::new(p), file_count: 2, total_size: size })
        .collect();
    let (keep, trash) = pick_keeper_dir(&dirs);
    DirDup { hash: [hash; 32], dirs, keep, trash }
}

#[test]
fn a_group_stays_if_one_directory_is_not_nested() {
    let kept = drop_nested_duplicates(vec![
        group(1, 9, &["/a", "/b"]),
        group(2, 5, &["/a/s", "/b/s"]),
        group(3, 5, &["/a/t", "/c/t"]),
    ]);
    let hashes: Vec<u8> = kept.iter().map(|g| g.hash[0]).collect();
    assert_eq!(hashes, vec![1, 3]);
}

#[test]
fn keeper_directories_go_by_depth_and_path() {
    let g = group(1, 4, &["/m/b", "/k", "/j"]);
    assert_eq!(g.keep, FilePath::new("/j"));
    assert_eq!(g.trash, vec![FilePath::new("/m/b"), FilePath::new("/k")]);
    assert_eq!(g.reclaimable_bytes(), 8);
}

#[test]
fn groups_of_directories_come_by_what_they_free() {
    let files = [
        write("s1/1", b"a"),
        write("s1/2", b"b"),
        write("s2/1", b"a"),
        write("s2/2", b"b"),
        write("l1/1", b"aaaa"),
        write("l1/2", b"bbbb"),
        write("l2/1", b"aaaa"),
        write("l2/2", b"bbbb"),
    ];
    let root = FilePath::new("/root");
    let (entries, hashes) = hash_all(&files);
    let groups = try_find_duplicate_dirs(&root, &entries, &hashes).unwrap();
    let sizes: Vec<u64> = groups.iter().map(|g| g.reclaimable_bytes()).collect();
    assert_eq!(sizes, vec![8, 2]);
}

#[test]
fn directory_sizes_that_do_not_fit_are_found_out() {
    let root = FilePath::new("/root");
    let file = |p: &str, size: u64| FileEntry { path: FilePath::new(p), size, mtime: 0 };
    let entries = vec![file("/root/a/1", u64::MAX), file("/root/a/2", 1)];
    assert!(!check_dir_sizes(&root, &entries));
    assert!(try_find_duplicate_dirs(&root, &entries, &vec![None, None]).is_none());
    let entries = vec![file("/root/a/1", u64::MAX), file("/root/b/2", 1)];
    assert!(check_dir_sizes(&root, &entries));
    let h = Some([1u8; 32]);
    let mut many: Vec<FileEntry> = Vec::new();
    for d in ["a", "b", "c"] {
        many.push(file(&format!("/root/{d}/1"), u64::MAX - 1));
        many.push(file(&format!("/root/{d}/2"), 1));
    }
    assert!(check_dir_sizes(&root, &many));
    assert!(try_find_duplicate_dirs(&root, &many, &vec![h; 6]).is_none());
    assert!(try_find_duplicate_dirs(&root, &many, &vec![h, h, h, h, None, None]).is_some());
}

#[test]
fn the_order_in_which_files_are_met_does_not_matter() {
    let entries = [
        write("b/sub/x.txt", b"content two"),
        write("a/file1.txt", b"content one"),
        write("a/sub/x.txt", b"content two"),
        write("b/file1.txt", b"content one"),
    ];
    let groups = find(&entries);
    assert_eq!(groups.len(), 1);
    assert_eq!(groups[0].dirs.len(), 2);
    assert_eq!(groups[0].keep, FilePath::new("/root/a"));
    assert_eq!(groups[0].trash, vec![FilePath::new("/root/b")]);
}

#[test]
fn directories_that_differ_in_one_file_share_no_group() {
    let entries = [
        write("a/one.txt", b"11111"),
        write("a/two.txt", b"22222"),
        write("b/one.txt", b"11111"),
        write("b/two.txt", b"22222"),
        // the same names and sizes, one other content
        write("c/one.txt", b"11111"),
        write("c/two.txt", b"33333"),
        // the same contents under exchanged names
        write("d/one.txt", b"22222"),
        write("d/two.txt", b"11111"),
    ];
    let groups = find(&entries);
    assert_eq!(groups.len(), 1);
    let mut found = names(&groups[0]);
    found.sort();
    assert_eq!(found, vec!["a".to_string(), "b".to_string()]);
}

#[test]
fn each_file_is_hashed_once_for_files_and_directories() {
    let root = FilePath::new("/root");
    let files = [
        write("a/1", b"one"),
        write("lone.bin", b"no other size"),
        write("a/2", b"three"),
        write("b/1", b"four"),
        write("b/2", b"five"),
        write("x.txt", b"twelve"),
        write("y.txt", b"eleven"),
    ];
    let entries: Vec<FileEntry> = files.iter().map(|f| f.entry.clone()).collect();
    // a and b hold two files and eight bytes each
    assert_eq!(dir_hash_candidates(&root, &entries), vec![0, 2, 3, 4]);
    assert_eq!(hash_candidates(&entries), vec![3, 4, 5, 6]);
    assert_eq!(files_to_hash(&root, &entries), vec![0, 2, 3, 4, 5, 6]);
    assert!(files_to_hash(&root, &vec![]).is_empty());
}
