use std::collections::BTreeMap;
use tidyrs::cache::{encode_key, Key};
use tidyrs::dedup::{
    find_duplicates, hash_candidates, hash_next, hash_with_cache, pick_keeper,
    try_find_duplicates, DupGroup, HashReply, HashRequest, HashState,
};
use tidyrs::hashing::ContentHasher;
use tidyrs::paths::FilePath;
use tidyrs::walker::FileEntry;

type Store = BTreeMap<Vec<u8>, [u8; 32]>;

/// A file and its contents.
#[derive(Clone)]
struct File {
    entry: FileEntry,
    bytes: Vec<u8>,
}

fn write(path: &str, bytes: &[u8]) -> File {
    File {
        entry: FileEntry { path: FilePath::new(path), size: bytes.len() as u64, mtime: 0 },
        bytes: bytes.to_vec(),
    }
}

fn digest(bytes: &[u8]) -> [u8; 32] {
    let mut h = ContentHasher::new();
    for piece in bytes.chunks(64) {
        h.update(piece);
    }
    assert_eq!(h.count(), bytes.len() as u64);
    h.finish()
}

/// Hashes a file, and counts how often it is read.
fn hash(file: &File, mut cache: Option<&mut Store>, reads: &mut usize) -> Option<[u8; 32]> {
    let cached = cache.is_some();
    let key = encode_key(&Key {
        path: &file.entry.path,
        size: file.entry.size,
        mtime: file.entry.mtime,
    });
    let mut state = hash_with_cache(cached);
    loop {
        let request = match state {
            HashState::Asking(r) => r,
            HashState::Done(h) => return Some(h),
            HashState::Failed => return None,
        };
        let reply = match request {
            HashRequest::LookUp => match cache.as_ref().unwrap().get(&key) {
                Some(h) => HashReply::Hit(*h),
                None => HashReply::Miss,
            },
            HashRequest::ReadFile => {
                *reads += 1;
                HashReply::Digest(digest(&file.bytes))
            }
            HashRequest::Store(h) => {
                cache.as_mut().unwrap().insert(key.clone(), h);
                HashReply::Stored
            }
        };
        state = hash_next(cached, request, reply);
    }
}

fn find(files: &[File], mut cache: Option<&mut Store>, reads: &mut usize) -> Vec<DupGroup> {
    let entries: Vec<FileEntry> = files.iter().map(|f| f.entry.clone()).collect();
    let mut hashes: Vec<Option<[u8; 32]>> = vec![None; entries.len()];
    for i in hash_candidates(&entries) {
        hashes[i] = hash(&files[i], cache.as_deref_mut(), reads);
    }
    find_duplicates(&entries, &hashes)
}

fn find_plain(files: &[File]) -> Vec<DupGroup> {
    let mut reads = 0;
    find(files, None, &mut reads)
}

#[test]
fn singleton_size_bucket_skipped() {
    let a = write("/d/a.txt", b"unique content");
    let b = write("/d/b.txt", b"different size!");
    let groups = find_plain(&[a, b]);
    assert!(groups.is_empty());
}

#[test]
fn finds_exact_duplicates() {
    let a = write("/d/a.txt", b"hello world");
    let b = write("/d/sub/b.txt", b"hello world");
    let groups = find_plain(&[a, b]);
    assert_eq!(groups.len(), 1);
    assert_eq!(groups[0].files.len(), 2);
    assert_eq!(groups[0].trash.len(), 1);
}

#[test]
fn same_size_different_content_no_dup() {
    let a = write("/d/a.txt", b"AAAAA");
    let b = write("/d/b.txt", b"BBBBB");
    let groups = find_plain(&[a, b]);
    assert!(groups.is_empty());
}

#[test]
fn keeper_is_shallowest_path() {
    let shallow = write("/d/top.txt", b"same data here");
    let deep = write("/d/a/b/c/deep.txt", b"same data here");
    let groups = find_plain(&[deep.clone(), shallow.clone()]);
    assert_eq!(groups.len(), 1);
    assert_eq!(groups[0].keep, shallow.entry.path);
    assert_eq!(groups[0].trash, vec![deep.entry.path]);
}

#[test]
fn keeper_tiebreak_oldest_mtime() {
    let mut a = write("/d/a.txt", b"identical bytes");
    let mut b = write("/d/b.txt", b"identical bytes");
    a.entry.mtime = 100;
    b.entry.mtime = 50;
    let groups = find_plain(&[a, b.clone()]);
    assert_eq!(groups[0].keep, b.entry.path);
}

#[test]
fn three_way_duplicate() {
    let a = write("/d/a.txt", b"triplet content");
    let b = write("/d/b.txt", b"triplet content");
    let c = write("/d/c.txt", b"triplet content");
    let groups = find_plain(&[a, b, c]);
    assert_eq!(groups.len(), 1);
    assert_eq!(groups[0].files.len(), 3);
    assert_eq!(groups[0].trash.len(), 2);
}

#[test]
fn cache_round_trips() {
    let a = write("/d/a.txt", b"cached content");
    let b = write("/d/b.txt", b"cached content");
    let mut cache = Store::new();
    let mut reads = 0;

    let g1 = find(&[a.clone(), b.clone()], Some(&mut cache), &mut reads);
    assert_eq!(g1.len(), 1);
    assert_eq!(reads, 2);

    let key = Key { path: &a.entry.path, size: a.entry.size, mtime: a.entry.mtime };
    assert!(cache.get(&encode_key(&key)).is_some());

    let g2 = find(&[a, b], Some(&mut cache), &mut reads);
    assert_eq!(g2.len(), 1);
    assert_eq!(g1[0].hash, g2[0].hash);
    assert_eq!(reads, 2);
}

#[test]
fn sorted_by_reclaimable_size_desc() {
    let small1 = write("/d/s1.txt", b"smol");
    let small2 = write("/d/s2.txt", b"smol");
    let big1 = write("/d/b1.txt", &vec![7u8; 10_000]);
    let big2 = write("/d/b2.txt", &vec![7u8; 10_000]);
    let groups = find_plain(&[small1, small2, big1, big2]);
    assert_eq!(groups.len(), 2);
    assert!(groups[0].reclaimable_bytes() > groups[1].reclaimable_bytes());
}

#[test]
fn digests_are_those_of_blake3() {
    let hex: String = digest(b"").iter().map(|b| format!("{b:02x}")).collect();
    assert_eq!(hex, "af1349b9f5f9a1a6a0404dea36dcc9499bcb25c9adc112b7cc9a93cae41f3262");
    let long: Vec<u8> = (0..5000u32).map(|i| (i % 251) as u8).collect();
    assert_eq!(digest(&long), *blake3::hash(&long).as_bytes());
}

#[test]
fn files_of_one_size_are_split_by_digest() {
    let files = [
        write("/d/1", b"xx"),
        write("/d/2", b"yy"),
        write("/d/3", b"xx"),
        write("/d/4", b"yyy"),
        write("/d/5", b"yy"),
        write("/d/6", b"zz"),
    ];
    let groups = find_plain(&files);
    assert_eq!(groups.len(), 2);
    for g in &groups {
        assert_eq!(g.files.len(), 2);
        assert_eq!(g.keep, g.files[0].path);
        assert_eq!(g.trash, vec![g.files[1].path.clone()]);
        assert_eq!(g.reclaimable_bytes(), 2);
    }
    assert_ne!(groups[0].hash, groups[1].hash);
}

#[test]
fn only_shared_sizes_are_hashed() {
    let sizes = [5u64, 7, 5, 9, 7, 1];
    let entries: Vec<FileEntry> = sizes
        .iter()
        .map(|s| FileEntry { path: FilePath::new("/x"), size: *s, mtime: 0 })
        .collect();
    assert_eq!(hash_candidates(&entries), vec![0, 1, 2, 4]);
    assert!(hash_candidates(&vec![]).is_empty());
}

#[test]
fn files_that_could_not_be_hashed_are_left_out() {
    let entries: Vec<FileEntry> = ["/a", "/b", "/c"]
        .iter()
        .map(|p| FileEntry { path: FilePath::new(p), size: 3, mtime: 0 })
        .collect();
    let h = [1u8; 32];
    let groups = find_duplicates(&entries, &vec![Some(h), None, Some(h)]);
    assert_eq!(groups.len(), 1);
    assert_eq!(groups[0].trash, vec![FilePath::new("/c")]);
    assert!(find_duplicates(&entries, &vec![Some(h), None, None]).is_empty());
}

#[test]
fn equal_candidates_go_by_the_order_of_paths() {
    let file = |p: &str| FileEntry { path: FilePath::new(p), size: 1, mtime: 3 };
    let (keep, trash) = pick_keeper(&vec![file("/d/b"), file("/d/a"), file("/d/c")]);
    assert_eq!(keep, FilePath::new("/d/a"));
    assert_eq!(trash, vec![FilePath::new("/d/b"), FilePath::new("/d/c")]);
}

#[test]
fn sizes_that_do_not_fit_are_found_out() {
    let entries: Vec<FileEntry> = ["/a", "/b", "/c"]
        .iter()
        .map(|p| FileEntry { path: FilePath::new(p), size: u64::MAX, mtime: 0 })
        .collect();
    let h = Some([1u8; 32]);
    assert!(try_find_duplicates(&entries, &vec![h, h, h]).is_none());
    let two = try_find_duplicates(&entries, &vec![h, h, None]).unwrap();
    assert_eq!(two[0].reclaimable_bytes(), u64::MAX);
}

#[test]
fn a_failure_ends_the_hashing() {
    assert_eq!(
        hash_next(true, HashRequest::LookUp, HashReply::Failed),
        HashState::Failed
    );
    assert_eq!(
        hash_next(true, HashRequest::Store([1; 32]), HashReply::Failed),
        HashState::Failed
    );
    assert_eq!(
        hash_next(false, HashRequest::ReadFile, HashReply::Digest([2; 32])),
        HashState::Done([2; 32])
    );
}

#[test]
fn equal_contents_share_one_group_and_others_do_not() {
    let files = [
        write("/r/a", b"same text"),
        write("/r/b", b"else text"),
        write("/r/c", b"same text"),
    ];
    let groups = find_plain(&files);
    assert_eq!(groups.len(), 1);
    let paths: Vec<FilePath> = groups[0].files.iter().map(|f| f.path.clone()).collect();
    assert_eq!(paths, vec![FilePath::new("/r/a"), FilePath::new("/r/c")]);
    assert_eq!(groups[0].hash, digest(b"same text"));
}

#[test]
fn a_group_lists_its_files_size_by_size() {
    let entries: Vec<FileEntry> = [("/d/a", 5u64), ("/d/b", 7), ("/d/c", 5), ("/d/d", 7)]
        .iter()
        .map(|(p, s)| FileEntry { path: FilePath::new(p), size: *s, mtime: 0 })
        .collect();
    let h = Some([1u8; 32]);
    let groups = find_duplicates(&entries, &vec![h, h, h, h]);
    assert_eq!(groups.len(), 1);
    let sizes: Vec<u64> = groups[0].files.iter().map(|f| f.size).collect();
    assert_eq!(sizes, vec![7, 7, 5, 5]);
    let paths: Vec<FilePath> = groups[0].files.iter().map(|f| f.path.clone()).collect();
    let expected: Vec<FilePath> =
        ["/d/b", "/d/d", "/d/a", "/d/c"].iter().map(|p| FilePath::new(p)).collect();
    assert_eq!(paths, expected);
    assert_eq!(groups[0].keep, FilePath::new("/d/a"));
    assert_eq!(groups[0].reclaimable_bytes(), 21);
}
