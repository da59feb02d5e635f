//! Which of the files met on a walk through a directory tree are kept.

use vstd::prelude::*;
use crate::paths::FilePath;

verus! {

/// A regular file.
#[derive(Debug)]
pub struct FileEntry {
    pub path: FilePath,
    pub size: u64,
    pub mtime: i64,
}

/// A regular file as a value.
#[verifier::ext_equal]
pub struct FileModel {
    pub path: Seq<u8>,
    pub size: u64,
    pub mtime: i64,
}

impl View for FileEntry {
    type V = FileModel;

    open spec fn view(&self) -> FileModel {
        FileModel { path: self.path@, size: self.size, mtime: self.mtime }
    }
}

impl Clone for FileEntry {
    fn clone(&self) -> (r: Self)
        ensures
            r@ == self@,
    {
        FileEntry { path: self.path.clone(), size: self.size, mtime: self.mtime }
    }
}

/// The files of a list as values.
pub open spec fn entry_models(entries: Seq<FileEntry>) -> Seq<FileModel> {
    Seq::new(entries.len(), |i: int| entries[i]@)
}

/// Where to walk and what to skip.
#[derive(Debug)]
pub struct WalkOpts {
    pub root: FilePath,
    pub min_size: u64,
    pub include_hidden: bool,
    pub use_gitignore: bool,
}

impl Clone for WalkOpts {
    fn clone(&self) -> (r: Self)
        ensures
            r.root@ == self.root@,
            r.min_size == self.min_size,
            r.include_hidden == self.include_hidden,
            r.use_gitignore == self.use_gitignore,
    {
        WalkOpts {
            root: self.root.clone(),
            min_size: self.min_size,
            include_hidden: self.include_hidden,
            use_gitignore: self.use_gitignore,
        }
    }
}

impl Default for WalkOpts {
    fn default() -> (r: Self)
        ensures
            r.root@ == crate::paths::cur_dir(),
            r.min_size == 1024,
            !r.include_hidden,
            r.use_gitignore,
    {
        let mut dot: Vec<u8> = Vec::new();
        dot.push(crate::paths::DOT);
        assert(dot@ =~= crate::paths::cur_dir());
        WalkOpts {
            root: FilePath { bytes: dot },
            min_size: 1024,
            include_hidden: false,
            use_gitignore: true,
        }
    }
}

/// The settings of the directory walker.
#[derive(Debug, Clone, Copy, PartialEq, Eq, Structural)]
pub struct WalkFlags {
    pub hidden: bool,
    pub git_ignore: bool,
    pub git_global: bool,
    pub git_exclude: bool,
    pub require_git: bool,
    pub parents: bool,
    pub follow_links: bool,
}

/// The settings for a walk with or without hidden files and ignore files.
pub open spec fn flags_for(include_hidden: bool, use_gitignore: bool) -> WalkFlags {
    WalkFlags {
        hidden: !include_hidden,
        git_ignore: use_gitignore,
        git_global: use_gitignore,
        git_exclude: use_gitignore,
        require_git: false,
        parents: true,
        follow_links: false,
    }
}

/// The settings that `opts` ask for. Ignore files count outside of a git
/// repository too, and those of parent directories as well. Links are not
/// followed.
pub fn walk_flags(opts: &WalkOpts) -> (r: WalkFlags)
    ensures
        r == flags_for(opts.include_hidden, opts.use_gitignore),
        r == (WalkFlags {
            hidden: !opts.include_hidden,
            git_ignore: opts.use_gitignore,
            git_global: opts.use_gitignore,
            git_exclude: opts.use_gitignore,
            require_git: false,
            parents: true,
            follow_links: false,
        }),
{
    WalkFlags {
        hidden: !opts.include_hidden,
        git_ignore: opts.use_gitignore,
        git_global: opts.use_gitignore,
        git_exclude: opts.use_gitignore,
        require_git: false,
        parents: true,
        follow_links: false,
    }
}

/// The name `.git`.
pub open spec fn git_name() -> Seq<u8> {
    seq![46u8, 103u8, 105u8, 116u8]
}

/// Whether an entry of this name is visited.
pub open spec fn is_visited(name: Seq<u8>) -> bool {
    name != git_name()
}

/// Whether the walk visits an entry of this name: all but `.git`.
pub fn visits(name: &[u8]) -> (r: bool)
    ensures
        r == (name@ != git_name()),
        r == is_visited(name@),
{
    if name.len() == 4 && name[0] == 46 && name[1] == 103 && name[2] == 105 && name[3] == 116 {
        assert(name@ =~= git_name());
        false
    } else {
        true
    }
}

/// What stands at the root of a walk.
#[derive(Debug, Clone, Copy, PartialEq, Eq, Structural)]
pub enum RootStatus {
    Unresolved,
    NotDirectory,
    Directory,
}

/// Why a walk cannot start.
#[derive(Debug, Clone, Copy, PartialEq, Eq, Structural)]
pub enum WalkError {
    Unresolved,
    NotDirectory,
}

/// One entry that the walk met.
#[derive(Debug)]
pub enum Seen {
    /// The entry could not be read.
    Unreadable,
    /// Not a regular file.
    Other,
    /// A regular file whose metadata could not be read.
    NoMetadata,
    /// A regular file: its size, the seconds from the epoch to its last change
    /// if they are known, and its resolved path if it has one.
    File { size: u64, modified: Option<u64>, path: Option<FilePath> },
}

/// A modification time in seconds, 0 where it is not known.
pub open spec fn mtime_of(modified: Option<u64>) -> i64 {
    match modified {
        Some(s) => s as i64,
        None => 0,
    }
}

/// The file that an entry adds to the result, if it adds one.
pub open spec fn accepted(seen: Seen, min_size: u64) -> Option<FileModel> {
    match seen {
        Seen::File { size, modified, path: Some(path) } => if size >= min_size {
            Some(FileModel { path: path@, size, mtime: mtime_of(modified) })
        } else {
            None
        },
        _ => None,
    }
}

/// The files that the entries add, in the order in which they were met.
pub open spec fn collected(seen: Seq<Seen>, min_size: u64) -> Seq<FileModel>
    decreases seen.len(),
{
    if seen.len() == 0 {
        seq![]
    } else {
        match accepted(seen.last(), min_size) {
            Some(f) => collected(seen.drop_last(), min_size).push(f),
            None => collected(seen.drop_last(), min_size),
        }
    }
}

/// The counts that a walk reports when it has found `n` files: every multiple
/// of 500 on the way.
pub open spec fn milestones(n: int) -> Seq<int>
    decreases n,
{
    if n <= 0 {
        seq![]
    } else if n % 500 == 0 {
        milestones(n - 1).push(n)
    } else {
        milestones(n - 1)
    }
}

/// A walk under way.
pub struct Walk {
    pub found: Vec<FileEntry>,
    pub min_size: u64,
}

impl Walk {
    /// Starts a walk, if its root is a directory.
    pub fn start(opts: &WalkOpts, root: RootStatus) -> (r: Result<Walk, WalkError>)
        ensures
            match r {
                Ok(w) => root == RootStatus::Directory && w.found@.len() == 0 && w.min_size
                    == opts.min_size,
                Err(WalkError::Unresolved) => root == RootStatus::Unresolved,
                Err(WalkError::NotDirectory) => root == RootStatus::NotDirectory,
            },
    {
        match root {
            RootStatus::Unresolved => Err(WalkError::Unresolved),
            RootStatus::NotDirectory => Err(WalkError::NotDirectory),
            RootStatus::Directory => Ok(Walk { found: Vec::new(), min_size: opts.min_size }),
        }
    }

    /// Whether a regular file of this size is kept, so that its path has to be
    /// resolved.
    pub fn admits(&self, size: u64) -> (r: bool)
        ensures
            r == (size >= self.min_size),
    {
        size >= self.min_size
    }

    /// Takes in an entry. Gives the number of files found when a file was added
    /// and the number is a multiple of 500.
    pub fn visit(&mut self, seen: Seen) -> (r: Option<usize>)
        ensures
            final(self).min_size == old(self).min_size,
            match accepted(seen, old(self).min_size) {
                Some(f) => {
                    &&& entry_models(final(self).found@) == entry_models(old(self).found@).push(f)
                    &&& r is Some <==> final(self).found@.len() % 500 == 0
                    &&& r is Some ==> r->0 == final(self).found@.len()
                },
                None => final(self).found@ == old(self).found@ && r is None,
            },
    {
        match seen {
            Seen::File { size, modified, path: Some(path) } => {
                if size < self.min_size {
                    return None;
                }
                let mtime: i64 = match modified {
                    Some(s) => s as i64,
                    None => 0,
                };
                let ghost before = self.found@;
                self.found.push(FileEntry { path, size, mtime });
                assert(entry_models(self.found@) =~= entry_models(before).push(
                    FileModel { path: path@, size, mtime },
                ));
                let n: usize = self.found.len();
                if n % 500 == 0 {
                    Some(n)
                } else {
                    None
                }
            },
            _ => None,
        }
    }
}

/// The files found on a walk that met the entries `seen`, and the counts
/// reported on the way, the last of which is the number of files.
pub fn walk_with(opts: &WalkOpts, root: RootStatus, seen: Vec<Seen>) -> (r: Result<
    (Vec<FileEntry>, Vec<usize>),
    WalkError,
>)
    ensures
        match r {
            Ok((found, reports)) => {
                &&& root == RootStatus::Directory
                &&& entry_models(found@) == collected(seen@, opts.min_size)
                &&& crate::sorting::ints(reports@) == milestones(found@.len() as int).push(
                    found@.len() as int,
                )
            },
            Err(WalkError::Unresolved) => root == RootStatus::Unresolved,
            Err(WalkError::NotDirectory) => root == RootStatus::NotDirectory,
        },
{
    let mut walk = match Walk::start(opts, root) {
        Ok(w) => w,
        Err(e) => {
            return Err(e);
        },
    };
    let ghost all = seen@;
    let mut left = seen;
    let mut queue: Vec<Seen> = Vec::new();
    while left.len() > 0
        invariant
            left@.len() + queue@.len() == all.len(),
            left@ == all.take(left@.len() as int),
            forall|i: int|
                0 <= i < queue@.len() ==> #[trigger] queue@[i] == all[all.len() - 1 - i],
        decreases left@.len(),
    {
        match left.pop() {
            Some(s) => {
                queue.push(s);
            },
            None => {},
        }
    }
    let mut reports: Vec<usize> = Vec::new();
    let ghost mut done: int = 0;
    assert(all.take(0) =~= seq![]);
    assert(entry_models(walk.found@) =~= seq![]);
    assert(crate::sorting::ints(reports@) =~= seq![]);
    while queue.len() > 0
        invariant
            walk.min_size == opts.min_size,
            0 <= done <= all.len(),
            done + queue@.len() == all.len(),
            forall|i: int|
                0 <= i < queue@.len() ==> #[trigger] queue@[i] == all[all.len() - 1 - i],
            entry_models(walk.found@) == collected(all.take(done), opts.min_size),
            crate::sorting::ints(reports@) == milestones(walk.found@.len() as int),
        decreases queue@.len(),
    {
        match queue.pop() {
            Some(s) => {
                let ghost before = reports@;
                assert(s == all[done]);
                proof {
                    assert(all.take(done + 1).drop_last() =~= all.take(done));
                    done = done + 1;
                }
                let ghost found = walk.found@;
                match walk.visit(s) {
                    Some(n) => {
                        reports.push(n);
                        assert(crate::sorting::ints(reports@) =~= crate::sorting::ints(before).push(
                            n as int,
                        ));
                    },
                    None => {},
                }
                assert(entry_models(walk.found@).len() == walk.found@.len());
                assert(entry_models(found).len() == found.len());
            },
            None => {},
        }
    }
    assert(all.take(done) =~= all);
    let ghost before = reports@;
    reports.push(walk.found.len());
    assert(crate::sorting::ints(reports@) =~= crate::sorting::ints(before).push(
        walk.found@.len() as int,
    ));
    Ok((walk.found, reports))
}

/// The files found on a walk that met the entries `seen`.
pub fn walk(opts: &WalkOpts, root: RootStatus, seen: Vec<Seen>) -> (r: Result<
    Vec<FileEntry>,
    WalkError,
>)
    ensures
        match r {
            Ok(found) => root == RootStatus::Directory && entry_models(found@) == collected(
                seen@,
                opts.min_size,
            ),
            Err(WalkError::Unresolved) => root == RootStatus::Unresolved,
            Err(WalkError::NotDirectory) => root == RootStatus::NotDirectory,
        },
{
    match walk_with(opts, root, seen) {
        Ok((found, _)) => Ok(found),
        Err(e) => Err(e),
    }
}

/// A walk keeps only files of at least the smallest size, and each of them was
/// met with its size, its path and its time.
pub proof fn collected_files_were_met(seen: Seq<Seen>, min_size: u64)
    ensures
        forall|i: int|
            0 <= i < collected(seen, min_size).len() ==> {
                &&& (#[trigger] collected(seen, min_size)[i]).size >= min_size
                &&& exists|k: int|
                    0 <= k < seen.len() && #[trigger] accepted(seen[k], min_size) == Some(
                        collected(seen, min_size)[i],
                    )
            },
    decreases seen.len(),
{
    if seen.len() > 0 {
        let rest = seen.drop_last();
        collected_files_were_met(rest, min_size);
        let all = collected(seen, min_size);
        assert forall|i: int| 0 <= i < all.len() implies {
            &&& (#[trigger] all[i]).size >= min_size
            &&& exists|k: int|
                0 <= k < seen.len() && #[trigger] accepted(seen[k], min_size) == Some(all[i])
        } by {
            let fewer = collected(rest, min_size);
            if i < fewer.len() {
                assert(all[i] == fewer[i]);
                let k = choose|k: int|
                    0 <= k < rest.len() && #[trigger] accepted(rest[k], min_size) == Some(fewer[i]);
                assert(accepted(seen[k], min_size) == Some(all[i]));
            } else {
                assert(accepted(seen[seen.len() - 1], min_size) == Some(all[i]));
            }
        }
    }
}

/// A walk misses no file that an entry adds.
pub proof fn accepted_files_are_collected(seen: Seq<Seen>, min_size: u64, k: int)
    requires
        0 <= k < seen.len(),
        accepted(seen[k], min_size) is Some,
    ensures
        collected(seen, min_size).contains(accepted(seen[k], min_size)->0),
    decreases seen.len(),
{
    let all = collected(seen, min_size);
    let f = accepted(seen[k], min_size)->0;
    if k == seen.len() - 1 {
        assert(all[all.len() - 1] == f);
    } else {
        let rest = seen.drop_last();
        assert(rest[k] == seen[k]);
        accepted_files_are_collected(rest, min_size, k);
        let old_files = collected(rest, min_size);
        let i = choose|i: int| 0 <= i < old_files.len() && old_files[i] == f;
        assert(all[i] == f);
    }
}

/// Whether a file of the result is the regular file that was met: its path, its
/// size, and its time in seconds, 0 where that is not known. A time of more than 63
/// bits wraps around.
pub open spec fn is_entry_for(f: FileModel, seen: Seen) -> bool {
    &&& seen is File
    &&& seen->path is Some
    &&& f.path == seen->path->0@
    &&& f.size == seen->size
    &&& seen->modified is None ==> f.mtime == 0
    &&& seen->modified is Some && seen->modified->0 <= i64::MAX ==> f.mtime
        == seen->modified->0
    &&& seen->modified is Some && seen->modified->0 > i64::MAX ==> f.mtime == seen->modified->0
        - 0x1_0000_0000_0000_0000
}

/// Seconds that do not fit wrap around.
proof fn lemma_late_time(s: u64)
    ensures
        s > i64::MAX ==> s as i64 == s - 0x1_0000_0000_0000_0000,
{
    if s > i64::MAX {
        assert(s as i64 == s - 0x1_0000_0000_0000_0000) by (bit_vector)
            requires
                s > 0x7fff_ffff_ffff_ffff,
        ;
    }
}

/// Where the files of a walk were met.
proof fn lemma_places_of(seen: Seq<Seen>, min_size: u64) -> (places: Seq<int>)
    ensures
        places.len() == collected(seen, min_size).len(),
        forall|m: int, n: int| 0 <= m < n < places.len() ==> places[m] < places[n],
        forall|m: int|
            0 <= m < places.len() ==> 0 <= #[trigger] places[m] < seen.len() && is_entry_for(
                collected(seen, min_size)[m],
                seen[places[m]],
            ) && seen[places[m]]->size >= min_size,
        forall|k: int|
            0 <= k < seen.len() && (#[trigger] seen[k]) is File && seen[k]->path is Some
                && seen[k]->size >= min_size ==> places.contains(k),
    decreases seen.len(),
{
    if seen.len() == 0 {
        Seq::empty()
    } else {
        let rest = seen.drop_last();
        let n = rest.len() as int;
        let before = lemma_places_of(rest, min_size);
        let last = seen.last();
        let kept = last is File && last->path is Some && last->size >= min_size;
        if kept && last->modified is Some {
            lemma_late_time(last->modified->0);
        }
        let places = if kept {
            before.push(n)
        } else {
            before
        };
        assert forall|m: int| 0 <= m < places.len() implies 0 <= #[trigger] places[m] < seen.len()
            && is_entry_for(collected(seen, min_size)[m], seen[places[m]])
            && seen[places[m]]->size >= min_size by {
            if m < before.len() {
                assert(places[m] == before[m]);
                assert(seen[places[m]] == rest[before[m]]);
                assert(collected(seen, min_size)[m] == collected(rest, min_size)[m]);
            }
        }
        assert forall|k: int|
            0 <= k < seen.len() && (#[trigger] seen[k]) is File && seen[k]->path is Some
                && seen[k]->size >= min_size implies places.contains(k) by {
            if k < n {
                assert(rest[k] == seen[k]);
                assert(before.contains(k));
                let m = choose|m: int| 0 <= m < before.len() && before[m] == k;
                assert(places[m] == k);
            } else {
                assert(places[places.len() - 1] == n);
            }
        }
        places
    }
}

/// A walk misses no file: every regular file of at least the smallest size whose
/// path could be resolved is in the result, with its path, its size and its time.
pub proof fn a_walk_misses_no_file(seen: Seq<Seen>, min_size: u64, k: int)
    requires
        0 <= k < seen.len(),
        seen[k] is File,
        seen[k]->path is Some,
        seen[k]->size >= min_size,
    ensures
        exists|m: int|
            0 <= m < collected(seen, min_size).len() && is_entry_for(
                #[trigger] collected(seen, min_size)[m],
                seen[k],
            ),
{
    let places = lemma_places_of(seen, min_size);
    assert(places.contains(k));
    let m = choose|m: int| 0 <= m < places.len() && places[m] == k;
    assert(is_entry_for(collected(seen, min_size)[m], seen[k]));
}

/// A walk finds each of these files once, in the order in which they were met, and
/// nothing else.
pub proof fn a_walk_finds_each_file_once(seen: Seq<Seen>, min_size: u64)
    ensures
        exists|places: Seq<int>|
            {
                &&& #[trigger] places.len() == collected(seen, min_size).len()
                &&& forall|m: int, n: int| 0 <= m < n < places.len() ==> places[m] < places[n]
                &&& forall|m: int|
                    0 <= m < places.len() ==> 0 <= #[trigger] places[m] < seen.len()
                        && is_entry_for(collected(seen, min_size)[m], seen[places[m]])
                        && seen[places[m]]->size >= min_size
                &&& forall|k: int|
                    0 <= k < seen.len() && (#[trigger] seen[k]) is File && seen[k]->path is Some
                        && seen[k]->size >= min_size ==> places.contains(k)
            },
{
    let places = lemma_places_of(seen, min_size);
    assert(places.len() == collected(seen, min_size).len());
}

/// On the way a walk reports its count at every multiple of 500, in order, and at
/// no other number.
pub proof fn counts_are_reported_at_multiples(n: int)
    ensures
        forall|m: int| #[trigger] milestones(n).contains(m) <==> 1 <= m <= n && m % 500 == 0,
        forall|i: int, j: int| 0 <= i < j < milestones(n).len() ==> milestones(n)[i] < milestones(n)[j],
    decreases n,
{
    if n > 0 {
        counts_are_reported_at_multiples(n - 1);
        let list = milestones(n);
        let before = milestones(n - 1);
        assert forall|m: int| #[trigger] list.contains(m) <==> 1 <= m <= n && m % 500 == 0 by {
            if n % 500 == 0 {
                if before.contains(m) {
                    let i = choose|i: int| 0 <= i < before.len() && before[i] == m;
                    assert(list[i] == m);
                }
                if m == n {
                    assert(list[before.len() as int] == m);
                }
                if list.contains(m) && m != n {
                    let i = choose|i: int| 0 <= i < list.len() && list[i] == m;
                    assert(before[i] == m);
                }
            } else {
                assert(list == before);
            }
        }
        assert forall|i: int, j: int| 0 <= i < j < list.len() implies list[i] < list[j] by {
            if j == before.len() {
                assert(before.contains(before[i]));
            }
        }
    }
}

/// Hidden files are skipped unless they are asked for, and ignore files count if they
/// are asked for, all alike, with those of parent directories and outside of git
/// repositories too. Links are never followed.
pub proof fn walks_go_by_the_options(include_hidden: bool, use_gitignore: bool)
    ensures
        ({
            let flags = flags_for(include_hidden, use_gitignore);
            &&& flags.hidden <==> !include_hidden
            &&& flags.git_ignore <==> use_gitignore
            &&& flags.git_global <==> use_gitignore
            &&& flags.git_exclude <==> use_gitignore
            &&& flags.parents
            &&& !flags.require_git
            &&& !flags.follow_links
        }),
{
}

/// Every name is visited but `.git`.
pub proof fn only_git_is_not_visited(name: Seq<u8>)
    ensures
        is_visited(name) <==> !(name.len() == 4 && name[0] == '.' as u8 && name[1] == 'g' as u8
            && name[2] == 'i' as u8 && name[3] == 't' as u8),
{
    if name.len() == 4 && name[0] == '.' as u8 && name[1] == 'g' as u8 && name[2] == 'i' as u8
        && name[3] == 't' as u8 {
        assert(name =~= git_name());
    }
}

/// The one name that is not visited is `.git`.
pub proof fn git_is_four_characters()
    ensures
        git_name().len() == 4,
        git_name()[0] == '.' as u8,
        git_name()[1] == 'g' as u8,
        git_name()[2] == 'i' as u8,
        git_name()[3] == 't' as u8,
{
}

} // verus!
