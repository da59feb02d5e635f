//! Directories with the same contents.

use vstd::prelude::*;
use vstd::slice::slice_to_vec;
use vstd::utf8::valid_utf8;
use crate::dedup::{beats, keeper_order, take_best};
use crate::dirs::{check_dir_sizes, describes, digest_dir, dir_digest, dir_files, dir_manifest};
use crate::dirs::{dir_size, dir_sizes_fit, has_counterparts, has_distinct_files, has_info};
use crate::dirs::{has_plain_name, has_plain_names, holds_files_of, is_candidate_dir};
use crate::dirs::{is_hashed_dir, keeps_text_names, lies_in, list_dirs, lists_dirs, looks_like};
use crate::dirs::{mark_candidates, rest_of, total_size};
use crate::dirs::{the_same_digest_means_the_same_files, the_same_files_give_the_same_digest};
use crate::dirs::DirInfo;
use crate::hashing::blake3_digest;
use crate::order::{bytes_order_linear, path_order, path_order_linear, Order};
use crate::paths::{clone_paths, components, is_under, leading, path_bytes};
use crate::paths::{paths_are_cut_behind_a_component, FilePath};
use crate::sorting::{group_ties, groups_ties, heaviest_first, ints, is_grouped, is_permutation};
use crate::sorting::{items_at, keep_marked, leader, lemma_positions, lemma_positions_agree};
use crate::sorting::{positions, rearranged, sort_by_weight, ties, Weighed};
use crate::walker::{entry_models, FileEntry, FileModel};

verus! {

/// A directory, the number of files in it and their total size.
#[derive(Debug)]
pub struct DirEntry {
    pub path: FilePath,
    pub file_count: usize,
    pub total_size: u64,
}

/// A directory as a value.
#[verifier::ext_equal]
pub struct DirModel {
    pub path: Seq<u8>,
    pub file_count: int,
    pub total_size: int,
}

impl View for DirEntry {
    type V = DirModel;

    open spec fn view(&self) -> DirModel {
        DirModel {
            path: self.path@,
            file_count: self.file_count as int,
            total_size: self.total_size as int,
        }
    }
}

impl Clone for DirEntry {
    fn clone(&self) -> (r: Self)
        ensures
            r@ == self@,
    {
        DirEntry {
            path: self.path.clone(),
            file_count: self.file_count,
            total_size: self.total_size,
        }
    }
}

/// The directories of a list as values.
pub open spec fn dir_models(dirs: Seq<DirEntry>) -> Seq<DirModel> {
    Seq::new(dirs.len(), |i: int| dirs[i]@)
}

/// Directories with one digest, one of them to be kept.
#[derive(Debug)]
pub struct DirDup {
    pub hash: [u8; 32],
    pub dirs: Vec<DirEntry>,
    pub keep: FilePath,
    pub trash: Vec<FilePath>,
}

/// A group of duplicate directories as a value.
#[verifier::ext_equal]
pub struct DirDupModel {
    pub hash: Seq<u8>,
    pub dirs: Seq<DirModel>,
    pub keep: Seq<u8>,
    pub trash: Seq<Seq<u8>>,
}

impl View for DirDup {
    type V = DirDupModel;

    open spec fn view(&self) -> DirDupModel {
        DirDupModel {
            hash: self.hash@,
            dirs: dir_models(self.dirs@),
            keep: self.keep@,
            trash: path_bytes(self.trash@),
        }
    }
}

impl Clone for DirDup {
    fn clone(&self) -> (r: Self)
        ensures
            r@ == self@,
    {
        let mut dirs: Vec<DirEntry> = Vec::new();
        let mut i: usize = 0;
        while i < self.dirs.len()
            invariant
                i <= self.dirs@.len(),
                dirs@.len() == i,
                forall|k: int| 0 <= k < i ==> (#[trigger] dirs@[k])@ == self.dirs@[k]@,
            decreases self.dirs@.len() - i,
        {
            dirs.push(self.dirs[i].clone());
            i = i + 1;
        }
        assert(dir_models(dirs@) =~= dir_models(self.dirs@));
        DirDup { hash: self.hash, dirs, keep: self.keep.clone(), trash: clone_paths(&self.trash) }
    }
}

impl DirDupModel {
    /// The bytes freed when the trash goes: the size of the first directory,
    /// once for each directory in the trash.
    pub open spec fn reclaimable(self) -> int {
        if self.dirs.len() == 0 {
            0
        } else {
            self.dirs[0].total_size * self.trash.len()
        }
    }
}

impl DirDup {
    /// The bytes freed when the trash goes.
    pub fn reclaimable_bytes(&self) -> (r: u64)
        requires
            self@.reclaimable() <= u64::MAX,
        ensures
            r == self@.reclaimable(),
    {
        let n: u64 = self.trash.len() as u64;
        if self.dirs.len() == 0 {
            0
        } else {
            assert(self@.dirs[0] == self.dirs@[0]@);
            assert(self@.trash.len() == n);
            self.dirs[0].total_size * n
        }
    }
}

impl Weighed for DirDup {
    open spec fn weight(&self) -> int {
        self@.reclaimable()
    }

    fn weigh(&self) -> (r: u64) {
        self.reclaimable_bytes()
    }
}

/// Whether `dir` is a candidate with the digest `hash`.
pub open spec fn shares_digest(
    entries: Seq<FileModel>,
    hashes: Seq<Option<[u8; 32]>>,
    root: Seq<u8>,
    hash: Seq<u8>,
    dir: Seq<Seq<u8>>,
) -> bool {
    is_candidate_dir(entries, root, dir) && dir_digest(entries, hashes, root, dir) == Some(hash)
}

/// Whether at least two directories have the digest `hash`.
pub open spec fn is_shared(
    entries: Seq<FileModel>,
    hashes: Seq<Option<[u8; 32]>>,
    root: Seq<u8>,
    hash: Seq<u8>,
) -> bool {
    exists|a: Seq<Seq<u8>>, b: Seq<Seq<u8>>|
        a != b && #[trigger] shares_digest(entries, hashes, root, hash, a)
            && #[trigger] shares_digest(entries, hashes, root, hash, b)
}

/// Whether manifests give names that are valid UTF-8 as they are, in every
/// directory with a digest.
pub open spec fn text_names_are_kept(
    entries: Seq<FileModel>,
    hashes: Seq<Option<[u8; 32]>>,
    root: Seq<u8>,
) -> bool {
    forall|hash: Seq<u8>, dir: Seq<Seq<u8>>| #[trigger]
        shares_digest(entries, hashes, root, hash, dir) ==> keeps_text_names(entries, root, dir)
}

/// Whether `d` gives the number of files in its directory and their size. Its
/// path is written as in the first of these files.
pub open spec fn tells(entries: Seq<FileModel>, root: Seq<u8>, d: DirModel) -> bool {
    let dir = components(d.path);
    let places = dir_files(entries, root, dir);
    &&& d.file_count == places.len()
    &&& d.total_size == dir_size(entries, root, dir)
    &&& d.path == leading(entries[places[0]].path, dir.len() as int)
}

/// Whether directory `a` is at least as good a keeper as directory `b`: it has
/// fewer components, or as many and comes first in the order of paths.
pub open spec fn dir_keeps_over(a: DirModel, b: DirModel) -> bool {
    keeper_order(0, components(a.path), 0, components(b.path)) != Order::Greater
}

/// Whether directory `k` is the keeper: at least as good as every other, and the
/// first of those that are equally good.
pub open spec fn is_keeper_dir(dirs: Seq<DirModel>, k: int) -> bool {
    &&& 0 <= k < dirs.len()
    &&& forall|j: int|
        0 <= j < dirs.len() && j != k ==> dir_keeps_over(dirs[k], #[trigger] dirs[j]) && (
        dir_keeps_over(dirs[j], dirs[k]) ==> k < j)
}

/// The paths of directories.
pub open spec fn dir_paths(dirs: Seq<DirModel>) -> Seq<Seq<u8>> {
    Seq::new(dirs.len(), |i: int| dirs[i].path)
}

/// Whether `keep` is the path of the keeper and `trash` lists the other paths in
/// their order.
pub open spec fn picks_dir(dirs: Seq<DirModel>, keep: Seq<u8>, trash: Seq<Seq<u8>>) -> bool {
    exists|k: int|
        #[trigger] is_keeper_dir(dirs, k) && keep == dirs[k].path && trash == dir_paths(
            dirs,
        ).remove(k)
}

/// Picks the directory to keep: the shallowest, then the first in the order of
/// paths. The others are to be trashed.
pub fn pick_keeper_dir(dirs: &Vec<DirEntry>) -> (r: (FilePath, Vec<FilePath>))
    requires
        dirs@.len() > 0,
    ensures
        picks_dir(dir_models(dirs@), r.0@, path_bytes(r.1@)),
{
    let ghost models = dir_models(dirs@);
    let mut times: Vec<i64> = Vec::new();
    let mut paths: Vec<FilePath> = Vec::new();
    let mut i: usize = 0;
    while i < dirs.len()
        invariant
            i <= dirs@.len(),
            times@.len() == i,
            paths@.len() == i,
            forall|k: int| 0 <= k < i ==> #[trigger] times@[k] == 0,
            forall|k: int| 0 <= k < i ==> (#[trigger] paths@[k])@ == dirs@[k].path@,
        decreases dirs@.len() - i,
    {
        times.push(0);
        paths.push(dirs[i].path.clone());
        i = i + 1;
    }
    assert(path_bytes(paths@) =~= dir_paths(models));
    let (k, keep, trash) = take_best(&times, paths);
    proof {
        assert forall|j: int| 0 <= j < models.len() && j != k implies dir_keeps_over(
            models[k as int],
            #[trigger] models[j],
        ) && (dir_keeps_over(models[j], models[k as int]) ==> k < j) by {
            assert(beats(times@, dir_paths(models), k as int, j));
        }
        assert(is_keeper_dir(models, k as int));
    }
    (keep, trash)
}

/// Whether some entry of `dirs` is about `dir`.
pub open spec fn has_dir(dirs: Seq<DirModel>, dir: Seq<Seq<u8>>) -> bool {
    exists|i: int| 0 <= i < dirs.len() && components((#[trigger] dirs[i]).path) == dir
}

/// Whether `g` is the group of all the directories that have its digest, at
/// least two, each once and in any order, with the keeper picked among them.
pub open spec fn is_dir_group(
    entries: Seq<FileModel>,
    hashes: Seq<Option<[u8; 32]>>,
    root: Seq<u8>,
    g: DirDupModel,
) -> bool {
    &&& g.dirs.len() >= 2
    &&& forall|i: int|
        0 <= i < g.dirs.len() ==> shares_digest(
            entries,
            hashes,
            root,
            g.hash,
            components((#[trigger] g.dirs[i]).path),
        ) && tells(entries, root, g.dirs[i])
    &&& forall|i: int, j: int|
        0 <= i < j < g.dirs.len() ==> components((#[trigger] g.dirs[i]).path) != components(
            (#[trigger] g.dirs[j]).path,
        )
    &&& forall|dir: Seq<Seq<u8>>| #[trigger]
        shares_digest(entries, hashes, root, g.hash, dir) ==> has_dir(g.dirs, dir)
    &&& picks_dir(g.dirs, g.keep, g.trash)
}

/// Whether some group has the digest `hash`.
pub open spec fn has_dir_group(groups: Seq<DirDup>, hash: Seq<u8>) -> bool {
    exists|g: int| 0 <= g < groups.len() && #[trigger] groups[g]@.hash == hash
}

/// Whether `groups` are the groups of directories with the same digest, one for
/// each digest that at least two directories have.
pub open spec fn are_dir_groups(
    entries: Seq<FileModel>,
    hashes: Seq<Option<[u8; 32]>>,
    root: Seq<u8>,
    groups: Seq<DirDup>,
) -> bool {
    &&& forall|g: int|
        0 <= g < groups.len() ==> is_dir_group(entries, hashes, root, #[trigger] groups[g]@)
    &&& forall|g: int, h: int|
        0 <= g < h < groups.len() ==> #[trigger] groups[g]@.hash != #[trigger] groups[h]@.hash
    &&& forall|hash: Seq<u8>| #[trigger]
        is_shared(entries, hashes, root, hash) ==> has_dir_group(groups, hash)
}

/// The candidate directories that have a digest, by their places in the list of
/// directories, and the digests.
struct HashedDirs {
    at: Vec<usize>,
    digests: Vec<[u8; 32]>,
    keys: Vec<Vec<u8>>,
}

/// Whether `at` and `digests` list the candidates that have a digest.
spec fn lists_digests(
    entries: Seq<FileModel>,
    hashes: Seq<Option<[u8; 32]>>,
    root: Seq<u8>,
    infos: Seq<DirInfo>,
    h: HashedDirs,
) -> bool {
    &&& h.at@.len() == h.digests@.len()
    &&& h.at@.len() == h.keys@.len()
    &&& forall|k: int| 0 <= k < h.keys@.len() ==> (#[trigger] h.keys@[k])@ == h.digests@[k]@
    &&& forall|k: int| 0 <= k < h.at@.len() ==> #[trigger] h.at@[k] < infos.len()
    &&& forall|k: int, l: int| 0 <= k < l < h.at@.len() ==> h.at@[k] < h.at@[l]
    &&& forall|k: int|
        0 <= k < h.at@.len() ==> shares_digest(
            entries,
            hashes,
            root,
            (#[trigger] h.keys@[k])@,
            components(infos[h.at@[k] as int].path@),
        )
    &&& forall|x: int, hash: Seq<u8>|
        0 <= x < infos.len() && #[trigger] shares_digest(
            entries,
            hashes,
            root,
            hash,
            components(infos[x].path@),
        ) ==> ints(h.at@).contains(x)
    &&& forall|k: int|
        0 <= k < h.at@.len() ==> keeps_text_names(
            entries,
            root,
            components(infos[#[trigger] h.at@[k] as int].path@),
        )
}

/// Lists the candidates that have a digest.
fn list_digests(
    infos: &Vec<DirInfo>,
    entries: &Vec<FileEntry>,
    hashes: &Vec<Option<[u8; 32]>>,
    Ghost(root): Ghost<Seq<u8>>,
) -> (r: HashedDirs)
    requires
        hashes@.len() == entries@.len(),
        lists_dirs(entry_models(entries@), root, infos@),
    ensures
        lists_digests(entry_models(entries@), hashes@, root, infos@, r),
{
    let ghost models = entry_models(entries@);
    let flags = mark_candidates(infos, Ghost(models), Ghost(root));
    let mut at: Vec<usize> = Vec::new();
    let mut digests: Vec<[u8; 32]> = Vec::new();
    let mut keys: Vec<Vec<u8>> = Vec::new();
    let mut x: usize = 0;
    while x < infos.len()
        invariant
            models == entry_models(entries@),
            hashes@.len() == models.len(),
            lists_dirs(models, root, infos@),
            flags@.len() == infos@.len(),
            forall|k: int|
                0 <= k < infos@.len() ==> #[trigger] flags@[k] == is_candidate_dir(
                    models,
                    root,
                    components(infos@[k].path@),
                ),
            x <= infos@.len(),
            at@.len() == digests@.len(),
            at@.len() == keys@.len(),
            forall|k: int| 0 <= k < keys@.len() ==> (#[trigger] keys@[k])@ == digests@[k]@,
            forall|k: int| 0 <= k < at@.len() ==> #[trigger] at@[k] < x,
            forall|k: int, l: int| 0 <= k < l < at@.len() ==> at@[k] < at@[l],
            forall|k: int|
                0 <= k < at@.len() ==> shares_digest(
                    models,
                    hashes@,
                    root,
                    (#[trigger] keys@[k])@,
                    components(infos@[at@[k] as int].path@),
                ),
            forall|y: int, hash: Seq<u8>|
                0 <= y < x && #[trigger] shares_digest(
                    models,
                    hashes@,
                    root,
                    hash,
                    components(infos@[y].path@),
                ) ==> ints(at@).contains(y),
            forall|k: int|
                0 <= k < at@.len() ==> keeps_text_names(
                    models,
                    root,
                    components(infos@[#[trigger] at@[k] as int].path@),
                ),
        decreases infos@.len() - x,
    {
        let ghost before = at@;
        let ghost dir = components(infos@[x as int].path@);
        if flags[x] {
            assert(describes(models, root, infos@[x as int]));
            match digest_dir(&infos[x], entries, hashes, Ghost(root)) {
                Some(h) => {
                    let key = slice_to_vec(h.as_slice());
                    assert(key@ =~= h@);
                    assert(shares_digest(models, hashes@, root, h@, dir));
                    at.push(x);
                    digests.push(h);
                    keys.push(key);
                    assert(ints(at@)[before.len() as int] == x as int);
                },
                None => {},
            }
        }
        proof {
            assert forall|y: int, hash: Seq<u8>|
                0 <= y < x + 1 && #[trigger] shares_digest(
                    models,
                    hashes@,
                    root,
                    hash,
                    components(infos@[y].path@),
                ) implies ints(at@).contains(y) by {
                if y < x {
                    assert(ints(before).contains(y));
                    let m = choose|m: int| 0 <= m < ints(before).len() && ints(before)[m] == y;
                    assert(ints(at@)[m] == y);
                } else {
                    assert(flags@[x as int]);
                }
            }
        }
        x = x + 1;
    }
    HashedDirs { at, digests, keys }
}

/// A class of equal keys is the class of directories with that digest.
proof fn lemma_digest_dirs(
    entries: Seq<FileModel>,
    hashes: Seq<Option<[u8; 32]>>,
    root: Seq<u8>,
    infos: Seq<DirInfo>,
    h: HashedDirs,
    group: Seq<usize>,
    first: int,
)
    requires
        lists_dirs(entries, root, infos),
        lists_digests(entries, hashes, root, infos, h),
        0 <= first < h.keys@.len(),
        ints(group) == positions(h.keys@.len() as int, |x: int| ties(&h.keys@[x], &h.keys@[first])),
    ensures
        forall|k: int|
            0 <= k < group.len() ==> #[trigger] group[k] < h.at@.len() && shares_digest(
                entries,
                hashes,
                root,
                h.keys@[first]@,
                components(infos[h.at@[group[k] as int] as int].path@),
            ),
        forall|k: int, l: int|
            0 <= k < l < group.len() ==> components(
                infos[h.at@[#[trigger] group[k] as int] as int].path@,
            ) != components(infos[h.at@[#[trigger] group[l] as int] as int].path@),
        forall|dir: Seq<Seq<u8>>| #[trigger]
            shares_digest(entries, hashes, root, h.keys@[first]@, dir) ==> exists|k: int|
                0 <= k < group.len() && components(
                    infos[h.at@[#[trigger] group[k] as int] as int].path@,
                ) == dir,
{
    let m = h.keys@.len() as int;
    let tied = |x: int| ties(&h.keys@[x], &h.keys@[first]);
    lemma_positions(m, tied);
    let hash = h.keys@[first]@;
    assert forall|k: int| 0 <= k < group.len() implies #[trigger] group[k] < h.at@.len()
        && shares_digest(
        entries,
        hashes,
        root,
        hash,
        components(infos[h.at@[group[k] as int] as int].path@),
    ) by {
        assert(ints(group)[k] == group[k] as int);
        let x = group[k] as int;
        assert(tied(x));
        bytes_order_linear(h.keys@[x]@, hash);
        assert(h.keys@[x]@ == hash);
    }
    assert forall|k: int, l: int| 0 <= k < l < group.len() implies components(
        infos[h.at@[#[trigger] group[k] as int] as int].path@,
    ) != components(infos[h.at@[#[trigger] group[l] as int] as int].path@) by {
        assert(ints(group)[k] < ints(group)[l]);
        assert(group[k] < h.at@.len() && group[l] < h.at@.len());
        let a = h.at@[group[k] as int];
        let b = h.at@[group[l] as int];
        assert(a < b);
        assert(components(infos[a as int].path@) != components(infos[b as int].path@));
    }
    assert forall|dir: Seq<Seq<u8>>| #[trigger]
        shares_digest(entries, hashes, root, hash, dir) implies exists|k: int|
        0 <= k < group.len() && components(infos[h.at@[#[trigger] group[k] as int] as int].path@)
            == dir by {
        assert(dir_files(entries, root, dir).len() >= 2);
        assert(has_info(infos, dir));
        let x = choose|x: int|
            0 <= x < infos.len() && components((#[trigger] infos[x]).path@) == dir;
        assert(shares_digest(entries, hashes, root, hash, components(infos[x].path@)));
        assert(ints(h.at@).contains(x));
        let y = choose|y: int| 0 <= y < ints(h.at@).len() && ints(h.at@)[y] == x;
        assert(h.at@[y] as int == x);
        assert(shares_digest(
            entries,
            hashes,
            root,
            h.keys@[y]@,
            components(infos[h.at@[y] as int].path@),
        ));
        assert(h.keys@[y]@ == hash);
        bytes_order_linear(h.keys@[y]@, hash);
        assert(tied(y));
        assert(ints(group).contains(y));
        let k = choose|k: int| 0 <= k < ints(group).len() && ints(group)[k] == y;
        assert(group[k] as int == y);
    }
}

/// The groups of directories with the same digest, in no particular order.
pub fn directory_groups(
    root: &FilePath,
    entries: &Vec<FileEntry>,
    hashes: &Vec<Option<[u8; 32]>>,
) -> (r: Vec<DirDup>)
    requires
        hashes@.len() == entries@.len(),
        dir_sizes_fit(entry_models(entries@), root@),
    ensures
        are_dir_groups(entry_models(entries@), hashes@, root@, r@),
        text_names_are_kept(entry_models(entries@), hashes@, root@),
{
    let ghost models = entry_models(entries@);
    let infos = list_dirs(root, entries);
    let h = list_digests(&infos, entries, hashes, Ghost(root@));
    let classes = group_ties(&h.keys);
    let mut out: Vec<DirDup> = Vec::new();
    let ghost mut from: Seq<int> = seq![];
    let mut c: usize = 0;
    while c < classes.len()
        invariant
            models == entry_models(entries@),
            lists_dirs(models, root@, infos@),
            lists_digests(models, hashes@, root@, infos@, h),
            groups_ties(h.keys@, classes@),
            c <= classes@.len(),
            forall|g: int|
                0 <= g < out@.len() ==> is_dir_group(models, hashes@, root@, #[trigger] out@[g]@),
            from.len() == out@.len(),
            forall|x: int| 0 <= x < from.len() ==> 0 <= #[trigger] from[x] < c,
            forall|x: int, y: int| 0 <= x < y < from.len() ==> from[x] < from[y],
            forall|g: int|
                0 <= g < out@.len() ==> #[trigger] out@[g]@.hash == h.keys@[leader(
                    classes@,
                    from[g],
                )]@,
            forall|d: int|
                0 <= d < c && classes@[d]@.len() >= 2 ==> has_dir_group(
                    out@,
                    h.keys@[#[trigger] leader(classes@, d)]@,
                ),
        decreases classes@.len() - c,
    {
        let ghost before = out@;
        let class = &classes[c];
        let ghost first = leader(classes@, c as int);
        proof {
            assert(0 <= leader(classes@, c as int));
            lemma_digest_dirs(models, hashes@, root@, infos@, h, class@, first);
        }
        if class.len() >= 2 {
            let mut dirs: Vec<DirEntry> = Vec::new();
            let mut k: usize = 0;
            while k < class.len()
                invariant
                    lists_dirs(models, root@, infos@),
                    k <= class@.len(),
                    dirs@.len() == k,
                    forall|m: int| 0 <= m < class@.len() ==> #[trigger] class@[m] < h.at@.len(),
                    forall|m: int| 0 <= m < h.at@.len() ==> #[trigger] h.at@[m] < infos@.len(),
                    forall|m: int|
                        0 <= m < k ==> (#[trigger] dirs@[m]).path@
                            == infos@[h.at@[class@[m] as int] as int].path@,
                    forall|m: int| 0 <= m < k ==> tells(models, root@, (#[trigger] dirs@[m])@),
                decreases class@.len() - k,
            {
                let at: usize = h.at[class[k]];
                let info = &infos[at];
                proof {
                    assert(describes(models, root@, infos@[at as int]));
                    assert(ints(info.members@).len() == info.members@.len());
                    assert(ints(info.members@)[0] == info.members@[0] as int);
                }
                dirs.push(
                    DirEntry {
                        path: info.path.clone(),
                        file_count: info.members.len(),
                        total_size: info.size,
                    },
                );
                k = k + 1;
            }
            let (keep, trash) = pick_keeper_dir(&dirs);
            let hash = h.digests[class[0]];
            let group = DirDup { hash, dirs, keep, trash };
            proof {
                assert(h.keys@[first]@ == h.digests@[first]@);
                lemma_dir_group(models, hashes@, root@, infos@, h, class@, first, group);
            }
            out.push(group);
            proof {
                from = from.push(c as int);
                assert(out@[before.len() as int] == group);
            }
        }
        proof {
            assert forall|d: int| 0 <= d < c + 1 && classes@[d]@.len() >= 2 implies has_dir_group(
                out@,
                h.keys@[#[trigger] leader(classes@, d)]@,
            ) by {
                if d < c {
                    assert(has_dir_group(before, h.keys@[leader(classes@, d)]@));
                    let g = choose|g: int|
                        0 <= g < before.len() && #[trigger] before[g]@.hash
                            == h.keys@[leader(classes@, d)]@;
                    assert(out@[g] == before[g]);
                } else {
                    assert(out@[before.len() as int]@.hash == h.keys@[first]@);
                }
            }
        }
        c = c + 1;
    }
    proof {
        assert forall|g: int, k: int| 0 <= g < k < out@.len() implies #[trigger] out@[g]@.hash
            != #[trigger] out@[k]@.hash by {
            assert(from[g] < from[k]);
            assert(!ties(
                &h.keys@[leader(classes@, from[g])],
                &h.keys@[leader(classes@, from[k])],
            ));
            bytes_order_linear(
                h.keys@[leader(classes@, from[g])]@,
                h.keys@[leader(classes@, from[k])]@,
            );
        }
        assert forall|hash: Seq<u8>| #[trigger]
            is_shared(models, hashes@, root@, hash) implies has_dir_group(out@, hash) by {
            lemma_digest_found(models, hashes@, root@, infos@, h, classes@, hash);
            let d = choose|d: int|
                0 <= d < classes@.len() && h.keys@[#[trigger] leader(classes@, d)]@ == hash
                    && classes@[d]@.len() >= 2;
            assert(has_dir_group(out@, h.keys@[leader(classes@, d)]@));
        }
        assert forall|hash: Seq<u8>, dir: Seq<Seq<u8>>| #[trigger]
            shares_digest(models, hashes@, root@, hash, dir) implies keeps_text_names(
            models,
            root@,
            dir,
        ) by {
            assert(dir_files(models, root@, dir).len() >= 2);
            assert(has_info(infos@, dir));
            let x = choose|x: int|
                0 <= x < infos@.len() && components((#[trigger] infos@[x]).path@) == dir;
            assert(shares_digest(models, hashes@, root@, hash, components(infos@[x].path@)));
            assert(ints(h.at@).contains(x));
            let k = choose|k: int| 0 <= k < ints(h.at@).len() && ints(h.at@)[k] == x;
            assert(h.at@[k] as int == x);
        }
    }
    out
}

/// A class of equal keys with at least two members makes a group.
proof fn lemma_dir_group(
    entries: Seq<FileModel>,
    hashes: Seq<Option<[u8; 32]>>,
    root: Seq<u8>,
    infos: Seq<DirInfo>,
    h: HashedDirs,
    class: Seq<usize>,
    first: int,
    g: DirDup,
)
    requires
        lists_dirs(entries, root, infos),
        lists_digests(entries, hashes, root, infos, h),
        0 <= first < h.keys@.len(),
        ints(class) == positions(h.keys@.len() as int, |x: int| ties(&h.keys@[x], &h.keys@[first])),
        class.len() >= 2,
        g.hash@ == h.keys@[first]@,
        g.dirs@.len() == class.len(),
        forall|m: int|
            0 <= m < class.len() ==> (#[trigger] g.dirs@[m]).path@
                == infos[h.at@[class[m] as int] as int].path@,
        forall|m: int| 0 <= m < class.len() ==> tells(entries, root, (#[trigger] g.dirs@[m])@),
        picks_dir(dir_models(g.dirs@), g.keep@, path_bytes(g.trash@)),
    ensures
        is_dir_group(entries, hashes, root, g@),
{
    lemma_digest_dirs(entries, hashes, root, infos, h, class, first);
    let dirs = g@.dirs;
    assert forall|i: int| 0 <= i < dirs.len() implies shares_digest(
        entries,
        hashes,
        root,
        g@.hash,
        components((#[trigger] dirs[i]).path),
    ) && tells(entries, root, dirs[i]) by {
        assert(dirs[i] == g.dirs@[i]@);
        assert(class[i] < h.at@.len());
    }
    assert forall|i: int, j: int| 0 <= i < j < dirs.len() implies components(
        (#[trigger] dirs[i]).path,
    ) != components((#[trigger] dirs[j]).path) by {
        assert(dirs[i] == g.dirs@[i]@ && dirs[j] == g.dirs@[j]@);
        assert(class[i] < h.at@.len() && class[j] < h.at@.len());
    }
    assert forall|dir: Seq<Seq<u8>>| #[trigger]
        shares_digest(entries, hashes, root, g@.hash, dir) implies has_dir(dirs, dir) by {
        let k = choose|k: int|
            0 <= k < class.len() && components(infos[h.at@[#[trigger] class[k] as int] as int].path@)
                == dir;
        assert(dirs[k] == g.dirs@[k]@);
    }
}

/// A digest that two directories have leads a class with at least two members.
proof fn lemma_digest_found(
    entries: Seq<FileModel>,
    hashes: Seq<Option<[u8; 32]>>,
    root: Seq<u8>,
    infos: Seq<DirInfo>,
    h: HashedDirs,
    classes: Seq<Vec<usize>>,
    hash: Seq<u8>,
)
    requires
        lists_dirs(entries, root, infos),
        lists_digests(entries, hashes, root, infos, h),
        groups_ties(h.keys@, classes),
        is_shared(entries, hashes, root, hash),
    ensures
        exists|d: int|
            0 <= d < classes.len() && h.keys@[#[trigger] leader(classes, d)]@ == hash
                && classes[d]@.len() >= 2,
{
    let (a, b) = choose|a: Seq<Seq<u8>>, b: Seq<Seq<u8>>|
        a != b && #[trigger] shares_digest(entries, hashes, root, hash, a)
            && #[trigger] shares_digest(entries, hashes, root, hash, b);
    assert(dir_files(entries, root, a).len() >= 2);
    assert(has_info(infos, a));
    let x = choose|x: int| 0 <= x < infos.len() && components((#[trigger] infos[x]).path@) == a;
    assert(shares_digest(entries, hashes, root, hash, components(infos[x].path@)));
    assert(ints(h.at@).contains(x));
    let y = choose|y: int| 0 <= y < ints(h.at@).len() && ints(h.at@)[y] == x;
    assert(h.at@[y] as int == x);
    assert(shares_digest(
        entries,
        hashes,
        root,
        h.keys@[y]@,
        components(infos[h.at@[y] as int].path@),
    ));
    assert(is_grouped(h.keys@, classes, y));
    let d = choose|d: int|
        0 <= d < classes.len() && ties(&h.keys@[y], &h.keys@[#[trigger] leader(classes, d)]);
    let first = leader(classes, d);
    assert(0 <= leader(classes, d));
    bytes_order_linear(h.keys@[y]@, h.keys@[first]@);
    assert(h.keys@[first]@ == hash);
    lemma_digest_dirs(entries, hashes, root, infos, h, classes[d]@, first);
    let k = choose|k: int|
        0 <= k < classes[d]@.len() && components(
            infos[h.at@[#[trigger] classes[d]@[k] as int] as int].path@,
        ) == a;
    let l = choose|l: int|
        0 <= l < classes[d]@.len() && components(
            infos[h.at@[#[trigger] classes[d]@[l] as int] as int].path@,
        ) == b;
    assert(k != l);
}

/// Whether `outer` is a proper ancestor of `path`.
pub open spec fn is_below(path: Seq<u8>, outer: Seq<u8>) -> bool {
    is_under(path, outer) && components(path) != components(outer)
}

/// Whether `path` lies below a directory of a group other than group `g`.
pub open spec fn lies_below_other(groups: Seq<DirDup>, g: int, path: Seq<u8>) -> bool {
    exists|h: int, i: int|
        0 <= h < groups.len() && h != g && 0 <= i < groups[h]@.dirs.len() && is_below(
            path,
            (#[trigger] groups[h]@.dirs[i]).path,
        )
}

/// Whether all the directories of group `g` lie below directories of others.
pub open spec fn is_nested(groups: Seq<DirDup>, g: int) -> bool {
    forall|i: int|
        0 <= i < groups[g]@.dirs.len() ==> lies_below_other(
            groups,
            g,
            (#[trigger] groups[g]@.dirs[i]).path,
        )
}

/// Whether `path` lies below a directory of a group other than group `g`.
fn check_below(groups: &Vec<DirDup>, g: usize, path: &FilePath) -> (r: bool)
    ensures
        r == lies_below_other(groups@, g as int, path@),
{
    let mut h: usize = 0;
    while h < groups.len()
        invariant
            h <= groups@.len(),
            forall|k: int, i: int|
                0 <= k < h && k != g && 0 <= i < groups@[k]@.dirs.len() ==> !is_below(
                    path@,
                    (#[trigger] groups@[k]@.dirs[i]).path,
                ),
        decreases groups@.len() - h,
    {
        if h != g {
            let mut i: usize = 0;
            while i < groups[h].dirs.len()
                invariant
                    h < groups@.len(),
                    h != g,
                    i <= groups@[h as int].dirs@.len(),
                    forall|k: int|
                        0 <= k < i ==> !is_below(
                            path@,
                            (#[trigger] groups@[h as int]@.dirs[k]).path,
                        ),
                decreases groups@[h as int].dirs@.len() - i,
            {
                let outer = &groups[h].dirs[i].path;
                assert(groups@[h as int]@.dirs[i as int].path == outer@);
                if path.starts_with(outer) && !path.same_as(outer) {
                    return true;
                }
                i = i + 1;
            }
        }
        h = h + 1;
    }
    false
}

/// Drops the groups whose directories all lie below directories of other
/// groups: these are duplicates because what holds them is.
pub fn drop_nested_duplicates(groups: Vec<DirDup>) -> (r: Vec<DirDup>)
    ensures
        r@ == items_at(
            groups@,
            positions(groups@.len() as int, |g: int| !is_nested(groups@, g)),
        ),
{
    let mut flags: Vec<bool> = Vec::new();
    let mut g: usize = 0;
    while g < groups.len()
        invariant
            g <= groups@.len(),
            flags@.len() == g,
            forall|k: int| 0 <= k < g ==> #[trigger] flags@[k] == !is_nested(groups@, k),
        decreases groups@.len() - g,
    {
        let mut nested = true;
        let mut i: usize = 0;
        while i < groups[g].dirs.len()
            invariant
                g < groups@.len(),
                i <= groups@[g as int].dirs@.len(),
                nested == forall|k: int|
                    0 <= k < i ==> lies_below_other(
                        groups@,
                        g as int,
                        (#[trigger] groups@[g as int]@.dirs[k]).path,
                    ),
            decreases groups@[g as int].dirs@.len() - i,
        {
            let path = &groups[g].dirs[i].path;
            assert(groups@[g as int]@.dirs[i as int].path == path@);
            if !check_below(&groups, g, path) {
                nested = false;
            }
            i = i + 1;
        }
        assert(groups@[g as int]@.dirs.len() == i);
        flags.push(!nested);
        g = g + 1;
    }
    proof {
        lemma_positions_agree(
            groups@.len() as int,
            |i: int| flags@[i],
            |g: int| !is_nested(groups@, g),
        );
    }
    keep_marked(groups, &flags)
}

/// Whether a directory with another shared digest properly contains `dir`.
pub open spec fn has_shared_ancestor(
    entries: Seq<FileModel>,
    hashes: Seq<Option<[u8; 32]>>,
    root: Seq<u8>,
    hash: Seq<u8>,
    dir: Seq<Seq<u8>>,
) -> bool {
    exists|other: Seq<u8>, outer: Seq<Seq<u8>>|
        other != hash && is_shared(entries, hashes, root, other) && #[trigger] shares_digest(
            entries,
            hashes,
            root,
            other,
            outer,
        ) && outer.len() < dir.len() && dir.take(outer.len() as int) == outer
}

/// Whether all the directories with the digest `hash` lie below directories with
/// other shared digests.
pub open spec fn is_nested_digest(
    entries: Seq<FileModel>,
    hashes: Seq<Option<[u8; 32]>>,
    root: Seq<u8>,
    hash: Seq<u8>,
) -> bool {
    forall|dir: Seq<Seq<u8>>| #[trigger]
        shares_digest(entries, hashes, root, hash, dir) ==> has_shared_ancestor(
            entries,
            hashes,
            root,
            hash,
            dir,
        )
}

/// Whether `groups` are the topmost groups of directories with the same digest:
/// one for each digest that at least two directories have and that is not nested.
pub open spec fn are_top_groups(
    entries: Seq<FileModel>,
    hashes: Seq<Option<[u8; 32]>>,
    root: Seq<u8>,
    groups: Seq<DirDup>,
) -> bool {
    &&& forall|g: int|
        0 <= g < groups.len() ==> is_dir_group(entries, hashes, root, #[trigger] groups[g]@)
            && !is_nested_digest(entries, hashes, root, groups[g]@.hash)
    &&& forall|g: int, h: int|
        0 <= g < h < groups.len() ==> #[trigger] groups[g]@.hash != #[trigger] groups[h]@.hash
    &&& forall|hash: Seq<u8>| #[trigger]
        is_shared(entries, hashes, root, hash) && !is_nested_digest(entries, hashes, root, hash)
            ==> has_dir_group(groups, hash)
}

/// A path lies below a directory of another group just when its directory has a
/// shared ancestor.
proof fn lemma_lies_below(
    entries: Seq<FileModel>,
    hashes: Seq<Option<[u8; 32]>>,
    root: Seq<u8>,
    groups: Seq<DirDup>,
    g: int,
    path: Seq<u8>,
)
    requires
        are_dir_groups(entries, hashes, root, groups),
        0 <= g < groups.len(),
    ensures
        lies_below_other(groups, g, path) == has_shared_ancestor(
            entries,
            hashes,
            root,
            groups[g]@.hash,
            components(path),
        ),
{
    let hash = groups[g]@.hash;
    let dir = components(path);
    if lies_below_other(groups, g, path) {
        let (h, i) = choose|h: int, i: int|
            0 <= h < groups.len() && h != g && 0 <= i < groups[h]@.dirs.len() && is_below(
                path,
                (#[trigger] groups[h]@.dirs[i]).path,
            );
        let other = groups[h]@.hash;
        let outer = components(groups[h]@.dirs[i].path);
        assert(is_dir_group(entries, hashes, root, groups[h]@));
        assert(shares_digest(entries, hashes, root, other, outer));
        assert(other != hash) by {
            if h < g {
                assert(groups[h]@.hash != groups[g]@.hash);
            } else {
                assert(groups[g]@.hash != groups[h]@.hash);
            }
        }
        lemma_group_is_shared(entries, hashes, root, groups[h]@);
        assert(outer.len() < dir.len()) by {
            if outer.len() == dir.len() {
                assert(dir.take(outer.len() as int) =~= dir);
            }
        }
    }
    if has_shared_ancestor(entries, hashes, root, hash, dir) {
        let (other, outer) = choose|other: Seq<u8>, outer: Seq<Seq<u8>>|
            other != hash && is_shared(entries, hashes, root, other) && #[trigger] shares_digest(
                entries,
                hashes,
                root,
                other,
                outer,
            ) && outer.len() < dir.len() && dir.take(outer.len() as int) == outer;
        assert(has_dir_group(groups, other));
        let h = choose|h: int| 0 <= h < groups.len() && #[trigger] groups[h]@.hash == other;
        assert(is_dir_group(entries, hashes, root, groups[h]@));
        assert(has_dir(groups[h]@.dirs, outer));
        let i = choose|i: int|
            0 <= i < groups[h]@.dirs.len() && components((#[trigger] groups[h]@.dirs[i]).path)
                == outer;
        assert(is_below(path, groups[h]@.dirs[i].path));
    }
}

/// At least two directories have the digest of a group.
proof fn lemma_group_is_shared(
    entries: Seq<FileModel>,
    hashes: Seq<Option<[u8; 32]>>,
    root: Seq<u8>,
    g: DirDupModel,
)
    requires
        is_dir_group(entries, hashes, root, g),
    ensures
        is_shared(entries, hashes, root, g.hash),
{
    let a = components(g.dirs[0].path);
    let b = components(g.dirs[1].path);
    assert(shares_digest(entries, hashes, root, g.hash, a));
    assert(shares_digest(entries, hashes, root, g.hash, b));
    assert(a != b);
}

/// A group is nested just when its digest is.
proof fn lemma_nested(
    entries: Seq<FileModel>,
    hashes: Seq<Option<[u8; 32]>>,
    root: Seq<u8>,
    groups: Seq<DirDup>,
    g: int,
)
    requires
        are_dir_groups(entries, hashes, root, groups),
        0 <= g < groups.len(),
    ensures
        is_nested(groups, g) == is_nested_digest(entries, hashes, root, groups[g]@.hash),
{
    let hash = groups[g]@.hash;
    let dirs = groups[g]@.dirs;
    assert(is_dir_group(entries, hashes, root, groups[g]@));
    assert forall|i: int| 0 <= i < dirs.len() implies lies_below_other(
        groups,
        g,
        (#[trigger] dirs[i]).path,
    ) == has_shared_ancestor(entries, hashes, root, hash, components(dirs[i].path)) by {
        lemma_lies_below(entries, hashes, root, groups, g, dirs[i].path);
    }
    if is_nested(groups, g) {
        assert forall|dir: Seq<Seq<u8>>| #[trigger]
            shares_digest(entries, hashes, root, hash, dir) implies has_shared_ancestor(
            entries,
            hashes,
            root,
            hash,
            dir,
        ) by {
            assert(has_dir(dirs, dir));
            let i = choose|i: int|
                0 <= i < dirs.len() && components((#[trigger] dirs[i]).path) == dir;
            assert(lies_below_other(groups, g, dirs[i].path));
        }
    }
    if is_nested_digest(entries, hashes, root, hash) {
        assert forall|i: int| 0 <= i < groups[g]@.dirs.len() implies lies_below_other(
            groups,
            g,
            (#[trigger] groups[g]@.dirs[i]).path,
        ) by {
            assert(shares_digest(entries, hashes, root, hash, components(dirs[i].path)));
        }
    }
}

/// The groups of directories with the same digest, but for the nested ones, in
/// no particular order.
pub fn topmost_groups(
    root: &FilePath,
    entries: &Vec<FileEntry>,
    hashes: &Vec<Option<[u8; 32]>>,
) -> (r: Vec<DirDup>)
    requires
        hashes@.len() == entries@.len(),
        dir_sizes_fit(entry_models(entries@), root@),
    ensures
        are_top_groups(entry_models(entries@), hashes@, root@, r@),
        text_names_are_kept(entry_models(entries@), hashes@, root@),
{
    let ghost models = entry_models(entries@);
    let groups = directory_groups(root, entries, hashes);
    let ghost all = groups@;
    let ghost kept = |g: int| !is_nested(all, g);
    let r = drop_nested_duplicates(groups);
    proof {
        let places = positions(all.len() as int, kept);
        lemma_positions(all.len() as int, kept);
        assert forall|g: int| 0 <= g < r@.len() implies is_dir_group(
            models,
            hashes@,
            root@,
            #[trigger] r@[g]@,
        ) && !is_nested_digest(models, hashes@, root@, r@[g]@.hash) by {
            assert(r@[g] == all[places[g]]);
            assert(kept(places[g]));
            assert(is_dir_group(models, hashes@, root@, all[places[g]]@));
            lemma_nested(models, hashes@, root@, all, places[g]);
        }
        assert forall|g: int, h: int| 0 <= g < h < r@.len() implies #[trigger] r@[g]@.hash
            != #[trigger] r@[h]@.hash by {
            assert(places[g] < places[h]);
            assert(all[places[g]]@.hash != all[places[h]]@.hash);
        }
        assert forall|hash: Seq<u8>| #[trigger]
            is_shared(models, hashes@, root@, hash) && !is_nested_digest(
                models,
                hashes@,
                root@,
                hash,
            ) implies has_dir_group(r@, hash) by {
            assert(has_dir_group(all, hash));
            let g = choose|g: int| 0 <= g < all.len() && #[trigger] all[g]@.hash == hash;
            lemma_nested(models, hashes@, root@, all, g);
            assert(kept(g));
            assert(places.contains(g));
            let k = choose|k: int| 0 <= k < places.len() && places[k] == g;
            assert(r@[k] == all[g]);
        }
    }
    r
}

/// Whether `groups` are listed by what they free, the most first.
pub open spec fn dirs_most_reclaimable_first(groups: Seq<DirDup>) -> bool {
    forall|g: int, h: int|
        0 <= g < h < groups.len() ==> #[trigger] groups[g]@.reclaimable()
            >= #[trigger] groups[h]@.reclaimable()
}

/// Lists groups by what they free, the most first. Groups that free the same
/// keep their order.
pub fn sort_dir_groups(groups: Vec<DirDup>) -> (r: Vec<DirDup>)
    requires
        forall|g: int|
            0 <= g < groups@.len() ==> #[trigger] groups@[g]@.reclaimable() <= u64::MAX,
    ensures
        dirs_most_reclaimable_first(r@),
        exists|order: Seq<usize>|
            heaviest_first(groups@, order) && r@ == #[trigger] rearranged(groups@, order),
{
    assert forall|g: int| 0 <= g < groups@.len() implies (#[trigger] groups@[g]).weight()
        <= u64::MAX by {
        assert(groups@[g]@.reclaimable() <= u64::MAX);
    }
    let ghost before = groups@;
    let r = sort_by_weight(groups);
    proof {
        let order = choose|order: Seq<usize>|
            heaviest_first(before, order) && r@ == #[trigger] rearranged(before, order);
        assert forall|g: int, h: int| 0 <= g < h < r@.len() implies
            #[trigger] r@[g]@.reclaimable() >= #[trigger] r@[h]@.reclaimable() by {
            assert(before[order[g] as int].weight() >= before[order[h] as int].weight());
        }
    }
    r
}

/// What every topmost group frees is a number that fits, whichever of its
/// directories comes first.
pub open spec fn dir_dups_fit(
    entries: Seq<FileModel>,
    hashes: Seq<Option<[u8; 32]>>,
    root: Seq<u8>,
) -> bool {
    forall|g: DirDupModel, i: int| #[trigger]
        is_dir_group(entries, hashes, root, g) && !is_nested_digest(
            entries,
            hashes,
            root,
            g.hash,
        ) && 0 <= i < g.dirs.len() ==> (#[trigger] g.dirs[i]).total_size * g.trash.len()
            <= u64::MAX
}

/// Finds the directories below `root` with the same contents. `hashes` holds the
/// digest of each file that `dirs::dir_hash_candidates` lists, or nothing where it
/// could not be had. Groups that free the most come first.
pub fn find_duplicate_dirs(
    root: &FilePath,
    entries: &Vec<FileEntry>,
    hashes: &Vec<Option<[u8; 32]>>,
) -> (r: Vec<DirDup>)
    requires
        hashes@.len() == entries@.len(),
        dir_sizes_fit(entry_models(entries@), root@),
        dir_dups_fit(entry_models(entries@), hashes@, root@),
    ensures
        are_top_groups(entry_models(entries@), hashes@, root@, r@),
        dirs_most_reclaimable_first(r@),
        text_names_are_kept(entry_models(entries@), hashes@, root@),
{
    let ghost models = entry_models(entries@);
    let groups = topmost_groups(root, entries, hashes);
    let ghost before = groups@;
    let total: usize = groups.len();
    proof {
        assert(before.len() == total);
        assert forall|g: int| 0 <= g < groups@.len() implies
            #[trigger] groups@[g]@.reclaimable() <= u64::MAX by {
            assert(is_dir_group(models, hashes@, root@, groups@[g]@));
            assert(groups@[g]@.dirs[0].total_size * groups@[g]@.trash.len() <= u64::MAX);
        }
    }
    let r = sort_dir_groups(groups);
    proof {
        let order = choose|order: Seq<usize>|
            is_permutation(before.len() as int, order) && r@ == #[trigger] rearranged(
                before,
                order,
            );
        assert forall|g: int| 0 <= g < r@.len() implies is_dir_group(
            models,
            hashes@,
            root@,
            #[trigger] r@[g]@,
        ) && !is_nested_digest(models, hashes@, root@, r@[g]@.hash) by {
            assert(r@[g] == before[order[g] as int]);
            assert(is_dir_group(models, hashes@, root@, before[order[g] as int]@));
        }
        assert forall|g: int, h: int| 0 <= g < h < r@.len() implies
            #[trigger] r@[g]@.hash != #[trigger] r@[h]@.hash by {
            assert(order[g] != order[h]);
            assert(r@[g] == before[order[g] as int]);
            assert(r@[h] == before[order[h] as int]);
        }
        assert forall|hash: Seq<u8>| #[trigger]
            is_shared(models, hashes@, root@, hash) && !is_nested_digest(
                models,
                hashes@,
                root@,
                hash,
            ) implies has_dir_group(r@, hash) by {
            assert(has_dir_group(before, hash));
            let g = choose|g: int| 0 <= g < before.len() && #[trigger] before[g]@.hash == hash;
            assert(order.contains(g as usize));
            let i = choose|i: int| 0 <= i < order.len() && order[i] == g as usize;
            assert(r@[i]@.hash == hash);
        }
    }
    r
}

/// Two groups with one digest list the same directories.
proof fn lemma_same_group(
    entries: Seq<FileModel>,
    hashes: Seq<Option<[u8; 32]>>,
    root: Seq<u8>,
    f: DirDupModel,
    g: DirDupModel,
)
    requires
        is_dir_group(entries, hashes, root, f),
        is_dir_group(entries, hashes, root, g),
        f.hash == g.hash,
    ensures
        f.dirs.len() == g.dirs.len(),
        forall|i: int|
            0 <= i < g.dirs.len() ==> exists|j: int|
                0 <= j < f.dirs.len() && (#[trigger] f.dirs[j]).total_size
                    == (#[trigger] g.dirs[i]).total_size,
{
    let a = Seq::new(f.dirs.len(), |i: int| components(f.dirs[i].path));
    let b = Seq::new(g.dirs.len(), |i: int| components(g.dirs[i].path));
    assert(a.no_duplicates()) by {
        assert forall|i: int, j: int| 0 <= i < a.len() && 0 <= j < a.len() && i != j implies a[i]
            != a[j] by {
            if i < j {
                assert(components(f.dirs[i].path) != components(f.dirs[j].path));
            } else {
                assert(components(f.dirs[j].path) != components(f.dirs[i].path));
            }
        }
    }
    assert(b.no_duplicates()) by {
        assert forall|i: int, j: int| 0 <= i < b.len() && 0 <= j < b.len() && i != j implies b[i]
            != b[j] by {
            if i < j {
                assert(components(g.dirs[i].path) != components(g.dirs[j].path));
            } else {
                assert(components(g.dirs[j].path) != components(g.dirs[i].path));
            }
        }
    }
    assert forall|i: int| 0 <= i < g.dirs.len() implies exists|j: int|
        0 <= j < f.dirs.len() && components(f.dirs[j].path) == b[i] && (
        #[trigger] f.dirs[j]).total_size == (#[trigger] g.dirs[i]).total_size by {
        assert(shares_digest(entries, hashes, root, f.hash, components(g.dirs[i].path)));
        assert(has_dir(f.dirs, components(g.dirs[i].path)));
        let j = choose|j: int|
            0 <= j < f.dirs.len() && components((#[trigger] f.dirs[j]).path) == components(
                g.dirs[i].path,
            );
        assert(tells(entries, root, f.dirs[j]));
        assert(tells(entries, root, g.dirs[i]));
        assert(f.dirs[j].total_size == g.dirs[i].total_size);
    }
    assert(a.to_set() =~= b.to_set()) by {
        assert forall|d: Seq<Seq<u8>>| a.contains(d) implies b.contains(d) by {
            let i = choose|i: int| 0 <= i < a.len() && a[i] == d;
            assert(shares_digest(entries, hashes, root, g.hash, components(f.dirs[i].path)));
            assert(has_dir(g.dirs, d));
            let j = choose|j: int| 0 <= j < g.dirs.len() && components((#[trigger] g.dirs[j]).path) == d;
            assert(b[j] == d);
        }
        assert forall|d: Seq<Seq<u8>>| b.contains(d) implies a.contains(d) by {
            let i = choose|i: int| 0 <= i < b.len() && b[i] == d;
            assert(shares_digest(entries, hashes, root, f.hash, components(g.dirs[i].path)));
            assert(has_dir(f.dirs, d));
            let j = choose|j: int| 0 <= j < f.dirs.len() && components((#[trigger] f.dirs[j]).path) == d;
            assert(a[j] == d);
        }
    }
    a.unique_seq_to_set();
    b.unique_seq_to_set();
}

/// Finds the directories below `root` with the same contents, as
/// `find_duplicate_dirs` does. `None` if a size that is needed does not fit.
pub fn try_find_duplicate_dirs(
    root: &FilePath,
    entries: &Vec<FileEntry>,
    hashes: &Vec<Option<[u8; 32]>>,
) -> (r: Option<Vec<DirDup>>)
    requires
        hashes@.len() == entries@.len(),
    ensures
        match r {
            Some(groups) => {
                &&& dir_sizes_fit(entry_models(entries@), root@)
                &&& dir_dups_fit(entry_models(entries@), hashes@, root@)
                &&& are_top_groups(entry_models(entries@), hashes@, root@, groups@)
                &&& dirs_most_reclaimable_first(groups@)
                &&& text_names_are_kept(entry_models(entries@), hashes@, root@)
            },
            None => !dir_sizes_fit(entry_models(entries@), root@) || !dir_dups_fit(
                entry_models(entries@),
                hashes@,
                root@,
            ),
        },
{
    let ghost models = entry_models(entries@);
    if !check_dir_sizes(root, entries) {
        return None;
    }
    let groups = topmost_groups(root, entries, hashes);
    let mut g: usize = 0;
    while g < groups.len()
        invariant
            models == entry_models(entries@),
            are_top_groups(models, hashes@, root@, groups@),
            g <= groups@.len(),
            forall|k: int, i: int|
                0 <= k < g && 0 <= i < groups@[k]@.dirs.len() ==> (
                #[trigger] groups@[k]@.dirs[i]).total_size * groups@[k]@.trash.len() <= u64::MAX,
        decreases groups@.len() - g,
    {
        let n: u64 = groups[g].trash.len() as u64;
        let ghost group = groups@[g as int]@;
        assert(is_dir_group(models, hashes@, root@, groups@[g as int]@));
        assert(group.trash.len() == n);
        let mut i: usize = 0;
        while i < groups[g].dirs.len()
            invariant
                models == entry_models(entries@),
                g < groups@.len(),
                group == groups@[g as int]@,
                group.trash.len() == n,
                is_dir_group(models, hashes@, root@, group),
                !is_nested_digest(models, hashes@, root@, group.hash),
                i <= groups@[g as int].dirs@.len(),
                forall|k: int|
                    0 <= k < i ==> (#[trigger] group.dirs[k]).total_size * group.trash.len()
                        <= u64::MAX,
            decreases groups@[g as int].dirs@.len() - i,
        {
            let size: u64 = groups[g].dirs[i].total_size;
            assert(group.dirs[i as int].total_size == size);
            if size.checked_mul(n).is_none() {
                assert(group.dirs[i as int].total_size * group.trash.len() > u64::MAX);
                return None;
            }
            i = i + 1;
        }
        g = g + 1;
    }
    proof {
        assert forall|f: DirDupModel, i: int| #[trigger]
            is_dir_group(models, hashes@, root@, f) && !is_nested_digest(
                models,
                hashes@,
                root@,
                f.hash,
            ) && 0 <= i < f.dirs.len() implies (#[trigger] f.dirs[i]).total_size * f.trash.len()
            <= u64::MAX by {
            lemma_group_is_shared(models, hashes@, root@, f);
            assert(has_dir_group(groups@, f.hash));
            let k = choose|k: int|
                0 <= k < groups@.len() && #[trigger] groups@[k]@.hash == f.hash;
            let found = groups@[k]@;
            assert(is_dir_group(models, hashes@, root@, groups@[k]@));
            lemma_same_group(models, hashes@, root@, found, f);
            let j = choose|j: int|
                0 <= j < found.dirs.len() && (#[trigger] found.dirs[j]).total_size
                    == f.dirs[i].total_size;
            assert(found.trash.len() == found.dirs.len() - 1);
            assert(f.trash.len() == f.dirs.len() - 1);
            assert(groups@[k]@.dirs[j].total_size * groups@[k]@.trash.len() <= u64::MAX);
        }
    }
    Some(find_duplicate_dirs(root, entries, hashes))
}

/// One directory of a group is kept, at least as shallow as every other, and
/// exactly the others are trashed.
pub proof fn a_group_keeps_one_directory(
    entries: Seq<FileModel>,
    hashes: Seq<Option<[u8; 32]>>,
    root: Seq<u8>,
    g: DirDupModel,
)
    requires
        is_dir_group(entries, hashes, root, g),
    ensures
        exists|k: int|
            0 <= k < g.dirs.len() && (#[trigger] g.dirs[k]).path == g.keep && g.trash == dir_paths(
                g.dirs,
            ).remove(k),
        g.trash.len() == g.dirs.len() - 1,
        forall|i: int|
            0 <= i < g.dirs.len() ==> components(g.keep).len() <= components(
                (#[trigger] g.dirs[i]).path,
            ).len(),
{
    let k = choose|k: int|
        #[trigger] is_keeper_dir(g.dirs, k) && g.keep == g.dirs[k].path && g.trash == dir_paths(
            g.dirs,
        ).remove(k);
    assert(g.dirs[k].path == g.keep);
    assert forall|i: int| 0 <= i < g.dirs.len() implies components(g.keep).len() <= components(
        (#[trigger] g.dirs[i]).path,
    ).len() by {
        if i != k {
            assert(dir_keeps_over(g.dirs[k], g.dirs[i]));
        }
    }
}

/// A directory with fewer than two files is in no group.
pub proof fn a_directory_with_one_file_is_in_no_group(
    entries: Seq<FileModel>,
    hashes: Seq<Option<[u8; 32]>>,
    root: Seq<u8>,
    hash: Seq<u8>,
    dir: Seq<Seq<u8>>,
)
    requires
        dir_files(entries, root, dir).len() < 2,
    ensures
        !shares_digest(entries, hashes, root, hash, dir),
{
}

/// Whether a directory of some group properly contains `dir`.
pub open spec fn lies_below_group(groups: Seq<DirDup>, dir: Seq<Seq<u8>>) -> bool {
    exists|g: int, outer: Seq<Seq<u8>>|
        0 <= g < groups.len() && #[trigger] has_dir(groups[g]@.dirs, outer) && outer.len()
            < dir.len() && dir.take(outer.len() as int) == outer
}

/// Above a directory with a shared digest, or at it, stands one of a group.
proof fn lemma_topmost(
    entries: Seq<FileModel>,
    hashes: Seq<Option<[u8; 32]>>,
    root: Seq<u8>,
    groups: Seq<DirDup>,
    hash: Seq<u8>,
    outer: Seq<Seq<u8>>,
    dir: Seq<Seq<u8>>,
)
    requires
        are_top_groups(entries, hashes, root, groups),
        is_shared(entries, hashes, root, hash),
        shares_digest(entries, hashes, root, hash, outer),
        outer.len() < dir.len(),
        dir.take(outer.len() as int) == outer,
    ensures
        lies_below_group(groups, dir),
    decreases outer.len(),
{
    if is_nested_digest(entries, hashes, root, hash) {
        assert(has_shared_ancestor(entries, hashes, root, hash, outer));
        let (other, above) = choose|other: Seq<u8>, above: Seq<Seq<u8>>|
            other != hash && is_shared(entries, hashes, root, other) && #[trigger] shares_digest(
                entries,
                hashes,
                root,
                other,
                above,
            ) && above.len() < outer.len() && outer.take(above.len() as int) == above;
        assert(dir.take(above.len() as int) =~= outer.take(above.len() as int));
        lemma_topmost(entries, hashes, root, groups, other, above, dir);
    } else {
        assert(has_dir_group(groups, hash));
        let g = choose|g: int| 0 <= g < groups.len() && #[trigger] groups[g]@.hash == hash;
        assert(is_dir_group(entries, hashes, root, groups[g]@));
        assert(has_dir(groups[g]@.dirs, outer));
    }
}

/// Only what the groups cover is dropped: a directory that shares its digest
/// with another stands in a group or lies below a directory of one.
pub proof fn what_is_dropped_lies_below_a_group(
    entries: Seq<FileModel>,
    hashes: Seq<Option<[u8; 32]>>,
    root: Seq<u8>,
    groups: Seq<DirDup>,
    hash: Seq<u8>,
    dir: Seq<Seq<u8>>,
)
    requires
        are_top_groups(entries, hashes, root, groups),
        is_shared(entries, hashes, root, hash),
        shares_digest(entries, hashes, root, hash, dir),
    ensures
        lies_below_group(groups, dir) || exists|g: int|
            0 <= g < groups.len() && #[trigger] groups[g]@.hash == hash && has_dir(
                groups[g]@.dirs,
                dir,
            ),
{
    if is_nested_digest(entries, hashes, root, hash) {
        assert(has_shared_ancestor(entries, hashes, root, hash, dir));
        let (other, outer) = choose|other: Seq<u8>, outer: Seq<Seq<u8>>|
            other != hash && is_shared(entries, hashes, root, other) && #[trigger] shares_digest(
                entries,
                hashes,
                root,
                other,
                outer,
            ) && outer.len() < dir.len() && dir.take(outer.len() as int) == outer;
        lemma_topmost(entries, hashes, root, groups, other, outer, dir);
    } else {
        assert(has_dir_group(groups, hash));
        let g = choose|g: int| 0 <= g < groups.len() && #[trigger] groups[g]@.hash == hash;
        assert(is_dir_group(entries, hashes, root, groups[g]@));
    }
}

/// Directories with the same files are found: with at least two files each,
/// they stand in one group, or both lie below directories of groups.
pub proof fn the_same_files_share_a_group(
    entries: Seq<FileModel>,
    hashes: Seq<Option<[u8; 32]>>,
    root: Seq<u8>,
    groups: Seq<DirDup>,
    a: Seq<Seq<u8>>,
    b: Seq<Seq<u8>>,
)
    requires
        are_top_groups(entries, hashes, root, groups),
        a != b,
        dir_files(entries, root, a).len() >= 2,
        is_hashed_dir(entries, hashes, root, a),
        is_hashed_dir(entries, hashes, root, b),
        has_distinct_files(entries, root, a),
        has_distinct_files(entries, root, b),
        has_counterparts(entries, hashes, root, a, b),
        has_counterparts(entries, hashes, root, b, a),
    ensures
        lies_below_group(groups, a) && lies_below_group(groups, b) || exists|g: int|
            0 <= g < groups.len() && has_dir((#[trigger] groups[g])@.dirs, a) && has_dir(
                groups[g]@.dirs,
                b,
            ),
{
    the_same_files_give_the_same_digest(entries, hashes, root, a, b);
    let hash = dir_digest(entries, hashes, root, a)->0;
    assert(looks_like(entries, root, a, b) && looks_like(entries, root, b, a));
    assert(shares_digest(entries, hashes, root, hash, a));
    assert(shares_digest(entries, hashes, root, hash, b));
    assert(is_shared(entries, hashes, root, hash));
    what_is_dropped_lies_below_a_group(entries, hashes, root, groups, hash, a);
    what_is_dropped_lies_below_a_group(entries, hashes, root, groups, hash, b);
    if has_dir_group(groups, hash) {
        let g = choose|g: int| 0 <= g < groups.len() && #[trigger] groups[g]@.hash == hash;
        assert(is_dir_group(entries, hashes, root, groups[g]@));
        assert(has_dir(groups[g]@.dirs, a) && has_dir(groups[g]@.dirs, b));
    }
}

/// The directories of one group hold the same files: the same paths within them,
/// with the same digests. Their manifests must not collide under BLAKE3, and
/// names must hold no zero byte and stand in a manifest as they are, which
/// `find_duplicate_dirs` says of names that are valid UTF-8.
pub proof fn a_group_holds_the_same_files(
    entries: Seq<FileModel>,
    hashes: Seq<Option<[u8; 32]>>,
    root: Seq<u8>,
    groups: Seq<DirDup>,
    g: int,
    a: Seq<Seq<u8>>,
    b: Seq<Seq<u8>>,
)
    requires
        are_top_groups(entries, hashes, root, groups),
        0 <= g < groups.len(),
        has_dir(groups[g]@.dirs, a),
        has_dir(groups[g]@.dirs, b),
        blake3_digest(dir_manifest(entries, hashes, root, a)) == blake3_digest(
            dir_manifest(entries, hashes, root, b),
        ) ==> dir_manifest(entries, hashes, root, a) == dir_manifest(entries, hashes, root, b),
        has_plain_names(entries, root, a),
        has_plain_names(entries, root, b),
    ensures
        holds_files_of(entries, hashes, root, a, b),
        holds_files_of(entries, hashes, root, b, a),
{
    let group = groups[g]@;
    assert(is_dir_group(entries, hashes, root, groups[g]@));
    let i = choose|i: int|
        0 <= i < group.dirs.len() && components((#[trigger] group.dirs[i]).path) == a;
    let j = choose|j: int|
        0 <= j < group.dirs.len() && components((#[trigger] group.dirs[j]).path) == b;
    assert(shares_digest(entries, hashes, root, group.hash, components(group.dirs[i].path)));
    assert(shares_digest(entries, hashes, root, group.hash, components(group.dirs[j].path)));
    the_same_digest_means_the_same_files(entries, hashes, root, a, b);
}

/// Names that are valid UTF-8 and hold no zero byte are plain, in every directory
/// with a digest.
pub proof fn text_names_are_plain(
    entries: Seq<FileModel>,
    hashes: Seq<Option<[u8; 32]>>,
    root: Seq<u8>,
    hash: Seq<u8>,
    dir: Seq<Seq<u8>>,
)
    requires
        text_names_are_kept(entries, hashes, root),
        shares_digest(entries, hashes, root, hash, dir),
        forall|i: int| #[trigger]
            dir_files(entries, root, dir).contains(i) ==> valid_utf8(
                rest_of(entries, dir.len() as int, i),
            ) && !rest_of(entries, dir.len() as int, i).contains(0u8),
    ensures
        has_plain_names(entries, root, dir),
{
    let p = |i: int| lies_in(entries[i].path, root, dir);
    lemma_positions(entries.len() as int, p);
    let places = dir_files(entries, root, dir);
    assert forall|i: int| #[trigger] dir_files(entries, root, dir).contains(i) implies
        has_plain_name(entries, dir.len() as int, i) by {
        let k = choose|k: int| 0 <= k < places.len() && places[k] == i;
        assert(p(places[k]));
        assert(lies_in(entries[i].path, root, dir));
    }
}

/// The directory that is kept has the fewest components, and of those with as few it
/// is the first in the order of paths. Exactly the others are trashed, in their
/// order.
pub proof fn the_kept_directory_is_shallowest_then_first(
    dirs: Seq<DirModel>,
    keep: Seq<u8>,
    trash: Seq<Seq<u8>>,
)
    requires
        picks_dir(dirs, keep, trash),
    ensures
        exists|k: int|
            {
                &&& 0 <= k < dirs.len()
                &&& (#[trigger] dirs[k]).path == keep
                &&& trash == dirs.map_values(|d: DirModel| d.path).remove(k)
            },
        forall|i: int|
            0 <= i < dirs.len() ==> {
                let a = components(keep);
                let b = components((#[trigger] dirs[i]).path);
                &&& a.len() <= b.len()
                &&& a.len() == b.len() ==> path_order(a, b) != Order::Greater
            },
{
    let k = choose|k: int|
        #[trigger] is_keeper_dir(dirs, k) && keep == dirs[k].path && trash == dir_paths(
            dirs,
        ).remove(k);
    assert(dir_paths(dirs) =~= dirs.map_values(|d: DirModel| d.path));
    assert(dirs[k].path == keep);
    assert forall|i: int| 0 <= i < dirs.len() implies {
        let a = components(keep);
        let b = components((#[trigger] dirs[i]).path);
        &&& a.len() <= b.len()
        &&& a.len() == b.len() ==> path_order(a, b) != Order::Greater
    } by {
        path_order_linear(components(keep), components(keep));
        if i != k {
            assert(dir_keeps_over(dirs[k], dirs[i]));
        }
    }
}

/// A group tells of each of its directories how many files lie in it, at any depth,
/// and their size in all.
pub proof fn a_group_tells_the_size_of_its_directories(
    entries: Seq<FileModel>,
    hashes: Seq<Option<[u8; 32]>>,
    root: Seq<u8>,
    g: DirDupModel,
    i: int,
)
    requires
        is_dir_group(entries, hashes, root, g),
        0 <= i < g.dirs.len(),
    ensures
        g.dirs[i].file_count == dir_files(entries, root, components(g.dirs[i].path)).len(),
        g.dirs[i].file_count >= 2,
        g.dirs[i].total_size == total_size(
            entries,
            dir_files(entries, root, components(g.dirs[i].path)),
        ),
        dir_digest(entries, hashes, root, components(g.dirs[i].path)) == Some(g.hash),
{
    assert(shares_digest(entries, hashes, root, g.hash, components(g.dirs[i].path)));
}

/// A group frees the size of its first directory for every directory but one, and
/// groups that free more come first.
pub proof fn directory_groups_come_by_what_they_free(
    entries: Seq<FileModel>,
    hashes: Seq<Option<[u8; 32]>>,
    root: Seq<u8>,
    groups: Seq<DirDup>,
    g: int,
    h: int,
)
    requires
        are_top_groups(entries, hashes, root, groups),
        dirs_most_reclaimable_first(groups),
        0 <= g < h < groups.len(),
    ensures
        groups[g].dirs@.len() >= 2,
        groups[h].dirs@.len() >= 2,
        groups[g].dirs@[0].total_size * (groups[g].dirs@.len() - 1) >= groups[h].dirs@[0].total_size
            * (groups[h].dirs@.len() - 1),
{
    assert(is_dir_group(entries, hashes, root, groups[g]@));
    assert(is_dir_group(entries, hashes, root, groups[h]@));
    a_group_keeps_one_directory(entries, hashes, root, groups[g]@);
    a_group_keeps_one_directory(entries, hashes, root, groups[h]@);
    assert(groups[g]@.dirs[0] == groups[g].dirs@[0]@);
    assert(groups[h]@.dirs[0] == groups[h].dirs@[0]@);
    assert(groups[g]@.reclaimable() >= groups[h]@.reclaimable());
    assert(groups[g]@.reclaimable() == groups[g].dirs@[0].total_size * (groups[g].dirs@.len() - 1));
    assert(groups[h]@.reclaimable() == groups[h].dirs@[0].total_size * (groups[h].dirs@.len() - 1));
}

/// Whether directory `i` of group `g` lies properly in a directory of another group.
pub open spec fn lies_in_another(groups: Seq<DirDup>, g: int, i: int) -> bool {
    exists|h: int, j: int|
        {
            let inner = components(groups[g].dirs@[i].path@);
            let outer = components((#[trigger] groups[h].dirs@[j]).path@);
            &&& 0 <= h < groups.len()
            &&& h != g
            &&& 0 <= j < groups[h].dirs@.len()
            &&& outer.len() < inner.len()
            &&& inner.take(outer.len() as int) == outer
        }
}

/// A directory lies below one of another group just when that holds it.
proof fn lemma_lies_in_another(groups: Seq<DirDup>, g: int, i: int)
    requires
        0 <= g < groups.len(),
        0 <= i < groups[g].dirs@.len(),
    ensures
        lies_in_another(groups, g, i) == lies_below_other(groups, g, groups[g].dirs@[i].path@),
{
    let path = groups[g].dirs@[i].path@;
    let inner = components(path);
    if lies_in_another(groups, g, i) {
        let (h, j) = choose|h: int, j: int|
            {
                let outer = components((#[trigger] groups[h].dirs@[j]).path@);
                &&& 0 <= h < groups.len()
                &&& h != g
                &&& 0 <= j < groups[h].dirs@.len()
                &&& outer.len() < inner.len()
                &&& inner.take(outer.len() as int) == outer
            };
        assert(groups[h]@.dirs[j] == groups[h].dirs@[j]@);
        assert(is_below(path, groups[h]@.dirs[j].path));
    }
    if lies_below_other(groups, g, path) {
        let (h, j) = choose|h: int, j: int|
            0 <= h < groups.len() && h != g && 0 <= j < groups[h]@.dirs.len() && is_below(
                path,
                (#[trigger] groups[h]@.dirs[j]).path,
            );
        assert(groups[h]@.dirs[j] == groups[h].dirs@[j]@);
        let outer = components(groups[h].dirs@[j].path@);
        assert(outer.len() < inner.len()) by {
            if outer.len() == inner.len() {
                assert(inner.take(outer.len() as int) =~= inner);
            }
        }
    }
}

/// A group is dropped just when each of its directories lies properly in a directory
/// of another group. The others are kept as they are, in their order.
pub proof fn only_nested_groups_are_dropped(groups: Seq<DirDup>, kept: Seq<DirDup>)
    requires
        kept == items_at(
            groups,
            positions(groups.len() as int, |g: int| !is_nested(groups, g)),
        ),
    ensures
        exists|places: Seq<int>|
            {
                &&& #[trigger] places.len() == kept.len()
                &&& forall|a: int, b: int| 0 <= a < b < places.len() ==> places[a] < places[b]
                &&& forall|k: int|
                    0 <= k < places.len() ==> 0 <= #[trigger] places[k] < groups.len() && kept[k]
                        == groups[places[k]]
                &&& forall|g: int|
                    0 <= g < groups.len() ==> (#[trigger] places.contains(g) <==> exists|i: int|
                        0 <= i < groups[g].dirs@.len() && !(#[trigger] lies_in_another(groups, g, i)))
            },
{
    let p = |g: int| !is_nested(groups, g);
    let places = positions(groups.len() as int, p);
    lemma_positions(groups.len() as int, p);
    assert(places.len() == kept.len());
    assert forall|k: int| 0 <= k < places.len() implies 0 <= #[trigger] places[k] < groups.len()
        && kept[k] == groups[places[k]] by {
        assert(p(places[k]));
    }
    assert forall|g: int| 0 <= g < groups.len() implies (#[trigger] places.contains(g)
        <==> exists|i: int|
        0 <= i < groups[g].dirs@.len() && !(#[trigger] lies_in_another(groups, g, i))) by {
        assert(groups[g]@.dirs.len() == groups[g].dirs@.len());
        if places.contains(g) {
            let k = choose|k: int| 0 <= k < places.len() && places[k] == g;
            assert(p(places[k]));
            let i = choose|i: int|
                0 <= i < groups[g]@.dirs.len() && !lies_below_other(
                    groups,
                    g,
                    (#[trigger] groups[g]@.dirs[i]).path,
                );
            assert(groups[g]@.dirs[i] == groups[g].dirs@[i]@);
            lemma_lies_in_another(groups, g, i);
            assert(!lies_in_another(groups, g, i));
        }
        if exists|i: int|
            0 <= i < groups[g].dirs@.len() && !(#[trigger] lies_in_another(groups, g, i)) {
            let i = choose|i: int|
                0 <= i < groups[g].dirs@.len() && !(#[trigger] lies_in_another(groups, g, i));
            lemma_lies_in_another(groups, g, i);
            assert(groups[g]@.dirs[i] == groups[g].dirs@[i]@);
            assert(!is_nested(groups, g));
            assert(p(g));
        }
    }
}

/// Of the groups that are found none has all its directories in directories of the
/// others.
pub proof fn no_found_group_is_nested(
    entries: Seq<FileModel>,
    hashes: Seq<Option<[u8; 32]>>,
    root: Seq<u8>,
    groups: Seq<DirDup>,
    g: int,
)
    requires
        are_top_groups(entries, hashes, root, groups),
        0 <= g < groups.len(),
    ensures
        exists|i: int|
            0 <= i < groups[g].dirs@.len() && !(#[trigger] lies_in_another(groups, g, i)),
{
    let hash = groups[g]@.hash;
    assert(is_dir_group(entries, hashes, root, groups[g]@));
    assert(!is_nested_digest(entries, hashes, root, hash));
    let dir = choose|dir: Seq<Seq<u8>>| #[trigger]
        shares_digest(entries, hashes, root, hash, dir) && !has_shared_ancestor(
            entries,
            hashes,
            root,
            hash,
            dir,
        );
    assert(has_dir(groups[g]@.dirs, dir));
    let i = choose|i: int|
        0 <= i < groups[g]@.dirs.len() && components((#[trigger] groups[g]@.dirs[i]).path) == dir;
    assert(groups[g]@.dirs[i] == groups[g].dirs@[i]@);
    if lies_in_another(groups, g, i) {
        let (h, j) = choose|h: int, j: int|
            {
                let outer = components((#[trigger] groups[h].dirs@[j]).path@);
                &&& 0 <= h < groups.len()
                &&& h != g
                &&& 0 <= j < groups[h].dirs@.len()
                &&& outer.len() < dir.len()
                &&& dir.take(outer.len() as int) == outer
            };
        assert(groups[h]@.dirs[j] == groups[h].dirs@[j]@);
        let other = groups[h]@.hash;
        assert(is_dir_group(entries, hashes, root, groups[h]@));
        lemma_group_is_shared(entries, hashes, root, groups[h]@);
        assert(shares_digest(entries, hashes, root, other, components(groups[h]@.dirs[j].path)));
        assert(other != hash) by {
            if h < g {
                assert(groups[h]@.hash != groups[g]@.hash);
            } else {
                assert(groups[g]@.hash != groups[h]@.hash);
            }
        }
    }
}

/// A group lists all the directories that are compared and have its digest, each
/// once, and no other. There are at least two.
pub proof fn a_group_is_all_the_directories_with_one_digest(
    entries: Seq<FileModel>,
    hashes: Seq<Option<[u8; 32]>>,
    root: Seq<u8>,
    g: DirDupModel,
    dir: Seq<Seq<u8>>,
)
    requires
        is_dir_group(entries, hashes, root, g),
    ensures
        g.dirs.len() >= 2,
        (exists|i: int|
            0 <= i < g.dirs.len() && components((#[trigger] g.dirs[i]).path) == dir)
            <==> is_candidate_dir(entries, root, dir) && dir_digest(entries, hashes, root, dir)
            == Some(g.hash),
        forall|i: int, j: int|
            0 <= i < j < g.dirs.len() ==> components((#[trigger] g.dirs[i]).path) != components(
                (#[trigger] g.dirs[j]).path,
            ),
{
    if is_candidate_dir(entries, root, dir) && dir_digest(entries, hashes, root, dir) == Some(
        g.hash,
    ) {
        assert(shares_digest(entries, hashes, root, g.hash, dir));
        assert(has_dir(g.dirs, dir));
    }
    if exists|i: int| 0 <= i < g.dirs.len() && components((#[trigger] g.dirs[i]).path) == dir {
        let i = choose|i: int|
            0 <= i < g.dirs.len() && components((#[trigger] g.dirs[i]).path) == dir;
        assert(shares_digest(entries, hashes, root, g.hash, components(g.dirs[i].path)));
    }
}

/// What directories free can be told unless it is too large: of some group that is
/// not nested the size of one directory, for every other directory, does not fit.
pub proof fn only_too_large_directories_do_not_fit(
    entries: Seq<FileModel>,
    hashes: Seq<Option<[u8; 32]>>,
    root: Seq<u8>,
)
    requires
        !dir_dups_fit(entries, hashes, root),
    ensures
        exists|g: DirDupModel, i: int|
            #[trigger] is_dir_group(entries, hashes, root, g) && 0 <= i < g.dirs.len() && (
            #[trigger] g.dirs[i]).total_size * (g.dirs.len() - 1) > u64::MAX,
{
    let (g, i) = choose|g: DirDupModel, i: int|
        #[trigger] is_dir_group(entries, hashes, root, g) && 0 <= i < g.dirs.len() && (
        #[trigger] g.dirs[i]).total_size * g.trash.len() > u64::MAX;
    a_group_keeps_one_directory(entries, hashes, root, g);
    assert(g.dirs[i].total_size * (g.dirs.len() - 1) > u64::MAX);
}

/// The path of a directory is written as in one of its files: it is what a path of
/// these starts with.
pub proof fn a_directory_is_written_as_in_its_files(
    entries: Seq<FileModel>,
    hashes: Seq<Option<[u8; 32]>>,
    root: Seq<u8>,
    g: DirDupModel,
    i: int,
)
    requires
        is_dir_group(entries, hashes, root, g),
        0 <= i < g.dirs.len(),
    ensures
        exists|f: int|
            #[trigger] dir_files(entries, root, components(g.dirs[i].path)).contains(f)
                && g.dirs[i].path.len() <= entries[f].path.len() && entries[f].path.take(
                g.dirs[i].path.len() as int,
            ) == g.dirs[i].path,
{
    let d = g.dirs[i];
    let dir = components(d.path);
    let places = dir_files(entries, root, dir);
    assert(shares_digest(entries, hashes, root, g.hash, components(g.dirs[i].path)));
    assert(tells(entries, root, d));
    let f = places[0];
    assert(places.contains(f));
    let p = |x: int| lies_in(entries[x].path, root, dir);
    lemma_positions(entries.len() as int, p);
    assert(p(f));
    if dir.len() > 0 {
        paths_are_cut_behind_a_component(entries[f].path, dir.len() as int);
    } else {
        assert(entries[f].path.take(0) =~= d.path);
    }
}

} // verus!
