//! Files with the same contents.

use vstd::prelude::*;
use vstd::relations::{sorted_by, total_ordering};
use vstd::slice::slice_to_vec;
use crate::hashing::blake3_digest;
use crate::order::{bytes_order_linear, order_parts, path_order, path_order_linear};
use crate::order::{path_order_transitive, texts, Largest, Order};
use crate::paths::{clone_paths, components, path_bytes, FilePath};
use crate::sorting::{descending, group_ties, groups_ties, heaviest_first, ints, is_grouped};
use crate::sorting::{is_permutation, leader, lemma_increasing_distinct, lemma_positions};
use crate::sorting::{lemma_sort_by_keeps, lemma_sort_by_unique, mark_shared, positions};
use crate::sorting::{rearrange, rearranged, sort_by_weight, sort_order, stands_before, ties};
use crate::sorting::{Ranked, Weighed};
use crate::walker::{entry_models, FileEntry, FileModel};

verus! {

/// Files with one digest, one of them to be kept.
#[derive(Debug)]
pub struct DupGroup {
    pub hash: [u8; 32],
    pub files: Vec<FileEntry>,
    pub keep: FilePath,
    pub trash: Vec<FilePath>,
}

/// A group of duplicates as a value.
#[verifier::ext_equal]
pub struct DupGroupModel {
    pub hash: Seq<u8>,
    pub files: Seq<FileModel>,
    pub keep: Seq<u8>,
    pub trash: Seq<Seq<u8>>,
}

impl View for DupGroup {
    type V = DupGroupModel;

    open spec fn view(&self) -> DupGroupModel {
        DupGroupModel {
            hash: self.hash@,
            files: entry_models(self.files@),
            keep: self.keep@,
            trash: path_bytes(self.trash@),
        }
    }
}

impl Clone for DupGroup {
    fn clone(&self) -> (r: Self)
        ensures
            r@ == self@,
    {
        let mut files: Vec<FileEntry> = Vec::new();
        let mut i: usize = 0;
        while i < self.files.len()
            invariant
                i <= self.files@.len(),
                files@.len() == i,
                forall|k: int| 0 <= k < i ==> (#[trigger] files@[k])@ == self.files@[k]@,
            decreases self.files@.len() - i,
        {
            files.push(self.files[i].clone());
            i = i + 1;
        }
        assert(entry_models(files@) =~= entry_models(self.files@));
        DupGroup { hash: self.hash, files, keep: self.keep.clone(), trash: clone_paths(&self.trash) }
    }
}

impl DupGroupModel {
    /// The bytes freed when the trash goes: the size of the first file, once
    /// for each file in the trash.
    pub open spec fn reclaimable(self) -> int {
        if self.files.len() == 0 {
            0
        } else {
            self.files[0].size * self.trash.len()
        }
    }
}

impl DupGroup {
    /// The bytes freed when the trash goes.
    pub fn reclaimable_bytes(&self) -> (r: u64)
        requires
            self@.reclaimable() <= u64::MAX,
        ensures
            r == self@.reclaimable(),
    {
        let n: u64 = self.trash.len() as u64;
        if self.files.len() == 0 {
            0
        } else {
            assert(self@.files[0] == self.files@[0]@);
            assert(self@.trash.len() == n);
            self.files[0].size * n
        }
    }
}

impl Weighed for DupGroup {
    open spec fn weight(&self) -> int {
        self@.reclaimable()
    }

    fn weigh(&self) -> (r: u64) {
        self.reclaimable_bytes()
    }
}

/// What makes one file a better keeper than another: fewer components, then
/// the older modification time, then the order of paths.
pub struct KeeperKey {
    pub mtime: i64,
    pub parts: Vec<Vec<u8>>,
}

/// How two candidates for the keeper stand, given their times and components.
pub open spec fn keeper_order(
    a_time: i64,
    a_parts: Seq<Seq<u8>>,
    b_time: i64,
    b_parts: Seq<Seq<u8>>,
) -> Order {
    if a_parts.len() < b_parts.len() {
        Order::Less
    } else if a_parts.len() > b_parts.len() {
        Order::Greater
    } else if a_time < b_time {
        Order::Less
    } else if a_time > b_time {
        Order::Greater
    } else {
        path_order(a_parts, b_parts)
    }
}

impl Ranked for KeeperKey {
    open spec fn le(&self, other: &Self) -> bool {
        keeper_order(self.mtime, texts(self.parts@), other.mtime, texts(other.parts@))
            != Order::Greater
    }

    proof fn le_total(a: &Self, b: &Self) {
        path_order_linear(texts(a.parts@), texts(b.parts@));
    }

    proof fn le_transitive(a: &Self, b: &Self, c: &Self) {
        let x = texts(a.parts@);
        let y = texts(b.parts@);
        let z = texts(c.parts@);
        path_order_linear(x, y);
        path_order_linear(y, z);
        path_order_linear(x, z);
        if path_order(x, y) != Order::Greater && path_order(y, z) != Order::Greater {
            path_order_transitive(x, y, z);
        }
    }

    fn at_most(&self, other: &Self) -> (r: bool) {
        let a: usize = self.parts.len();
        let b: usize = other.parts.len();
        assert(texts(self.parts@).len() == a);
        assert(texts(other.parts@).len() == b);
        if a < b {
            true
        } else if a > b {
            false
        } else if self.mtime < other.mtime {
            true
        } else if self.mtime > other.mtime {
            false
        } else {
            match order_parts(&self.parts, &other.parts) {
                Order::Greater => false,
                _ => true,
            }
        }
    }
}

/// Whether file `a` is at least as good a keeper as file `b`.
pub open spec fn keeps_over(a: FileModel, b: FileModel) -> bool {
    keeper_order(a.mtime, components(a.path), b.mtime, components(b.path)) != Order::Greater
}

/// Whether file `k` is the keeper: at least as good as every other file, and
/// the first of those that are equally good.
pub open spec fn is_keeper(files: Seq<FileModel>, k: int) -> bool {
    &&& 0 <= k < files.len()
    &&& forall|j: int|
        0 <= j < files.len() && j != k ==> keeps_over(files[k], #[trigger] files[j]) && (keeps_over(
            files[j],
            files[k],
        ) ==> k < j)
}

/// The paths of files.
pub open spec fn file_paths(files: Seq<FileModel>) -> Seq<Seq<u8>> {
    Seq::new(files.len(), |i: int| files[i].path)
}

/// Whether `keep` is the path of the keeper and `trash` lists the other paths in
/// their order.
pub open spec fn picks(files: Seq<FileModel>, keep: Seq<u8>, trash: Seq<Seq<u8>>) -> bool {
    exists|k: int|
        #[trigger] is_keeper(files, k) && keep == files[k].path && trash == file_paths(
            files,
        ).remove(k)
}

/// The first index in the stable order of keys.
pub(crate) fn best_index<K: Ranked>(keys: &Vec<K>) -> (k: usize)
    requires
        keys@.len() > 0,
    ensures
        k < keys@.len(),
        forall|j: int|
            0 <= j < keys@.len() && j != k ==> stands_before(keys@, k, #[trigger] (j as usize)),
{
    let order = sort_order(keys);
    let k: usize = order[0];
    let n: usize = keys.len();
    assert forall|j: int| 0 <= j < keys@.len() && j != k implies stands_before(
        keys@,
        k,
        #[trigger] (j as usize),
    ) by {
        assert(order@.contains(j as usize));
        let i = choose|i: int| 0 <= i < order@.len() && order@[i] == j as usize;
        assert(stands_before(keys@, order@[0], order@[i]));
    }
    k
}

/// Whether the path with index `k` is a better keeper than the one with index `j`:
/// it stands before it, or they are equally good and it comes first.
pub(crate) open spec fn beats(times: Seq<i64>, paths: Seq<Seq<u8>>, k: int, j: int) -> bool {
    &&& keeper_order(times[k], components(paths[k]), times[j], components(paths[j]))
        != Order::Greater
    &&& keeper_order(times[j], components(paths[j]), times[k], components(paths[k]))
        != Order::Greater ==> k < j
}

/// Takes the best keeper out of paths with the given times. Gives its index, its
/// path and the other paths in their order.
pub(crate) fn take_best(times: &Vec<i64>, paths: Vec<FilePath>) -> (r: (
    usize,
    FilePath,
    Vec<FilePath>,
))
    requires
        paths@.len() > 0,
        times@.len() == paths@.len(),
    ensures
        r.0 < paths@.len(),
        r.1@ == path_bytes(paths@)[r.0 as int],
        path_bytes(r.2@) == path_bytes(paths@).remove(r.0 as int),
        forall|j: int|
            0 <= j < paths@.len() && j != r.0 ==> #[trigger] beats(
                times@,
                path_bytes(paths@),
                r.0 as int,
                j,
            ),
{
    let mut keys: Vec<KeeperKey> = Vec::new();
    let mut i: usize = 0;
    while i < paths.len()
        invariant
            i <= paths@.len(),
            times@.len() == paths@.len(),
            keys@.len() == i,
            forall|k: int|
                0 <= k < i ==> (#[trigger] keys@[k]).mtime == times@[k] && texts(keys@[k].parts@)
                    == components(paths@[k]@),
        decreases paths@.len() - i,
    {
        let p = paths[i].parse();
        keys.push(KeeperKey { mtime: times[i], parts: p.parts });
        i = i + 1;
    }
    let k = best_index(&keys);
    let ghost before = paths@;
    let mut rest = paths;
    let keep = rest.remove(k);
    proof {
        assert forall|j: int| 0 <= j < before.len() && j != k implies #[trigger] beats(
            times@,
            path_bytes(before),
            k as int,
            j,
        ) by {
            assert(stands_before(keys@, k, j as usize));
            assert(keys@[k as int].le(&keys@[j]));
            assert(path_bytes(before)[j] == before[j]@);
            assert(path_bytes(before)[k as int] == before[k as int]@);
        }
        assert(path_bytes(rest@) =~= path_bytes(before).remove(k as int));
    }
    (k, keep, rest)
}

/// Picks the file to keep: the shallowest path, then the oldest, then the first
/// in the order of paths. The others are to be trashed.
pub fn pick_keeper(files: &Vec<FileEntry>) -> (r: (FilePath, Vec<FilePath>))
    requires
        files@.len() > 0,
    ensures
        picks(entry_models(files@), r.0@, path_bytes(r.1@)),
{
    let ghost models = entry_models(files@);
    let mut times: Vec<i64> = Vec::new();
    let mut paths: Vec<FilePath> = Vec::new();
    let mut i: usize = 0;
    while i < files.len()
        invariant
            i <= files@.len(),
            times@.len() == i,
            paths@.len() == i,
            forall|k: int| 0 <= k < i ==> #[trigger] times@[k] == files@[k].mtime,
            forall|k: int| 0 <= k < i ==> (#[trigger] paths@[k])@ == files@[k].path@,
        decreases files@.len() - i,
    {
        times.push(files[i].mtime);
        paths.push(files[i].path.clone());
        i = i + 1;
    }
    assert(path_bytes(paths@) =~= file_paths(models));
    let (k, keep, trash) = take_best(&times, paths);
    proof {
        assert forall|j: int| 0 <= j < models.len() && j != k implies keeps_over(
            models[k as int],
            #[trigger] models[j],
        ) && (keeps_over(models[j], models[k as int]) ==> k < j) by {
            assert(beats(times@, file_paths(models), k as int, j));
        }
        assert(is_keeper(models, k as int));
    }
    (keep, trash)
}

/// Whether another file has the size of file `i`. Only such files are hashed.
pub open spec fn is_candidate(entries: Seq<FileModel>, i: int) -> bool {
    exists|j: int| 0 <= j < entries.len() && j != i && #[trigger] entries[j].size == entries[i].size
}

/// The files that have to be hashed.
pub open spec fn candidates(entries: Seq<FileModel>) -> Seq<int> {
    positions(entries.len() as int, |i: int| is_candidate(entries, i))
}

/// The files that have to be hashed: those that share their size with another.
pub fn hash_candidates(entries: &Vec<FileEntry>) -> (r: Vec<usize>)
    ensures
        ints(r@) == candidates(entry_models(entries@)),
{
    let ghost models = entry_models(entries@);
    let n: usize = entries.len();
    let mut keys: Vec<Largest> = Vec::new();
    let mut i: usize = 0;
    while i < n
        invariant
            n == entries@.len(),
            i <= n,
            keys@.len() == i,
            forall|k: int| 0 <= k < i ==> (#[trigger] keys@[k]).value == entries@[k].size,
        decreases n - i,
    {
        keys.push(Largest { value: entries[i].size });
        i = i + 1;
    }
    let flags = mark_shared(&keys);
    let mut out: Vec<usize> = Vec::new();
    let mut c: usize = 0;
    proof {
        assert forall|k: int| 0 <= k < n implies #[trigger] flags@[k] == is_candidate(
            models,
            k,
        ) by {
            if flags@[k] {
                let y = choose|y: int|
                    0 <= y < keys@.len() && y != k && ties(&keys@[k], &#[trigger] keys@[y]);
                assert(models[y].size == models[k].size);
            }
            if is_candidate(models, k) {
                let y = choose|y: int|
                    0 <= y < models.len() && y != k && #[trigger] models[y].size
                        == models[k].size;
                assert(ties(&keys@[k], &keys@[y]));
            }
        }
    }
    while c < n
        invariant
            n == entries@.len(),
            c <= n,
            flags@.len() == n,
            forall|k: int| 0 <= k < n ==> #[trigger] flags@[k] == is_candidate(models, k),
            ints(out@) =~= positions(c as int, |i: int| is_candidate(models, i)),
        decreases n - c,
    {
        let ghost before = out@;
        if flags[c] {
            out.push(c);
            assert(ints(out@) =~= ints(before).push(c as int));
        }
        c = c + 1;
    }
    out
}

/// The digest of file `i`, if it could be had.
pub open spec fn digest_at(hashes: Seq<Option<[u8; 32]>>, i: int) -> Option<Seq<u8>> {
    match hashes[i] {
        Some(h) => Some(h@),
        None => None,
    }
}

/// Whether file `i` was hashed and has the digest `hash`.
pub open spec fn has_digest(
    entries: Seq<FileModel>,
    hashes: Seq<Option<[u8; 32]>>,
    hash: Seq<u8>,
    i: int,
) -> bool {
    is_candidate(entries, i) && digest_at(hashes, i) == Some(hash)
}

/// The files with the digest `hash`.
pub open spec fn same_digest(
    entries: Seq<FileModel>,
    hashes: Seq<Option<[u8; 32]>>,
    hash: Seq<u8>,
) -> Seq<int> {
    positions(entries.len() as int, |i: int| has_digest(entries, hashes, hash, i))
}

/// The order in which a group lists its files: size by size, the largest first,
/// and files of one size in the order of `entries`.
pub open spec fn size_order(entries: Seq<FileModel>) -> spec_fn(int, int) -> bool {
    |i: int, j: int|
        entries[i].size > entries[j].size || entries[i].size == entries[j].size && i <= j
}

/// The files with the digest `hash`, size by size.
pub open spec fn listed_by_size(
    entries: Seq<FileModel>,
    hashes: Seq<Option<[u8; 32]>>,
    hash: Seq<u8>,
) -> Seq<int> {
    same_digest(entries, hashes, hash).sort_by(size_order(entries))
}

/// What the list of the files with one digest is.
proof fn lemma_listed_by_size(
    entries: Seq<FileModel>,
    hashes: Seq<Option<[u8; 32]>>,
    hash: Seq<u8>,
)
    ensures
        total_ordering(size_order(entries)),
        same_digest(entries, hashes, hash).no_duplicates(),
        listed_by_size(entries, hashes, hash).no_duplicates(),
        listed_by_size(entries, hashes, hash).len() == same_digest(entries, hashes, hash).len(),
        sorted_by(listed_by_size(entries, hashes, hash), size_order(entries)),
        forall|i: int| #[trigger]
            listed_by_size(entries, hashes, hash).contains(i) <==> 0 <= i < entries.len()
                && has_digest(entries, hashes, hash, i),
        forall|k: int|
            0 <= k < listed_by_size(entries, hashes, hash).len() ==> 0 <= #[trigger] listed_by_size(
                entries,
                hashes,
                hash,
            )[k] < entries.len() && has_digest(
                entries,
                hashes,
                hash,
                listed_by_size(entries, hashes, hash)[k],
            ),
{
    let p = |i: int| has_digest(entries, hashes, hash, i);
    let places = same_digest(entries, hashes, hash);
    let list = listed_by_size(entries, hashes, hash);
    lemma_positions(entries.len() as int, p);
    lemma_increasing_distinct(places);
    lemma_sort_by_keeps(places, size_order(entries));
    assert forall|i: int| #[trigger] list.contains(i) implies 0 <= i < entries.len()
        && has_digest(entries, hashes, hash, i) by {
        assert(places.contains(i));
        let m = choose|m: int| 0 <= m < places.len() && places[m] == i;
        assert(p(places[m]));
    }
    assert forall|i: int|
        0 <= i < entries.len() && has_digest(entries, hashes, hash, i) implies #[trigger]
        list.contains(i) by {
        assert(p(i));
        assert(places.contains(i));
    }
    assert forall|k: int| 0 <= k < list.len() implies 0 <= #[trigger] list[k] < entries.len()
        && has_digest(entries, hashes, hash, list[k]) by {
        assert(list.contains(list[k]));
    }
}

/// The entries at the given places.
pub open spec fn files_at(entries: Seq<FileModel>, at: Seq<int>) -> Seq<FileModel> {
    Seq::new(at.len(), |k: int| entries[at[k]])
}

/// Whether `g` is the group of all the files that have its digest, at least two,
/// listed size by size, with the keeper picked among them.
pub open spec fn is_dup_group(
    entries: Seq<FileModel>,
    hashes: Seq<Option<[u8; 32]>>,
    g: DupGroupModel,
) -> bool {
    &&& same_digest(entries, hashes, g.hash).len() >= 2
    &&& g.files == files_at(entries, listed_by_size(entries, hashes, g.hash))
    &&& picks(g.files, g.keep, g.trash)
}

/// Whether some group has the digest `hash`.
pub open spec fn has_group(groups: Seq<DupGroup>, hash: Seq<u8>) -> bool {
    exists|g: int| 0 <= g < groups.len() && #[trigger] groups[g]@.hash == hash
}

/// Whether `groups` are the groups of duplicates, one for each digest that at
/// least two files have.
pub open spec fn are_dup_groups(
    entries: Seq<FileModel>,
    hashes: Seq<Option<[u8; 32]>>,
    groups: Seq<DupGroup>,
) -> bool {
    &&& forall|g: int|
        0 <= g < groups.len() ==> is_dup_group(entries, hashes, #[trigger] groups[g]@)
    &&& forall|g: int, h: int|
        0 <= g < h < groups.len() ==> #[trigger] groups[g]@.hash != #[trigger] groups[h]@.hash
    &&& forall|hash: Seq<u8>|
        #[trigger] same_digest(entries, hashes, hash).len() >= 2 ==> has_group(groups, hash)
}

/// What every digest that occurs frees is a number that fits.
pub open spec fn dup_sizes_fit(
    entries: Seq<FileModel>,
    hashes: Seq<Option<[u8; 32]>>,
) -> bool {
    forall|hash: Seq<u8>|
        (#[trigger] same_digest(entries, hashes, hash)).len() >= 2 ==> entries[listed_by_size(
            entries,
            hashes,
            hash,
        )[0]].size * (same_digest(entries, hashes, hash).len() - 1) <= u64::MAX
}

/// The files that were hashed, and their digests as keys.
struct Hashed {
    at: Vec<usize>,
    keys: Vec<Vec<u8>>,
}

/// Whether `at` and `keys` list the files that were hashed, with their digests,
/// size by size.
spec fn lists_hashed(
    entries: Seq<FileModel>,
    hashes: Seq<Option<[u8; 32]>>,
    at: Seq<usize>,
    keys: Seq<Vec<u8>>,
) -> bool {
    &&& at.len() == keys.len()
    &&& forall|k: int| 0 <= k < at.len() ==> #[trigger] at[k] < entries.len()
    &&& forall|k: int, l: int|
        0 <= k < l < at.len() ==> #[trigger] at[k] != #[trigger] at[l] && size_order(entries)(
            at[k] as int,
            at[l] as int,
        )
    &&& forall|k: int|
        0 <= k < at.len() ==> has_digest(
            entries,
            hashes,
            (#[trigger] keys[k])@,
            at[k] as int,
        )
    &&& forall|i: int|
        0 <= i < entries.len() && is_candidate(entries, i) && digest_at(hashes, i) is Some
            ==> #[trigger] ints(at).contains(i)
}

/// The files that have to be hashed, size by size.
fn candidates_by_size(entries: &Vec<FileEntry>) -> (r: Vec<usize>)
    ensures
        forall|k: int|
            0 <= k < r@.len() ==> #[trigger] r@[k] < entries@.len() && is_candidate(
                entry_models(entries@),
                r@[k] as int,
            ),
        forall|k: int, l: int|
            0 <= k < l < r@.len() ==> #[trigger] r@[k] != #[trigger] r@[l] && size_order(
                entry_models(entries@),
            )(r@[k] as int, r@[l] as int),
        forall|i: int|
            0 <= i < entries@.len() && is_candidate(entry_models(entries@), i)
                ==> #[trigger] ints(r@).contains(i),
{
    let ghost models = entry_models(entries@);
    let cand = hash_candidates(entries);
    proof {
        lemma_positions(models.len() as int, |i: int| is_candidate(models, i));
        assert forall|k: int| 0 <= k < cand@.len() implies #[trigger] cand@[k] < models.len()
            && is_candidate(models, cand@[k] as int) by {
            assert(ints(cand@)[k] == cand@[k] as int);
        }
        assert forall|k: int, l: int| 0 <= k < l < cand@.len() implies cand@[k] < cand@[l] by {
            assert(ints(cand@)[k] < ints(cand@)[l]);
        }
    }
    let mut sizes: Vec<u64> = Vec::new();
    let mut c: usize = 0;
    while c < cand.len()
        invariant
            models == entry_models(entries@),
            c <= cand@.len(),
            forall|k: int| 0 <= k < cand@.len() ==> #[trigger] cand@[k] < models.len(),
            sizes@.len() == c,
            forall|k: int| 0 <= k < c ==> #[trigger] sizes@[k] == models[cand@[k] as int].size,
        decreases cand@.len() - c,
    {
        sizes.push(entries[cand[c]].size);
        c = c + 1;
    }
    let order = descending(&sizes);
    let ghost all = cand@;
    let r = rearrange(cand, &order);
    proof {
        assert forall|k: int| 0 <= k < r@.len() implies #[trigger] r@[k] < models.len()
            && is_candidate(models, r@[k] as int) by {
            assert(r@[k] == all[order@[k] as int]);
        }
        assert forall|k: int, l: int| 0 <= k < l < r@.len() implies #[trigger] r@[k]
            != #[trigger] r@[l] && size_order(models)(r@[k] as int, r@[l] as int) by {
            let x = order@[k] as int;
            let y = order@[l] as int;
            assert(r@[k] == all[x] && r@[l] == all[y]);
            assert(sizes@[x] == models[all[x] as int].size);
            assert(sizes@[y] == models[all[y] as int].size);
            assert(x != y);
            if x < y {
                assert(all[x] < all[y]);
            } else {
                assert(all[y] < all[x]);
            }
        }
        assert forall|i: int| 0 <= i < models.len() && is_candidate(models, i) implies #[trigger]
            ints(r@).contains(i) by {
            assert(candidates(models).contains(i));
            let x = choose|x: int| 0 <= x < ints(all).len() && ints(all)[x] == i;
            assert(order@.contains(x as usize));
            let k = choose|k: int| 0 <= k < order@.len() && order@[k] == x as usize;
            assert(ints(r@)[k] == i);
        }
    }
    r
}

/// Lists the files that were hashed, with their digests, size by size.
fn list_hashed(entries: &Vec<FileEntry>, hashes: &Vec<Option<[u8; 32]>>) -> (r: Hashed)
    requires
        hashes@.len() == entries@.len(),
    ensures
        lists_hashed(entry_models(entries@), hashes@, r.at@, r.keys@),
{
    let ghost models = entry_models(entries@);
    let ghost before_or_at = size_order(models);
    let cand = candidates_by_size(entries);
    let mut at: Vec<usize> = Vec::new();
    let mut keys: Vec<Vec<u8>> = Vec::new();
    let mut c: usize = 0;
    while c < cand.len()
        invariant
            models == entry_models(entries@),
            before_or_at == size_order(models),
            hashes@.len() == models.len(),
            c <= cand@.len(),
            at@.len() == keys@.len(),
            forall|k: int|
                0 <= k < cand@.len() ==> #[trigger] cand@[k] < models.len() && is_candidate(
                    models,
                    cand@[k] as int,
                ),
            forall|k: int, l: int|
                0 <= k < l < cand@.len() ==> #[trigger] cand@[k] != #[trigger] cand@[l]
                    && before_or_at(cand@[k] as int, cand@[l] as int),
            forall|k: int| 0 <= k < at@.len() ==> #[trigger] at@[k] < models.len(),
            forall|k: int, l: int|
                0 <= k < at@.len() && c <= l < cand@.len() ==> #[trigger] at@[k]
                    != #[trigger] cand@[l] && before_or_at(at@[k] as int, cand@[l] as int),
            forall|k: int, l: int|
                0 <= k < l < at@.len() ==> #[trigger] at@[k] != #[trigger] at@[l] && before_or_at(
                    at@[k] as int,
                    at@[l] as int,
                ),
            forall|k: int|
                0 <= k < at@.len() ==> has_digest(
                    models,
                    hashes@,
                    (#[trigger] keys@[k])@,
                    at@[k] as int,
                ),
            forall|k: int|
                0 <= k < c && digest_at(hashes@, cand@[k] as int) is Some ==> ints(at@).contains(
                    #[trigger] cand@[k] as int,
                ),
        decreases cand@.len() - c,
    {
        let i: usize = cand[c];
        let ghost before = at@;
        match hashes[i] {
            Some(h) => {
                let key = slice_to_vec(h.as_slice());
                assert(key@ =~= h@);
                at.push(i);
                keys.push(key);
                assert(ints(at@)[before.len() as int] == i as int);
            },
            None => {},
        }
        proof {
            assert forall|k: int|
                0 <= k < c + 1 && digest_at(hashes@, cand@[k] as int) is Some implies ints(
                at@,
            ).contains(#[trigger] cand@[k] as int) by {
                if k < c {
                    assert(ints(before).contains(cand@[k] as int));
                    let m = choose|m: int|
                        0 <= m < ints(before).len() && ints(before)[m] == cand@[k] as int;
                    assert(ints(at@)[m] == cand@[k] as int);
                }
            }
        }
        c = c + 1;
    }
    proof {
        assert forall|i: int|
            0 <= i < models.len() && is_candidate(models, i) && digest_at(
                hashes@,
                i,
            ) is Some implies #[trigger] ints(at@).contains(i) by {
            assert(ints(cand@).contains(i));
            let k = choose|k: int| 0 <= k < ints(cand@).len() && ints(cand@)[k] == i;
            assert(cand@[k] as int == i);
        }
    }
    Hashed { at, keys }
}

/// A class of equal keys is the class of files with that digest.
proof fn lemma_digest_class(
    entries: Seq<FileModel>,
    hashes: Seq<Option<[u8; 32]>>,
    at: Seq<usize>,
    keys: Seq<Vec<u8>>,
    group: Seq<usize>,
    first: int,
)
    requires
        lists_hashed(entries, hashes, at, keys),
        0 <= first < keys.len(),
        ints(group) == positions(keys.len() as int, |x: int| ties(&keys[x], &keys[first])),
    ensures
        forall|k: int| 0 <= k < group.len() ==> #[trigger] group[k] < at.len(),
        Seq::new(group.len(), |k: int| at[group[k] as int] as int) == listed_by_size(
            entries,
            hashes,
            keys[first]@,
        ),
{
    let m = keys.len() as int;
    let tied = |x: int| ties(&keys[x], &keys[first]);
    lemma_positions(m, tied);
    let hash = keys[first]@;
    let p = |i: int| has_digest(entries, hashes, hash, i);
    let list = Seq::new(group.len(), |k: int| at[group[k] as int] as int);
    assert forall|k: int| 0 <= k < group.len() implies #[trigger] group[k] < at.len() && tied(
        group[k] as int,
    ) by {
        assert(ints(group)[k] == group[k] as int);
    }
    assert forall|k: int| 0 <= k < list.len() implies 0 <= #[trigger] list[k] < entries.len() && p(
        list[k],
    ) by {
        let x = group[k] as int;
        assert(tied(x));
        bytes_order_linear(keys[x]@, hash);
        assert(has_digest(entries, hashes, keys[x]@, at[x] as int));
    }
    let r = size_order(entries);
    assert forall|k: int, l: int| 0 <= k < l < list.len() implies list[k] != list[l] && #[trigger] r(
        list[k],
        list[l],
    ) by {
        assert(ints(group)[k] < ints(group)[l]);
        assert(at[group[k] as int] != at[group[l] as int]);
    }
    assert forall|i: int| 0 <= i < entries.len() && p(i) implies #[trigger] list.contains(i) by {
        assert(ints(at).contains(i));
        let x = choose|x: int| 0 <= x < ints(at).len() && ints(at)[x] == i;
        assert(has_digest(entries, hashes, keys[x]@, at[x] as int));
        assert(keys[x]@ == hash);
        bytes_order_linear(keys[x]@, hash);
        assert(tied(x));
        assert(ints(group).contains(x));
        let k = choose|k: int| 0 <= k < ints(group).len() && ints(group)[k] == x;
        assert(list[k] == i);
    }
    assert(list.no_duplicates()) by {
        assert forall|k: int, l: int| 0 <= k < list.len() && 0 <= l < list.len() && k
            != l implies list[k] != list[l] by {
            if k < l {
                assert(r(list[k], list[l]));
            } else {
                assert(r(list[l], list[k]));
            }
        }
    }
    let places = same_digest(entries, hashes, hash);
    lemma_listed_by_size(entries, hashes, hash);
    lemma_positions(entries.len() as int, p);
    assert forall|i: int| places.contains(i) <==> list.contains(i) by {
        if places.contains(i) {
            let m = choose|m: int| 0 <= m < places.len() && places[m] == i;
            assert(p(places[m]));
        }
        if list.contains(i) {
            let k = choose|k: int| 0 <= k < list.len() && list[k] == i;
            assert(p(list[k]));
        }
    }
    lemma_sort_by_unique(places, list, r);
}

/// The groups of duplicates, in no particular order.
pub fn duplicate_groups(
    entries: &Vec<FileEntry>,
    hashes: &Vec<Option<[u8; 32]>>,
) -> (r: Vec<DupGroup>)
    requires
        hashes@.len() == entries@.len(),
    ensures
        are_dup_groups(entry_models(entries@), hashes@, r@),
{
    let ghost models = entry_models(entries@);
    let h = list_hashed(entries, hashes);
    let classes = group_ties(&h.keys);
    let mut out: Vec<DupGroup> = Vec::new();
    let mut c: usize = 0;
    while c < classes.len()
        invariant
            models == entry_models(entries@),
            hashes@.len() == models.len(),
            lists_hashed(models, hashes@, h.at@, h.keys@),
            groups_ties(h.keys@, classes@),
            c <= classes@.len(),
            forall|g: int|
                0 <= g < out@.len() ==> is_dup_group(models, hashes@, #[trigger] out@[g]@),
            forall|g: int|
                0 <= g < out@.len() ==> exists|d: int|
                    0 <= d < c && #[trigger] out@[g]@.hash == h.keys@[#[trigger] leader(
                        classes@,
                        d,
                    )]@,
            forall|g: int, k: int|
                0 <= g < k < out@.len() ==> #[trigger] out@[g]@.hash != #[trigger] out@[k]@.hash,
            forall|d: int|
                0 <= d < c && classes@[d]@.len() >= 2 ==> has_group(
                    out@,
                    h.keys@[#[trigger] leader(classes@, d)]@,
                ),
        decreases classes@.len() - c,
    {
        let ghost before = out@;
        let class = &classes[c];
        let ghost first = leader(classes@, c as int);
        let ghost hash = h.keys@[first]@;
        proof {
            assert(0 <= leader(classes@, c as int));
            lemma_digest_class(models, hashes@, h.at@, h.keys@, class@, first);
        }
        if class.len() >= 2 {
            let ghost places = listed_by_size(models, hashes@, hash);
            proof {
                lemma_listed_by_size(models, hashes@, hash);
            }
            let mut files: Vec<FileEntry> = Vec::new();
            let mut k: usize = 0;
            while k < class.len()
                invariant
                    models == entry_models(entries@),
                    k <= class@.len(),
                    files@.len() == k,
                    forall|m: int| 0 <= m < class@.len() ==> #[trigger] class@[m] < h.at@.len(),
                    forall|m: int| 0 <= m < h.at@.len() ==> #[trigger] h.at@[m] < models.len(),
                    forall|m: int|
                        0 <= m < k ==> (#[trigger] files@[m])@ == models[h.at@[class@[m] as int] as int],
                decreases class@.len() - k,
            {
                let at: usize = h.at[class[k]];
                files.push(entries[at].clone());
                k = k + 1;
            }
            proof {
                let list = Seq::new(class@.len(), |k: int| h.at@[class@[k] as int] as int);
                assert(list == places);
                assert forall|m: int| 0 <= m < files@.len() implies #[trigger] entry_models(
                    files@,
                )[m] == files_at(models, places)[m] by {
                    assert(list[m] == h.at@[class@[m] as int] as int);
                    assert(files@[m]@ == models[h.at@[class@[m] as int] as int]);
                }
                assert(entry_models(files@) =~= files_at(models, places));
            }
            let (keep, trash) = pick_keeper(&files);
            let at: usize = h.at[class[0]];
            proof {
                assert(has_digest(models, hashes@, h.keys@[first]@, h.at@[first] as int));
            }
            match hashes[at] {
                Some(d) => {
                    assert(d@ == hash);
                    out.push(DupGroup { hash: d, files, keep, trash });
                    proof {
                        assert(out@[before.len() as int]@.hash == hash);
                        assert forall|g: int, k: int| 0 <= g < k < out@.len() implies
                            #[trigger] out@[g]@.hash != #[trigger] out@[k]@.hash by {
                            if k == before.len() {
                                assert(out@[g] == before[g]);
                                let e = choose|e: int|
                                    0 <= e < c && before[g]@.hash == h.keys@[#[trigger] leader(
                                        classes@,
                                        e,
                                    )]@;
                                assert(!ties(
                                    &h.keys@[leader(classes@, e)],
                                    &h.keys@[leader(classes@, c as int)],
                                ));
                                bytes_order_linear(h.keys@[leader(classes@, e)]@, hash);
                            }
                        }
                    }
                },
                None => {
                    assert(false);
                },
            }
        }
        proof {
            assert forall|g: int| 0 <= g < out@.len() implies exists|d: int|
                0 <= d < c + 1 && #[trigger] out@[g]@.hash == h.keys@[#[trigger] leader(
                    classes@,
                    d,
                )]@ by {
                if g < before.len() {
                    assert(out@[g] == before[g]);
                    let e = choose|e: int|
                        0 <= e < c && before[g]@.hash == h.keys@[#[trigger] leader(
                            classes@,
                            e,
                        )]@;
                    assert(out@[g]@.hash == h.keys@[leader(classes@, e)]@);
                } else {
                    assert(out@[g]@.hash == h.keys@[leader(classes@, c as int)]@);
                }
            }
            assert forall|d: int| 0 <= d < c + 1 && classes@[d]@.len() >= 2 implies has_group(
                out@,
                h.keys@[#[trigger] leader(classes@, d)]@,
            ) by {
                if d < c {
                    assert(has_group(before, h.keys@[leader(classes@, d)]@));
                    let g = choose|g: int|
                        0 <= g < before.len() && #[trigger] before[g]@.hash
                            == h.keys@[leader(classes@, d)]@;
                    assert(out@[g] == before[g]);
                } else {
                    assert(out@[before.len() as int]@.hash == hash);
                }
            }
        }
        c = c + 1;
    }
    proof {
        assert forall|hash: Seq<u8>|
            #[trigger] same_digest(models, hashes@, hash).len() >= 2 implies has_group(
            out@,
            hash,
        ) by {
            let places = same_digest(models, hashes@, hash);
            lemma_positions(
                models.len() as int,
                |i: int| has_digest(models, hashes@, hash, i),
            );
            let i = places[0];
            assert(has_digest(models, hashes@, hash, i));
            assert(ints(h.at@).contains(i));
            let x = choose|x: int| 0 <= x < ints(h.at@).len() && ints(h.at@)[x] == i;
            assert(has_digest(models, hashes@, h.keys@[x]@, h.at@[x] as int));
            assert(h.keys@[x]@ == hash);
            assert(is_grouped(h.keys@, classes@, x));
            let d = choose|d: int|
                0 <= d < classes@.len() && ties(
                    &h.keys@[x],
                    &h.keys@[#[trigger] leader(classes@, d)],
                );
            bytes_order_linear(h.keys@[x]@, h.keys@[leader(classes@, d)]@);
            assert(0 <= leader(classes@, d));
            lemma_digest_class(
                models,
                hashes@,
                h.at@,
                h.keys@,
                classes@[d]@,
                leader(classes@, d),
            );
            assert(h.keys@[leader(classes@, d)]@ == hash);
            lemma_listed_by_size(models, hashes@, hash);
        }
    }
    out
}

/// Whether `groups` are listed by what they free, the most first.
pub open spec fn most_reclaimable_first(groups: Seq<DupGroup>) -> bool {
    forall|g: int, h: int|
        0 <= g < h < groups.len() ==> #[trigger] groups[g]@.reclaimable()
            >= #[trigger] groups[h]@.reclaimable()
}

/// Lists groups by what they free, the most first. Groups that free the same
/// keep their order.
pub fn sort_groups(groups: Vec<DupGroup>) -> (r: Vec<DupGroup>)
    requires
        forall|g: int|
            0 <= g < groups@.len() ==> #[trigger] groups@[g]@.reclaimable() <= u64::MAX,
    ensures
        most_reclaimable_first(r@),
        exists|order: Seq<usize>|
            heaviest_first(groups@, order) && r@ == #[trigger] rearranged(groups@, order),
{
    assert forall|g: int| 0 <= g < groups@.len() implies (#[trigger] groups@[g]).weight()
        <= u64::MAX by {
        assert(groups@[g]@.reclaimable() <= u64::MAX);
    }
    let ghost before = groups@;
    let r = sort_by_weight(groups);
    proof {
        let order = choose|order: Seq<usize>|
            heaviest_first(before, order) && r@ == #[trigger] rearranged(before, order);
        assert forall|g: int, h: int| 0 <= g < h < r@.len() implies
            #[trigger] r@[g]@.reclaimable() >= #[trigger] r@[h]@.reclaimable() by {
            assert(before[order[g] as int].weight() >= before[order[h] as int].weight());
        }
    }
    r
}

/// What a group of duplicates frees is what its digest class frees.
proof fn lemma_reclaimable(
    entries: Seq<FileModel>,
    hashes: Seq<Option<[u8; 32]>>,
    g: DupGroupModel,
)
    requires
        is_dup_group(entries, hashes, g),
    ensures
        g.files.len() >= 2,
        g.reclaimable() == entries[listed_by_size(entries, hashes, g.hash)[0]].size * (same_digest(
            entries,
            hashes,
            g.hash,
        ).len() - 1),
{
    let k = choose|k: int|
        #[trigger] is_keeper(g.files, k) && g.keep == g.files[k].path && g.trash == file_paths(
            g.files,
        ).remove(k);
    let places = listed_by_size(entries, hashes, g.hash);
    lemma_listed_by_size(entries, hashes, g.hash);
    assert(g.files.len() == places.len());
    assert(g.trash.len() == places.len() - 1);
    assert(g.files[0] == entries[places[0]]);
}

/// Lists the groups of duplicates by what they free.
fn sort_found(
    groups: Vec<DupGroup>,
    Ghost(entries): Ghost<Seq<FileModel>>,
    Ghost(hashes): Ghost<Seq<Option<[u8; 32]>>>,
) -> (r: Vec<DupGroup>)
    requires
        are_dup_groups(entries, hashes, groups@),
        forall|g: int|
            0 <= g < groups@.len() ==> #[trigger] groups@[g]@.reclaimable() <= u64::MAX,
    ensures
        are_dup_groups(entries, hashes, r@),
        most_reclaimable_first(r@),
{
    let ghost before = groups@;
    let total: usize = groups.len();
    assert(before.len() == total);
    let r = sort_groups(groups);
    proof {
        let order = choose|order: Seq<usize>|
            is_permutation(before.len() as int, order) && r@ == #[trigger] rearranged(
                before,
                order,
            );
        assert forall|g: int, h: int| 0 <= g < h < r@.len() implies
            #[trigger] r@[g]@.hash != #[trigger] r@[h]@.hash by {
            assert(order[g] != order[h]);
            assert(r@[g] == before[order[g] as int]);
            assert(r@[h] == before[order[h] as int]);
        }
        assert forall|hash: Seq<u8>|
            #[trigger] same_digest(entries, hashes, hash).len() >= 2 implies has_group(
            r@,
            hash,
        ) by {
            assert(has_group(before, hash));
            let g = choose|g: int| 0 <= g < before.len() && #[trigger] before[g]@.hash == hash;
            assert(order.contains(g as usize));
            let i = choose|i: int| 0 <= i < order.len() && order[i] == g as usize;
            assert(r@[i]@.hash == hash);
        }
    }
    r
}

/// Finds the files with the same contents. `hashes` holds the digest of each
/// file that `hash_candidates` lists, or nothing where it could not be had.
/// Groups that free the most come first.
pub fn find_duplicates(
    entries: &Vec<FileEntry>,
    hashes: &Vec<Option<[u8; 32]>>,
) -> (r: Vec<DupGroup>)
    requires
        hashes@.len() == entries@.len(),
        dup_sizes_fit(entry_models(entries@), hashes@),
    ensures
        are_dup_groups(entry_models(entries@), hashes@, r@),
        most_reclaimable_first(r@),
{
    let ghost models = entry_models(entries@);
    let groups = duplicate_groups(entries, hashes);
    proof {
        assert forall|g: int| 0 <= g < groups@.len() implies
            #[trigger] groups@[g]@.reclaimable() <= u64::MAX by {
            lemma_reclaimable(models, hashes@, groups@[g]@);
        }
    }
    sort_found(groups, Ghost(models), Ghost(hashes@))
}

/// Finds the files with the same contents, as `find_duplicates` does. `None` if
/// what a group frees does not fit.
pub fn try_find_duplicates(
    entries: &Vec<FileEntry>,
    hashes: &Vec<Option<[u8; 32]>>,
) -> (r: Option<Vec<DupGroup>>)
    requires
        hashes@.len() == entries@.len(),
    ensures
        match r {
            Some(groups) => {
                &&& dup_sizes_fit(entry_models(entries@), hashes@)
                &&& are_dup_groups(entry_models(entries@), hashes@, groups@)
                &&& most_reclaimable_first(groups@)
            },
            None => !dup_sizes_fit(entry_models(entries@), hashes@),
        },
{
    let ghost models = entry_models(entries@);
    let groups = duplicate_groups(entries, hashes);
    let mut g: usize = 0;
    while g < groups.len()
        invariant
            models == entry_models(entries@),
            are_dup_groups(models, hashes@, groups@),
            g <= groups@.len(),
            forall|k: int| 0 <= k < g ==> #[trigger] groups@[k]@.reclaimable() <= u64::MAX,
        decreases groups@.len() - g,
    {
        let n: u64 = groups[g].trash.len() as u64;
        let ghost group = groups@[g as int]@;
        proof {
            lemma_reclaimable(models, hashes@, groups@[g as int]@);
            assert(group.files[0] == groups@[g as int].files@[0]@);
            assert(group.trash.len() == n);
        }
        if groups[g].files[0].size.checked_mul(n).is_none() {
            assert(group.reclaimable() > u64::MAX);
            return None;
        }
        g = g + 1;
    }
    proof {
        assert forall|hash: Seq<u8>|
            (#[trigger] same_digest(models, hashes@, hash)).len()
                >= 2 implies models[listed_by_size(models, hashes@, hash)[0]].size * (same_digest(
            models,
            hashes@,
            hash,
        ).len() - 1) <= u64::MAX by {
            assert(has_group(groups@, hash));
            let k = choose|k: int| 0 <= k < groups@.len() && #[trigger] groups@[k]@.hash == hash;
            lemma_reclaimable(models, hashes@, groups@[k]@);
            assert(groups@[k]@.reclaimable() <= u64::MAX);
        }
    }
    Some(sort_found(groups, Ghost(models), Ghost(hashes@)))
}

/// The request by which the digest of one file is obtained.
#[derive(Debug, Clone, Copy, PartialEq, Eq)]
pub enum HashRequest {
    /// Look the file up in the cache.
    LookUp,
    /// Read and hash the file.
    ReadFile,
    /// Put the digest into the cache.
    Store([u8; 32]),
}

/// The answer to a request.
#[derive(Debug, Clone, Copy, PartialEq, Eq)]
pub enum HashReply {
    Hit([u8; 32]),
    Miss,
    Digest([u8; 32]),
    Stored,
    Failed,
}

/// How far the hashing of one file has come.
#[derive(Debug, Clone, Copy, PartialEq, Eq)]
pub enum HashState {
    Asking(HashRequest),
    Done([u8; 32]),
    Failed,
}

/// Whether a reply answers a request.
pub open spec fn answers(request: HashRequest, reply: HashReply) -> bool {
    match reply {
        HashReply::Hit(_) | HashReply::Miss => request is LookUp,
        HashReply::Digest(_) => request is ReadFile,
        HashReply::Stored => request is Store,
        HashReply::Failed => true,
    }
}

/// What a reply leads to: a digest from the cache is final, one from the file
/// goes into the cache first if there is one, and any failure is final.
pub open spec fn hash_step(cached: bool, request: HashRequest, reply: HashReply) -> HashState {
    match reply {
        HashReply::Hit(h) => HashState::Done(h),
        HashReply::Miss => HashState::Asking(HashRequest::ReadFile),
        HashReply::Digest(h) => if cached {
            HashState::Asking(HashRequest::Store(h))
        } else {
            HashState::Done(h)
        },
        HashReply::Stored => HashState::Done(request->Store_0),
        HashReply::Failed => HashState::Failed,
    }
}

/// How hashing starts, with a cache or without.
pub open spec fn hash_start(cached: bool) -> HashState {
    if cached {
        HashState::Asking(HashRequest::LookUp)
    } else {
        HashState::Asking(HashRequest::ReadFile)
    }
}

/// Starts to hash a file, with a cache or without.
pub fn hash_with_cache(cached: bool) -> (r: HashState)
    ensures
        r == hash_start(cached),
        r == HashState::Asking(
            if cached {
                HashRequest::LookUp
            } else {
                HashRequest::ReadFile
            },
        ),
{
    if cached {
        HashState::Asking(HashRequest::LookUp)
    } else {
        HashState::Asking(HashRequest::ReadFile)
    }
}

/// Goes on with a reply.
pub fn hash_next(cached: bool, request: HashRequest, reply: HashReply) -> (r: HashState)
    requires
        answers(request, reply),
    ensures
        r == hash_step(cached, request, reply),
{
    match reply {
        HashReply::Hit(h) => HashState::Done(h),
        HashReply::Miss => HashState::Asking(HashRequest::ReadFile),
        HashReply::Digest(h) => {
            if cached {
                HashState::Asking(HashRequest::Store(h))
            } else {
                HashState::Done(h)
            }
        },
        HashReply::Stored => match request {
            HashRequest::Store(h) => HashState::Done(h),
            _ => HashState::Failed,
        },
        HashReply::Failed => HashState::Failed,
    }
}

/// One file of a group is kept, at least as shallow as every other, and exactly
/// the others are trashed.
pub proof fn a_group_keeps_one_file(
    entries: Seq<FileModel>,
    hashes: Seq<Option<[u8; 32]>>,
    g: DupGroupModel,
)
    requires
        is_dup_group(entries, hashes, g),
    ensures
        exists|k: int|
            0 <= k < g.files.len() && (#[trigger] g.files[k]).path == g.keep && g.trash
                == file_paths(g.files).remove(k),
        g.trash.len() == g.files.len() - 1,
        forall|i: int|
            0 <= i < g.files.len() ==> g.keep == (#[trigger] g.files[i]).path || g.trash.contains(
                g.files[i].path,
            ),
        forall|i: int|
            0 <= i < g.files.len() ==> components(g.keep).len() <= components(
                (#[trigger] g.files[i]).path,
            ).len(),
        file_paths(g.files).no_duplicates() ==> !g.trash.contains(g.keep),
{
    let k = choose|k: int|
        #[trigger] is_keeper(g.files, k) && g.keep == g.files[k].path && g.trash == file_paths(
            g.files,
        ).remove(k);
    assert(g.files[k].path == g.keep);
    if file_paths(g.files).no_duplicates() && g.trash.contains(g.keep) {
        let m = choose|m: int| 0 <= m < g.trash.len() && g.trash[m] == g.keep;
        let i = if m < k {
            m
        } else {
            m + 1
        };
        assert(file_paths(g.files)[i] == file_paths(g.files)[k]);
    }
    assert forall|i: int| 0 <= i < g.files.len() implies g.keep == (#[trigger] g.files[i]).path
        || g.trash.contains(g.files[i].path) by {
        if i < k {
            assert(g.trash[i] == g.files[i].path);
        } else if i > k {
            assert(g.trash[i - 1] == g.files[i].path);
        }
    }
    assert forall|i: int| 0 <= i < g.files.len() implies components(g.keep).len() <= components(
        (#[trigger] g.files[i]).path,
    ).len() by {
        if i != k {
            assert(keeps_over(g.files[k], g.files[i]));
        }
    }
}

/// No file is in two groups.
pub proof fn groups_share_no_file(
    entries: Seq<FileModel>,
    hashes: Seq<Option<[u8; 32]>>,
    groups: Seq<DupGroup>,
    g: int,
    h: int,
    i: int,
)
    requires
        are_dup_groups(entries, hashes, groups),
        0 <= g < groups.len(),
        0 <= h < groups.len(),
        same_digest(entries, hashes, groups[g]@.hash).contains(i),
        same_digest(entries, hashes, groups[h]@.hash).contains(i),
    ensures
        g == h,
{
    let n = entries.len() as int;
    let a = groups[g]@.hash;
    let b = groups[h]@.hash;
    let p = |x: int| has_digest(entries, hashes, a, x);
    let q = |x: int| has_digest(entries, hashes, b, x);
    lemma_positions(n, p);
    lemma_positions(n, q);
    assert(p(i) && q(i));
    if g < h {
        assert(groups[g]@.hash != groups[h]@.hash);
    } else if h < g {
        assert(groups[h]@.hash != groups[g]@.hash);
    }
}

/// A file whose size no other file has is in no group.
pub proof fn a_lone_size_is_in_no_group(
    entries: Seq<FileModel>,
    hashes: Seq<Option<[u8; 32]>>,
    hash: Seq<u8>,
    i: int,
)
    requires
        0 <= i < entries.len(),
        forall|j: int|
            0 <= j < entries.len() && j != i ==> (#[trigger] entries[j]).size != entries[i].size,
    ensures
        !same_digest(entries, hashes, hash).contains(i),
{
    lemma_positions(
        entries.len() as int,
        |x: int| has_digest(entries, hashes, hash, x),
    );
}

/// What a cache that holds `found` and a file with the digest `digest` reply.
pub open spec fn true_reply(
    request: HashRequest,
    found: Option<[u8; 32]>,
    digest: [u8; 32],
) -> HashReply {
    match request {
        HashRequest::LookUp => match found {
            Some(h) => HashReply::Hit(h),
            None => HashReply::Miss,
        },
        HashRequest::ReadFile => HashReply::Digest(digest),
        HashRequest::Store(_) => HashReply::Stored,
    }
}

/// The state after at most `n` true replies.
pub open spec fn hash_after(
    cached: bool,
    state: HashState,
    found: Option<[u8; 32]>,
    digest: [u8; 32],
    n: nat,
) -> HashState
    decreases n,
{
    match state {
        HashState::Asking(request) if n > 0 => hash_after(
            cached,
            hash_step(cached, request, true_reply(request, found, digest)),
            found,
            digest,
            (n - 1) as nat,
        ),
        _ => state,
    }
}

/// With a cache that holds the file's digest or nothing, or without one, the same
/// digest comes out. One that is found makes reading the file unnecessary.
pub proof fn a_cache_changes_no_digest(cached: bool, found: Option<[u8; 32]>, digest: [u8; 32])
    requires
        found is None || found == Some(digest),
    ensures
        hash_after(
            cached,
            HashState::Asking(
                if cached {
                    HashRequest::LookUp
                } else {
                    HashRequest::ReadFile
                },
            ),
            found,
            digest,
            3,
        ) == HashState::Done(digest),
        cached && found is Some ==> hash_step(
            cached,
            HashRequest::LookUp,
            true_reply(HashRequest::LookUp, found, digest),
        ) == HashState::Done(digest),
{
    reveal_with_fuel(hash_after, 4);
}

/// Files with the same contents are found: where their digests could be had, they
/// share a group.
pub proof fn equal_contents_share_a_group(
    entries: Seq<FileModel>,
    hashes: Seq<Option<[u8; 32]>>,
    groups: Seq<DupGroup>,
    contents: Seq<u8>,
    i: int,
    j: int,
)
    requires
        are_dup_groups(entries, hashes, groups),
        0 <= i < entries.len(),
        0 <= j < entries.len(),
        i != j,
        entries[i].size == contents.len(),
        entries[j].size == contents.len(),
        digest_at(hashes, i) == Some(blake3_digest(contents)),
        digest_at(hashes, j) == Some(blake3_digest(contents)),
    ensures
        exists|g: int|
            0 <= g < groups.len() && #[trigger] groups[g]@.hash == blake3_digest(contents)
                && groups[g]@.files.contains(entries[i]) && groups[g]@.files.contains(entries[j]),
{
    let n = entries.len() as int;
    let hash = blake3_digest(contents);
    let p = |x: int| has_digest(entries, hashes, hash, x);
    lemma_positions(n, p);
    assert(entries[j].size == entries[i].size);
    assert(p(i) && p(j));
    lemma_listed_by_size(entries, hashes, hash);
    let places = listed_by_size(entries, hashes, hash);
    assert(places.contains(i) && places.contains(j));
    let a = choose|a: int| 0 <= a < places.len() && places[a] == i;
    let b = choose|b: int| 0 <= b < places.len() && places[b] == j;
    assert(a != b);
    assert(has_group(groups, hash));
    let g = choose|g: int| 0 <= g < groups.len() && #[trigger] groups[g]@.hash == hash;
    assert(is_dup_group(entries, hashes, groups[g]@));
    assert(groups[g]@.files[a] == entries[i]);
    assert(groups[g]@.files[b] == entries[j]);
}

/// Files with different digests share no group.
pub proof fn a_group_has_one_digest(
    entries: Seq<FileModel>,
    hashes: Seq<Option<[u8; 32]>>,
    g: DupGroupModel,
    k: int,
)
    requires
        is_dup_group(entries, hashes, g),
        0 <= k < g.files.len(),
    ensures
        exists|i: int|
            0 <= i < entries.len() && #[trigger] entries[i] == g.files[k] && digest_at(hashes, i)
                == Some(g.hash),
{
    lemma_listed_by_size(entries, hashes, g.hash);
    let places = listed_by_size(entries, hashes, g.hash);
    assert(has_digest(entries, hashes, g.hash, places[k]));
    assert(g.files[k] == entries[places[k]]);
}

/// Files of one group have the same contents, unless these collide under BLAKE3.
pub proof fn a_group_has_one_content(
    entries: Seq<FileModel>,
    hashes: Seq<Option<[u8; 32]>>,
    g: DupGroupModel,
    i: int,
    j: int,
    a: Seq<u8>,
    b: Seq<u8>,
)
    requires
        is_dup_group(entries, hashes, g),
        same_digest(entries, hashes, g.hash).contains(i),
        same_digest(entries, hashes, g.hash).contains(j),
        digest_at(hashes, i) == Some(blake3_digest(a)),
        digest_at(hashes, j) == Some(blake3_digest(b)),
        blake3_digest(a) == blake3_digest(b) ==> a == b,
    ensures
        a == b,
{
    let p = |x: int| has_digest(entries, hashes, g.hash, x);
    lemma_positions(entries.len() as int, p);
    assert(p(i) && p(j));
}

/// A group lists its files size by size: the largest first, and files of one size
/// in the order in which they were met.
pub proof fn files_of_one_size_stand_together(
    entries: Seq<FileModel>,
    hashes: Seq<Option<[u8; 32]>>,
    g: DupGroupModel,
    k: int,
    l: int,
)
    requires
        is_dup_group(entries, hashes, g),
        0 <= k < l < g.files.len(),
    ensures
        g.files[k].size >= g.files[l].size,
        ({
            let places = listed_by_size(entries, hashes, g.hash);
            &&& g.files[k] == entries[places[k]]
            &&& g.files[l] == entries[places[l]]
            &&& g.files[k].size == g.files[l].size ==> places[k] < places[l]
        }),
{
    lemma_listed_by_size(entries, hashes, g.hash);
    let places = listed_by_size(entries, hashes, g.hash);
    assert(size_order(entries)(places[k], places[l]));
    assert(places[k] != places[l]);
}

/// Whether file `a` is at least as good to keep as file `b`: it has fewer
/// components, or as many and it is older, or it is as old and not behind in the
/// order of paths.
pub open spec fn is_better(a: FileModel, b: FileModel) -> bool {
    ||| components(a.path).len() < components(b.path).len()
    ||| components(a.path).len() == components(b.path).len() && a.mtime < b.mtime
    ||| components(a.path).len() == components(b.path).len() && a.mtime == b.mtime && path_order(
        components(a.path),
        components(b.path),
    ) != Order::Greater
}

/// What a keeper is, file by file.
proof fn lemma_keeper_against(files: Seq<FileModel>, k: int, i: int)
    requires
        is_keeper(files, k),
        0 <= i < files.len(),
    ensures
        is_better(files[k], files[i]),
        components(files[k].path) == components(files[i].path) && files[k].mtime == files[i].mtime
            ==> k <= i,
{
    path_order_linear(components(files[k].path), components(files[i].path));
    path_order_linear(components(files[k].path), components(files[k].path));
    if i != k {
        assert(keeps_over(files[k], files[i]));
    }
}

/// The file that is kept has the fewest components. Of those with as few it is the
/// oldest, of those as old the first in the order of paths, and of those with the
/// same path the first in the list. Exactly the others are trashed, in their order.
pub proof fn the_keeper_is_shallowest_then_oldest_then_first(
    files: Seq<FileModel>,
    keep: Seq<u8>,
    trash: Seq<Seq<u8>>,
)
    requires
        picks(files, keep, trash),
    ensures
        exists|k: int|
            {
                &&& 0 <= k < files.len()
                &&& (#[trigger] files[k]).path == keep
                &&& trash == files.map_values(|f: FileModel| f.path).remove(k)
                &&& forall|i: int| 0 <= i < files.len() ==> is_better(files[k], #[trigger] files[i])
                &&& forall|i: int|
                    0 <= i < k ==> components((#[trigger] files[i]).path) != components(keep)
                        || files[i].mtime != files[k].mtime
            },
{
    let k = choose|k: int|
        #[trigger] is_keeper(files, k) && keep == files[k].path && trash == file_paths(
            files,
        ).remove(k);
    assert(files[k].path == keep);
    assert(file_paths(files) =~= files.map_values(|f: FileModel| f.path));
    assert forall|i: int| 0 <= i < files.len() implies is_better(files[k], #[trigger] files[i]) by {
        lemma_keeper_against(files, k, i);
    }
    assert forall|i: int| 0 <= i < k implies components((#[trigger] files[i]).path) != components(
        keep,
    ) || files[i].mtime != files[k].mtime by {
        lemma_keeper_against(files, k, i);
    }
}

/// The same of a group: with every file of it as deep as the kept one the kept one
/// is at least as old, and with one as old it is not behind it in the order of
/// paths.
pub proof fn the_keeper_of_a_group_is_the_oldest_of_the_shallowest(
    entries: Seq<FileModel>,
    hashes: Seq<Option<[u8; 32]>>,
    g: DupGroupModel,
)
    requires
        is_dup_group(entries, hashes, g),
    ensures
        exists|k: int|
            {
                &&& 0 <= k < g.files.len()
                &&& (#[trigger] g.files[k]).path == g.keep
                &&& forall|i: int|
                    0 <= i < g.files.len() && components((#[trigger] g.files[i]).path).len()
                        == components(g.keep).len() ==> g.files[k].mtime <= g.files[i].mtime && (
                    g.files[k].mtime == g.files[i].mtime ==> path_order(
                        components(g.keep),
                        components(g.files[i].path),
                    ) != Order::Greater)
            },
{
    the_keeper_is_shallowest_then_oldest_then_first(g.files, g.keep, g.trash);
    let k = choose|k: int|
        {
            &&& 0 <= k < g.files.len()
            &&& (#[trigger] g.files[k]).path == g.keep
            &&& forall|i: int|
                0 <= i < g.files.len() ==> is_better(g.files[k], #[trigger] g.files[i])
        };
    assert(g.files[k].path == g.keep);
    assert forall|i: int|
        0 <= i < g.files.len() && components((#[trigger] g.files[i]).path).len() == components(
            g.keep,
        ).len() implies g.files[k].mtime <= g.files[i].mtime && (g.files[k].mtime
        == g.files[i].mtime ==> path_order(components(g.keep), components(g.files[i].path))
        != Order::Greater) by {
        assert(is_better(g.files[k], g.files[i]));
    }
}

/// Whether another file has the size of file `i`, and its digest is `hash`.
pub open spec fn counts_for(
    entries: Seq<FileModel>,
    hashes: Seq<Option<[u8; 32]>>,
    hash: Seq<u8>,
    i: int,
) -> bool {
    &&& 0 <= i < entries.len()
    &&& hashes[i] is Some
    &&& hashes[i]->0@ == hash
    &&& exists|j: int|
        0 <= j < entries.len() && j != i && (#[trigger] entries[j]).size == entries[i].size
}

/// A group lists all the files with its digest that share their size with another
/// file, each once, and no other file. There are at least two.
pub proof fn a_group_is_all_the_files_with_one_digest(
    entries: Seq<FileModel>,
    hashes: Seq<Option<[u8; 32]>>,
    g: DupGroupModel,
)
    requires
        is_dup_group(entries, hashes, g),
    ensures
        g.files.len() >= 2,
        exists|places: Seq<int>|
            {
                &&& places.no_duplicates()
                &&& #[trigger] places.len() == g.files.len()
                &&& forall|k: int|
                    0 <= k < places.len() ==> counts_for(
                        entries,
                        hashes,
                        g.hash,
                        #[trigger] places[k],
                    ) && g.files[k] == entries[places[k]]
                &&& forall|i: int| #[trigger]
                    counts_for(entries, hashes, g.hash, i) ==> places.contains(i)
            },
{
    let places = listed_by_size(entries, hashes, g.hash);
    lemma_listed_by_size(entries, hashes, g.hash);
    assert forall|k: int| 0 <= k < places.len() implies counts_for(
        entries,
        hashes,
        g.hash,
        #[trigger] places[k],
    ) && g.files[k] == entries[places[k]] by {
        let i = places[k];
        assert(has_digest(entries, hashes, g.hash, i));
        let j = choose|j: int|
            0 <= j < entries.len() && j != i && #[trigger] entries[j].size == entries[i].size;
        assert(entries[j].size == entries[i].size);
        assert(g.files[k] == entries[places[k]]);
    }
    assert forall|i: int| #[trigger] counts_for(entries, hashes, g.hash, i) implies places.contains(
        i,
    ) by {
        let j = choose|j: int|
            0 <= j < entries.len() && j != i && (#[trigger] entries[j]).size == entries[i].size;
        assert(entries[j].size == entries[i].size);
        assert(has_digest(entries, hashes, g.hash, i));
    }
    assert(places.len() == g.files.len());
}

/// Every two files with one digest that share their sizes with other files, if
/// only with each other, are in one group, and there is only one with that digest.
pub proof fn files_with_one_digest_share_one_group(
    entries: Seq<FileModel>,
    hashes: Seq<Option<[u8; 32]>>,
    groups: Seq<DupGroup>,
    hash: Seq<u8>,
    i: int,
    j: int,
)
    requires
        are_dup_groups(entries, hashes, groups),
        counts_for(entries, hashes, hash, i),
        counts_for(entries, hashes, hash, j),
        i != j,
    ensures
        exists|g: int|
            {
                &&& 0 <= g < groups.len()
                &&& #[trigger] groups[g]@.hash == hash
                &&& groups[g]@.files.contains(entries[i])
                &&& groups[g]@.files.contains(entries[j])
                &&& forall|h: int| 0 <= h < groups.len() && #[trigger] groups[h]@.hash == hash ==> h == g
            },
{
    let x = choose|x: int|
        0 <= x < entries.len() && x != i && (#[trigger] entries[x]).size == entries[i].size;
    let y = choose|y: int|
        0 <= y < entries.len() && y != j && (#[trigger] entries[y]).size == entries[j].size;
    assert(entries[x].size == entries[i].size && entries[y].size == entries[j].size);
    assert(has_digest(entries, hashes, hash, i) && has_digest(entries, hashes, hash, j));
    lemma_listed_by_size(entries, hashes, hash);
    let places = listed_by_size(entries, hashes, hash);
    assert(places.contains(i) && places.contains(j));
    let a = choose|a: int| 0 <= a < places.len() && places[a] == i;
    let b = choose|b: int| 0 <= b < places.len() && places[b] == j;
    assert(a != b);
    assert(has_group(groups, hash));
    let g = choose|g: int| 0 <= g < groups.len() && #[trigger] groups[g]@.hash == hash;
    assert(is_dup_group(entries, hashes, groups[g]@));
    assert(groups[g]@.files[a] == entries[i]);
    assert(groups[g]@.files[b] == entries[j]);
    assert forall|h: int| 0 <= h < groups.len() && #[trigger] groups[h]@.hash == hash implies h
        == g by {
        if h < g {
            assert(groups[h]@.hash != groups[g]@.hash);
        } else if g < h {
            assert(groups[g]@.hash != groups[h]@.hash);
        }
    }
}

/// A group of files of one size frees that size for every file but one.
pub proof fn a_group_frees_all_copies_but_one(
    entries: Seq<FileModel>,
    hashes: Seq<Option<[u8; 32]>>,
    g: DupGroupModel,
    size: u64,
)
    requires
        is_dup_group(entries, hashes, g),
        forall|i: int| 0 <= i < g.files.len() ==> (#[trigger] g.files[i]).size == size,
    ensures
        g.reclaimable() == size * (g.files.len() - 1),
{
    lemma_reclaimable(entries, hashes, g);
    lemma_listed_by_size(entries, hashes, g.hash);
    the_keeper_is_shallowest_then_oldest_then_first(g.files, g.keep, g.trash);
    assert(g.files[0].size == size);
    assert(g.trash.len() == g.files.len() - 1);
}

/// Groups come by what they free: the size of the first file for every path in the
/// trash.
pub proof fn groups_that_free_more_come_first(groups: Seq<DupGroup>, g: int, h: int)
    requires
        most_reclaimable_first(groups),
        0 <= g < h < groups.len(),
        groups[g].files@.len() > 0,
        groups[h].files@.len() > 0,
    ensures
        groups[g].files@[0].size * groups[g].trash@.len() >= groups[h].files@[0].size
            * groups[h].trash@.len(),
{
    assert(groups[g]@.reclaimable() >= groups[h]@.reclaimable());
    assert(groups[g]@.files[0] == groups[g].files@[0]@);
    assert(groups[h]@.files[0] == groups[h].files@[0]@);
}

/// Exactly the files that share their size with another have to be hashed, each
/// once and in order.
pub proof fn files_of_shared_size_are_hashed(entries: Seq<FileModel>)
    ensures
        forall|i: int| #[trigger]
            candidates(entries).contains(i) <==> 0 <= i < entries.len() && exists|j: int|
                0 <= j < entries.len() && j != i && (#[trigger] entries[j]).size
                    == entries[i].size,
        forall|a: int, b: int|
            0 <= a < b < candidates(entries).len() ==> candidates(entries)[a]
                < candidates(entries)[b],
{
    let p = |i: int| is_candidate(entries, i);
    lemma_positions(entries.len() as int, p);
    assert forall|i: int| #[trigger] candidates(entries).contains(i) <==> 0 <= i < entries.len()
        && exists|j: int|
        0 <= j < entries.len() && j != i && (#[trigger] entries[j]).size == entries[i].size by {
        if candidates(entries).contains(i) {
            let k = choose|k: int|
                0 <= k < candidates(entries).len() && candidates(entries)[k] == i;
            assert(p(candidates(entries)[k]));
            let j = choose|j: int|
                0 <= j < entries.len() && j != i && #[trigger] entries[j].size == entries[i].size;
            assert(entries[j].size == entries[i].size);
        }
        if 0 <= i < entries.len() && exists|j: int|
            0 <= j < entries.len() && j != i && (#[trigger] entries[j]).size == entries[i].size {
            let j = choose|j: int|
                0 <= j < entries.len() && j != i && (#[trigger] entries[j]).size
                    == entries[i].size;
            assert(entries[j].size == entries[i].size);
            assert(p(i));
        }
    }
}

/// With a cache the digest is looked up first. What is not found is read, and what
/// was read is stored, before it is handed out. Without one the file is read, and
/// nothing is looked up or stored. A failure ends it.
pub proof fn a_digest_is_looked_up_read_and_stored(cached: bool, request: HashRequest, h: [u8; 32])
    ensures
        hash_start(true) == HashState::Asking(HashRequest::LookUp),
        hash_start(false) == HashState::Asking(HashRequest::ReadFile),
        hash_step(cached, request, HashReply::Hit(h)) == HashState::Done(h),
        hash_step(cached, request, HashReply::Miss) == HashState::Asking(HashRequest::ReadFile),
        hash_step(true, request, HashReply::Digest(h)) == HashState::Asking(HashRequest::Store(h)),
        hash_step(false, request, HashReply::Digest(h)) == HashState::Done(h),
        hash_step(cached, HashRequest::Store(h), HashReply::Stored) == HashState::Done(h),
        hash_step(cached, request, HashReply::Failed) == HashState::Failed,
{
}

/// A request to hash is answered in its own way: a look-up with what was found or
/// with nothing, a reading with the digest, a storing with nothing, and each with a
/// failure.
pub proof fn hashing_is_answered_as_asked(request: HashRequest, h: [u8; 32])
    ensures
        answers(request, HashReply::Hit(h)) <==> request is LookUp,
        answers(request, HashReply::Miss) <==> request is LookUp,
        answers(request, HashReply::Digest(h)) <==> request is ReadFile,
        answers(request, HashReply::Stored) <==> request is Store,
        answers(request, HashReply::Failed),
{
}

/// What the groups free can be told unless it is too large for one of them: a file
/// of one digest whose size, for every other file with that digest, adds up to more
/// than fits.
pub proof fn only_too_large_groups_do_not_fit(
    entries: Seq<FileModel>,
    hashes: Seq<Option<[u8; 32]>>,
)
    ensures
        !dup_sizes_fit(entries, hashes) ==> exists|hash: Seq<u8>, i: int|
            #[trigger] counts_for(entries, hashes, hash, i) && entries[i].size * (same_digest(
                entries,
                hashes,
                hash,
            ).len() - 1) > u64::MAX,
        forall|hash: Seq<u8>, i: int| #[trigger]
            same_digest(entries, hashes, hash).contains(i) <==> counts_for(
                entries,
                hashes,
                hash,
                i,
            ),
        forall|hash: Seq<u8>| #[trigger] same_digest(entries, hashes, hash).no_duplicates(),
{
    assert forall|hash: Seq<u8>, i: int| #[trigger]
        same_digest(entries, hashes, hash).contains(i) <==> counts_for(
        entries,
        hashes,
        hash,
        i,
    ) by {
        lemma_counts_for(entries, hashes, hash, i);
    }
    assert forall|hash: Seq<u8>| #[trigger] same_digest(
        entries,
        hashes,
        hash,
    ).no_duplicates() by {
        lemma_listed_by_size(entries, hashes, hash);
    }
    if !dup_sizes_fit(entries, hashes) {
        let hash = choose|hash: Seq<u8>|
            (#[trigger] same_digest(entries, hashes, hash)).len() >= 2
                && entries[listed_by_size(entries, hashes, hash)[0]].size * (same_digest(
                entries,
                hashes,
                hash,
            ).len() - 1) > u64::MAX;
        lemma_listed_by_size(entries, hashes, hash);
        let i = listed_by_size(entries, hashes, hash)[0];
        lemma_counts_for(entries, hashes, hash, i);
        assert(listed_by_size(entries, hashes, hash).contains(i));
        assert(counts_for(entries, hashes, hash, i));
    }
}

/// Which files have a digest.
proof fn lemma_counts_for(
    entries: Seq<FileModel>,
    hashes: Seq<Option<[u8; 32]>>,
    hash: Seq<u8>,
    i: int,
)
    ensures
        same_digest(entries, hashes, hash).contains(i) <==> counts_for(entries, hashes, hash, i),
        listed_by_size(entries, hashes, hash).contains(i) <==> counts_for(
            entries,
            hashes,
            hash,
            i,
        ),
{
    let p = |x: int| has_digest(entries, hashes, hash, x);
    let places = same_digest(entries, hashes, hash);
    lemma_positions(entries.len() as int, p);
    lemma_listed_by_size(entries, hashes, hash);
    if counts_for(entries, hashes, hash, i) {
        let j = choose|j: int|
            0 <= j < entries.len() && j != i && (#[trigger] entries[j]).size == entries[i].size;
        assert(entries[j].size == entries[i].size);
        assert(p(i));
    }
    if 0 <= i < entries.len() && has_digest(entries, hashes, hash, i) {
        let j = choose|j: int|
            0 <= j < entries.len() && j != i && #[trigger] entries[j].size == entries[i].size;
        assert(entries[j].size == entries[i].size);
        assert(p(i));
    }
    if places.contains(i) {
        let k = choose|k: int| 0 <= k < places.len() && places[k] == i;
        assert(p(places[k]));
    }
}

/// Where they fit, every group frees a number that fits.
pub proof fn what_fits_can_be_told(
    entries: Seq<FileModel>,
    hashes: Seq<Option<[u8; 32]>>,
    g: DupGroupModel,
)
    requires
        dup_sizes_fit(entries, hashes),
        is_dup_group(entries, hashes, g),
    ensures
        g.files.len() > 0,
        g.files[0].size * g.trash.len() <= u64::MAX,
{
    lemma_reclaimable(entries, hashes, g);
}

} // verus!
