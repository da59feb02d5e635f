//! Directories: the files that lie in them, their sizes and their digests.

use vstd::prelude::*;
use vstd::relations::{sorted_by, total_ordering};
use vstd::seq_lib::lemma_sorted_unique;
use vstd::utf8::valid_utf8;
use crate::dedup::{digest_at, hash_candidates, is_candidate};
use crate::hashing::{blake3_digest, ContentHasher};
use crate::order::{path_order, path_order_linear, path_order_transitive, texts, Order, PathKey};
use crate::paths::{component_ends, components, leading, lemma_leading, path_bytes};
use crate::paths::{root_component, starts_with_parts, trailing, FilePath, SLASH};
use crate::sorting::{group_ties, groups_ties, ints, is_grouped, leader, lemma_positions};
use crate::sorting::{lemma_increasing_distinct, lemma_positions_unique, lemma_sort_by_keeps};
use crate::sorting::{lemma_sort_by_unique, lemma_sorts_distinct, mark_shared, positions};
use crate::sorting::{sort_order, stands_before, ties, Ranked};
use crate::text::{lossy, push_bytes, utf8_lossy};
use crate::walker::{entry_models, FileEntry, FileModel};

verus! {

/// The number of components of the topmost directory that counts as an ancestor
/// of `path`. The search for ancestors ends below `root`, and where it does not
/// meet `root`, at the top.
pub open spec fn top_ancestor(path: Seq<Seq<u8>>, root: Seq<Seq<u8>>) -> int {
    if root.len() < path.len() && path.take(root.len() as int) == root {
        root.len() as int + 1
    } else if path.len() > 0 && path[0] == root_component() {
        1
    } else {
        0
    }
}

/// The ancestors of `path` below `root`, the nearest first.
pub open spec fn ancestors(path: Seq<u8>, root: Seq<u8>) -> Seq<Seq<u8>> {
    let n = components(path).len() as int;
    let top = top_ancestor(components(path), components(root));
    Seq::new(
        if top < n {
            (n - top) as nat
        } else {
            0
        },
        |k: int| leading(path, n - 1 - k),
    )
}

/// Whether the file at `path` lies in the directory with the components `dir`,
/// at any depth.
pub open spec fn lies_in(path: Seq<u8>, root: Seq<u8>, dir: Seq<Seq<u8>>) -> bool {
    &&& top_ancestor(components(path), components(root)) <= dir.len()
    &&& dir.len() < components(path).len()
    &&& components(path).take(dir.len() as int) == dir
}

/// The ancestors of `path` below `root`, the nearest first.
pub fn ancestors_up_to(path: &FilePath, root: &FilePath) -> (r: Vec<FilePath>)
    ensures
        path_bytes(r@) == ancestors(path@, root@),
{
    let p = path.parse();
    let q = root.parse();
    let n: usize = p.parts.len();
    assert(texts(p.parts@).len() == n);
    assert(texts(q.parts@).len() == q.parts@.len());
    let top: usize = if q.parts.len() < n && starts_with_parts(&p.parts, &q.parts) {
        q.parts.len() + 1
    } else if n > 0 && p.parts[0].len() == 1 && p.parts[0][0] == SLASH {
        assert(p.parts@[0]@ =~= root_component());
        assert(texts(p.parts@)[0] == p.parts@[0]@);
        1
    } else {
        assert(n > 0 ==> texts(p.parts@)[0] == p.parts@[0]@);
        0
    };
    let mut out: Vec<FilePath> = Vec::new();
    let mut k: usize = n;
    while k > top
        invariant
            texts(p.parts@) == components(path@),
            ints(p.ends@) == component_ends(path@),
            n == components(path@).len(),
            top == top_ancestor(components(path@), components(root@)),
            k <= n,
            k >= top || k == n,
            out@.len() == n - k,
            forall|i: int| 0 <= i < out@.len() ==> (#[trigger] out@[i])@ == leading(path@, n - 1 - i),
        decreases k,
    {
        k = k - 1;
        out.push(path.cut(&p, k));
    }
    assert(path_bytes(out@) =~= ancestors(path@, root@));
    out
}

/// The ancestors of a file are the directories that it lies in.
proof fn lemma_ancestors(path: Seq<u8>, root: Seq<u8>)
    ensures
        forall|k: int|
            0 <= k < ancestors(path, root).len() ==> {
                let dir = components(#[trigger] ancestors(path, root)[k]);
                &&& lies_in(path, root, dir)
                &&& ancestors(path, root)[k] == leading(path, dir.len() as int)
                &&& dir.len() == components(path).len() - 1 - k
            },
        forall|dir: Seq<Seq<u8>>| #[trigger]
            lies_in(path, root, dir) ==> {
                let k = components(path).len() - 1 - dir.len();
                0 <= k < ancestors(path, root).len() && components(ancestors(path, root)[k]) == dir
            },
{
    let n = components(path).len() as int;
    assert forall|k: int| 0 <= k < ancestors(path, root).len() implies {
        let dir = components(#[trigger] ancestors(path, root)[k]);
        &&& lies_in(path, root, dir)
        &&& ancestors(path, root)[k] == leading(path, dir.len() as int)
        &&& dir.len() == n - 1 - k
    } by {
        lemma_leading(path, n - 1 - k);
    }
    assert forall|dir: Seq<Seq<u8>>| #[trigger] lies_in(path, root, dir) implies {
        let k = n - 1 - dir.len();
        0 <= k < ancestors(path, root).len() && components(ancestors(path, root)[k]) == dir
    } by {
        lemma_leading(path, dir.len() as int);
    }
}

/// Every file paired with every directory that it lies in.
struct Incidences {
    dirs: Vec<FilePath>,
    of: Vec<usize>,
    keys: Vec<PathKey>,
}

/// Whether some pair joins file `i` and directory `dir`.
spec fn is_paired(dirs: Seq<FilePath>, of: Seq<usize>, i: int, dir: Seq<Seq<u8>>) -> bool {
    exists|k: int| 0 <= k < of.len() && of[k] == i && components((#[trigger] dirs[k])@) == dir
}

/// Whether pair `k` stands before pair `l`: its file comes first, or it is the
/// same file with another directory.
spec fn in_turn(dirs: Seq<FilePath>, of: Seq<usize>, k: int, l: int) -> bool {
    ||| of[k] < of[l]
    ||| of[k] == of[l] && components(dirs[k]@) != components(dirs[l]@)
}

/// Whether the pairs join each of the first `done` files with each directory
/// that it lies in, once, in the order of the files.
spec fn pairs_up(
    entries: Seq<FileModel>,
    root: Seq<u8>,
    dirs: Seq<FilePath>,
    of: Seq<usize>,
    keys: Seq<PathKey>,
    done: int,
) -> bool {
    &&& dirs.len() == of.len()
    &&& keys.len() == of.len()
    &&& forall|k: int| 0 <= k < of.len() ==> #[trigger] of[k] < done
    &&& forall|k: int|
        0 <= k < of.len() ==> texts((#[trigger] keys[k]).parts@) == components(dirs[k]@)
    &&& forall|k: int|
        0 <= k < of.len() ==> {
            let dir = components((#[trigger] dirs[k])@);
            &&& lies_in(entries[of[k] as int].path, root, dir)
            &&& dirs[k]@ == leading(entries[of[k] as int].path, dir.len() as int)
        }
    &&& forall|k: int, l: int| 0 <= k < l < of.len() ==> #[trigger] in_turn(dirs, of, k, l)
    &&& forall|i: int, dir: Seq<Seq<u8>>|
        0 <= i < done && #[trigger] lies_in(entries[i].path, root, dir) ==> is_paired(
            dirs,
            of,
            i,
            dir,
        )
}

/// Pairs every file with every directory that it lies in.
fn pair_up(root: &FilePath, entries: &Vec<FileEntry>) -> (r: Incidences)
    ensures
        pairs_up(
            entry_models(entries@),
            root@,
            r.dirs@,
            r.of@,
            r.keys@,
            entries@.len() as int,
        ),
{
    let ghost models = entry_models(entries@);
    let mut dirs: Vec<FilePath> = Vec::new();
    let mut of: Vec<usize> = Vec::new();
    let mut keys: Vec<PathKey> = Vec::new();
    let mut i: usize = 0;
    while i < entries.len()
        invariant
            models == entry_models(entries@),
            i <= entries@.len(),
            pairs_up(models, root@, dirs@, of@, keys@, i as int),
        decreases entries@.len() - i,
    {
        let ghost path = models[i as int].path;
        let up = ancestors_up_to(&entries[i].path, root);
        proof {
            assert(path_bytes(up@) == ancestors(path, root@));
            lemma_ancestors(path, root@);
        }
        let ghost dirs0 = dirs@;
        let ghost of0 = of@;
        let ghost keys0 = keys@;
        let mut k: usize = 0;
        while k < up.len()
            invariant
                models == entry_models(entries@),
                i < entries@.len(),
                path == models[i as int].path,
                path_bytes(up@) == ancestors(path, root@),
                k <= up@.len(),
                dirs@.len() == dirs0.len() + k,
                of@.len() == of0.len() + k,
                keys@.len() == keys0.len() + k,
                forall|m: int| 0 <= m < dirs0.len() ==> #[trigger] dirs@[m] == dirs0[m],
                forall|m: int| 0 <= m < of0.len() ==> #[trigger] of@[m] == of0[m],
                forall|m: int| 0 <= m < keys0.len() ==> #[trigger] keys@[m] == keys0[m],
                forall|m: int|
                    dirs0.len() <= m < dirs@.len() ==> (#[trigger] dirs@[m])@ == ancestors(
                        path,
                        root@,
                    )[m - dirs0.len()],
                forall|m: int| of0.len() <= m < of@.len() ==> #[trigger] of@[m] == i,
                forall|m: int|
                    keys0.len() <= m < keys@.len() ==> texts((#[trigger] keys@[m]).parts@)
                        == components(ancestors(path, root@)[m - keys0.len()]),
            decreases up@.len() - k,
        {
            assert(path_bytes(up@)[k as int] == up@[k as int]@);
            let p = up[k].parse();
            dirs.push(up[k].clone());
            of.push(i);
            keys.push(PathKey { parts: p.parts });
            k = k + 1;
        }
        proof {
            let b = dirs0.len() as int;
            assert(path_bytes(up@).len() == up@.len());
            assert forall|m: int| 0 <= m < of@.len() implies {
                let dir = components((#[trigger] dirs@[m])@);
                &&& lies_in(models[of@[m] as int].path, root@, dir)
                &&& dirs@[m]@ == leading(models[of@[m] as int].path, dir.len() as int)
            } by {
                if m < b {
                    assert(dirs@[m] == dirs0[m]);
                    assert(of@[m] == of0[m]);
                } else {
                    assert(of@[m] == i);
                    assert(dirs@[m]@ == ancestors(path, root@)[m - b]);
                }
            }
            assert forall|m: int, l: int| 0 <= m < l < of@.len() implies #[trigger] in_turn(
                dirs@,
                of@,
                m,
                l,
            ) by {
                if l < b {
                    assert(in_turn(dirs0, of0, m, l));
                    assert(dirs@[m] == dirs0[m] && dirs@[l] == dirs0[l]);
                    assert(of@[m] == of0[m] && of@[l] == of0[l]);
                } else if m < b {
                    assert(of@[m] == of0[m] && of@[l] == i);
                } else {
                    assert(of@[m] == i && of@[l] == i);
                    assert(dirs@[m]@ == ancestors(path, root@)[m - b]);
                    assert(dirs@[l]@ == ancestors(path, root@)[l - b]);
                }
            }
            assert forall|m: int| 0 <= m < of@.len() implies texts((#[trigger] keys@[m]).parts@)
                == components(dirs@[m]@) by {
                if m < b {
                    assert(dirs@[m] == dirs0[m] && keys@[m] == keys0[m]);
                } else {
                    assert(dirs@[m]@ == ancestors(path, root@)[m - b]);
                }
            }
            assert forall|x: int, dir: Seq<Seq<u8>>|
                0 <= x < i + 1 && #[trigger] lies_in(models[x].path, root@, dir) implies is_paired(
                dirs@,
                of@,
                x,
                dir,
            ) by {
                if x < i {
                    assert(is_paired(dirs0, of0, x, dir));
                    let m = choose|m: int|
                        0 <= m < of0.len() && of0[m] == x && components((#[trigger] dirs0[m])@)
                            == dir;
                    assert(of@[m] == x && components(dirs@[m]@) == dir);
                } else {
                    let m = b + components(path).len() - 1 - dir.len();
                    assert(of@[m] == x && components(dirs@[m]@) == dir);
                }
            }
            assert forall|m: int| 0 <= m < of@.len() implies #[trigger] of@[m] < i + 1 by {
                if m < b {
                    assert(of@[m] == of0[m]);
                }
            }
        }
        i = i + 1;
    }
    Incidences { dirs, of, keys }
}

/// The files in the directory `dir`, in the order of `entries`.
pub open spec fn dir_files(
    entries: Seq<FileModel>,
    root: Seq<u8>,
    dir: Seq<Seq<u8>>,
) -> Seq<int> {
    positions(entries.len() as int, |i: int| lies_in(entries[i].path, root, dir))
}

/// A class of equal directories pairs a directory with its files.
proof fn lemma_dir_class(
    entries: Seq<FileModel>,
    root: Seq<u8>,
    dirs: Seq<FilePath>,
    of: Seq<usize>,
    keys: Seq<PathKey>,
    group: Seq<usize>,
    first: int,
)
    requires
        pairs_up(entries, root, dirs, of, keys, entries.len() as int),
        0 <= first < keys.len(),
        ints(group) == positions(keys.len() as int, |x: int| ties(&keys[x], &keys[first])),
    ensures
        forall|k: int| 0 <= k < group.len() ==> #[trigger] group[k] < of.len(),
        Seq::new(group.len(), |k: int| of[group[k] as int] as int) == dir_files(
            entries,
            root,
            components(dirs[first]@),
        ),
{
    let m = keys.len() as int;
    let tied = |x: int| ties(&keys[x], &keys[first]);
    lemma_positions(m, tied);
    let dir = components(dirs[first]@);
    let p = |i: int| lies_in(entries[i].path, root, dir);
    let list = Seq::new(group.len(), |k: int| of[group[k] as int] as int);
    assert forall|k: int| 0 <= k < group.len() implies #[trigger] group[k] < of.len() && components(
        dirs[group[k] as int]@,
    ) == dir by {
        assert(ints(group)[k] == group[k] as int);
        assert(tied(group[k] as int));
        path_order_linear(texts(keys[group[k] as int].parts@), texts(keys[first].parts@));
        assert(texts(keys[group[k] as int].parts@) == components(dirs[group[k] as int]@));
        assert(texts(keys[first].parts@) == dir);
    }
    assert forall|k: int| 0 <= k < list.len() implies 0 <= #[trigger] list[k] < entries.len() && p(
        list[k],
    ) by {
        let x = group[k] as int;
        assert(components(dirs[x]@) == dir);
        assert(of[x] < entries.len());
    }
    assert forall|k: int, l: int| 0 <= k < l < list.len() implies list[k] < list[l] by {
        assert(ints(group)[k] < ints(group)[l]);
        let x = group[k] as int;
        let y = group[l] as int;
        assert(components(dirs[x]@) == components(dirs[y]@));
        assert(in_turn(dirs, of, x, y));
    }
    assert forall|i: int| 0 <= i < entries.len() && p(i) implies #[trigger] list.contains(i) by {
        assert(is_paired(dirs, of, i, dir));
        let x = choose|x: int|
            0 <= x < of.len() && of[x] == i && components((#[trigger] dirs[x])@) == dir;
        assert(texts(keys[x].parts@) == components(dirs[x]@));
        assert(texts(keys[first].parts@) == dir);
        path_order_linear(texts(keys[x].parts@), texts(keys[first].parts@));
        assert(tied(x));
        assert(ints(group).contains(x));
        let k = choose|k: int| 0 <= k < ints(group).len() && ints(group)[k] == x;
        assert(list[k] == i);
    }
    lemma_positions_unique(entries.len() as int, p, list);
}

/// The total size of the files at `places`.
pub open spec fn total_size(entries: Seq<FileModel>, places: Seq<int>) -> int
    decreases places.len(),
{
    if places.len() == 0 {
        0
    } else {
        total_size(entries, places.drop_last()) + entries[places.last()].size
    }
}

/// The total size of the files in the directory `dir`.
pub open spec fn dir_size(entries: Seq<FileModel>, root: Seq<u8>, dir: Seq<Seq<u8>>) -> int {
    total_size(entries, dir_files(entries, root, dir))
}

/// Whether two directories have as many files, of the same total size.
pub open spec fn looks_like(
    entries: Seq<FileModel>,
    root: Seq<u8>,
    a: Seq<Seq<u8>>,
    b: Seq<Seq<u8>>,
) -> bool {
    &&& dir_files(entries, root, a).len() == dir_files(entries, root, b).len()
    &&& dir_size(entries, root, a) == dir_size(entries, root, b)
}

/// Whether `dir` has at least two files and looks like another directory. Only
/// the files in such directories are hashed.
pub open spec fn is_candidate_dir(
    entries: Seq<FileModel>,
    root: Seq<u8>,
    dir: Seq<Seq<u8>>,
) -> bool {
    &&& dir_files(entries, root, dir).len() >= 2
    &&& exists|other: Seq<Seq<u8>>|
        other != dir && #[trigger] looks_like(entries, root, dir, other)
}

/// The path of file `i` within an ancestor with `depth` components.
pub open spec fn rest_of(entries: Seq<FileModel>, depth: int, i: int) -> Seq<u8> {
    trailing(entries[i].path, depth)
}

/// The order in which a manifest lists files: by their paths within the
/// directory, and files with the same path by their places.
pub open spec fn manifest_order(entries: Seq<FileModel>, depth: int) -> spec_fn(int, int) -> bool {
    |i: int, j: int|
        match path_order(
            components(rest_of(entries, depth, i)),
            components(rest_of(entries, depth, j)),
        ) {
            Order::Less => true,
            Order::Equal => i <= j,
            Order::Greater => false,
        }
}

/// What a manifest says of the files at `places`: of each its path within the
/// directory, a zero byte and its digest.
pub open spec fn manifest(
    entries: Seq<FileModel>,
    hashes: Seq<Option<[u8; 32]>>,
    depth: int,
    places: Seq<int>,
) -> Seq<u8>
    decreases places.len(),
{
    if places.len() == 0 {
        seq![]
    } else {
        manifest(entries, hashes, depth, places.drop_last()) + utf8_lossy(
            rest_of(entries, depth, places.last()),
        ) + seq![0u8] + digest_at(hashes, places.last())->0
    }
}

/// Whether every file in `dir` was hashed.
pub open spec fn is_hashed_dir(
    entries: Seq<FileModel>,
    hashes: Seq<Option<[u8; 32]>>,
    root: Seq<u8>,
    dir: Seq<Seq<u8>>,
) -> bool {
    forall|i: int|
        0 <= i < entries.len() && #[trigger] lies_in(entries[i].path, root, dir) ==> digest_at(
            hashes,
            i,
        ) is Some
}

/// The files of a directory in manifest order.
pub open spec fn listed_files(
    entries: Seq<FileModel>,
    root: Seq<u8>,
    dir: Seq<Seq<u8>>,
) -> Seq<int> {
    dir_files(entries, root, dir).sort_by(manifest_order(entries, dir.len() as int))
}

/// The manifest of a directory.
pub open spec fn dir_manifest(
    entries: Seq<FileModel>,
    hashes: Seq<Option<[u8; 32]>>,
    root: Seq<u8>,
    dir: Seq<Seq<u8>>,
) -> Seq<u8> {
    manifest(entries, hashes, dir.len() as int, listed_files(entries, root, dir))
}

/// The digest of a directory: that of its manifest. A directory with a file that
/// could not be hashed has none.
pub open spec fn dir_digest(
    entries: Seq<FileModel>,
    hashes: Seq<Option<[u8; 32]>>,
    root: Seq<u8>,
    dir: Seq<Seq<u8>>,
) -> Option<Seq<u8>> {
    if is_hashed_dir(entries, hashes, root, dir) {
        Some(blake3_digest(dir_manifest(entries, hashes, root, dir)))
    } else {
        None
    }
}

/// The manifest order is total.
proof fn lemma_manifest_order(entries: Seq<FileModel>, depth: int)
    ensures
        total_ordering(manifest_order(entries, depth)),
{
    let r = manifest_order(entries, depth);
    assert forall|i: int, j: int| #[trigger] r(i, j) || #[trigger] r(j, i) by {
        path_order_linear(
            components(rest_of(entries, depth, i)),
            components(rest_of(entries, depth, j)),
        );
    }
    assert forall|i: int| #[trigger] r(i, i) by {
        assert(r(i, i) || r(i, i));
    }
    assert forall|i: int, j: int| #[trigger] r(i, j) && #[trigger] r(j, i) implies i == j by {
        path_order_linear(
            components(rest_of(entries, depth, i)),
            components(rest_of(entries, depth, j)),
        );
    }
    assert forall|i: int, j: int, k: int| #[trigger] r(i, j) && #[trigger] r(j, k) implies r(
        i,
        k,
    ) by {
        let a = components(rest_of(entries, depth, i));
        let b = components(rest_of(entries, depth, j));
        let c = components(rest_of(entries, depth, k));
        path_order_linear(a, b);
        path_order_linear(b, c);
        path_order_transitive(a, b, c);
        path_order_linear(a, c);
    }
}

/// A directory with at least two files: its path, the places of its files and
/// their total size.
pub struct DirInfo {
    pub path: FilePath,
    pub members: Vec<usize>,
    pub size: u64,
}

/// Whether `info` tells the truth about a directory.
pub open spec fn describes(entries: Seq<FileModel>, root: Seq<u8>, info: DirInfo) -> bool {
    let dir = components(info.path@);
    &&& info.members@.len() >= 2
    &&& ints(info.members@) == dir_files(entries, root, dir)
    &&& info.size == dir_size(entries, root, dir)
    &&& info.path@ == leading(entries[info.members@[0] as int].path, dir.len() as int)
}

/// Whether some entry of `infos` is about `dir`.
pub open spec fn has_info(infos: Seq<DirInfo>, dir: Seq<Seq<u8>>) -> bool {
    exists|x: int| 0 <= x < infos.len() && components((#[trigger] infos[x]).path@) == dir
}

/// Whether `infos` holds the directories with at least two files, each once.
pub open spec fn lists_dirs(entries: Seq<FileModel>, root: Seq<u8>, infos: Seq<DirInfo>) -> bool {
    &&& forall|x: int| 0 <= x < infos.len() ==> describes(entries, root, #[trigger] infos[x])
    &&& forall|x: int, y: int|
        0 <= x < y < infos.len() ==> components((#[trigger] infos[x]).path@) != components(
            (#[trigger] infos[y]).path@,
        )
    &&& forall|dir: Seq<Seq<u8>>|
        (#[trigger] dir_files(entries, root, dir)).len() >= 2 ==> has_info(infos, dir)
}

/// The sizes of the files in every directory add up to a number that fits.
pub open spec fn dir_sizes_fit(entries: Seq<FileModel>, root: Seq<u8>) -> bool {
    forall|dir: Seq<Seq<u8>>| #[trigger] dir_size(entries, root, dir) <= u64::MAX
}

/// Fewer files are no larger in total.
proof fn lemma_total_size(entries: Seq<FileModel>, places: Seq<int>, k: int)
    requires
        0 <= k <= places.len(),
    ensures
        0 <= total_size(entries, places.take(k)) <= total_size(entries, places),
    decreases places.len() - k, k,
{
    if k < places.len() {
        lemma_total_size(entries, places, k + 1);
        assert(places.take(k + 1).drop_last() =~= places.take(k));
    } else {
        assert(places.take(k) =~= places);
    }
    lemma_total_size_positive(entries, places.take(k));
}

/// A total size is not negative.
proof fn lemma_total_size_positive(entries: Seq<FileModel>, places: Seq<int>)
    ensures
        total_size(entries, places) >= 0,
    decreases places.len(),
{
    if places.len() > 0 {
        lemma_total_size_positive(entries, places.drop_last());
    }
}

/// Adds up the sizes of the files at `places`, if the sum fits.
fn add_sizes(entries: &Vec<FileEntry>, places: &Vec<usize>) -> (r: Option<u64>)
    requires
        forall|k: int| 0 <= k < places@.len() ==> #[trigger] places@[k] < entries@.len(),
    ensures
        match r {
            Some(sum) => sum == total_size(entry_models(entries@), ints(places@)),
            None => total_size(entry_models(entries@), ints(places@)) > u64::MAX,
        },
{
    let ghost models = entry_models(entries@);
    let ghost all = ints(places@);
    let mut sum: u64 = 0;
    let mut k: usize = 0;
    while k < places.len()
        invariant
            models == entry_models(entries@),
            all == ints(places@),
            forall|k: int| 0 <= k < places@.len() ==> #[trigger] places@[k] < entries@.len(),
            k <= places@.len(),
            sum == total_size(models, all.take(k as int)),
        decreases places@.len() - k,
    {
        let at: usize = places[k];
        proof {
            lemma_total_size(models, all, k + 1);
            assert(all.take(k + 1).drop_last() =~= all.take(k as int));
            assert(all.take(k + 1).last() == at as int);
        }
        match sum.checked_add(entries[at].size) {
            Some(next) => {
                sum = next;
            },
            None => {
                return None;
            },
        }
        k = k + 1;
    }
    assert(all.take(k as int) =~= all);
    Some(sum)
}

/// The files of one class of pairs.
fn class_members(
    inc: &Incidences,
    class: &Vec<usize>,
    Ghost(first): Ghost<int>,
    Ghost(entries): Ghost<Seq<FileModel>>,
    Ghost(root): Ghost<Seq<u8>>,
) -> (members: Vec<usize>)
    requires
        pairs_up(entries, root, inc.dirs@, inc.of@, inc.keys@, entries.len() as int),
        0 <= first < inc.keys@.len(),
        ints(class@) == positions(
            inc.keys@.len() as int,
            |x: int| ties(&inc.keys@[x], &inc.keys@[first]),
        ),
    ensures
        members@.len() == class@.len(),
        ints(members@) == dir_files(entries, root, components(inc.dirs@[first]@)),
        forall|k: int|
            0 <= k < members@.len() ==> #[trigger] members@[k] == inc.of@[class@[k] as int],
        forall|k: int| 0 <= k < members@.len() ==> #[trigger] members@[k] < entries.len(),
{
    proof {
        lemma_dir_class(entries, root, inc.dirs@, inc.of@, inc.keys@, class@, first);
    }
    let mut members: Vec<usize> = Vec::new();
    let mut k: usize = 0;
    while k < class.len()
        invariant
            k <= class@.len(),
            members@.len() == k,
            forall|m: int| 0 <= m < class@.len() ==> #[trigger] class@[m] < inc.of@.len(),
            forall|m: int| 0 <= m < inc.of@.len() ==> #[trigger] inc.of@[m] < entries.len(),
            forall|m: int| 0 <= m < k ==> #[trigger] members@[m] == inc.of@[class@[m] as int],
            forall|m: int| 0 <= m < k ==> #[trigger] members@[m] < entries.len(),
        decreases class@.len() - k,
    {
        members.push(inc.of[class[k]]);
        k = k + 1;
    }
    assert(ints(members@) =~= Seq::new(
        class@.len(),
        |k: int| inc.of@[class@[k] as int] as int,
    ));
    members
}

/// Whether the sizes of the files in every directory add up to a number that
/// fits.
pub fn check_dir_sizes(root: &FilePath, entries: &Vec<FileEntry>) -> (r: bool)
    ensures
        r == dir_sizes_fit(entry_models(entries@), root@),
{
    let ghost models = entry_models(entries@);
    let inc = pair_up(root, entries);
    let classes = group_ties(&inc.keys);
    let mut c: usize = 0;
    while c < classes.len()
        invariant
            models == entry_models(entries@),
            pairs_up(models, root@, inc.dirs@, inc.of@, inc.keys@, models.len() as int),
            groups_ties(inc.keys@, classes@),
            c <= classes@.len(),
            forall|d: int|
                0 <= d < c ==> dir_size(
                    models,
                    root@,
                    components(inc.dirs@[#[trigger] leader(classes@, d)]@),
                ) <= u64::MAX,
        decreases classes@.len() - c,
    {
        let ghost first = leader(classes@, c as int);
        assert(0 <= leader(classes@, c as int));
        let members = class_members(&inc, &classes[c], Ghost(first), Ghost(models), Ghost(root@));
        if add_sizes(entries, &members).is_none() {
            assert(dir_size(models, root@, components(inc.dirs@[first]@)) > u64::MAX);
            return false;
        }
        c = c + 1;
    }
    proof {
        assert forall|dir: Seq<Seq<u8>>| #[trigger] dir_size(models, root@, dir) <= u64::MAX by {
            if dir_files(models, root@, dir).len() > 0 {
                lemma_dir_found(models, root@, inc.dirs@, inc.of@, inc.keys@, classes@, dir);
                let d = choose|d: int|
                    0 <= d < classes@.len() && components(
                        inc.dirs@[#[trigger] leader(classes@, d)]@,
                    ) == dir;
                assert(dir_size(models, root@, dir) <= u64::MAX);
            }
        }
    }
    true
}

/// Lists the directories with at least two files.
pub(crate) fn list_dirs(root: &FilePath, entries: &Vec<FileEntry>) -> (r: Vec<DirInfo>)
    requires
        dir_sizes_fit(entry_models(entries@), root@),
    ensures
        lists_dirs(entry_models(entries@), root@, r@),
{
    let ghost models = entry_models(entries@);
    let inc = pair_up(root, entries);
    let classes = group_ties(&inc.keys);
    let mut out: Vec<DirInfo> = Vec::new();
    let ghost mut from: Seq<int> = seq![];
    let mut c: usize = 0;
    while c < classes.len()
        invariant
            models == entry_models(entries@),
            dir_sizes_fit(models, root@),
            pairs_up(models, root@, inc.dirs@, inc.of@, inc.keys@, models.len() as int),
            groups_ties(inc.keys@, classes@),
            c <= classes@.len(),
            forall|x: int| 0 <= x < out@.len() ==> describes(models, root@, #[trigger] out@[x]),
            from.len() == out@.len(),
            forall|x: int| 0 <= x < from.len() ==> 0 <= #[trigger] from[x] < c,
            forall|x: int, y: int| 0 <= x < y < from.len() ==> from[x] < from[y],
            forall|x: int|
                0 <= x < out@.len() ==> components((#[trigger] out@[x]).path@) == components(
                    inc.dirs@[leader(classes@, from[x])]@,
                ),
            forall|d: int|
                0 <= d < c && classes@[d]@.len() >= 2 ==> has_info(
                    out@,
                    components(inc.dirs@[#[trigger] leader(classes@, d)]@),
                ),
        decreases classes@.len() - c,
    {
        let ghost before = out@;
        let class = &classes[c];
        let ghost first = leader(classes@, c as int);
        let ghost dir = components(inc.dirs@[first]@);
        proof {
            assert(0 <= leader(classes@, c as int));
            lemma_dir_class(models, root@, inc.dirs@, inc.of@, inc.keys@, class@, first);
        }
        if class.len() >= 2 {
            let members = class_members(&inc, class, Ghost(first), Ghost(models), Ghost(root@));
            assert(dir_size(models, root@, dir) <= u64::MAX);
            let size: u64 = match add_sizes(entries, &members) {
                Some(sum) => sum,
                None => {
                    assert(false);
                    0
                },
            };
            let path = inc.dirs[class[0]].clone();
            proof {
                assert(members@[0] == inc.of@[first]);
                assert(inc.dirs@[first]@ == leading(
                    models[inc.of@[first] as int].path,
                    dir.len() as int,
                ));
            }
            let info = DirInfo { path, members, size };
            assert(describes(models, root@, info));
            out.push(info);
            proof {
                from = from.push(c as int);
                assert(out@[before.len() as int] == info);
            }
        }
        proof {
            assert forall|d: int| 0 <= d < c + 1 && classes@[d]@.len() >= 2 implies has_info(
                out@,
                components(inc.dirs@[#[trigger] leader(classes@, d)]@),
            ) by {
                if d < c {
                    let x = choose|x: int|
                        0 <= x < before.len() && components((#[trigger] before[x]).path@)
                            == components(inc.dirs@[leader(classes@, d)]@);
                    assert(has_info(before, components(inc.dirs@[leader(classes@, d)]@)));
                    assert(out@[x] == before[x]);
                } else {
                    assert(out@[before.len() as int].path@ == inc.dirs@[first]@);
                }
            }
        }
        c = c + 1;
    }
    proof {
        assert forall|x: int, y: int| 0 <= x < y < out@.len() implies components(
            (#[trigger] out@[x]).path@,
        ) != components((#[trigger] out@[y]).path@) by {
            let a = leader(classes@, from[x]);
            let b = leader(classes@, from[y]);
            assert(from[x] < from[y]);
            assert(!ties(&inc.keys@[a], &inc.keys@[b]));
            assert(texts(inc.keys@[a].parts@) == components(inc.dirs@[a]@));
            assert(texts(inc.keys@[b].parts@) == components(inc.dirs@[b]@));
            path_order_linear(texts(inc.keys@[a].parts@), texts(inc.keys@[b].parts@));
        }
        assert forall|dir: Seq<Seq<u8>>|
            (#[trigger] dir_files(models, root@, dir)).len() >= 2 implies has_info(out@, dir) by {
            lemma_dir_found(models, root@, inc.dirs@, inc.of@, inc.keys@, classes@, dir);
            let d = choose|d: int|
                0 <= d < classes@.len() && components(
                    inc.dirs@[#[trigger] leader(classes@, d)]@,
                ) == dir;
            assert(0 <= leader(classes@, d));
            lemma_dir_class(
                models,
                root@,
                inc.dirs@,
                inc.of@,
                inc.keys@,
                classes@[d]@,
                leader(classes@, d),
            );
        }
    }
    out
}

/// A directory with a file leads some class.
proof fn lemma_dir_found(
    entries: Seq<FileModel>,
    root: Seq<u8>,
    dirs: Seq<FilePath>,
    of: Seq<usize>,
    keys: Seq<PathKey>,
    classes: Seq<Vec<usize>>,
    dir: Seq<Seq<u8>>,
)
    requires
        pairs_up(entries, root, dirs, of, keys, entries.len() as int),
        groups_ties(keys, classes),
        dir_files(entries, root, dir).len() > 0,
    ensures
        exists|d: int|
            0 <= d < classes.len() && components(dirs[#[trigger] leader(classes, d)]@) == dir,
{
    let p = |i: int| lies_in(entries[i].path, root, dir);
    lemma_positions(entries.len() as int, p);
    let i = dir_files(entries, root, dir)[0];
    assert(p(i));
    assert(is_paired(dirs, of, i, dir));
    let x = choose|x: int|
        0 <= x < of.len() && of[x] == i && components((#[trigger] dirs[x])@) == dir;
    assert(is_grouped(keys, classes, x));
    let d = choose|d: int|
        0 <= d < classes.len() && ties(&keys[x], &keys[#[trigger] leader(classes, d)]);
    let y = leader(classes, d);
    assert(0 <= leader(classes, d));
    assert(texts(keys[x].parts@) == components(dirs[x]@));
    assert(texts(keys[y].parts@) == components(dirs[y]@));
    path_order_linear(texts(keys[x].parts@), texts(keys[y].parts@));
}

/// A number of files and their total size.
pub struct Signature {
    pub count: usize,
    pub size: u64,
}

impl Ranked for Signature {
    open spec fn le(&self, other: &Self) -> bool {
        self.count < other.count || self.count == other.count && self.size <= other.size
    }

    proof fn le_total(a: &Self, b: &Self) {
    }

    proof fn le_transitive(a: &Self, b: &Self, c: &Self) {
    }

    fn at_most(&self, other: &Self) -> (r: bool) {
        self.count < other.count || self.count == other.count && self.size <= other.size
    }
}

/// Among the listed directories, the candidates are those whose signature
/// another one shares.
proof fn lemma_candidate_dir(
    entries: Seq<FileModel>,
    root: Seq<u8>,
    infos: Seq<DirInfo>,
    keys: Seq<Signature>,
    x: int,
)
    requires
        lists_dirs(entries, root, infos),
        keys.len() == infos.len(),
        forall|k: int|
            0 <= k < keys.len() ==> (#[trigger] keys[k]).count == infos[k].members@.len()
                && keys[k].size == infos[k].size,
        0 <= x < infos.len(),
    ensures
        is_candidate_dir(entries, root, components(infos[x].path@)) <==> exists|y: int|
            0 <= y < infos.len() && y != x && ties(&keys[x], &#[trigger] keys[y]),
{
    let dir = components(infos[x].path@);
    assert(describes(entries, root, infos[x]));
    assert(ints(infos[x].members@).len() == infos[x].members@.len());
    if is_candidate_dir(entries, root, dir) {
        let other = choose|other: Seq<Seq<u8>>|
            other != dir && #[trigger] looks_like(entries, root, dir, other);
        assert(dir_files(entries, root, other).len() >= 2);
        assert(has_info(infos, other));
        let y = choose|y: int|
            0 <= y < infos.len() && components((#[trigger] infos[y]).path@) == other;
        assert(describes(entries, root, infos[y]));
        assert(ints(infos[y].members@).len() == infos[y].members@.len());
        assert(ties(&keys[x], &keys[y]));
    }
    if exists|y: int| 0 <= y < infos.len() && y != x && ties(&keys[x], &#[trigger] keys[y]) {
        let y = choose|y: int|
            0 <= y < infos.len() && y != x && ties(&keys[x], &#[trigger] keys[y]);
        let other = components(infos[y].path@);
        assert(describes(entries, root, infos[y]));
        assert(ints(infos[y].members@).len() == infos[y].members@.len());
        assert(looks_like(entries, root, dir, other));
        assert(other != dir) by {
            if x < y {
                assert(components(infos[x].path@) != components(infos[y].path@));
            } else {
                assert(components(infos[y].path@) != components(infos[x].path@));
            }
        }
    }
}

/// Keeps the directories whose signature another one shares.
pub(crate) fn mark_candidates(
    infos: &Vec<DirInfo>,
    Ghost(entries): Ghost<Seq<FileModel>>,
    Ghost(root): Ghost<Seq<u8>>,
) -> (flags: Vec<bool>)
    requires
        lists_dirs(entries, root, infos@),
    ensures
        flags@.len() == infos@.len(),
        forall|x: int|
            0 <= x < infos@.len() ==> #[trigger] flags@[x] == is_candidate_dir(
                entries,
                root,
                components(infos@[x].path@),
            ),
{
    let mut keys: Vec<Signature> = Vec::new();
    let mut i: usize = 0;
    while i < infos.len()
        invariant
            i <= infos@.len(),
            keys@.len() == i,
            forall|k: int|
                0 <= k < i ==> (#[trigger] keys@[k]).count == infos@[k].members@.len()
                    && keys@[k].size == infos@[k].size,
        decreases infos@.len() - i,
    {
        keys.push(Signature { count: infos[i].members.len(), size: infos[i].size });
        i = i + 1;
    }
    let flags = mark_shared(&keys);
    proof {
        assert forall|x: int| 0 <= x < infos@.len() implies #[trigger] flags@[x]
            == is_candidate_dir(entries, root, components(infos@[x].path@)) by {
            lemma_candidate_dir(entries, root, infos@, keys@, x);
        }
    }
    flags
}

/// Whether file `i` lies in a candidate directory, and so has to be hashed.
pub open spec fn is_wanted(entries: Seq<FileModel>, root: Seq<u8>, i: int) -> bool {
    exists|dir: Seq<Seq<u8>>|
        #[trigger] lies_in(entries[i].path, root, dir) && is_candidate_dir(entries, root, dir)
}

/// Whether the directory has file `i`.
spec fn has_member(info: DirInfo, i: int) -> bool {
    ints(info.members@).contains(i)
}

/// Whether one of the first `c` marked directories has file `i`.
spec fn is_covered(infos: Seq<DirInfo>, flags: Seq<bool>, c: int, i: int) -> bool {
    exists|x: int| 0 <= x < c && flags[x] && #[trigger] has_member(infos[x], i)
}

/// A file is wanted if a marked directory has it.
proof fn lemma_wanted(
    entries: Seq<FileModel>,
    root: Seq<u8>,
    infos: Seq<DirInfo>,
    flags: Seq<bool>,
    i: int,
)
    requires
        lists_dirs(entries, root, infos),
        flags.len() == infos.len(),
        forall|x: int|
            0 <= x < infos.len() ==> #[trigger] flags[x] == is_candidate_dir(
                entries,
                root,
                components(infos[x].path@),
            ),
        0 <= i < entries.len(),
    ensures
        is_covered(infos, flags, infos.len() as int, i) == is_wanted(entries, root, i),
{
    if is_wanted(entries, root, i) {
        let dir = choose|dir: Seq<Seq<u8>>| #[trigger]
            lies_in(entries[i].path, root, dir) && is_candidate_dir(entries, root, dir);
        assert(dir_files(entries, root, dir).len() >= 2);
        assert(has_info(infos, dir));
        let x = choose|x: int|
            0 <= x < infos.len() && components((#[trigger] infos[x]).path@) == dir;
        assert(describes(entries, root, infos[x]));
        let p = |i: int| lies_in(entries[i].path, root, dir);
        lemma_positions(entries.len() as int, p);
        assert(p(i));
        assert(has_member(infos[x], i));
    }
    if is_covered(infos, flags, infos.len() as int, i) {
        let x = choose|x: int|
            0 <= x < infos.len() && flags[x] && #[trigger] has_member(infos[x], i);
        let dir = components(infos[x].path@);
        assert(describes(entries, root, infos[x]));
        let p = |i: int| lies_in(entries[i].path, root, dir);
        lemma_positions(entries.len() as int, p);
        assert(p(i));
    }
}

/// The files that have to be hashed to compare directories: those that lie in a
/// candidate directory.
pub fn dir_hash_candidates(root: &FilePath, entries: &Vec<FileEntry>) -> (r: Vec<usize>)
    requires
        dir_sizes_fit(entry_models(entries@), root@),
    ensures
        ints(r@) == positions(
            entries@.len() as int,
            |i: int| is_wanted(entry_models(entries@), root@, i),
        ),
{
    let ghost models = entry_models(entries@);
    let n: usize = entries.len();
    let infos = list_dirs(root, entries);
    let flags = mark_candidates(&infos, Ghost(models), Ghost(root@));
    let mut marks: Vec<bool> = Vec::new();
    let mut f: usize = 0;
    while f < n
        invariant
            f <= n,
            marks@.len() == f,
            forall|k: int| 0 <= k < f ==> !#[trigger] marks@[k],
        decreases n - f,
    {
        marks.push(false);
        f = f + 1;
    }
    let mut c: usize = 0;
    while c < infos.len()
        invariant
            n == models.len(),
            marks@.len() == n,
            flags@.len() == infos@.len(),
            c <= infos@.len(),
            lists_dirs(models, root@, infos@),
            forall|i: int|
                0 <= i < n ==> #[trigger] marks@[i] == is_covered(infos@, flags@, c as int, i),
        decreases infos@.len() - c,
    {
        let ghost before = marks@;
        let info = &infos[c];
        proof {
            assert(describes(models, root@, infos@[c as int]));
            lemma_positions(
                models.len() as int,
                |i: int| lies_in(models[i].path, root@, components(info.path@)),
            );
        }
        if flags[c] {
            let mut k: usize = 0;
            while k < info.members.len()
                invariant
                    n == models.len(),
                    marks@.len() == n,
                    before.len() == n,
                    k <= info.members@.len(),
                    ints(info.members@) == dir_files(models, root@, components(info.path@)),
                    forall|m: int|
                        0 <= m < info.members@.len() ==> 0 <= #[trigger] ints(info.members@)[m] < n,
                    forall|i: int|
                        0 <= i < n ==> #[trigger] marks@[i] == (before[i] || ints(
                            info.members@,
                        ).take(k as int).contains(i)),
                decreases info.members@.len() - k,
            {
                let ghost mid = marks@;
                let at: usize = info.members[k];
                assert(ints(info.members@)[k as int] == at as int);
                marks.set(at, true);
                proof {
                    let done = ints(info.members@).take(k as int);
                    let next = ints(info.members@).take(k + 1);
                    assert(next =~= done.push(at as int));
                    assert forall|i: int| 0 <= i < n implies #[trigger] marks@[i] == (before[i]
                        || next.contains(i)) by {
                        if done.contains(i) {
                            let m = choose|m: int| 0 <= m < done.len() && done[m] == i;
                            assert(next[m] == i);
                        }
                        if i == at {
                            assert(next[k as int] == i);
                        }
                        if next.contains(i) && i != at {
                            let m = choose|m: int| 0 <= m < next.len() && next[m] == i;
                            assert(done[m] == i);
                        }
                        assert(mid[i] == (before[i] || done.contains(i)));
                    }
                }
                k = k + 1;
            }
            assert(ints(info.members@).take(k as int) =~= ints(info.members@));
        }
        proof {
            assert forall|i: int| 0 <= i < n implies #[trigger] marks@[i] == is_covered(
                infos@,
                flags@,
                c + 1,
                i,
            ) by {
                assert(before[i] == is_covered(infos@, flags@, c as int, i));
                if is_covered(infos@, flags@, c as int, i) {
                    let x = choose|x: int|
                        0 <= x < c && flags@[x] && #[trigger] has_member(infos@[x], i);
                    assert(has_member(infos@[x], i));
                }
                if flags@[c as int] && ints(info.members@).contains(i) {
                    assert(has_member(infos@[c as int], i));
                }
            }
        }
        c = c + 1;
    }
    let mut out: Vec<usize> = Vec::new();
    let mut i: usize = 0;
    proof {
        assert forall|k: int| 0 <= k < n implies #[trigger] marks@[k] == is_wanted(
            models,
            root@,
            k,
        ) by {
            lemma_wanted(models, root@, infos@, flags@, k);
        }
    }
    while i < n
        invariant
            i <= n,
            marks@.len() == n,
            forall|k: int| 0 <= k < n ==> #[trigger] marks@[k] == is_wanted(models, root@, k),
            ints(out@) =~= positions(i as int, |i: int| is_wanted(models, root@, i)),
        decreases n - i,
    {
        let ghost before = out@;
        if marks[i] {
            out.push(i);
            assert(ints(out@) =~= ints(before).push(i as int));
        }
        i = i + 1;
    }
    out
}

/// Whether file `i` has to be hashed: to compare files, or to compare directories.
pub open spec fn has_to_be_hashed(entries: Seq<FileModel>, root: Seq<u8>, i: int) -> bool {
    is_candidate(entries, i) || is_wanted(entries, root, i)
}

/// The files that have to be hashed, each once.
pub fn files_to_hash(root: &FilePath, entries: &Vec<FileEntry>) -> (r: Vec<usize>)
    requires
        dir_sizes_fit(entry_models(entries@), root@),
    ensures
        ints(r@) == positions(
            entries@.len() as int,
            |i: int| has_to_be_hashed(entry_models(entries@), root@, i),
        ),
{
    let ghost models = entry_models(entries@);
    let n: usize = entries.len();
    let a = hash_candidates(entries);
    let b = dir_hash_candidates(root, entries);
    proof {
        lemma_positions(n as int, |i: int| is_candidate(models, i));
        lemma_positions(n as int, |i: int| is_wanted(models, root@, i));
    }
    let mut out: Vec<usize> = Vec::new();
    let mut x: usize = 0;
    let mut y: usize = 0;
    let mut i: usize = 0;
    while i < n
        invariant
            n == models.len(),
            i <= n,
            ints(a@) == positions(n as int, |i: int| is_candidate(models, i)),
            ints(b@) == positions(n as int, |i: int| is_wanted(models, root@, i)),
            x <= a@.len(),
            y <= b@.len(),
            ints(a@).take(x as int) =~= positions(i as int, |i: int| is_candidate(models, i)),
            ints(b@).take(y as int) =~= positions(i as int, |i: int| is_wanted(models, root@, i)),
            ints(out@) =~= positions(i as int, |i: int| has_to_be_hashed(models, root@, i)),
        decreases n - i,
    {
        let ghost before = out@;
        let by_size = x < a.len() && a[x] == i;
        let by_dir = y < b.len() && b[y] == i;
        proof {
            lemma_next_position(n as int, |i: int| is_candidate(models, i), a@, x as int, i as int);
            lemma_next_position(
                n as int,
                |i: int| is_wanted(models, root@, i),
                b@,
                y as int,
                i as int,
            );
        }
        if by_size {
            x = x + 1;
        }
        if by_dir {
            y = y + 1;
        }
        if by_size || by_dir {
            out.push(i);
            assert(ints(out@) =~= ints(before).push(i as int));
        }
        i = i + 1;
    }
    out
}

/// The next of the listed numbers is `i` just when `p` holds of `i`.
proof fn lemma_next_position(n: int, p: spec_fn(int) -> bool, list: Seq<usize>, x: int, i: int)
    requires
        0 <= i < n,
        0 <= x <= list.len(),
        ints(list) == positions(n, p),
        ints(list).take(x) == positions(i, p),
    ensures
        p(i) == (x < list.len() && list[x] == i),
        p(i) ==> ints(list).take(x + 1) == positions(i + 1, p),
{
    let all = ints(list);
    lemma_positions(n, p);
    lemma_positions(i, p);
    if p(i) {
        assert(all.contains(i));
        let k = choose|k: int| 0 <= k < all.len() && all[k] == i;
        if k < x {
            assert(all.take(x)[k] == i);
            assert(positions(i, p)[k] < i);
        }
        if x < k {
            let j = all[x];
            assert(j < i && p(j));
            assert(positions(i, p).contains(j));
            let m = choose|m: int| 0 <= m < positions(i, p).len() && positions(i, p)[m] == j;
            assert(all.take(x)[m] == all[m]);
            assert(all[m] < all[x]);
        }
        assert(k == x);
        assert(all.take(x + 1) =~= all.take(x).push(i));
    } else if x < list.len() && list[x] == i {
        assert(all[x] == i);
        assert(p(all[x]));
    }
}

/// Lists the files of a directory in manifest order: their paths within the
/// directory, and the order in which these come.
fn list_rests(
    info: &DirInfo,
    entries: &Vec<FileEntry>,
    Ghost(root): Ghost<Seq<u8>>,
) -> (r: (Vec<FilePath>, Vec<usize>))
    requires
        describes(entry_models(entries@), root, *info),
    ensures
        r.0@.len() == info.members@.len(),
        forall|k: int|
            0 <= k < r.0@.len() ==> (#[trigger] r.0@[k])@ == rest_of(
                entry_models(entries@),
                components(info.path@).len() as int,
                info.members@[k] as int,
            ),
        forall|k: int| 0 <= k < r.1@.len() ==> #[trigger] r.1@[k] < info.members@.len(),
        Seq::new(r.1@.len(), |k: int| info.members@[r.1@[k] as int] as int) == listed_files(
            entry_models(entries@),
            root,
            components(info.path@),
        ),
{
    let ghost models = entry_models(entries@);
    let ghost dir = components(info.path@);
    let ghost depth = dir.len() as int;
    let ghost places = ints(info.members@);
    let ghost p = |i: int| lies_in(models[i].path, root, dir);
    proof {
        lemma_positions(models.len() as int, p);
        assert forall|k: int| 0 <= k < info.members@.len() implies (#[trigger] info.members@[k])
            < models.len() && p(info.members@[k] as int) by {
            assert(places[k] == info.members@[k] as int);
        }
    }
    let mut rests: Vec<FilePath> = Vec::new();
    let mut keys: Vec<PathKey> = Vec::new();
    let mut k: usize = 0;
    while k < info.members.len()
        invariant
            models == entry_models(entries@),
            dir == components(info.path@),
            depth == dir.len(),
            k <= info.members@.len(),
            rests@.len() == k,
            keys@.len() == k,
            forall|m: int| 0 <= m < info.members@.len() ==> (#[trigger] info.members@[m])
                < models.len(),
            forall|m: int|
                0 <= m < info.members@.len() ==> lies_in(
                    models[#[trigger] info.members@[m] as int].path,
                    root,
                    dir,
                ),
            forall|m: int|
                0 <= m < k ==> (#[trigger] rests@[m])@ == rest_of(
                    models,
                    depth,
                    info.members@[m] as int,
                ),
            forall|m: int|
                0 <= m < k ==> texts((#[trigger] keys@[m]).parts@) == components(rests@[m]@),
        decreases info.members@.len() - k,
    {
        let at: usize = info.members[k];
        assert(lies_in(models[at as int].path, root, dir));
        match entries[at].path.strip_prefix(&info.path) {
            Some(rest) => {
                let parsed = rest.parse();
                keys.push(PathKey { parts: parsed.parts });
                rests.push(rest);
            },
            None => {
                assert(false);
            },
        }
        k = k + 1;
    }
    let order = sort_order(&keys);
    proof {
        let listed = Seq::new(order@.len(), |k: int| info.members@[order@[k] as int] as int);
        let r = manifest_order(models, depth);
        lemma_sorts_distinct(keys@, order@);
        assert forall|a: int, b: int| 0 <= a < b < listed.len() implies #[trigger] r(
            listed[a],
            listed[b],
        ) && listed[a] != listed[b] by {
            let x = order@[a];
            let y = order@[b];
            assert(stands_before(keys@, x, y));
            assert(x != y);
            assert(rests@[x as int]@ == rest_of(models, depth, listed[a]));
            assert(rests@[y as int]@ == rest_of(models, depth, listed[b]));
            assert(texts(keys@[x as int].parts@) == components(rests@[x as int]@));
            assert(texts(keys@[y as int].parts@) == components(rests@[y as int]@));
            path_order_linear(components(rests@[x as int]@), components(rests@[y as int]@));
            assert(places[x as int] == listed[a]);
            assert(places[y as int] == listed[b]);
            if x < y {
                assert(places[x as int] < places[y as int]);
            } else {
                assert(places[y as int] < places[x as int]);
            }
        }
        lemma_manifest_order(models, depth);
        assert(sorted_by(listed, r));
        assert forall|x: int| places.contains(x) <==> listed.contains(x) by {
            if places.contains(x) {
                let m = choose|m: int| 0 <= m < places.len() && places[m] == x;
                assert(order@.contains(m as usize));
                let k = choose|k: int| 0 <= k < order@.len() && order@[k] == m as usize;
                assert(listed[k] == x);
            }
            if listed.contains(x) {
                let k = choose|k: int| 0 <= k < listed.len() && listed[k] == x;
                assert(places[order@[k] as int] == x);
            }
        }
        assert(listed.no_duplicates()) by {
            assert forall|a: int, b: int| 0 <= a < listed.len() && 0 <= b < listed.len() && a
                != b implies listed[a] != listed[b] by {
                if a < b {
                    assert(r(listed[a], listed[b]));
                } else {
                    assert(r(listed[b], listed[a]));
                }
            }
        }
        lemma_increasing_distinct(places);
        lemma_sort_by_unique(places, listed, r);
    }
    (rests, order)
}

/// Whether a manifest gives the names of the files in `dir` that are valid UTF-8
/// as they are.
pub open spec fn keeps_text_names(
    entries: Seq<FileModel>,
    root: Seq<u8>,
    dir: Seq<Seq<u8>>,
) -> bool {
    forall|i: int|
        0 <= i < entries.len() && #[trigger] lies_in(entries[i].path, root, dir) && valid_utf8(
            rest_of(entries, dir.len() as int, i),
        ) ==> utf8_lossy(rest_of(entries, dir.len() as int, i)) == rest_of(
            entries,
            dir.len() as int,
            i,
        )
}

/// The digest of a directory, if all its files were hashed.
pub(crate) fn digest_dir(
    info: &DirInfo,
    entries: &Vec<FileEntry>,
    hashes: &Vec<Option<[u8; 32]>>,
    Ghost(root): Ghost<Seq<u8>>,
) -> (r: Option<[u8; 32]>)
    requires
        hashes@.len() == entries@.len(),
        describes(entry_models(entries@), root, *info),
    ensures
        match r {
            Some(h) => dir_digest(
                entry_models(entries@),
                hashes@,
                root,
                components(info.path@),
            ) == Some(h@),
            None => dir_digest(entry_models(entries@), hashes@, root, components(info.path@)) is None,
        },
        r is Some ==> keeps_text_names(entry_models(entries@), root, components(info.path@)),
{
    let ghost models = entry_models(entries@);
    let ghost dir = components(info.path@);
    let ghost depth = dir.len() as int;
    let ghost places = ints(info.members@);
    let ghost p = |i: int| lies_in(models[i].path, root, dir);
    proof {
        lemma_positions(models.len() as int, p);
        assert forall|k: int| 0 <= k < info.members@.len() implies (#[trigger] info.members@[k])
            < models.len() && p(info.members@[k] as int) by {
            assert(places[k] == info.members@[k] as int);
        }
    }
    let (rests, order) = list_rests(info, entries, Ghost(root));
    let ghost listed = Seq::new(order@.len(), |k: int| info.members@[order@[k] as int] as int);
    let mut i: usize = 0;
    while i < info.members.len()
        invariant
            models == entry_models(entries@),
            hashes@.len() == models.len(),
            i <= info.members@.len(),
            forall|k: int| 0 <= k < info.members@.len() ==> (#[trigger] info.members@[k])
                < models.len(),
            forall|k: int|
                0 <= k < info.members@.len() ==> lies_in(
                    models[#[trigger] info.members@[k] as int].path,
                    root,
                    dir,
                ),
            dir == components(info.path@),
            forall|k: int|
                0 <= k < i ==> digest_at(hashes@, #[trigger] info.members@[k] as int) is Some,
        decreases info.members@.len() - i,
    {
        if hashes[info.members[i]].is_none() {
            assert(lies_in(models[info.members@[i as int] as int].path, root, dir));
            assert(digest_at(hashes@, info.members@[i as int] as int) is None);
            return None;
        }
        i = i + 1;
    }
    proof {
        assert forall|x: int|
            0 <= x < models.len() && #[trigger] lies_in(models[x].path, root, dir) implies digest_at(
            hashes@,
            x,
        ) is Some by {
            assert(p(x));
            assert(places.contains(x));
            let k = choose|k: int| 0 <= k < places.len() && places[k] == x;
            assert(digest_at(hashes@, info.members@[k] as int) is Some);
        }
    }
    let mut text: Vec<u8> = Vec::new();
    let mut k: usize = 0;
    assert(text@ =~= manifest(models, hashes@, depth, listed.take(0)));
    while k < order.len()
        invariant
            hashes@.len() == models.len(),
            k <= order@.len(),
            rests@.len() == info.members@.len(),
            listed == Seq::new(order@.len(), |k: int| info.members@[order@[k] as int] as int),
            forall|k: int| 0 <= k < order@.len() ==> #[trigger] order@[k] < info.members@.len(),
            forall|k: int| 0 <= k < info.members@.len() ==> (#[trigger] info.members@[k])
                < models.len(),
            forall|k: int|
                0 <= k < rests@.len() ==> (#[trigger] rests@[k])@ == rest_of(
                    models,
                    depth,
                    info.members@[k] as int,
                ),
            forall|k: int|
                0 <= k < info.members@.len() ==> digest_at(
                    hashes@,
                    #[trigger] info.members@[k] as int,
                ) is Some,
            text@ == manifest(models, hashes@, depth, listed.take(k as int)),
            forall|m: int|
                0 <= m < k && valid_utf8(rest_of(models, depth, #[trigger] listed[m]))
                    ==> utf8_lossy(rest_of(models, depth, listed[m])) == rest_of(
                    models,
                    depth,
                    listed[m],
                ),
        decreases order@.len() - k,
    {
        let ghost before = text@;
        let x: usize = order[k];
        let at: usize = info.members[x];
        proof {
            assert(listed.take(k + 1).drop_last() =~= listed.take(k as int));
            assert(listed.take(k + 1).last() == at as int);
            assert(digest_at(hashes@, info.members@[x as int] as int) is Some);
        }
        let name = lossy(rests[x].bytes.as_slice());
        push_bytes(&mut text, name.as_slice());
        text.push(0);
        match hashes[at] {
            Some(h) => {
                push_bytes(&mut text, h.as_slice());
                assert(text@ =~= before + name@ + seq![0u8] + h@);
            },
            None => {
                assert(false);
            },
        }
        k = k + 1;
    }
    assert(listed.take(k as int) =~= listed);
    proof {
        lemma_listed_files(models, root, dir);
        assert forall|x: int|
            0 <= x < models.len() && #[trigger] lies_in(models[x].path, root, dir) && valid_utf8(
                rest_of(models, depth, x),
            ) implies utf8_lossy(rest_of(models, depth, x)) == rest_of(models, depth, x) by {
            assert(p(x));
            assert(dir_files(models, root, dir).contains(x));
            assert(listed.contains(x));
            let m = choose|m: int| 0 <= m < listed.len() && listed[m] == x;
            assert(valid_utf8(rest_of(models, depth, listed[m])));
        }
    }
    let mut hasher = ContentHasher::new();
    let n: usize = text.len();
    hasher.update(text.as_slice());
    assert(hasher@ =~= text@);
    Some(hasher.finish())
}

/// The root itself is never taken for a directory that a file lies in, so it is
/// never reported.
pub proof fn the_root_holds_no_file(path: Seq<u8>, root: Seq<u8>)
    ensures
        !lies_in(path, root, components(root)),
{
}

/// Manifests that list the same paths and digests are equal.
proof fn lemma_same_manifest(
    entries: Seq<FileModel>,
    hashes: Seq<Option<[u8; 32]>>,
    a: int,
    x: Seq<int>,
    b: int,
    y: Seq<int>,
)
    requires
        x.len() == y.len(),
        forall|k: int|
            0 <= k < x.len() ==> rest_of(entries, a, #[trigger] x[k]) == rest_of(entries, b, y[k])
                && digest_at(hashes, x[k]) == digest_at(hashes, y[k]),
    ensures
        manifest(entries, hashes, a, x) == manifest(entries, hashes, b, y),
    decreases x.len(),
{
    if x.len() > 0 {
        assert forall|k: int| 0 <= k < x.drop_last().len() implies rest_of(
            entries,
            a,
            #[trigger] x.drop_last()[k],
        ) == rest_of(entries, b, y.drop_last()[k]) && digest_at(hashes, x.drop_last()[k])
            == digest_at(hashes, y.drop_last()[k]) by {
            assert(x.drop_last()[k] == x[k]);
        }
        lemma_same_manifest(entries, hashes, a, x.drop_last(), b, y.drop_last());
        assert(x[x.len() - 1] == x.last());
        assert(y[y.len() - 1] == y.last());
    }
}

/// Whether every file of directory `a` has a counterpart in directory `b`: the
/// same path within the directory, the same size and the same digest.
pub open spec fn has_counterparts(
    entries: Seq<FileModel>,
    hashes: Seq<Option<[u8; 32]>>,
    root: Seq<u8>,
    a: Seq<Seq<u8>>,
    b: Seq<Seq<u8>>,
) -> bool {
    forall|i: int| #[trigger]
        dir_files(entries, root, a).contains(i) ==> exists|j: int| #[trigger]
            dir_files(entries, root, b).contains(j) && rest_of(entries, a.len() as int, i)
                == rest_of(entries, b.len() as int, j) && entries[i].size == entries[j].size
                && digest_at(hashes, i) == digest_at(hashes, j)
}

/// Whether the files of a directory have different paths within it.
pub open spec fn has_distinct_files(
    entries: Seq<FileModel>,
    root: Seq<u8>,
    dir: Seq<Seq<u8>>,
) -> bool {
    forall|i: int, j: int|
        #![trigger dir_files(entries, root, dir).contains(i), dir_files(entries, root, dir).contains(j)]
        dir_files(entries, root, dir).contains(i) && dir_files(entries, root, dir).contains(j) && i
            != j ==> components(rest_of(entries, dir.len() as int, i)) != components(
            rest_of(entries, dir.len() as int, j),
        )
}

/// The order of paths, as a relation.
spec fn path_at_most() -> spec_fn(Seq<Seq<u8>>, Seq<Seq<u8>>) -> bool {
    |a: Seq<Seq<u8>>, b: Seq<Seq<u8>>| path_order(a, b) != Order::Greater
}

/// The order of paths is total.
proof fn lemma_path_at_most()
    ensures
        total_ordering(path_at_most()),
{
    let r = path_at_most();
    assert forall|a: Seq<Seq<u8>>, b: Seq<Seq<u8>>| #[trigger] r(a, b) || #[trigger] r(b, a) by {
        path_order_linear(a, b);
    }
    assert forall|a: Seq<Seq<u8>>| #[trigger] r(a, a) by {
        path_order_linear(a, a);
    }
    assert forall|a: Seq<Seq<u8>>, b: Seq<Seq<u8>>| #[trigger] r(a, b) && #[trigger] r(
        b,
        a,
    ) implies a == b by {
        path_order_linear(a, b);
    }
    assert forall|a: Seq<Seq<u8>>, b: Seq<Seq<u8>>, c: Seq<Seq<u8>>| #[trigger] r(a, b)
        && #[trigger] r(b, c) implies r(a, c) by {
        path_order_transitive(a, b, c);
    }
}

/// The paths of listed files within a directory, by components.
spec fn listed_rests(entries: Seq<FileModel>, depth: int, places: Seq<int>) -> Seq<Seq<Seq<u8>>> {
    Seq::new(places.len(), |k: int| components(rest_of(entries, depth, places[k])))
}

/// What the list of a directory's files is.
proof fn lemma_listed_files(entries: Seq<FileModel>, root: Seq<u8>, dir: Seq<Seq<u8>>)
    ensures
        listed_files(entries, root, dir).no_duplicates(),
        dir_files(entries, root, dir).no_duplicates(),
        listed_files(entries, root, dir).len() == dir_files(entries, root, dir).len(),
        forall|x: int|
            dir_files(entries, root, dir).contains(x) <==> #[trigger] listed_files(
                entries,
                root,
                dir,
            ).contains(x),
        sorted_by(
            listed_rests(entries, dir.len() as int, listed_files(entries, root, dir)),
            path_at_most(),
        ),
{
    let depth = dir.len() as int;
    let r = manifest_order(entries, depth);
    let places = dir_files(entries, root, dir);
    let list = listed_files(entries, root, dir);
    lemma_manifest_order(entries, depth);
    lemma_positions(entries.len() as int, |i: int| lies_in(entries[i].path, root, dir));
    lemma_increasing_distinct(places);
    lemma_sort_by_keeps(places, r);
    let rests = listed_rests(entries, depth, list);
    let q = path_at_most();
    assert forall|a: int, b: int| 0 <= a < b < rests.len() implies #[trigger] q(
        rests[a],
        rests[b],
    ) by {
        assert(r(list[a], list[b]));
    }
}

/// Where each file has a counterpart in the other directory, the two lists of
/// files have the same paths.
proof fn lemma_same_rests(
    entries: Seq<FileModel>,
    hashes: Seq<Option<[u8; 32]>>,
    root: Seq<u8>,
    a: Seq<Seq<u8>>,
    b: Seq<Seq<u8>>,
)
    requires
        has_distinct_files(entries, root, a),
        has_distinct_files(entries, root, b),
        has_counterparts(entries, hashes, root, a, b),
        has_counterparts(entries, hashes, root, b, a),
    ensures
        listed_rests(entries, a.len() as int, listed_files(entries, root, a)) == listed_rests(
            entries,
            b.len() as int,
            listed_files(entries, root, b),
        ),
{
    broadcast use vstd::seq_lib::group_to_multiset_ensures;

    lemma_path_at_most();
    lemma_listed_files(entries, root, a);
    lemma_listed_files(entries, root, b);
    let xs = listed_rests(entries, a.len() as int, listed_files(entries, root, a));
    let ys = listed_rests(entries, b.len() as int, listed_files(entries, root, b));
    lemma_distinct_rests(entries, root, a);
    lemma_distinct_rests(entries, root, b);
    xs.lemma_multiset_has_no_duplicates();
    ys.lemma_multiset_has_no_duplicates();
    assert forall|c: Seq<Seq<u8>>| xs.to_multiset().count(c) == ys.to_multiset().count(c) by {
        if xs.contains(c) {
            lemma_rest_found(entries, hashes, root, a, b, c);
        }
        if ys.contains(c) {
            lemma_rest_found(entries, hashes, root, b, a, c);
        }
    }
    assert(xs.to_multiset() =~= ys.to_multiset());
    lemma_sorted_unique(xs, ys, path_at_most());
}

/// Files with different paths give different entries.
proof fn lemma_distinct_rests(entries: Seq<FileModel>, root: Seq<u8>, dir: Seq<Seq<u8>>)
    requires
        has_distinct_files(entries, root, dir),
    ensures
        listed_rests(
            entries,
            dir.len() as int,
            listed_files(entries, root, dir),
        ).no_duplicates(),
{
    lemma_listed_files(entries, root, dir);
    let list = listed_files(entries, root, dir);
    let rests = listed_rests(entries, dir.len() as int, list);
    assert forall|k: int, l: int| 0 <= k < rests.len() && 0 <= l < rests.len() && k != l implies
        rests[k] != rests[l] by {
        assert(list.contains(list[k]));
        assert(list.contains(list[l]));
        assert(dir_files(entries, root, dir).contains(list[k]));
        assert(dir_files(entries, root, dir).contains(list[l]));
    }
}

/// A path that one directory lists is listed by the other.
proof fn lemma_rest_found(
    entries: Seq<FileModel>,
    hashes: Seq<Option<[u8; 32]>>,
    root: Seq<u8>,
    a: Seq<Seq<u8>>,
    b: Seq<Seq<u8>>,
    rest: Seq<Seq<u8>>,
)
    requires
        has_counterparts(entries, hashes, root, a, b),
        listed_rests(entries, a.len() as int, listed_files(entries, root, a)).contains(rest),
    ensures
        listed_rests(entries, b.len() as int, listed_files(entries, root, b)).contains(rest),
{
    lemma_listed_files(entries, root, a);
    lemma_listed_files(entries, root, b);
    let x = listed_files(entries, root, a);
    let y = listed_files(entries, root, b);
    let xs = listed_rests(entries, a.len() as int, x);
    let ys = listed_rests(entries, b.len() as int, y);
    let k = choose|k: int| 0 <= k < xs.len() && xs[k] == rest;
    assert(x.contains(x[k]));
    assert(dir_files(entries, root, a).contains(x[k]));
    let j = choose|j: int| #[trigger]
        dir_files(entries, root, b).contains(j) && rest_of(entries, a.len() as int, x[k])
            == rest_of(entries, b.len() as int, j) && entries[x[k]].size == entries[j].size
            && digest_at(hashes, x[k]) == digest_at(hashes, j);
    assert(y.contains(j));
    let m = choose|m: int| 0 <= m < y.len() && y[m] == j;
    assert(ys[m] == rest);
}

/// Files listed at the same place are counterparts.
proof fn lemma_counterparts(
    entries: Seq<FileModel>,
    hashes: Seq<Option<[u8; 32]>>,
    root: Seq<u8>,
    a: Seq<Seq<u8>>,
    b: Seq<Seq<u8>>,
)
    requires
        has_distinct_files(entries, root, a),
        has_distinct_files(entries, root, b),
        has_counterparts(entries, hashes, root, a, b),
        has_counterparts(entries, hashes, root, b, a),
    ensures
        listed_files(entries, root, a).len() == listed_files(entries, root, b).len(),
        forall|k: int|
            #![trigger listed_files(entries, root, a)[k]]
            0 <= k < listed_files(entries, root, a).len() ==> {
                let i = listed_files(entries, root, a)[k];
                let j = listed_files(entries, root, b)[k];
                &&& rest_of(entries, a.len() as int, i) == rest_of(entries, b.len() as int, j)
                &&& entries[i].size == entries[j].size
                &&& digest_at(hashes, i) == digest_at(hashes, j)
            },
{
    lemma_same_rests(entries, hashes, root, a, b);
    lemma_listed_files(entries, root, a);
    lemma_listed_files(entries, root, b);
    let x = listed_files(entries, root, a);
    let y = listed_files(entries, root, b);
    let xs = listed_rests(entries, a.len() as int, x);
    let ys = listed_rests(entries, b.len() as int, y);
    assert(xs.len() == x.len() && ys.len() == y.len());
    assert forall|k: int| #![trigger x[k]] 0 <= k < x.len() implies {
        &&& rest_of(entries, a.len() as int, x[k]) == rest_of(entries, b.len() as int, y[k])
        &&& entries[x[k]].size == entries[y[k]].size
        &&& digest_at(hashes, x[k]) == digest_at(hashes, y[k])
    } by {
        assert(x.contains(x[k]));
        assert(dir_files(entries, root, a).contains(x[k]));
        let j = choose|j: int| #[trigger]
            dir_files(entries, root, b).contains(j) && rest_of(entries, a.len() as int, x[k])
                == rest_of(entries, b.len() as int, j) && entries[x[k]].size == entries[j].size
                && digest_at(hashes, x[k]) == digest_at(hashes, j);
        assert(y.contains(y[k]));
        assert(dir_files(entries, root, b).contains(y[k]));
        assert(xs[k] == ys[k]);
        assert(j == y[k]);
    }
}

/// Taking one file out lowers the total size by the size of that file.
proof fn lemma_size_without(entries: Seq<FileModel>, places: Seq<int>, k: int)
    requires
        0 <= k < places.len(),
    ensures
        total_size(entries, places) == total_size(entries, places.remove(k))
            + entries[places[k]].size,
    decreases places.len(),
{
    if k == places.len() - 1 {
        assert(places.remove(k) =~= places.drop_last());
    } else {
        lemma_size_without(entries, places.drop_last(), k);
        assert(places.remove(k).drop_last() =~= places.drop_last().remove(k));
        assert(places.remove(k).last() == places.last());
    }
}

/// The total size of files does not depend on their order.
proof fn lemma_size_of_any_order(entries: Seq<FileModel>, x: Seq<int>, y: Seq<int>)
    requires
        x.no_duplicates(),
        y.no_duplicates(),
        x.len() == y.len(),
        forall|i: int| #[trigger] x.contains(i) ==> y.contains(i),
    ensures
        total_size(entries, x) == total_size(entries, y),
    decreases x.len(),
{
    if x.len() > 0 {
        let rest = x.drop_last();
        assert(x.contains(x[x.len() - 1]));
        let k = choose|k: int| 0 <= k < y.len() && y[k] == x.last();
        lemma_size_without(entries, y, k);
        assert forall|i: int| #[trigger] rest.contains(i) implies y.remove(k).contains(i) by {
            let m = choose|m: int| 0 <= m < rest.len() && rest[m] == i;
            assert(x[m] == i);
            assert(x.contains(i));
            let l = choose|l: int| 0 <= l < y.len() && y[l] == i;
            assert(l != k);
            assert(y.remove(k)[if l < k {
                l
            } else {
                l - 1
            }] == i);
        }
        lemma_size_of_any_order(entries, rest, y.remove(k));
    }
}

/// Files of the same sizes have the same total size.
proof fn lemma_same_sizes(entries: Seq<FileModel>, x: Seq<int>, y: Seq<int>)
    requires
        x.len() == y.len(),
        forall|k: int|
            #![trigger x[k]]
            0 <= k < x.len() ==> entries[x[k]].size == entries[y[k]].size,
    ensures
        total_size(entries, x) == total_size(entries, y),
    decreases x.len(),
{
    if x.len() > 0 {
        assert forall|k: int|
            #![trigger x.drop_last()[k]]
            0 <= k < x.drop_last().len() implies entries[x.drop_last()[k]].size
            == entries[y.drop_last()[k]].size by {
            assert(x.drop_last()[k] == x[k]);
        }
        lemma_same_sizes(entries, x.drop_last(), y.drop_last());
        assert(x[x.len() - 1] == x.last());
    }
}

/// Two directories in which each file of the one has a counterpart in the other
/// have as many files, the same size and the same digest, in whatever order the
/// files were met.
pub proof fn the_same_files_give_the_same_digest(
    entries: Seq<FileModel>,
    hashes: Seq<Option<[u8; 32]>>,
    root: Seq<u8>,
    a: Seq<Seq<u8>>,
    b: Seq<Seq<u8>>,
)
    requires
        is_hashed_dir(entries, hashes, root, a),
        is_hashed_dir(entries, hashes, root, b),
        has_distinct_files(entries, root, a),
        has_distinct_files(entries, root, b),
        has_counterparts(entries, hashes, root, a, b),
        has_counterparts(entries, hashes, root, b, a),
    ensures
        looks_like(entries, root, a, b),
        dir_digest(entries, hashes, root, a) is Some,
        dir_digest(entries, hashes, root, a) == dir_digest(entries, hashes, root, b),
{
    let x = listed_files(entries, root, a);
    let y = listed_files(entries, root, b);
    lemma_counterparts(entries, hashes, root, a, b);
    lemma_listed_files(entries, root, a);
    lemma_listed_files(entries, root, b);
    lemma_same_sizes(entries, x, y);
    assert forall|i: int| #[trigger] x.contains(i) implies dir_files(entries, root, a).contains(
        i,
    ) by {}
    lemma_size_of_any_order(entries, x, dir_files(entries, root, a));
    lemma_size_of_any_order(entries, y, dir_files(entries, root, b));
    lemma_same_manifest(entries, hashes, a.len() as int, x, b.len() as int, y);
}

/// What a manifest says of one file.
spec fn manifest_line(
    entries: Seq<FileModel>,
    hashes: Seq<Option<[u8; 32]>>,
    depth: int,
    i: int,
) -> Seq<u8> {
    utf8_lossy(rest_of(entries, depth, i)) + seq![0u8] + digest_at(hashes, i)->0
}

/// A manifest starts with what it says of the first file.
proof fn lemma_manifest_front(
    entries: Seq<FileModel>,
    hashes: Seq<Option<[u8; 32]>>,
    depth: int,
    places: Seq<int>,
)
    requires
        places.len() > 0,
    ensures
        manifest(entries, hashes, depth, places) == manifest_line(
            entries,
            hashes,
            depth,
            places[0],
        ) + manifest(entries, hashes, depth, places.drop_first()),
    decreases places.len(),
{
    let line = manifest_line(entries, hashes, depth, places[0]);
    let last = manifest_line(entries, hashes, depth, places.last());
    let rest = places.drop_first();
    assert(manifest(entries, hashes, depth, places) =~= manifest(
        entries,
        hashes,
        depth,
        places.drop_last(),
    ) + last);
    if places.len() == 1 {
        assert(places.drop_last() =~= seq![]);
        assert(rest =~= seq![]);
        assert(manifest(entries, hashes, depth, places) =~= line + manifest(
            entries,
            hashes,
            depth,
            rest,
        ));
    } else {
        lemma_manifest_front(entries, hashes, depth, places.drop_last());
        assert(places.drop_last().drop_first() =~= rest.drop_last());
        assert(rest.last() == places.last());
        assert(manifest(entries, hashes, depth, rest) =~= manifest(
            entries,
            hashes,
            depth,
            rest.drop_last(),
        ) + last);
        assert(manifest(entries, hashes, depth, places) =~= line + manifest(
            entries,
            hashes,
            depth,
            rest,
        ));
    }
}

/// Whether the name of file `i` within a directory holds no zero byte and stands
/// in a manifest as it is.
pub open spec fn has_plain_name(entries: Seq<FileModel>, depth: int, i: int) -> bool {
    &&& !rest_of(entries, depth, i).contains(0u8)
    &&& utf8_lossy(rest_of(entries, depth, i)) == rest_of(entries, depth, i)
}

/// A name up to the first zero byte, 32 bytes and the rest can be told apart.
proof fn lemma_line_apart(
    a: Seq<u8>,
    b: Seq<u8>,
    da: Seq<u8>,
    db: Seq<u8>,
    ra: Seq<u8>,
    rb: Seq<u8>,
)
    requires
        !a.contains(0u8),
        !b.contains(0u8),
        da.len() == db.len(),
        a + seq![0u8] + da + ra == b + seq![0u8] + db + rb,
    ensures
        a == b,
        da == db,
        ra == rb,
{
    let x = a + seq![0u8] + da + ra;
    let y = b + seq![0u8] + db + rb;
    assert(x[a.len() as int] == 0);
    assert(y[b.len() as int] == 0);
    if a.len() < b.len() {
        assert(y[a.len() as int] == b[a.len() as int]);
        assert(b.contains(0u8));
    }
    if b.len() < a.len() {
        assert(x[b.len() as int] == a[b.len() as int]);
        assert(a.contains(0u8));
    }
    let n = a.len() as int;
    let m = n + 1 + da.len();
    assert(a =~= x.take(n) && b =~= y.take(n));
    assert(da =~= x.subrange(n + 1, m) && db =~= y.subrange(n + 1, m));
    assert(ra =~= x.skip(m) && rb =~= y.skip(m));
}

/// Equal manifests of files with plain names list the same names and digests.
proof fn lemma_manifest_apart(
    entries: Seq<FileModel>,
    hashes: Seq<Option<[u8; 32]>>,
    a: int,
    x: Seq<int>,
    b: int,
    y: Seq<int>,
)
    requires
        forall|k: int|
            0 <= k < x.len() ==> has_plain_name(entries, a, #[trigger] x[k]) && digest_at(
                hashes,
                x[k],
            ) is Some,
        forall|k: int|
            0 <= k < y.len() ==> has_plain_name(entries, b, #[trigger] y[k]) && digest_at(
                hashes,
                y[k],
            ) is Some,
        manifest(entries, hashes, a, x) == manifest(entries, hashes, b, y),
    ensures
        x.len() == y.len(),
        forall|k: int|
            0 <= k < x.len() ==> rest_of(entries, a, #[trigger] x[k]) == rest_of(entries, b, y[k])
                && digest_at(hashes, x[k]) == digest_at(hashes, y[k]),
    decreases x.len(),
{
    if x.len() > 0 {
        lemma_manifest_front(entries, hashes, a, x);
    }
    if y.len() > 0 {
        lemma_manifest_front(entries, hashes, b, y);
    }
    if x.len() > 0 && y.len() > 0 {
        let i = x[0];
        let j = y[0];
        assert(digest_at(hashes, i) is Some && digest_at(hashes, j) is Some);
        lemma_line_apart(
            rest_of(entries, a, i),
            rest_of(entries, b, j),
            digest_at(hashes, i)->0,
            digest_at(hashes, j)->0,
            manifest(entries, hashes, a, x.drop_first()),
            manifest(entries, hashes, b, y.drop_first()),
        );
        assert forall|k: int| 0 <= k < x.drop_first().len() implies has_plain_name(
            entries,
            a,
            #[trigger] x.drop_first()[k],
        ) && digest_at(hashes, x.drop_first()[k]) is Some by {
            assert(x.drop_first()[k] == x[k + 1]);
        }
        assert forall|k: int| 0 <= k < y.drop_first().len() implies has_plain_name(
            entries,
            b,
            #[trigger] y.drop_first()[k],
        ) && digest_at(hashes, y.drop_first()[k]) is Some by {
            assert(y.drop_first()[k] == y[k + 1]);
        }
        lemma_manifest_apart(entries, hashes, a, x.drop_first(), b, y.drop_first());
        assert forall|k: int| 0 <= k < x.len() implies rest_of(entries, a, #[trigger] x[k])
            == rest_of(entries, b, y[k]) && digest_at(hashes, x[k]) == digest_at(hashes, y[k]) by {
            if k > 0 {
                assert(x.drop_first()[k - 1] == x[k]);
                assert(y.drop_first()[k - 1] == y[k]);
            }
        }
    }
}

/// Whether the files of a directory have plain names.
pub open spec fn has_plain_names(
    entries: Seq<FileModel>,
    root: Seq<u8>,
    dir: Seq<Seq<u8>>,
) -> bool {
    forall|i: int| #[trigger]
        dir_files(entries, root, dir).contains(i) ==> has_plain_name(
            entries,
            dir.len() as int,
            i,
        )
}

/// Whether every file of directory `a` is in directory `b` too: under the same
/// path within the directory and with the same digest.
pub open spec fn holds_files_of(
    entries: Seq<FileModel>,
    hashes: Seq<Option<[u8; 32]>>,
    root: Seq<u8>,
    a: Seq<Seq<u8>>,
    b: Seq<Seq<u8>>,
) -> bool {
    forall|i: int| #[trigger]
        dir_files(entries, root, a).contains(i) ==> exists|j: int| #[trigger]
            dir_files(entries, root, b).contains(j) && rest_of(entries, a.len() as int, i)
                == rest_of(entries, b.len() as int, j) && digest_at(hashes, i) == digest_at(
                hashes,
                j,
            )
}

/// Lists with the same paths and digests hold the same files.
proof fn lemma_holds_files(
    entries: Seq<FileModel>,
    hashes: Seq<Option<[u8; 32]>>,
    root: Seq<u8>,
    a: Seq<Seq<u8>>,
    b: Seq<Seq<u8>>,
)
    requires
        listed_files(entries, root, a).len() == listed_files(entries, root, b).len(),
        forall|k: int|
            0 <= k < listed_files(entries, root, a).len() ==> rest_of(
                entries,
                a.len() as int,
                #[trigger] listed_files(entries, root, a)[k],
            ) == rest_of(entries, b.len() as int, listed_files(entries, root, b)[k]) && digest_at(
                hashes,
                listed_files(entries, root, a)[k],
            ) == digest_at(hashes, listed_files(entries, root, b)[k]),
    ensures
        holds_files_of(entries, hashes, root, a, b),
{
    lemma_listed_files(entries, root, a);
    lemma_listed_files(entries, root, b);
    let x = listed_files(entries, root, a);
    let y = listed_files(entries, root, b);
    assert forall|i: int| #[trigger] dir_files(entries, root, a).contains(i) implies exists|
        j: int,
    | #[trigger]
        dir_files(entries, root, b).contains(j) && rest_of(entries, a.len() as int, i) == rest_of(
            entries,
            b.len() as int,
            j,
        ) && digest_at(hashes, i) == digest_at(hashes, j) by {
        assert(x.contains(i));
        let k = choose|k: int| 0 <= k < x.len() && x[k] == i;
        assert(y.contains(y[k]));
        assert(dir_files(entries, root, b).contains(y[k]));
    }
}

/// Two directories with the same digest hold the same files, unless their
/// manifests are different and collide under BLAKE3. A name with a zero byte, or
/// one that is not valid UTF-8, could stand for another.
pub proof fn the_same_digest_means_the_same_files(
    entries: Seq<FileModel>,
    hashes: Seq<Option<[u8; 32]>>,
    root: Seq<u8>,
    a: Seq<Seq<u8>>,
    b: Seq<Seq<u8>>,
)
    requires
        dir_digest(entries, hashes, root, a) is Some,
        dir_digest(entries, hashes, root, a) == dir_digest(entries, hashes, root, b),
        blake3_digest(dir_manifest(entries, hashes, root, a)) == blake3_digest(
            dir_manifest(entries, hashes, root, b),
        ) ==> dir_manifest(entries, hashes, root, a) == dir_manifest(entries, hashes, root, b),
        has_plain_names(entries, root, a),
        has_plain_names(entries, root, b),
    ensures
        holds_files_of(entries, hashes, root, a, b),
        holds_files_of(entries, hashes, root, b, a),
{
    let x = listed_files(entries, root, a);
    let y = listed_files(entries, root, b);
    lemma_listed_plain(entries, hashes, root, a);
    lemma_listed_plain(entries, hashes, root, b);
    lemma_manifest_apart(entries, hashes, a.len() as int, x, b.len() as int, y);
    lemma_holds_files(entries, hashes, root, a, b);
    assert forall|k: int| 0 <= k < y.len() implies rest_of(
        entries,
        b.len() as int,
        #[trigger] y[k],
    ) == rest_of(entries, a.len() as int, x[k]) && digest_at(hashes, y[k]) == digest_at(
        hashes,
        x[k],
    ) by {
        assert(rest_of(entries, a.len() as int, x[k]) == rest_of(entries, b.len() as int, y[k]));
    }
    lemma_holds_files(entries, hashes, root, b, a);
}

/// The files that a directory lists have its names and were hashed.
proof fn lemma_listed_plain(
    entries: Seq<FileModel>,
    hashes: Seq<Option<[u8; 32]>>,
    root: Seq<u8>,
    dir: Seq<Seq<u8>>,
)
    requires
        is_hashed_dir(entries, hashes, root, dir),
        has_plain_names(entries, root, dir),
    ensures
        forall|k: int|
            0 <= k < listed_files(entries, root, dir).len() ==> has_plain_name(
                entries,
                dir.len() as int,
                #[trigger] listed_files(entries, root, dir)[k],
            ) && digest_at(hashes, listed_files(entries, root, dir)[k]) is Some,
{
    lemma_listed_files(entries, root, dir);
    let p = |i: int| lies_in(entries[i].path, root, dir);
    lemma_positions(entries.len() as int, p);
    let list = listed_files(entries, root, dir);
    let places = dir_files(entries, root, dir);
    assert forall|k: int| 0 <= k < list.len() implies has_plain_name(
        entries,
        dir.len() as int,
        #[trigger] list[k],
    ) && digest_at(hashes, list[k]) is Some by {
        assert(list.contains(list[k]));
        assert(places.contains(list[k]));
        let m = choose|m: int| 0 <= m < places.len() && places[m] == list[k];
        assert(p(places[m]));
        assert(lies_in(entries[list[k]].path, root, dir));
    }
}

/// The ancestors of a file are listed from the nearest on, each one component
/// shorter than the one before. Below the root of the search they end with the
/// directory that stands directly in it. Where the file does not lie below it they
/// end at the top: at `/`, or at the empty path of a relative one.
pub proof fn ancestors_are_listed_from_the_nearest_on(path: Seq<u8>, root: Seq<u8>)
    ensures
        ({
            let c = components(path);
            let r = components(root);
            let list = ancestors(path, root);
            &&& forall|k: int|
                0 <= k < list.len() ==> components(#[trigger] list[k]) == c.take(c.len() - 1 - k)
            &&& r.len() < c.len() && c.take(r.len() as int) == r ==> list.len() == c.len()
                - r.len() - 1
            &&& !(r.len() < c.len() && c.take(r.len() as int) == r) ==> list.len() == (
            if c.len() > 0 && c[0] == seq![47u8] {
                c.len() - 1
            } else {
                c.len() as int
            })
        }),
{
    let c = components(path);
    let list = ancestors(path, root);
    lemma_ancestors(path, root);
    assert(root_component() =~= seq![47u8]);
    assert forall|k: int| 0 <= k < list.len() implies components(#[trigger] list[k]) == c.take(
        c.len() - 1 - k,
    ) by {
        lemma_leading(path, c.len() - 1 - k);
    }
}

/// A file below the root lies in exactly the directories between the two: those
/// that properly hold the file and are properly held by the root.
pub proof fn files_lie_in_what_holds_them(path: Seq<u8>, root: Seq<u8>, dir: Seq<Seq<u8>>)
    requires
        components(root).len() < components(path).len(),
        components(path).take(components(root).len() as int) == components(root),
    ensures
        lies_in(path, root, dir) <==> components(root).len() < dir.len() && dir.len() < components(
            path,
        ).len() && components(path).take(dir.len() as int) == dir,
{
}

/// The files of a directory are those that lie in it, each once and in the order in
/// which they were met.
pub proof fn a_directory_has_the_files_that_lie_in_it(
    entries: Seq<FileModel>,
    root: Seq<u8>,
    dir: Seq<Seq<u8>>,
)
    ensures
        forall|i: int| #[trigger]
            dir_files(entries, root, dir).contains(i) <==> 0 <= i < entries.len() && lies_in(
                entries[i].path,
                root,
                dir,
            ),
        forall|a: int, b: int|
            0 <= a < b < dir_files(entries, root, dir).len() ==> dir_files(entries, root, dir)[a]
                < dir_files(entries, root, dir)[b],
{
    let p = |i: int| lies_in(entries[i].path, root, dir);
    let places = dir_files(entries, root, dir);
    lemma_positions(entries.len() as int, p);
    assert forall|i: int| #[trigger] places.contains(i) <==> 0 <= i < entries.len() && lies_in(
        entries[i].path,
        root,
        dir,
    ) by {
        if places.contains(i) {
            let k = choose|k: int| 0 <= k < places.len() && places[k] == i;
            assert(p(places[k]));
        }
        if 0 <= i < entries.len() && lies_in(entries[i].path, root, dir) {
            assert(p(i));
        }
    }
}

/// Sizes add up, file by file.
pub proof fn sizes_add_up(entries: Seq<FileModel>, a: Seq<int>, b: Seq<int>)
    ensures
        total_size(entries, a + b) == total_size(entries, a) + total_size(entries, b),
        a.len() == 1 ==> total_size(entries, a) == entries[a[0]].size,
        a.len() == 0 ==> total_size(entries, a) == 0,
    decreases b.len(),
{
    if a.len() == 1 {
        assert(a.drop_last() =~= Seq::<int>::empty());
        assert(total_size(entries, a.drop_last()) == 0);
    }
    if b.len() == 0 {
        assert(a + b =~= a);
    } else {
        assert((a + b).drop_last() =~= a + b.drop_last());
        sizes_add_up(entries, a, b.drop_last());
    }
}

/// A directory is compared with others if it has at least two files, and some other
/// directory has as many files, with the same size in all.
pub proof fn lookalikes_are_compared(
    entries: Seq<FileModel>,
    root: Seq<u8>,
    dir: Seq<Seq<u8>>,
    other: Seq<Seq<u8>>,
)
    requires
        dir != other,
        dir_files(entries, root, dir).len() >= 2,
        dir_files(entries, root, dir).len() == dir_files(entries, root, other).len(),
        total_size(entries, dir_files(entries, root, dir)) == total_size(
            entries,
            dir_files(entries, root, other),
        ),
    ensures
        is_candidate_dir(entries, root, dir),
{
    assert(looks_like(entries, root, dir, other));
}

/// No other directory is compared.
pub proof fn only_lookalikes_are_compared(
    entries: Seq<FileModel>,
    root: Seq<u8>,
    dir: Seq<Seq<u8>>,
)
    requires
        is_candidate_dir(entries, root, dir),
    ensures
        dir_files(entries, root, dir).len() >= 2,
        exists|other: Seq<Seq<u8>>|
            other != dir && #[trigger] dir_files(entries, root, other).len() == dir_files(
                entries,
                root,
                dir,
            ).len() && total_size(entries, dir_files(entries, root, other)) == total_size(
                entries,
                dir_files(entries, root, dir),
            ),
{
    let other = choose|other: Seq<Seq<u8>>|
        other != dir && #[trigger] looks_like(entries, root, dir, other);
    assert(dir_files(entries, root, other).len() == dir_files(entries, root, dir).len());
}

/// Exactly the files that share their size with another, or that lie in a directory
/// that is compared, have to be hashed.
pub proof fn what_has_to_be_hashed(entries: Seq<FileModel>, root: Seq<u8>, i: int)
    requires
        0 <= i < entries.len(),
    ensures
        is_wanted(entries, root, i) <==> exists|dir: Seq<Seq<u8>>|
            is_candidate_dir(entries, root, dir) && #[trigger] dir_files(
                entries,
                root,
                dir,
            ).contains(i),
        has_to_be_hashed(entries, root, i) <==> is_wanted(entries, root, i) || exists|j: int|
            0 <= j < entries.len() && j != i && (#[trigger] entries[j]).size == entries[i].size,
{
    if is_wanted(entries, root, i) {
        let dir = choose|dir: Seq<Seq<u8>>| #[trigger]
            lies_in(entries[i].path, root, dir) && is_candidate_dir(entries, root, dir);
        a_directory_has_the_files_that_lie_in_it(entries, root, dir);
        assert(dir_files(entries, root, dir).contains(i));
    }
    if exists|dir: Seq<Seq<u8>>|
        is_candidate_dir(entries, root, dir) && #[trigger] dir_files(entries, root, dir).contains(
            i,
        ) {
        let dir = choose|dir: Seq<Seq<u8>>|
            is_candidate_dir(entries, root, dir) && #[trigger] dir_files(
                entries,
                root,
                dir,
            ).contains(i);
        a_directory_has_the_files_that_lie_in_it(entries, root, dir);
        assert(lies_in(entries[i].path, root, dir));
    }
    if exists|j: int|
        0 <= j < entries.len() && j != i && (#[trigger] entries[j]).size == entries[i].size {
        let j = choose|j: int|
            0 <= j < entries.len() && j != i && (#[trigger] entries[j]).size == entries[i].size;
        assert(entries[j].size == entries[i].size);
        assert(is_candidate(entries, i));
    }
    if is_candidate(entries, i) {
        let j = choose|j: int|
            0 <= j < entries.len() && j != i && #[trigger] entries[j].size == entries[i].size;
        assert(entries[j].size == entries[i].size);
    }
}

/// A directory has a digest just when each of its files has one.
pub proof fn a_directory_has_a_digest_if_its_files_have(
    entries: Seq<FileModel>,
    hashes: Seq<Option<[u8; 32]>>,
    root: Seq<u8>,
    dir: Seq<Seq<u8>>,
)
    ensures
        dir_digest(entries, hashes, root, dir) is Some <==> forall|i: int| #[trigger]
            dir_files(entries, root, dir).contains(i) ==> hashes[i] is Some,
{
    a_directory_has_the_files_that_lie_in_it(entries, root, dir);
    if forall|i: int| #[trigger]
        dir_files(entries, root, dir).contains(i) ==> hashes[i] is Some {
        assert forall|i: int|
            0 <= i < entries.len() && #[trigger] lies_in(
                entries[i].path,
                root,
                dir,
            ) implies digest_at(hashes, i) is Some by {
            assert(dir_files(entries, root, dir).contains(i));
        }
    }
    if is_hashed_dir(entries, hashes, root, dir) {
        assert forall|i: int| #[trigger]
            dir_files(entries, root, dir).contains(i) implies hashes[i] is Some by {
            assert(lies_in(entries[i].path, root, dir));
            assert(digest_at(hashes, i) is Some);
        }
    }
}

/// The digest of a directory is that of its manifest: for each file, in the order of
/// the paths within the directory, this path, a zero byte and the digest of the
/// file.
pub proof fn a_manifest_lists_names_and_digests(
    entries: Seq<FileModel>,
    hashes: Seq<Option<[u8; 32]>>,
    root: Seq<u8>,
    dir: Seq<Seq<u8>>,
)
    requires
        dir_digest(entries, hashes, root, dir) is Some,
    ensures
        exists|places: Seq<int>, lines: Seq<Seq<u8>>|
            {
                &&& places.no_duplicates()
                &&& lines.len() == places.len()
                &&& forall|i: int| #[trigger]
                    places.contains(i) <==> dir_files(entries, root, dir).contains(i)
                &&& forall|a: int, b: int|
                    0 <= a < b < places.len() ==> path_order(
                        components(trailing(entries[#[trigger] places[a]].path, dir.len() as int)),
                        components(trailing(entries[#[trigger] places[b]].path, dir.len() as int)),
                    ) != Order::Greater
                &&& forall|a: int|
                    0 <= a < places.len() ==> hashes[#[trigger] places[a]] is Some && lines[a]
                        == utf8_lossy(trailing(entries[places[a]].path, dir.len() as int)) + seq![
                        0u8,
                    ] + hashes[places[a]]->0@
                &&& dir_digest(entries, hashes, root, dir) == Some(
                    blake3_digest(#[trigger] lines.flatten()),
                ) && #[trigger] places.len() >= 0
            },
{
    let depth = dir.len() as int;
    let places = listed_files(entries, root, dir);
    let lines = Seq::new(places.len(), |k: int| manifest_line(entries, hashes, depth, places[k]));
    lemma_listed_files(entries, root, dir);
    lemma_manifest_lines(entries, hashes, depth, places);
    a_directory_has_the_files_that_lie_in_it(entries, root, dir);
    assert forall|a: int| 0 <= a < places.len() implies hashes[#[trigger] places[a]] is Some
        && lines[a] == utf8_lossy(trailing(entries[places[a]].path, depth)) + seq![0u8]
        + hashes[places[a]]->0@ by {
        assert(places.contains(places[a]));
        assert(lies_in(entries[places[a]].path, root, dir));
        assert(digest_at(hashes, places[a]) is Some);
    }
    let rests = listed_rests(entries, depth, places);
    let q = path_at_most();
    assert forall|a: int, b: int| 0 <= a < b < places.len() implies path_order(
        components(trailing(entries[#[trigger] places[a]].path, depth)),
        components(trailing(entries[#[trigger] places[b]].path, depth)),
    ) != Order::Greater by {
        assert(q(rests[a], rests[b]));
    }
    assert(dir_digest(entries, hashes, root, dir) == Some(blake3_digest(lines.flatten())));
    assert(places.len() >= 0);
}

/// A manifest is its lines, one behind the other.
proof fn lemma_manifest_lines(
    entries: Seq<FileModel>,
    hashes: Seq<Option<[u8; 32]>>,
    depth: int,
    places: Seq<int>,
)
    ensures
        manifest(entries, hashes, depth, places) == Seq::new(
            places.len(),
            |k: int| manifest_line(entries, hashes, depth, places[k]),
        ).flatten(),
    decreases places.len(),
{
    let lines = Seq::new(places.len(), |k: int| manifest_line(entries, hashes, depth, places[k]));
    if places.len() > 0 {
        lemma_manifest_front(entries, hashes, depth, places);
        lemma_manifest_lines(entries, hashes, depth, places.drop_first());
        assert(lines.drop_first() =~= Seq::new(
            places.drop_first().len(),
            |k: int| manifest_line(entries, hashes, depth, places.drop_first()[k]),
        ));
        assert(lines.flatten() =~= lines.first() + lines.drop_first().flatten());
    }
}

/// The sizes of directories fit just when those of the files in each add up to a
/// number that does.
pub proof fn directory_sizes_fit_each(entries: Seq<FileModel>, root: Seq<u8>)
    ensures
        dir_sizes_fit(entries, root) <==> forall|dir: Seq<Seq<u8>>|
            total_size(entries, #[trigger] dir_files(entries, root, dir)) <= u64::MAX,
{
    if forall|dir: Seq<Seq<u8>>|
        total_size(entries, #[trigger] dir_files(entries, root, dir)) <= u64::MAX {
        assert forall|dir: Seq<Seq<u8>>| #[trigger] dir_size(entries, root, dir) <= u64::MAX by {
            assert(total_size(entries, dir_files(entries, root, dir)) <= u64::MAX);
        }
    }
    if dir_sizes_fit(entries, root) {
        assert forall|dir: Seq<Seq<u8>>|
            total_size(entries, #[trigger] dir_files(entries, root, dir)) <= u64::MAX by {
            assert(dir_size(entries, root, dir) <= u64::MAX);
        }
    }
}

} // verus!
