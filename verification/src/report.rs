//! The groups that are shown, made of the duplicates that were found.

use vstd::prelude::*;
use crate::dedup::{a_group_keeps_one_file, file_paths, is_dup_group, DupGroup, DupGroupModel};
use crate::dirdup::{DirDup, DirDupModel};
use crate::paths::{clone_paths, path_bytes};
use crate::plan::{file_models, group_models, Action, ActionModel, Group, GroupFile};
use crate::plan::{GroupFileModel, GroupKind, GroupModel};
use crate::sorting::{heaviest_first, is_permutation, rearranged, sort_by_weight, Weighed};
use crate::text::{hex, hex_of, push_hex};
use crate::walker::FileModel;

verus! {

impl GroupModel {
    /// The bytes that the suggested action frees: the size of the first file,
    /// once for each path in the trash.
    pub open spec fn reclaimable(self) -> int {
        match self.suggested {
            ActionModel::KeepOne { trash, .. } | ActionModel::DeleteAll { trash } => {
                if self.files.len() == 0 {
                    0
                } else {
                    self.files[0].size * trash.len()
                }
            },
            _ => 0,
        }
    }
}

/// The first six bytes of a digest as hexadecimal digits.
pub open spec fn short_hash_of(hash: Seq<u8>) -> Seq<char> {
    hex(hash.take(6))
}

/// A group of duplicate files as it is shown.
pub open spec fn dup_model(d: DupGroupModel) -> GroupModel {
    GroupModel {
        kind: GroupKind::Duplicate,
        files: Seq::new(
            d.files.len(),
            |i: int| GroupFileModel { path: d.files[i].path, size: d.files[i].size },
        ),
        label: "hash:"@ + short_hash_of(d.hash),
        suggested: ActionModel::KeepOne { keep: d.keep, trash: d.trash },
    }
}

/// A group of duplicate directories as it is shown.
pub open spec fn dir_dup_model(d: DirDupModel) -> GroupModel {
    GroupModel {
        kind: GroupKind::DuplicateDir,
        files: Seq::new(
            d.dirs.len(),
            |i: int| GroupFileModel { path: d.dirs[i].path, size: d.dirs[i].total_size as u64 },
        ),
        label: "dir:"@ + short_hash_of(d.hash),
        suggested: ActionModel::KeepOne { keep: d.keep, trash: d.trash },
    }
}

/// All the groups as they are shown, the files before the directories.
pub open spec fn shown(dups: Seq<DupGroup>, dir_dups: Seq<DirDup>) -> Seq<GroupModel> {
    Seq::new(dups.len(), |i: int| dup_model(dups[i]@)) + Seq::new(
        dir_dups.len(),
        |i: int| dir_dup_model(dir_dups[i]@),
    )
}

/// Whether `order` lists `groups` by what they free, the most first, and groups
/// that free the same in their order.
pub open spec fn best_first(groups: Seq<GroupModel>, order: Seq<usize>) -> bool {
    &&& is_permutation(groups.len() as int, order)
    &&& forall|i: int, j: int|
        0 <= i < j < order.len() ==> {
            let a = groups[#[trigger] order[i] as int].reclaimable();
            let b = groups[#[trigger] order[j] as int].reclaimable();
            a > b || a == b && order[i] < order[j]
        }
}

/// The first six bytes of a digest as hexadecimal digits, behind a prefix.
fn short_hash(prefix: &str, hash: &[u8; 32]) -> (r: String)
    ensures
        r@ == prefix@ + short_hash_of(hash@),
{
    let mut s = String::new();
    s.append(prefix);
    assert(s@ =~= prefix@);
    let mut i: usize = 0;
    assert(s@ =~= prefix@ + hex(hash@.take(0)));
    while i < 6
        invariant
            i <= 6,
            s@ == prefix@ + hex(hash@.take(i as int)),
        decreases 6 - i,
    {
        push_hex(&mut s, hash[i]);
        proof {
            assert(hash@.take(i + 1).drop_last() =~= hash@.take(i as int));
            assert(hash@.take(i + 1).last() == hash@[i as int]);
            assert(s@ =~= prefix@ + hex(hash@.take(i + 1)));
        }
        i = i + 1;
    }
    s
}

/// A group of duplicate files as it is shown.
fn dup_to_group(d: &DupGroup) -> (r: Group)
    ensures
        r@ == dup_model(d@),
{
    let mut files: Vec<GroupFile> = Vec::new();
    let mut i: usize = 0;
    while i < d.files.len()
        invariant
            i <= d.files@.len(),
            files@.len() == i,
            forall|k: int|
                0 <= k < i ==> (#[trigger] files@[k])@ == (GroupFileModel {
                    path: d.files@[k].path@,
                    size: d.files@[k].size,
                }),
        decreases d.files@.len() - i,
    {
        files.push(GroupFile { path: d.files[i].path.clone(), size: d.files[i].size });
        i = i + 1;
    }
    assert(file_models(files@) =~= dup_model(d@).files);
    Group {
        kind: GroupKind::Duplicate,
        files,
        label: short_hash("hash:", &d.hash),
        suggested: Action::KeepOne { keep: d.keep.clone(), trash: clone_paths(&d.trash) },
    }
}

/// A group of duplicate directories as it is shown.
fn dirdup_to_group(d: &DirDup) -> (r: Group)
    ensures
        r@ == dir_dup_model(d@),
{
    let mut files: Vec<GroupFile> = Vec::new();
    let mut i: usize = 0;
    while i < d.dirs.len()
        invariant
            i <= d.dirs@.len(),
            files@.len() == i,
            forall|k: int|
                0 <= k < i ==> (#[trigger] files@[k])@ == (GroupFileModel {
                    path: d.dirs@[k].path@,
                    size: d.dirs@[k].total_size,
                }),
        decreases d.dirs@.len() - i,
    {
        files.push(GroupFile { path: d.dirs[i].path.clone(), size: d.dirs[i].total_size });
        i = i + 1;
    }
    assert(file_models(files@) =~= dir_dup_model(d@).files);
    Group {
        kind: GroupKind::DuplicateDir,
        files,
        label: short_hash("dir:", &d.hash),
        suggested: Action::KeepOne { keep: d.keep.clone(), trash: clone_paths(&d.trash) },
    }
}

/// The bytes that the suggested action of a group frees.
pub fn reclaimable_bytes(g: &Group) -> (r: u64)
    requires
        g@.reclaimable() <= u64::MAX,
    ensures
        r == g@.reclaimable(),
{
    match &g.suggested {
        Action::KeepOne { trash, .. } | Action::DeleteAll { trash } => {
            let n: u64 = trash.len() as u64;
            if g.files.len() == 0 {
                0
            } else {
                assert(g@.files[0] == g.files@[0]@);
                g.files[0].size * n
            }
        },
        Action::FoldIntoFolder { .. } | Action::Ignore => 0,
    }
}

impl Weighed for Group {
    open spec fn weight(&self) -> int {
        self@.reclaimable()
    }

    fn weigh(&self) -> (r: u64) {
        reclaimable_bytes(self)
    }
}

/// Makes the groups that are shown, those that free the most first.
pub fn build(dups: Vec<DupGroup>, dir_dups: Vec<DirDup>) -> (r: Vec<Group>)
    requires
        forall|i: int|
            0 <= i < dups@.len() + dir_dups@.len() ==> (#[trigger] shown(
                dups@,
                dir_dups@,
            )[i]).reclaimable() <= u64::MAX,
    ensures
        exists|order: Seq<usize>|
            best_first(shown(dups@, dir_dups@), order) && group_models(r@)
                == #[trigger] rearranged(shown(dups@, dir_dups@), order),
{
    let ghost all = shown(dups@, dir_dups@);
    let mut groups: Vec<Group> = Vec::new();
    let mut i: usize = 0;
    while i < dups.len()
        invariant
            i <= dups@.len(),
            groups@.len() == i,
            forall|k: int| 0 <= k < i ==> (#[trigger] groups@[k])@ == dup_model(dups@[k]@),
        decreases dups@.len() - i,
    {
        groups.push(dup_to_group(&dups[i]));
        i = i + 1;
    }
    let mut j: usize = 0;
    while j < dir_dups.len()
        invariant
            j <= dir_dups@.len(),
            groups@.len() == dups@.len() + j,
            all == shown(dups@, dir_dups@),
            forall|k: int| 0 <= k < groups@.len() ==> (#[trigger] groups@[k])@ == all[k],
        decreases dir_dups@.len() - j,
    {
        groups.push(dirdup_to_group(&dir_dups[j]));
        j = j + 1;
    }
    assert forall|k: int| 0 <= k < groups@.len() implies (#[trigger] groups@[k]).weight()
        <= u64::MAX by {
        assert(groups@[k]@ == all[k]);
    }
    let ghost before = groups@;
    let r = sort_by_weight(groups);
    proof {
        let order = choose|order: Seq<usize>|
            heaviest_first(before, order) && r@ == #[trigger] rearranged(before, order);
        assert forall|i: int, j: int| 0 <= i < j < order.len() implies {
            let a = all[#[trigger] order[i] as int].reclaimable();
            let b = all[#[trigger] order[j] as int].reclaimable();
            a > b || a == b && order[i] < order[j]
        } by {
            assert(before[order[i] as int].weight() == all[order[i] as int].reclaimable());
            assert(before[order[j] as int].weight() == all[order[j] as int].reclaimable());
        }
        assert(best_first(all, order));
        assert(group_models(r@) =~= rearranged(all, order));
    }
    r
}

/// The bytes that the suggested actions of the groups free together.
pub open spec fn total_of(groups: Seq<GroupModel>) -> int
    decreases groups.len(),
{
    if groups.len() == 0 {
        0
    } else {
        total_of(groups.drop_last()) + groups.last().reclaimable()
    }
}

/// What a group frees is not negative.
proof fn lemma_reclaimable_positive(g: GroupModel)
    ensures
        g.reclaimable() >= 0,
{
    match g.suggested {
        ActionModel::KeepOne { trash, .. } | ActionModel::DeleteAll { trash } => {
            if g.files.len() > 0 {
                let size = g.files[0].size as int;
                let n = trash.len() as int;
                assert(size * n >= 0) by (nonlinear_arith)
                    requires
                        size >= 0,
                        n >= 0,
                ;
            }
        },
        _ => {},
    }
}

/// Fewer groups free no more, and nothing negative.
proof fn lemma_total(groups: Seq<GroupModel>, k: int)
    requires
        0 <= k <= groups.len(),
    ensures
        total_of(groups.take(k)) <= total_of(groups),
    decreases groups.len() - k,
{
    if k < groups.len() {
        lemma_total(groups, k + 1);
        assert(groups.take(k + 1).drop_last() =~= groups.take(k));
        lemma_reclaimable_positive(groups[k]);
    } else {
        assert(groups.take(k) =~= groups);
    }
}

/// The bytes that a group frees, if the number fits.
fn checked_reclaimable(g: &Group) -> (r: Option<u64>)
    ensures
        match r {
            Some(n) => n == g@.reclaimable(),
            None => g@.reclaimable() > u64::MAX,
        },
{
    match &g.suggested {
        Action::KeepOne { trash, .. } | Action::DeleteAll { trash } => {
            let n: u64 = trash.len() as u64;
            if g.files.len() == 0 {
                Some(0)
            } else {
                assert(g@.files[0] == g.files@[0]@);
                g.files[0].size.checked_mul(n)
            }
        },
        Action::FoldIntoFolder { .. } | Action::Ignore => Some(0),
    }
}

/// The bytes that the suggested actions of the groups free together, if the
/// number fits.
pub fn total_reclaimable(groups: &Vec<Group>) -> (r: Option<u64>)
    ensures
        match r {
            Some(n) => n == total_of(group_models(groups@)),
            None => total_of(group_models(groups@)) > u64::MAX,
        },
{
    let ghost all = group_models(groups@);
    let mut sum: u64 = 0;
    let mut i: usize = 0;
    assert(all.take(0) =~= Seq::<GroupModel>::empty());
    while i < groups.len()
        invariant
            all == group_models(groups@),
            i <= groups@.len(),
            sum == total_of(all.take(i as int)),
        decreases groups@.len() - i,
    {
        proof {
            assert(all.take(i + 1).drop_last() =~= all.take(i as int));
            assert(all.take(i + 1).last() == groups@[i as int]@);
            lemma_total(all, i + 1);
            lemma_reclaimable_positive(all[i as int]);
        }
        match checked_reclaimable(&groups[i]) {
            Some(n) => match sum.checked_add(n) {
                Some(next) => {
                    sum = next;
                },
                None => {
                    return None;
                },
            },
            None => {
                return None;
            },
        }
        i = i + 1;
    }
    assert(all.take(i as int) =~= all);
    Some(sum)
}

/// The value of a lower-case hexadecimal digit.
pub open spec fn hex_value(c: char) -> int {
    if '0' <= c <= '9' {
        c as int - '0' as int
    } else {
        c as int - 'a' as int + 10
    }
}

/// Whether `text` spells the first six bytes of a digest with two lower-case
/// hexadecimal digits each, behind `prefix`.
pub open spec fn spells_digest(text: Seq<char>, prefix: Seq<char>, hash: Seq<u8>) -> bool {
    let n = prefix.len() as int;
    &&& text.len() == n + 12
    &&& text.take(n) == prefix
    &&& forall|k: int|
        n <= k < text.len() ==> '0' <= #[trigger] text[k] <= '9' || 'a' <= text[k] <= 'f'
    &&& forall|b: int|
        0 <= b < 6 ==> #[trigger] hash[b] == 16 * hex_value(text[n + 2 * b]) + hex_value(
            text[n + 2 * b + 1],
        )
}

/// Whether `g` is the group that is shown for duplicate files: a group of that
/// kind with the same paths and sizes, a label of its digest, and the suggestion to
/// keep the keeper and to trash exactly what was to be trashed.
pub open spec fn shows_files(g: GroupModel, d: DupGroup) -> bool {
    &&& g.kind == GroupKind::Duplicate
    &&& g.files.len() == d.files@.len()
    &&& forall|i: int|
        0 <= i < g.files.len() ==> (#[trigger] g.files[i]).path == d.files@[i].path@
            && g.files[i].size == d.files@[i].size
    &&& spells_digest(g.label, "hash:"@, d.hash@)
    &&& g.suggested is KeepOne
    &&& g.suggested->keep == d.keep@
    &&& g.suggested->KeepOne_trash.len() == d.trash@.len()
    &&& forall|i: int|
        0 <= i < d.trash@.len() ==> #[trigger] g.suggested->KeepOne_trash[i] == d.trash@[i]@
}

/// Whether `g` is the group that is shown for duplicate directories.
pub open spec fn shows_dirs(g: GroupModel, d: DirDup) -> bool {
    &&& g.kind == GroupKind::DuplicateDir
    &&& g.files.len() == d.dirs@.len()
    &&& forall|i: int|
        0 <= i < g.files.len() ==> (#[trigger] g.files[i]).path == d.dirs@[i].path@
            && g.files[i].size == d.dirs@[i].total_size
    &&& spells_digest(g.label, "dir:"@, d.hash@)
    &&& g.suggested is KeepOne
    &&& g.suggested->keep == d.keep@
    &&& g.suggested->KeepOne_trash.len() == d.trash@.len()
    &&& forall|i: int|
        0 <= i < d.trash@.len() ==> #[trigger] g.suggested->KeepOne_trash[i] == d.trash@[i]@
}

/// A byte as two hexadecimal digits.
proof fn lemma_hex_byte(b: u8)
    ensures
        b == 16 * hex_value(hex_of(b)[0]) + hex_value(hex_of(b)[1]),
        '0' <= hex_of(b)[0] <= '9' || 'a' <= hex_of(b)[0] <= 'f',
        '0' <= hex_of(b)[1] <= '9' || 'a' <= hex_of(b)[1] <= 'f',
{
    assert(b / 16 < 16 && b % 16 < 16);
}

/// The digits of a byte string, byte by byte.
proof fn lemma_hex(s: Seq<u8>)
    ensures
        hex(s).len() == 2 * s.len(),
        forall|b: int|
            0 <= b < s.len() ==> hex(s)[2 * b] == hex_of(#[trigger] s[b])[0] && hex(s)[2 * b + 1]
                == hex_of(s[b])[1],
    decreases s.len(),
{
    if s.len() > 0 {
        lemma_hex(s.drop_last());
        assert forall|b: int| 0 <= b < s.len() implies hex(s)[2 * b] == hex_of(#[trigger] s[b])[0]
            && hex(s)[2 * b + 1] == hex_of(s[b])[1] by {
            if b < s.len() - 1 {
                assert(s.drop_last()[b] == s[b]);
            }
        }
    }
}

/// A short digest behind a prefix spells the digest.
proof fn lemma_spells(prefix: Seq<char>, hash: Seq<u8>)
    requires
        hash.len() >= 6,
    ensures
        spells_digest(prefix + short_hash_of(hash), prefix, hash),
{
    let n = prefix.len() as int;
    let s = hash.take(6);
    let text = prefix + short_hash_of(hash);
    lemma_hex(s);
    assert(text.take(n) =~= prefix);
    assert forall|k: int| n <= k < text.len() implies '0' <= #[trigger] text[k] <= '9' || 'a'
        <= text[k] <= 'f' by {
        let b = (k - n) / 2;
        assert(s[b] == hash[b]);
        lemma_hex_byte(s[b]);
        assert(k - n == 2 * b || k - n == 2 * b + 1);
        assert(text[k] == hex(s)[k - n]);
    }
    assert forall|b: int| 0 <= b < 6 implies #[trigger] hash[b] == 16 * hex_value(text[n + 2 * b])
        + hex_value(text[n + 2 * b + 1]) by {
        assert(s[b] == hash[b]);
        lemma_hex_byte(s[b]);
    }
}

/// What is shown for duplicate files.
proof fn lemma_shows_files(d: DupGroup)
    ensures
        shows_files(dup_model(d@), d),
{
    lemma_spells("hash:"@, d.hash@);
    let g = dup_model(d@);
    assert forall|i: int| 0 <= i < g.files.len() implies (#[trigger] g.files[i]).path
        == d.files@[i].path@ && g.files[i].size == d.files@[i].size by {
        assert(d@.files[i] == d.files@[i]@);
    }
    assert forall|i: int| 0 <= i < d.trash@.len() implies #[trigger] g.suggested->KeepOne_trash[i]
        == d.trash@[i]@ by {
        assert(d@.trash[i] == d.trash@[i]@);
    }
}

/// What is shown for duplicate directories.
proof fn lemma_shows_dirs(d: DirDup)
    ensures
        shows_dirs(dir_dup_model(d@), d),
{
    lemma_spells("dir:"@, d.hash@);
    let g = dir_dup_model(d@);
    assert forall|i: int| 0 <= i < g.files.len() implies (#[trigger] g.files[i]).path
        == d.dirs@[i].path@ && g.files[i].size == d.dirs@[i].total_size by {
        assert(d@.dirs[i] == d.dirs@[i]@);
    }
    assert forall|i: int| 0 <= i < d.trash@.len() implies #[trigger] g.suggested->KeepOne_trash[i]
        == d.trash@[i]@ by {
        assert(d@.trash[i] == d.trash@[i]@);
    }
}

/// The bytes that the source of a shown group frees: the size of its first member
/// for every path in its trash.
pub open spec fn freed_by(dups: Seq<DupGroup>, dir_dups: Seq<DirDup>, x: int) -> int {
    if x < dups.len() {
        if dups[x].files@.len() == 0 {
            0
        } else {
            dups[x].files@[0].size * dups[x].trash@.len()
        }
    } else {
        let d = dir_dups[x - dups.len()];
        if d.dirs@.len() == 0 {
            0
        } else {
            d.dirs@[0].total_size * d.trash@.len()
        }
    }
}

/// Whether `groups` are what is built of duplicates.
pub open spec fn is_built(
    dups: Seq<DupGroup>,
    dir_dups: Seq<DirDup>,
    groups: Seq<GroupModel>,
) -> bool {
    exists|order: Seq<usize>|
        best_first(shown(dups, dir_dups), order) && groups == #[trigger] rearranged(
            shown(dups, dir_dups),
            order,
        )
}

/// What is built shows every group of duplicate files and directories once, with
/// the keeper to be kept and the trash to be trashed. What frees more comes first,
/// and of what frees the same the files before the directories and the earlier
/// before the later.
pub proof fn what_is_built_shows_every_group_once(
    dups: Seq<DupGroup>,
    dir_dups: Seq<DirDup>,
    groups: Seq<GroupModel>,
)
    requires
        is_built(dups, dir_dups, groups),
    ensures
        groups.len() == dups.len() + dir_dups.len(),
        exists|order: Seq<usize>|
            {
                &&& #[trigger] order.len() == groups.len()
                &&& order.no_duplicates()
                &&& forall|m: int|
                    0 <= m < order.len() ==> {
                        let x = #[trigger] order[m] as int;
                        &&& x < dups.len() + dir_dups.len()
                        &&& x < dups.len() ==> shows_files(groups[m], dups[x])
                        &&& x >= dups.len() ==> shows_dirs(groups[m], dir_dups[x - dups.len()])
                    }
                &&& forall|u: usize| u < dups.len() + dir_dups.len() ==> #[trigger] order.contains(u)
                &&& forall|m: int, n: int|
                    0 <= m < n < order.len() ==> {
                        let a = freed_by(dups, dir_dups, #[trigger] order[m] as int);
                        let b = freed_by(dups, dir_dups, #[trigger] order[n] as int);
                        a > b || a == b && order[m] < order[n]
                    }
            },
{
    let all = shown(dups, dir_dups);
    let order = choose|order: Seq<usize>|
        best_first(all, order) && groups == #[trigger] rearranged(all, order);
    assert forall|x: int| 0 <= x < all.len() implies (#[trigger] all[x]).reclaimable() == freed_by(
        dups,
        dir_dups,
        x,
    ) && (x < dups.len() ==> shows_files(all[x], dups[x])) && (x >= dups.len() ==> shows_dirs(
        all[x],
        dir_dups[x - dups.len()],
    )) by {
        if x < dups.len() {
            lemma_shows_files(dups[x]);
            assert(all[x] == dup_model(dups[x]@));
            assert(all[x].suggested == (ActionModel::KeepOne {
                keep: all[x].suggested->keep,
                trash: all[x].suggested->KeepOne_trash,
            }));
            if dups[x].files@.len() > 0 {
                assert(all[x].files[0].size == dups[x].files@[0].size);
            }
        } else {
            let d = dir_dups[x - dups.len()];
            lemma_shows_dirs(d);
            assert(all[x] == dir_dup_model(d@));
            if d.dirs@.len() > 0 {
                assert(all[x].files[0].size == d.dirs@[0].total_size);
            }
        }
    }
    assert forall|m: int| 0 <= m < order.len() implies {
        let x = #[trigger] order[m] as int;
        &&& x < dups.len() + dir_dups.len()
        &&& x < dups.len() ==> shows_files(groups[m], dups[x])
        &&& x >= dups.len() ==> shows_dirs(groups[m], dir_dups[x - dups.len()])
    } by {
        assert(groups[m] == all[order[m] as int]);
    }
    assert forall|m: int, n: int| 0 <= m < n < order.len() implies {
        let a = freed_by(dups, dir_dups, #[trigger] order[m] as int);
        let b = freed_by(dups, dir_dups, #[trigger] order[n] as int);
        a > b || a == b && order[m] < order[n]
    } by {
        assert(all[order[m] as int].reclaimable() == freed_by(dups, dir_dups, order[m] as int));
        assert(all[order[n] as int].reclaimable() == freed_by(dups, dir_dups, order[n] as int));
    }
    assert(order.len() == groups.len());
}

/// The group that is shown for duplicate files suggests to keep the keeper and to
/// trash what was to be trashed.
pub proof fn a_shown_group_suggests_what_was_picked(
    dups: Seq<DupGroup>,
    dir_dups: Seq<DirDup>,
    groups: Seq<GroupModel>,
    i: int,
)
    requires
        is_built(dups, dir_dups, groups),
        dups.len() + dir_dups.len() <= usize::MAX,
        0 <= i < dups.len(),
    ensures
        exists|m: int|
            0 <= m < groups.len() && (#[trigger] groups[m]).kind == GroupKind::Duplicate
                && groups[m].suggested == (ActionModel::KeepOne {
                keep: dups[i].keep@,
                trash: path_bytes(dups[i].trash@),
            }),
{
    what_is_built_shows_every_group_once(dups, dir_dups, groups);
    let order = choose|order: Seq<usize>|
        {
            &&& #[trigger] order.len() == groups.len()
            &&& forall|m: int|
                0 <= m < order.len() ==> {
                    let x = #[trigger] order[m] as int;
                    x < dups.len() ==> shows_files(groups[m], dups[x])
                }
            &&& forall|u: usize| u < dups.len() + dir_dups.len() ==> #[trigger] order.contains(u)
        };
    assert(order.contains(i as usize));
    let m = choose|m: int| 0 <= m < order.len() && order[m] == i as usize;
    assert(shows_files(groups[m], dups[i]));
    assert(groups[m].suggested->KeepOne_trash =~= path_bytes(dups[i].trash@));
}

/// What is shown for duplicates that were found, with different paths, trashes
/// every file of the group but the one that it keeps.
pub proof fn a_shown_group_trashes_all_but_the_keeper(
    entries: Seq<FileModel>,
    hashes: Seq<Option<[u8; 32]>>,
    d: DupGroup,
    g: GroupModel,
)
    requires
        is_dup_group(entries, hashes, d@),
        forall|i: int, j: int|
            0 <= i < j < d.files@.len() ==> (#[trigger] d.files@[i]).path@ != (
            #[trigger] d.files@[j]).path@,
        shows_files(g, d),
    ensures
        !g.suggested->KeepOne_trash.contains(g.suggested->keep),
        forall|i: int|
            0 <= i < g.files.len() ==> (#[trigger] g.files[i]).path == g.suggested->keep
                || g.suggested->KeepOne_trash.contains(g.files[i].path),
        exists|i: int| 0 <= i < g.files.len() && (#[trigger] g.files[i]).path == g.suggested->keep,
{
    a_group_keeps_one_file(entries, hashes, d@);
    let paths = file_paths(d@.files);
    assert(paths.no_duplicates()) by {
        assert forall|i: int, j: int| 0 <= i < paths.len() && 0 <= j < paths.len() && i
            != j implies paths[i] != paths[j] by {
            assert(paths[i] == d.files@[i].path@ && paths[j] == d.files@[j].path@);
        }
    }
    assert(g.suggested->KeepOne_trash =~= d@.trash);
    assert forall|i: int| 0 <= i < g.files.len() implies (#[trigger] g.files[i]).path
        == g.suggested->keep || g.suggested->KeepOne_trash.contains(g.files[i].path) by {
        assert(d@.files[i].path == g.files[i].path);
    }
    let k = choose|k: int| 0 <= k < d@.files.len() && (#[trigger] d@.files[k]).path == d@.keep;
    assert(g.files[k].path == d.files@[k].path@);
}

/// What a group frees goes by what its suggestion trashes, and only that.
pub proof fn only_trash_frees_bytes(g: GroupModel)
    ensures
        g.suggested is Ignore || g.suggested is FoldIntoFolder ==> g.reclaimable() == 0,
        g.suggested is KeepOne && g.files.len() > 0 ==> g.reclaimable() == g.files[0].size
            * g.suggested->KeepOne_trash.len(),
        g.suggested is DeleteAll && g.files.len() > 0 ==> g.reclaimable() == g.files[0].size
            * g.suggested->DeleteAll_trash.len(),
        g.files.len() == 0 ==> g.reclaimable() == 0,
{
}

/// What two lists of groups free adds up, and one group frees what it frees.
pub proof fn totals_add_up(a: Seq<GroupModel>, b: Seq<GroupModel>)
    ensures
        total_of(a + b) == total_of(a) + total_of(b),
        a.len() == 1 ==> total_of(a) == a[0].reclaimable(),
        a.len() == 0 ==> total_of(a) == 0,
    decreases b.len(),
{
    if a.len() == 1 {
        assert(a.drop_last() =~= Seq::<GroupModel>::empty());
        assert(total_of(a.drop_last()) == 0);
    }
    if b.len() == 0 {
        assert(a + b =~= a);
    } else {
        assert((a + b).drop_last() =~= a + b.drop_last());
        totals_add_up(a, b.drop_last());
    }
}

} // verus!
