//! A stable merge sort, and the grouping of equal keys that it gives.

use vstd::prelude::*;
use vstd::relations::{sorted_by, total_ordering};
use vstd::seq_lib::lemma_sorted_unique;
use crate::order::Largest;

verus! {

/// A key with a total preorder.
pub trait Ranked: Sized {
    /// Whether `self` may stand before `other`.
    spec fn le(&self, other: &Self) -> bool;

    proof fn le_total(a: &Self, b: &Self)
        ensures
            a.le(b) || b.le(a),
    ;

    proof fn le_transitive(a: &Self, b: &Self, c: &Self)
        requires
            a.le(b),
            b.le(c),
        ensures
            a.le(c),
    ;

    fn at_most(&self, other: &Self) -> (r: bool)
        ensures
            r == self.le(other),
    ;
}

/// Whether index `x` stands before index `y` in a stable ordering of `keys`.
pub open spec fn stands_before<K: Ranked>(keys: Seq<K>, x: usize, y: usize) -> bool {
    &&& keys[x as int].le(&keys[y as int])
    &&& keys[y as int].le(&keys[x as int]) ==> x < y
}

/// Whether `order` lists the indices from `lo` to `hi`, each once, in the
/// stable order of their keys.
pub open spec fn sorts_range<K: Ranked>(
    keys: Seq<K>,
    order: Seq<usize>,
    lo: int,
    hi: int,
) -> bool {
    &&& order.len() == hi - lo
    &&& forall|i: int| 0 <= i < order.len() ==> lo <= #[trigger] order[i] < hi
    &&& forall|i: int, j: int|
        0 <= i < j < order.len() ==> #[trigger] stands_before(keys, order[i], order[j])
    &&& forall|x: usize| lo <= x < hi ==> #[trigger] order.contains(x)
}

/// Whether `order` is the stable ordering of all the indices of `keys`.
pub open spec fn sorts<K: Ranked>(keys: Seq<K>, order: Seq<usize>) -> bool {
    sorts_range(keys, order, 0, keys.len() as int)
}

/// Merges two adjacent sorted ranges.
fn merge<K: Ranked>(
    keys: &Vec<K>,
    left: &Vec<usize>,
    right: &Vec<usize>,
    Ghost(lo): Ghost<int>,
    Ghost(mid): Ghost<int>,
    Ghost(hi): Ghost<int>,
) -> (out: Vec<usize>)
    requires
        0 <= lo <= mid <= hi <= keys@.len(),
        sorts_range(keys@, left@, lo, mid),
        sorts_range(keys@, right@, mid, hi),
    ensures
        sorts_range(keys@, out@, lo, hi),
{
    let mut out: Vec<usize> = Vec::new();
    let mut i: usize = 0;
    let mut j: usize = 0;
    while i < left.len() || j < right.len()
        invariant
            0 <= lo <= mid <= hi <= keys@.len(),
            sorts_range(keys@, left@, lo, mid),
            sorts_range(keys@, right@, mid, hi),
            i <= left@.len(),
            j <= right@.len(),
            out@.len() == i + j,
            forall|k: int| 0 <= k < out@.len() ==> lo <= #[trigger] out@[k] < hi,
            forall|k: int, l: int|
                0 <= k < l < out@.len() ==> #[trigger] stands_before(keys@, out@[k], out@[l]),
            forall|k: int, l: int|
                0 <= k < out@.len() && i <= l < left@.len() ==> #[trigger] stands_before(
                    keys@,
                    out@[k],
                    left@[l],
                ),
            forall|k: int, l: int|
                0 <= k < out@.len() && j <= l < right@.len() ==> #[trigger] stands_before(
                    keys@,
                    out@[k],
                    right@[l],
                ),
            forall|l: int| 0 <= l < i ==> out@.contains(#[trigger] left@[l]),
            forall|l: int| 0 <= l < j ==> out@.contains(#[trigger] right@[l]),
        decreases left@.len() - i + right@.len() - j,
    {
        let take_left = if i == left.len() {
            false
        } else if j == right.len() {
            true
        } else {
            keys[left[i]].at_most(&keys[right[j]])
        };
        let ghost before = out@;
        if take_left {
            let x = left[i];
            proof {
                assert forall|l: int| j <= l < right@.len() implies stands_before(
                    keys@,
                    x,
                    #[trigger] right@[l],
                ) by {
                    if j < l {
                        assert(stands_before(keys@, right@[j as int], right@[l]));
                        K::le_transitive(
                            &keys@[x as int],
                            &keys@[right@[j as int] as int],
                            &keys@[right@[l] as int],
                        );
                    }
                }
                assert forall|l: int| i < l < left@.len() implies stands_before(
                    keys@,
                    x,
                    #[trigger] left@[l],
                ) by {
                    assert(stands_before(keys@, left@[i as int], left@[l]));
                }
                assert forall|k: int| 0 <= k < before.len() implies stands_before(
                    keys@,
                    #[trigger] before[k],
                    x,
                ) by {
                    assert(stands_before(keys@, before[k], left@[i as int]));
                }
            }
            out.push(x);
            i = i + 1;
            proof {
                assert(out@[before.len() as int] == x);
                assert forall|l: int| 0 <= l < i implies out@.contains(#[trigger] left@[l]) by {
                    if l < i - 1 {
                        assert(before.contains(left@[l]));
                        let k = choose|k: int| 0 <= k < before.len() && before[k] == left@[l];
                        assert(out@[k] == left@[l]);
                    }
                }
                assert forall|l: int| 0 <= l < j implies out@.contains(#[trigger] right@[l]) by {
                    assert(before.contains(right@[l]));
                    let k = choose|k: int| 0 <= k < before.len() && before[k] == right@[l];
                    assert(out@[k] == right@[l]);
                }
            }
        } else {
            let x = right[j];
            proof {
                assert forall|l: int| i <= l < left@.len() implies stands_before(
                    keys@,
                    x,
                    #[trigger] left@[l],
                ) by {
                    K::le_total(&keys@[x as int], &keys@[left@[i as int] as int]);
                    if i < l {
                        assert(stands_before(keys@, left@[i as int], left@[l]));
                        K::le_transitive(
                            &keys@[x as int],
                            &keys@[left@[i as int] as int],
                            &keys@[left@[l] as int],
                        );
                        if keys@[left@[l] as int].le(&keys@[x as int]) {
                            K::le_transitive(
                                &keys@[left@[i as int] as int],
                                &keys@[left@[l] as int],
                                &keys@[x as int],
                            );
                        }
                    }
                }
                assert forall|l: int| j < l < right@.len() implies stands_before(
                    keys@,
                    x,
                    #[trigger] right@[l],
                ) by {
                    assert(stands_before(keys@, right@[j as int], right@[l]));
                }
                assert forall|k: int| 0 <= k < before.len() implies stands_before(
                    keys@,
                    #[trigger] before[k],
                    x,
                ) by {
                    assert(stands_before(keys@, before[k], right@[j as int]));
                }
            }
            out.push(x);
            j = j + 1;
            proof {
                assert(out@[before.len() as int] == x);
                assert forall|l: int| 0 <= l < i implies out@.contains(#[trigger] left@[l]) by {
                    assert(before.contains(left@[l]));
                    let k = choose|k: int| 0 <= k < before.len() && before[k] == left@[l];
                    assert(out@[k] == left@[l]);
                }
                assert forall|l: int| 0 <= l < j implies out@.contains(#[trigger] right@[l]) by {
                    if l < j - 1 {
                        assert(before.contains(right@[l]));
                        let k = choose|k: int| 0 <= k < before.len() && before[k] == right@[l];
                        assert(out@[k] == right@[l]);
                    }
                }
            }
        }
    }
    proof {
        assert forall|x: usize| lo <= x < hi implies #[trigger] out@.contains(x) by {
            if x < mid {
                assert(left@.contains(x));
                let l = choose|l: int| 0 <= l < left@.len() && left@[l] == x;
                assert(out@.contains(left@[l]));
            } else {
                assert(right@.contains(x));
                let l = choose|l: int| 0 <= l < right@.len() && right@[l] == x;
                assert(out@.contains(right@[l]));
            }
        }
    }
    out
}

/// The stable ordering of the indices from `lo` to `hi`.
fn sort_range<K: Ranked>(keys: &Vec<K>, lo: usize, hi: usize) -> (out: Vec<usize>)
    requires
        lo <= hi <= keys@.len(),
    ensures
        sorts_range(keys@, out@, lo as int, hi as int),
    decreases hi - lo,
{
    let mut out: Vec<usize> = Vec::new();
    if hi - lo == 1 {
        out.push(lo);
        assert(out@[0] == lo);
    } else if hi - lo > 1 {
        let mid: usize = lo + (hi - lo) / 2;
        let left = sort_range(keys, lo, mid);
        let right = sort_range(keys, mid, hi);
        out =
        merge(keys, &left, &right, Ghost(lo as int), Ghost(mid as int), Ghost(hi as int));
    }
    out
}

/// The stable ordering of the indices of `keys`.
pub fn sort_order<K: Ranked>(keys: &Vec<K>) -> (order: Vec<usize>)
    ensures
        sorts(keys@, order@),
{
    sort_range(keys, 0, keys.len())
}

/// `items` in the order that `order` lists them.
pub open spec fn rearranged<T>(items: Seq<T>, order: Seq<usize>) -> Seq<T> {
    Seq::new(order.len(), |i: int| items[order[i] as int])
}

/// Moves `items` into the order that `order` lists them.
pub fn rearrange<T>(items: Vec<T>, order: &Vec<usize>) -> (out: Vec<T>)
    requires
        order@.len() == items@.len(),
        forall|i: int| 0 <= i < order@.len() ==> #[trigger] order@[i] < items@.len(),
        order@.no_duplicates(),
    ensures
        out@ == rearranged(items@, order@),
{
    let ghost source = items@;
    let mut items = items;
    let n: usize = items.len();
    let mut slots: Vec<Option<T>> = Vec::new();
    while items.len() > 0
        invariant
            n == source.len(),
            items@.len() + slots@.len() == n,
            items@ == source.take(items@.len() as int),
            forall|i: int|
                0 <= i < slots@.len() ==> #[trigger] slots@[i] == Some(source[n - 1 - i]),
        decreases items@.len(),
    {
        let last = items.pop();
        slots.push(last);
    }
    let mut out: Vec<T> = Vec::new();
    let mut i: usize = 0;
    while i < n
        invariant
            n == source.len(),
            n == order@.len(),
            n == slots@.len(),
            i <= n,
            order@.no_duplicates(),
            forall|k: int| 0 <= k < order@.len() ==> #[trigger] order@[k] < n,
            forall|k: int|
                i <= k < n ==> slots@[n - 1 - #[trigger] order@[k]] == Some(
                    source[order@[k] as int],
                ),
            out@.len() == i,
            forall|k: int| 0 <= k < i ==> #[trigger] out@[k] == source[order@[k] as int],
        decreases n - i,
    {
        let at: usize = n - 1 - order[i];
        let mut taken: Option<T> = None;
        assert(slots@[n - 1 - order@[i as int]] == Some(source[order@[i as int] as int]));
        core::mem::swap(&mut slots[at], &mut taken);
        match taken {
            Some(item) => {
                out.push(item);
            },
            None => {
                assert(false);
            },
        }
        i = i + 1;
    }
    assert(out@ =~= rearranged(source, order@));
    out
}

/// A sorting lists no index twice.
pub proof fn lemma_sorts_distinct<K: Ranked>(keys: Seq<K>, order: Seq<usize>)
    requires
        sorts(keys, order),
    ensures
        order.no_duplicates(),
{
    assert forall|i: int, j: int| 0 <= i < order.len() && 0 <= j < order.len() && i
        != j implies order[i] != order[j] by {
        if i < j {
            assert(stands_before(keys, order[i], order[j]));
        } else {
            assert(stands_before(keys, order[j], order[i]));
        }
    }
}

/// The numbers below `n` of which `p` holds, in increasing order.
pub open spec fn positions(n: int, p: spec_fn(int) -> bool) -> Seq<int>
    decreases n,
{
    if n <= 0 {
        seq![]
    } else if p(n - 1) {
        positions(n - 1, p).push(n - 1)
    } else {
        positions(n - 1, p)
    }
}

/// Indices as integers.
pub open spec fn ints(s: Seq<usize>) -> Seq<int> {
    Seq::new(s.len(), |i: int| s[i] as int)
}

/// `positions` lists exactly the numbers of which `p` holds, increasing.
pub proof fn lemma_positions(n: int, p: spec_fn(int) -> bool)
    ensures
        forall|i: int|
            0 <= i < positions(n, p).len() ==> 0 <= #[trigger] positions(n, p)[i] < n && p(
                positions(n, p)[i],
            ),
        forall|i: int, j: int|
            0 <= i < j < positions(n, p).len() ==> positions(n, p)[i] < positions(n, p)[j],
        forall|x: int| 0 <= x < n && p(x) ==> #[trigger] positions(n, p).contains(x),
    decreases n,
{
    if n > 0 {
        lemma_positions(n - 1, p);
        let s = positions(n, p);
        let t = positions(n - 1, p);
        assert forall|x: int| 0 <= x < n && p(x) implies #[trigger] s.contains(x) by {
            if x == n - 1 {
                assert(s[s.len() - 1] == x);
            } else {
                assert(t.contains(x));
                let k = choose|k: int| 0 <= k < t.len() && t[k] == x;
                assert(s[k] == x);
            }
        }
    }
}

/// An increasing list of exactly the numbers of which `p` holds is `positions`.
pub proof fn lemma_positions_unique(n: int, p: spec_fn(int) -> bool, s: Seq<int>)
    requires
        forall|i: int| 0 <= i < s.len() ==> 0 <= #[trigger] s[i] < n && p(s[i]),
        forall|i: int, j: int| 0 <= i < j < s.len() ==> s[i] < s[j],
        forall|x: int| 0 <= x < n && p(x) ==> #[trigger] s.contains(x),
    ensures
        s == positions(n, p),
    decreases n,
{
    if n <= 0 {
        if s.len() > 0 {
            assert(0 <= s[0] < n);
        }
        assert(s =~= seq![]);
    } else if p(n - 1) {
        assert(s.contains(n - 1));
        let k = choose|k: int| 0 <= k < s.len() && s[k] == n - 1;
        if k < s.len() - 1 {
            assert(s[k] < s[s.len() - 1]);
            assert(s[s.len() - 1] < n);
        }
        let t = s.drop_last();
        assert forall|i: int| 0 <= i < t.len() implies 0 <= #[trigger] t[i] < n - 1 && p(t[i]) by {
            assert(s[i] < s[k]);
        }
        assert forall|x: int| 0 <= x < n - 1 && p(x) implies #[trigger] t.contains(x) by {
            assert(s.contains(x));
            let m = choose|m: int| 0 <= m < s.len() && s[m] == x;
            assert(t[m] == x);
        }
        lemma_positions_unique(n - 1, p, t);
        assert(s =~= t.push(n - 1));
    } else {
        assert forall|i: int| 0 <= i < s.len() implies 0 <= #[trigger] s[i] < n - 1 && p(s[i]) by {
            assert(s[i] < n);
        }
        lemma_positions_unique(n - 1, p, s);
    }
}

/// Two conditions that agree below `n` have the same positions.
pub proof fn lemma_positions_agree(n: int, p: spec_fn(int) -> bool, q: spec_fn(int) -> bool)
    requires
        forall|i: int| 0 <= i < n ==> #[trigger] p(i) == q(i),
    ensures
        positions(n, p) == positions(n, q),
    decreases n,
{
    if n > 0 {
        assert(p(n - 1) == q(n - 1));
        lemma_positions_agree(n - 1, p, q);
    }
}

/// Whether two keys rank the same.
pub open spec fn ties<K: Ranked>(a: &K, b: &K) -> bool {
    a.le(b) && b.le(a)
}

/// The first index of group `g`.
pub open spec fn leader(groups: Seq<Vec<usize>>, g: int) -> int {
    groups[g]@[0] as int
}

/// Whether `x` ranks the same as the members of some group.
pub open spec fn is_grouped<K: Ranked>(keys: Seq<K>, groups: Seq<Vec<usize>>, x: int) -> bool {
    exists|g: int| 0 <= g < groups.len() && ties(&keys[x], &keys[#[trigger] leader(groups, g)])
}

/// Whether `groups` are the classes of indices whose keys rank the same, each
/// class in increasing order.
pub open spec fn groups_ties<K: Ranked>(keys: Seq<K>, groups: Seq<Vec<usize>>) -> bool {
    &&& forall|g: int|
        0 <= g < groups.len() ==> {
            &&& groups[g]@.len() > 0
            &&& 0 <= #[trigger] leader(groups, g)
            &&& leader(groups, g) < keys.len()
            &&& ints(groups[g]@) == positions(
                keys.len() as int,
                |x: int| ties(&keys[x], &keys[leader(groups, g)]),
            )
        }
    &&& forall|g: int, h: int|
        0 <= g < h < groups.len() ==> !ties(
            &keys[#[trigger] leader(groups, g)],
            &keys[#[trigger] leader(groups, h)],
        )
    &&& forall|x: int| 0 <= x < keys.len() ==> #[trigger] is_grouped(keys, groups, x)
}

/// Whether `groups` cut the first `starts.last()` places of the sorted `order`
/// into the runs that start at `starts`.
spec fn cuts<K: Ranked>(
    keys: Seq<K>,
    order: Seq<usize>,
    groups: Seq<Vec<usize>>,
    starts: Seq<int>,
) -> bool {
    &&& starts.len() == groups.len() + 1
    &&& starts[0] == 0
    &&& forall|g: int| 0 <= g < starts.len() ==> 0 <= #[trigger] starts[g] <= order.len()
    &&& forall|g: int| 0 <= g < groups.len() ==> starts[g] < starts[#[trigger] next(g)]
    &&& forall|g: int|
        0 <= g < groups.len() ==> #[trigger] groups[g]@ == order.subrange(
            starts[g],
            starts[next(g)],
        )
    &&& forall|g: int, k: int|
        0 <= g < groups.len() && starts[g] <= k < starts[next(g)] ==> ties(
            &keys[#[trigger] order[k] as int],
            &keys[order[#[trigger] starts[g]] as int],
        )
    &&& forall|g: int|
        0 < g < starts.len() && starts[g] < order.len() ==> !keys[order[#[trigger] starts[g]] as int].le(
            &keys[order[starts[g] - 1] as int],
        )
    &&& forall|k: int| 0 <= k < starts.last() ==> #[trigger] in_some_run(starts, k)
}

spec fn next(g: int) -> int {
    g + 1
}

spec fn in_some_run(starts: Seq<int>, k: int) -> bool {
    exists|g: int|
        0 <= g < starts.len() - 1 && #[trigger] starts[g] <= k && k < starts[next(g)]
}

/// A run of ties in a sorted order, bounded by growing keys, is the class of
/// its first key.
proof fn lemma_run_is_class<K: Ranked>(keys: Seq<K>, order: Seq<usize>, s: int, e: int)
    requires
        sorts(keys, order),
        keys.len() <= usize::MAX,
        0 <= s < e <= order.len(),
        forall|k: int|
            s <= k < e ==> ties(&keys[#[trigger] order[k] as int], &keys[order[s] as int]),
        0 < s ==> !keys[order[s] as int].le(&keys[order[s - 1] as int]),
        e < order.len() ==> !keys[order[e] as int].le(&keys[order[e - 1] as int]),
    ensures
        ints(order.subrange(s, e)) == positions(
            keys.len() as int,
            |x: int| ties(&keys[x], &keys[order[s] as int]),
        ),
{
    let n = order.len() as int;
    let first = order[s] as int;
    let p = |x: int| ties(&keys[x], &keys[first]);
    let list = ints(order.subrange(s, e));
    assert forall|i: int| 0 <= i < list.len() implies 0 <= #[trigger] list[i] < n && p(
        list[i],
    ) by {
        assert(list[i] == order[s + i] as int);
    }
    assert forall|i: int, j: int| 0 <= i < j < list.len() implies list[i] < list[j] by {
        assert(list[i] == order[s + i] as int);
        assert(list[j] == order[s + j] as int);
        assert(stands_before(keys, order[s + i], order[s + j]));
        K::le_transitive(&keys[list[j]], &keys[first], &keys[list[i]]);
    }
    assert forall|x: int| 0 <= x < n && p(x) implies #[trigger] list.contains(x) by {
        assert(order.contains(x as usize));
        let k = choose|k: int| 0 <= k < order.len() && order[k] == x as usize;
        assert(order[k] as int == x);
        if k < s {
            if k < s - 1 {
                assert(stands_before(keys, order[k], order[s - 1]));
                K::le_transitive(&keys[first], &keys[x], &keys[order[s - 1] as int]);
            }
        } else if k >= e {
            if e < k {
                assert(stands_before(keys, order[e], order[k]));
            } else {
                K::le_total(&keys[x], &keys[x]);
            }
            K::le_transitive(&keys[order[e] as int], &keys[x], &keys[first]);
            assert(ties(&keys[order[e - 1] as int], &keys[first]));
            K::le_transitive(&keys[order[e] as int], &keys[first], &keys[order[e - 1] as int]);
        } else {
            assert(list[k - s] == x);
        }
    }
    lemma_positions_unique(n, p, list);
}

/// The run that starts at `starts[g]` is the class of its first key.
proof fn lemma_run<K: Ranked>(
    keys: Seq<K>,
    order: Seq<usize>,
    groups: Seq<Vec<usize>>,
    starts: Seq<int>,
    g: int,
)
    requires
        sorts(keys, order),
        keys.len() <= usize::MAX,
        cuts(keys, order, groups, starts),
        starts.last() == order.len(),
        0 <= g < groups.len(),
    ensures
        groups[g]@.len() > 0,
        0 <= leader(groups, g) < keys.len(),
        ints(groups[g]@) == positions(
            keys.len() as int,
            |x: int| ties(&keys[x], &keys[leader(groups, g)]),
        ),
{
    let s = starts[g];
    assert(starts[g] < starts[next(g)]);
    let e = starts[next(g)];
    assert(groups[g]@ == order.subrange(s, e));
    assert(leader(groups, g) == order[s] as int);
    assert(0 <= order[s] < keys.len());
    assert forall|k: int| s <= k < e implies ties(
        &keys[#[trigger] order[k] as int],
        &keys[order[s] as int],
    ) by {
        assert(ties(&keys[order[k] as int], &keys[order[starts[g]] as int]));
    }
    lemma_run_is_class(keys, order, s, e);
}

/// Cutting a sorted order wherever the key grows gives the classes of ties.
proof fn lemma_cuts<K: Ranked>(
    keys: Seq<K>,
    order: Seq<usize>,
    groups: Seq<Vec<usize>>,
    starts: Seq<int>,
)
    requires
        sorts(keys, order),
        keys.len() <= usize::MAX,
        cuts(keys, order, groups, starts),
        starts.last() == order.len(),
    ensures
        groups_ties(keys, groups),
{
    assert forall|g: int| 0 <= g < groups.len() implies {
        &&& groups[g]@.len() > 0
        &&& 0 <= #[trigger] leader(groups, g)
        &&& leader(groups, g) < keys.len()
        &&& ints(groups[g]@) == positions(
            keys.len() as int,
            |x: int| ties(&keys[x], &keys[leader(groups, g)]),
        )
    } by {
        lemma_run(keys, order, groups, starts, g);
    }
    assert forall|g: int, h: int| 0 <= g < h < groups.len() implies !ties(
        &keys[#[trigger] leader(groups, g)],
        &keys[#[trigger] leader(groups, h)],
    ) by {
        lemma_runs_differ(keys, order, groups, starts, g, h);
    }
    assert forall|x: int| 0 <= x < keys.len() implies #[trigger] is_grouped(keys, groups, x) by {
        lemma_run_found(keys, order, groups, starts, x);
    }
}

proof fn lemma_runs_differ<K: Ranked>(
    keys: Seq<K>,
    order: Seq<usize>,
    groups: Seq<Vec<usize>>,
    starts: Seq<int>,
    g: int,
    h: int,
)
    requires
        sorts(keys, order),
        keys.len() <= usize::MAX,
        cuts(keys, order, groups, starts),
        starts.last() == order.len(),
        0 <= g < h < groups.len(),
    ensures
        !ties(&keys[leader(groups, g)], &keys[leader(groups, h)]),
{
    lemma_starts_increase(keys, order, groups, starts, g, h);
    assert(starts[h] < starts[next(h)]);
    assert(starts[g] < starts[next(g)]);
    assert(groups[g]@ == order.subrange(starts[g], starts[next(g)]));
    assert(groups[h]@ == order.subrange(starts[h], starts[next(h)]));
    assert(!keys[order[starts[h]] as int].le(&keys[order[starts[h] - 1] as int]));
    if starts[g] < starts[h] - 1 {
        assert(stands_before(keys, order[starts[g]], order[starts[h] - 1]));
        if ties(&keys[leader(groups, g)], &keys[leader(groups, h)]) {
            K::le_transitive(
                &keys[leader(groups, h)],
                &keys[leader(groups, g)],
                &keys[order[starts[h] - 1] as int],
            );
        }
    }
}

proof fn lemma_run_found<K: Ranked>(
    keys: Seq<K>,
    order: Seq<usize>,
    groups: Seq<Vec<usize>>,
    starts: Seq<int>,
    x: int,
)
    requires
        sorts(keys, order),
        keys.len() <= usize::MAX,
        cuts(keys, order, groups, starts),
        starts.last() == order.len(),
        0 <= x < keys.len(),
    ensures
        is_grouped(keys, groups, x),
{
    assert(order.contains(x as usize));
    let k = choose|k: int| 0 <= k < order.len() && order[k] == x as usize;
    assert(in_some_run(starts, k));
    let g = choose|g: int|
        0 <= g < starts.len() - 1 && #[trigger] starts[g] <= k && k < starts[next(g)];
    assert(groups[g]@ == order.subrange(starts[g], starts[next(g)]));
    assert(ties(&keys[order[k] as int], &keys[order[starts[g]] as int]));
    assert(ties(&keys[x], &keys[leader(groups, g)]));
}

proof fn lemma_starts_increase<K: Ranked>(
    keys: Seq<K>,
    order: Seq<usize>,
    groups: Seq<Vec<usize>>,
    starts: Seq<int>,
    g: int,
    h: int,
)
    requires
        cuts(keys, order, groups, starts),
        0 <= g < h < starts.len(),
    ensures
        starts[g] < starts[h],
    decreases h - g,
{
    assert(starts[h - 1] < starts[next(h - 1)]);
    if g < h - 1 {
        lemma_starts_increase(keys, order, groups, starts, g, h - 1);
    }
}

/// The classes of indices whose keys rank the same.
pub fn group_ties<K: Ranked>(keys: &Vec<K>) -> (groups: Vec<Vec<usize>>)
    ensures
        groups_ties(keys@, groups@),
{
    let order = sort_order(keys);
    let mut groups: Vec<Vec<usize>> = Vec::new();
    let mut at: usize = 0;
    let ghost mut starts: Seq<int> = seq![0];
    while at < order.len()
        invariant
            sorts(keys@, order@),
            cuts(keys@, order@, groups@, starts),
            at == starts.last(),
            at <= order@.len(),
        decreases order@.len() - at,
    {
        let begin: usize = at;
        let mut group: Vec<usize> = Vec::new();
        proof {
            K::le_total(&keys@[order@[begin as int] as int], &keys@[order@[begin as int] as int]);
        }
        while at < order.len() && (at == begin || keys[order[at]].at_most(&keys[order[at - 1]]))
            invariant
                sorts(keys@, order@),
                begin <= at <= order@.len(),
                begin < order@.len(),
                group@ =~= order@.subrange(begin as int, at as int),
                forall|k: int|
                    begin <= k < at ==> ties(
                        &keys@[#[trigger] order@[k] as int],
                        &keys@[order@[begin as int] as int],
                    ),
                keys@[order@[begin as int] as int].le(&keys@[order@[begin as int] as int]),
            ensures
                begin < at <= order@.len(),
                at < order@.len() ==> !keys@[order@[at as int] as int].le(
                    &keys@[order@[at - 1] as int],
                ),
            decreases order@.len() - at,
        {
            proof {
                if at > begin {
                    let first = &keys@[order@[begin as int] as int];
                    let last = &keys@[order@[at - 1] as int];
                    let x = &keys@[order@[at as int] as int];
                    assert(ties(last, first));
                    assert(stands_before(keys@, order@[begin as int], order@[at as int]));
                    K::le_transitive(x, last, first);
                }
            }
            group.push(order[at]);
            at = at + 1;
        }
        proof {
            let before = groups@;
            let after = before.push(group);
            let grown = starts.push(at as int);
            assert forall|g: int| 0 <= g < after.len() implies grown[g] < grown[#[trigger] next(
                g,
            )] by {
                if g < before.len() {
                    assert(starts[g] < starts[next(g)]);
                }
            }
            assert forall|g: int| 0 <= g < after.len() implies #[trigger] after[g]@
                == order@.subrange(grown[g], grown[next(g)]) by {
                if g < before.len() {
                    assert(before[g]@ == order@.subrange(starts[g], starts[next(g)]));
                }
            }
            assert forall|g: int, k: int|
                0 <= g < after.len() && grown[g] <= k < grown[next(g)] implies ties(
                &keys@[#[trigger] order@[k] as int],
                &keys@[order@[#[trigger] grown[g]] as int],
            ) by {
                if g < before.len() {
                    assert(starts[g] == grown[g]);
                    assert(starts[next(g)] == grown[next(g)]);
                }
            }
            assert forall|g: int|
                0 < g < grown.len() && grown[g] < order@.len() implies !keys@[order@[#[trigger] grown[g]] as int].le(
            &keys@[order@[grown[g] - 1] as int]) by {
                if g < starts.len() {
                    assert(starts[g] == grown[g]);
                }
            }
            assert forall|k: int| 0 <= k < grown.last() implies #[trigger] in_some_run(
                grown,
                k,
            ) by {
                if k < starts.last() {
                    assert(in_some_run(starts, k));
                    let g = choose|g: int|
                        0 <= g < starts.len() - 1 && #[trigger] starts[g] <= k && k < starts[next(
                            g,
                        )];
                    assert(grown[g] <= k && k < grown[next(g)]);
                } else {
                    let g = starts.len() - 1;
                    assert(grown[g] <= k && k < grown[next(g)]);
                }
            }
            starts = grown;
        }
        groups.push(group);
    }
    proof {
        lemma_cuts(keys@, order@, groups@, starts);
    }
    groups
}

/// A class with two members shows that they share their key with another, and
/// only such keys stand in a class with two members.
proof fn lemma_shared_key<K: Ranked>(keys: Seq<K>, classes: Seq<Vec<usize>>, d: int, x: int)
    requires
        groups_ties(keys, classes),
        0 <= d < classes.len(),
        0 <= x < keys.len(),
        ties(&keys[x], &keys[leader(classes, d)]),
    ensures
        ints(classes[d]@).contains(x),
        classes[d]@.len() >= 2 <==> exists|y: int|
            0 <= y < keys.len() && y != x && ties(&keys[x], &#[trigger] keys[y]),
{
    let first = leader(classes, d);
    assert(0 <= leader(classes, d));
    let tied = |y: int| ties(&keys[y], &keys[first]);
    let list = ints(classes[d]@);
    assert(list.len() == classes[d]@.len());
    lemma_positions(keys.len() as int, tied);
    assert(list == positions(keys.len() as int, tied));
    assert(tied(x));
    assert(list.contains(x));
    if classes[d]@.len() >= 2 {
        assert(list[0] < list[1]);
        let y = if list[0] == x { list[1] } else { list[0] };
        assert(tied(y));
        K::le_transitive(&keys[x], &keys[first], &keys[y]);
        K::le_transitive(&keys[y], &keys[first], &keys[x]);
        assert(ties(&keys[x], &keys[y]));
    }
    if exists|y: int| 0 <= y < keys.len() && y != x && ties(&keys[x], &#[trigger] keys[y]) {
        let y = choose|y: int| 0 <= y < keys.len() && y != x && ties(&keys[x], &#[trigger] keys[y]);
        K::le_transitive(&keys[y], &keys[x], &keys[first]);
        K::le_transitive(&keys[first], &keys[x], &keys[y]);
        assert(tied(y));
        assert(list.contains(y));
        let a = choose|a: int| 0 <= a < list.len() && list[a] == x;
        let b = choose|b: int| 0 <= b < list.len() && list[b] == y;
        assert(a != b);
    }
}

/// Whether class `d` has the member `x`.
spec fn in_class(classes: Seq<Vec<usize>>, d: int, x: int) -> bool {
    ints(classes[d]@).contains(x)
}

/// No index is in two classes, and the members of a class are indices.
proof fn lemma_in_class<K: Ranked>(keys: Seq<K>, classes: Seq<Vec<usize>>, d: int, x: int)
    requires
        groups_ties(keys, classes),
        0 <= d < classes.len(),
        in_class(classes, d, x),
    ensures
        0 <= x < keys.len(),
        ties(&keys[x], &keys[leader(classes, d)]),
        forall|e: int| 0 <= e < classes.len() && e != d ==> !#[trigger] in_class(classes, e, x),
{
    let first = leader(classes, d);
    assert(0 <= leader(classes, d));
    lemma_positions(keys.len() as int, |y: int| ties(&keys[y], &keys[first]));
    assert forall|e: int| 0 <= e < classes.len() && e != d implies !#[trigger] in_class(
        classes,
        e,
        x,
    ) by {
        if in_class(classes, e, x) {
            let other = leader(classes, e);
            assert(0 <= leader(classes, e));
            lemma_positions(keys.len() as int, |y: int| ties(&keys[y], &keys[other]));
            assert(ties(&keys[x], &keys[other]));
            K::le_transitive(&keys[first], &keys[x], &keys[other]);
            K::le_transitive(&keys[other], &keys[x], &keys[first]);
            assert(ties(&keys[first], &keys[other]));
            assert(ties(&keys[other], &keys[first]));
            assert(false);
        }
    }
}

/// Marks the indices whose key another one shares.
pub fn mark_shared<K: Ranked>(keys: &Vec<K>) -> (flags: Vec<bool>)
    ensures
        flags@.len() == keys@.len(),
        forall|x: int|
            0 <= x < keys@.len() ==> #[trigger] flags@[x] == exists|y: int|
                0 <= y < keys@.len() && y != x && ties(&keys@[x], &#[trigger] keys@[y]),
{
    let n: usize = keys.len();
    let classes = group_ties(keys);
    let mut flags: Vec<bool> = Vec::new();
    let mut f: usize = 0;
    while f < n
        invariant
            f <= n,
            flags@.len() == f,
        decreases n - f,
    {
        flags.push(false);
        f = f + 1;
    }
    proof {
        assert forall|d: int, x: int|
            0 <= d < classes@.len() && #[trigger] in_class(classes@, d, x) implies 0 <= x < n by {
            lemma_in_class(keys@, classes@, d, x);
        }
    }
    let mut c: usize = 0;
    while c < classes.len()
        invariant
            n == keys@.len(),
            flags@.len() == n,
            groups_ties(keys@, classes@),
            forall|d: int, x: int|
                0 <= d < classes@.len() && #[trigger] in_class(classes@, d, x) ==> 0 <= x < n,
            c <= classes@.len(),
            forall|d: int, x: int|
                0 <= d < c && #[trigger] in_class(classes@, d, x) ==> flags@[x] == (
                classes@[d]@.len() >= 2),
        decreases classes@.len() - c,
    {
        let class = &classes[c];
        let shared = class.len() >= 2;
        proof {
            assert forall|j: int| 0 <= j < class@.len() implies #[trigger] class@[j] < n by {
                assert(ints(class@)[j] == class@[j] as int);
                assert(in_class(classes@, c as int, class@[j] as int));
            }
        }
        let mut k: usize = 0;
        while k < class.len()
            invariant
                n == keys@.len(),
                flags@.len() == n,
                groups_ties(keys@, classes@),
                forall|d: int, x: int|
                    0 <= d < classes@.len() && #[trigger] in_class(classes@, d, x) ==> 0 <= x < n,
                c < classes@.len(),
                class@ == classes@[c as int]@,
                forall|j: int| 0 <= j < class@.len() ==> #[trigger] class@[j] < n,
                k <= class@.len(),
                shared == (class@.len() >= 2),
                forall|d: int, x: int|
                    0 <= d < c && #[trigger] in_class(classes@, d, x) ==> flags@[x] == (
                    classes@[d]@.len() >= 2),
                forall|j: int| 0 <= j < k ==> flags@[#[trigger] class@[j] as int] == shared,
            decreases class@.len() - k,
        {
            let x: usize = class[k];
            proof {
                assert(ints(class@)[k as int] == x as int);
                assert(in_class(classes@, c as int, x as int));
                lemma_in_class(keys@, classes@, c as int, x as int);
            }
            flags.set(x, shared);
            k = k + 1;
        }
        proof {
            assert forall|d: int, x: int|
                0 <= d < c + 1 && #[trigger] in_class(classes@, d, x) implies flags@[x] == (
            classes@[d]@.len() >= 2) by {
                if d == c {
                    let j = choose|j: int| 0 <= j < ints(class@).len() && ints(class@)[j] == x;
                    assert(class@[j] as int == x);
                }
            }
        }
        c = c + 1;
    }
    proof {
        assert forall|x: int| 0 <= x < keys@.len() implies #[trigger] flags@[x] == exists|y: int|
            0 <= y < keys@.len() && y != x && ties(&keys@[x], &#[trigger] keys@[y]) by {
            assert(is_grouped(keys@, classes@, x));
            let d = choose|d: int|
                0 <= d < classes@.len() && ties(&keys@[x], &keys@[#[trigger] leader(classes@, d)]);
            lemma_shared_key(keys@, classes@, d, x);
            assert(in_class(classes@, d, x));
        }
    }
    flags
}

/// Whether `order` lists every index below `n` once.
pub open spec fn is_permutation(n: int, order: Seq<usize>) -> bool {
    &&& order.len() == n
    &&& order.no_duplicates()
    &&& forall|i: int| 0 <= i < order.len() ==> #[trigger] order[i] < n
    &&& forall|x: usize| x < n ==> #[trigger] order.contains(x)
}

/// Whether `order` lists the indices of `weights` with the largest weight first,
/// and indices of equal weight in increasing order.
pub open spec fn descends(weights: Seq<u64>, order: Seq<usize>) -> bool {
    &&& is_permutation(weights.len() as int, order)
    &&& forall|i: int, j: int|
        0 <= i < j < order.len() ==> {
            ||| weights[#[trigger] order[i] as int] > weights[#[trigger] order[j] as int]
            ||| weights[order[i] as int] == weights[order[j] as int] && order[i] < order[j]
        }
}

/// The indices of `weights`, the largest weight first.
pub fn descending(weights: &Vec<u64>) -> (order: Vec<usize>)
    ensures
        descends(weights@, order@),
{
    let mut keys: Vec<Largest> = Vec::new();
    let mut i: usize = 0;
    while i < weights.len()
        invariant
            i <= weights@.len(),
            keys@.len() == i,
            forall|k: int| 0 <= k < i ==> (#[trigger] keys@[k]).value == weights@[k],
        decreases weights@.len() - i,
    {
        keys.push(Largest { value: weights[i] });
        i = i + 1;
    }
    let order = sort_order(&keys);
    proof {
        lemma_sorts_distinct(keys@, order@);
        assert forall|i: int, j: int| 0 <= i < j < order@.len() implies {
            ||| weights@[#[trigger] order@[i] as int] > weights@[#[trigger] order@[j] as int]
            ||| weights@[order@[i] as int] == weights@[order@[j] as int] && order@[i] < order@[j]
        } by {
            assert(stands_before(keys@, order@[i], order@[j]));
        }
    }
    order
}

/// Something that is listed by its weight.
pub trait Weighed: Sized {
    spec fn weight(&self) -> int;

    fn weigh(&self) -> (r: u64)
        requires
            self.weight() <= u64::MAX,
        ensures
            r == self.weight(),
    ;
}

/// Whether `order` lists all the items with the largest weight first, and items of
/// equal weight in their order.
pub open spec fn heaviest_first<T: Weighed>(items: Seq<T>, order: Seq<usize>) -> bool {
    &&& is_permutation(items.len() as int, order)
    &&& forall|i: int, j: int|
        0 <= i < j < order.len() ==> {
            ||| items[#[trigger] order[i] as int].weight()
                > items[#[trigger] order[j] as int].weight()
            ||| items[order[i] as int].weight() == items[order[j] as int].weight() && order[i]
                < order[j]
        }
}

/// Lists items by their weight, the largest first. Items of equal weight keep
/// their order.
pub fn sort_by_weight<T: Weighed>(items: Vec<T>) -> (r: Vec<T>)
    requires
        forall|k: int| 0 <= k < items@.len() ==> (#[trigger] items@[k]).weight() <= u64::MAX,
    ensures
        exists|order: Seq<usize>|
            heaviest_first(items@, order) && r@ == #[trigger] rearranged(items@, order),
{
    let mut weights: Vec<u64> = Vec::new();
    let mut i: usize = 0;
    while i < items.len()
        invariant
            i <= items@.len(),
            forall|k: int| 0 <= k < items@.len() ==> (#[trigger] items@[k]).weight() <= u64::MAX,
            weights@.len() == i,
            forall|k: int| 0 <= k < i ==> #[trigger] weights@[k] == items@[k].weight(),
        decreases items@.len() - i,
    {
        assert(items@[i as int].weight() <= u64::MAX);
        weights.push(items[i].weigh());
        i = i + 1;
    }
    let order = descending(&weights);
    let ghost before = items@;
    let r = rearrange(items, &order);
    proof {
        assert forall|i: int, j: int| 0 <= i < j < order@.len() implies {
            ||| before[#[trigger] order@[i] as int].weight()
                > before[#[trigger] order@[j] as int].weight()
            ||| before[order@[i] as int].weight() == before[order@[j] as int].weight() && order@[i]
                < order@[j]
        } by {
            assert(weights@[order@[i] as int] == before[order@[i] as int].weight());
            assert(weights@[order@[j] as int] == before[order@[j] as int].weight());
        }
        assert(heaviest_first(before, order@));
        assert(r@ == rearranged(before, order@));
    }
    r
}

/// Numbers in increasing order are distinct.
pub proof fn lemma_increasing_distinct(s: Seq<int>)
    requires
        forall|a: int, b: int| 0 <= a < b < s.len() ==> s[a] < s[b],
    ensures
        s.no_duplicates(),
{
    assert forall|a: int, b: int| 0 <= a < s.len() && 0 <= b < s.len() && a != b implies s[a]
        != s[b] by {
        if a < b {
            assert(s[a] < s[b]);
        } else {
            assert(s[b] < s[a]);
        }
    }
}

/// Sorting distinct numbers keeps what they are.
pub proof fn lemma_sort_by_keeps(places: Seq<int>, r: spec_fn(int, int) -> bool)
    requires
        total_ordering(r),
        places.no_duplicates(),
    ensures
        places.sort_by(r).len() == places.len(),
        places.sort_by(r).no_duplicates(),
        sorted_by(places.sort_by(r), r),
        forall|x: int| places.contains(x) <==> #[trigger] places.sort_by(r).contains(x),
{
    broadcast use vstd::seq_lib::group_to_multiset_ensures;

    let list = places.sort_by(r);
    places.lemma_sort_by_ensures(r);
    places.lemma_multiset_has_no_duplicates();
    list.lemma_multiset_has_no_duplicates_conv();
    assert(places.to_multiset().len() == list.to_multiset().len());
    assert forall|x: int| places.contains(x) <==> #[trigger] list.contains(x) by {
        assert(places.contains(x) <==> places.to_multiset().count(x) > 0);
        assert(list.contains(x) <==> list.to_multiset().count(x) > 0);
    }
}

/// A sorted list of the same distinct numbers is the sorted list.
pub proof fn lemma_sort_by_unique(
    places: Seq<int>,
    listed: Seq<int>,
    r: spec_fn(int, int) -> bool,
)
    requires
        total_ordering(r),
        places.no_duplicates(),
        listed.no_duplicates(),
        forall|x: int| places.contains(x) <==> listed.contains(x),
        sorted_by(listed, r),
    ensures
        listed == places.sort_by(r),
{
    broadcast use vstd::seq_lib::group_to_multiset_ensures;

    places.lemma_sort_by_ensures(r);
    places.lemma_multiset_has_no_duplicates();
    listed.lemma_multiset_has_no_duplicates();
    assert forall|x: int|
        places.to_multiset().count(x) == #[trigger] listed.to_multiset().count(x) by {
        assert(places.contains(x) <==> places.to_multiset().count(x) > 0);
        assert(listed.contains(x) <==> listed.to_multiset().count(x) > 0);
    }
    assert(places.to_multiset() =~= listed.to_multiset());
    lemma_sorted_unique(listed, places.sort_by(r), r);
}

/// The items at `places`.
pub open spec fn items_at<T>(items: Seq<T>, places: Seq<int>) -> Seq<T> {
    Seq::new(places.len(), |k: int| items[places[k]])
}

/// Keeps the items that are marked, in their order.
pub fn keep_marked<T>(items: Vec<T>, flags: &Vec<bool>) -> (out: Vec<T>)
    requires
        flags@.len() == items@.len(),
    ensures
        out@ == items_at(items@, positions(items@.len() as int, |i: int| flags@[i])),
{
    let ghost source = items@;
    let mut items = items;
    let n: usize = items.len();
    let mut rest: Vec<T> = Vec::new();
    while items.len() > 0
        invariant
            n == source.len(),
            items@.len() + rest@.len() == n,
            items@ == source.take(items@.len() as int),
            forall|i: int| 0 <= i < rest@.len() ==> #[trigger] rest@[i] == source[n - 1 - i],
        decreases items@.len(),
    {
        match items.pop() {
            Some(last) => {
                rest.push(last);
            },
            None => {
                assert(false);
            },
        }
    }
    let mut out: Vec<T> = Vec::new();
    let mut i: usize = 0;
    let ghost p = |i: int| flags@[i];
    while i < n
        invariant
            n == source.len(),
            n == flags@.len(),
            i <= n,
            rest@.len() == n - i,
            forall|k: int| 0 <= k < rest@.len() ==> #[trigger] rest@[k] == source[n - 1 - k],
            p == (|i: int| flags@[i]),
            out@ =~= items_at(source, positions(i as int, p)),
        decreases n - i,
    {
        match rest.pop() {
            Some(item) => {
                if flags[i] {
                    out.push(item);
                }
            },
            None => {
                assert(false);
            },
        }
        i = i + 1;
    }
    out
}

} // verus!
