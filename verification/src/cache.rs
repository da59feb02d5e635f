//! The keys under which file digests are cached.

use vstd::prelude::*;
use vstd::slice::slice_subrange;
use crate::paths::FilePath;
use crate::sorting::{ints, lemma_positions, positions};
use crate::text::push_bytes;

verus! {

/// What a cached digest belongs to: a file, its size and its modification time.
#[derive(Debug, Clone, Copy)]
pub struct Key<'a> {
    pub path: &'a FilePath,
    pub size: u64,
    pub mtime: i64,
}

/// The lowest `n` bytes of `x`, the least significant first.
pub open spec fn le_bytes(x: nat, n: nat) -> Seq<u8>
    decreases n,
{
    if n == 0 {
        seq![]
    } else {
        seq![(x % 256) as u8] + le_bytes(x / 256, (n - 1) as nat)
    }
}

/// The number that bytes spell, the least significant first.
pub open spec fn le_value(s: Seq<u8>) -> nat
    decreases s.len(),
{
    if s.len() == 0 {
        0
    } else {
        s[0] as nat + 256 * le_value(s.drop_first())
    }
}

/// A signed number in two's complement, as an unsigned one.
pub open spec fn twos_complement(v: i64) -> nat {
    if v < 0 {
        (v + 0x1_0000_0000_0000_0000) as nat
    } else {
        v as nat
    }
}

/// The bytes of a key: the low sixteen bits of the path's length, the path, the
/// size and the modification time.
pub open spec fn key_bytes(path: Seq<u8>, size: u64, mtime: i64) -> Seq<u8> {
    le_bytes((path.len() % 65536) as nat, 2) + path + le_bytes(size as nat, 8) + le_bytes(
        twos_complement(mtime),
        8,
    )
}

/// The length of a path that a key states.
pub open spec fn stated_length(key: Seq<u8>) -> int {
    key[0] + 256 * key[1]
}

/// Appends the lowest `n` bytes of `x`.
fn push_le(out: &mut Vec<u8>, x: u64, n: usize)
    ensures
        final(out)@ == old(out)@ + le_bytes(x as nat, n as nat),
    decreases n,
{
    if n > 0 {
        let low: u8 = (x % 256) as u8;
        out.push(low);
        push_le(out, x / 256, n - 1);
        assert(out@ =~= old(out)@ + le_bytes(x as nat, n as nat));
    } else {
        assert(out@ =~= old(out)@ + le_bytes(x as nat, n as nat));
    }
}

/// The bytes under which the digest of `k` is cached.
pub fn encode_key(k: &Key) -> (r: Vec<u8>)
    ensures
        r@ == key_bytes(k.path@, k.size, k.mtime),
{
    let mut out: Vec<u8> = Vec::new();
    let len: usize = k.path.bytes.len();
    push_le(&mut out, (len % 65536) as u64, 2);
    push_bytes(&mut out, k.path.bytes.as_slice());
    push_le(&mut out, k.size, 8);
    let time: u64 = if k.mtime < 0 {
        u64::MAX - (-(k.mtime + 1)) as u64
    } else {
        k.mtime as u64
    };
    push_le(&mut out, time, 8);
    assert(out@ =~= key_bytes(k.path@, k.size, k.mtime));
    out
}

/// The path of a key.
pub fn decode_key_path(key: &[u8]) -> (r: FilePath)
    requires
        key@.len() >= 2,
        2 + stated_length(key@) <= key@.len(),
    ensures
        r@ == key@.subrange(2, 2 + stated_length(key@)),
{
    let len: usize = key[0] as usize + 256 * (key[1] as usize);
    FilePath::from_bytes(slice_subrange(key, 2, 2 + len))
}

/// The keys to be removed: those of which the file is gone.
pub fn sweep(present: &Vec<bool>) -> (r: Vec<usize>)
    ensures
        ints(r@) == positions(present@.len() as int, |i: int| !present@[i]),
{
    let mut out: Vec<usize> = Vec::new();
    let mut i: usize = 0;
    while i < present.len()
        invariant
            i <= present@.len(),
            ints(out@) =~= positions(i as int, |k: int| !present@[k]),
        decreases present@.len() - i,
    {
        let ghost before = out@;
        if !present[i] {
            out.push(i);
            assert(ints(out@) =~= ints(before).push(i as int));
        }
        i = i + 1;
    }
    out
}

/// 256 to the power `n`.
spec fn bytes_range(n: nat) -> nat
    decreases n,
{
    if n == 0 {
        1
    } else {
        256 * bytes_range((n - 1) as nat)
    }
}

/// Bytes spell back the number that they were made of.
proof fn lemma_le_bytes(x: nat, n: nat)
    ensures
        le_bytes(x, n).len() == n,
        x < bytes_range(n) ==> le_value(le_bytes(x, n)) == x,
    decreases n,
{
    if n > 0 {
        let rest = le_bytes(x / 256, (n - 1) as nat);
        lemma_le_bytes(x / 256, (n - 1) as nat);
        assert(le_bytes(x, n).drop_first() =~= rest);
        if x < bytes_range(n) {
            assert(x / 256 < bytes_range((n - 1) as nat));
        }
    }
}

/// The length of a key's bytes, and where its parts stand.
proof fn lemma_key_parts(path: Seq<u8>, size: u64, mtime: i64)
    ensures
        ({
            let k = key_bytes(path, size, mtime);
            let n = path.len() as int;
            &&& k.len() == n + 18
            &&& stated_length(k) == n % 65536
            &&& k.subrange(2, 2 + n) == path
            &&& le_value(k.subrange(2 + n, 10 + n)) == size
            &&& le_value(k.subrange(10 + n, 18 + n)) == twos_complement(mtime)
        }),
{
    let k = key_bytes(path, size, mtime);
    let n = path.len() as int;
    let m = (path.len() % 65536) as nat;
    lemma_le_bytes(m, 2);
    lemma_le_bytes(size as nat, 8);
    lemma_le_bytes(twos_complement(mtime), 8);
    assert(bytes_range(8) == 0x1_0000_0000_0000_0000) by {
        reveal_with_fuel(bytes_range, 9);
    }
    assert(bytes_range(2) == 65536) by {
        reveal_with_fuel(bytes_range, 3);
    }
    assert(le_bytes(m, 2)[0] == m % 256 && le_bytes(m, 2)[1] == m / 256) by {
        reveal_with_fuel(le_bytes, 3);
    }
    assert(k[0] == le_bytes(m, 2)[0]);
    assert(k[1] == le_bytes(m, 2)[1]);
    assert(k.subrange(2, 2 + n) =~= path);
    assert(k.subrange(2 + n, 10 + n) =~= le_bytes(size as nat, 8));
    assert(k.subrange(10 + n, 18 + n) =~= le_bytes(twos_complement(mtime), 8));
}

/// The path of a key can be read back from its bytes, as long as its length fits
/// into sixteen bits.
pub proof fn decoding_undoes_encoding(path: Seq<u8>, size: u64, mtime: i64)
    requires
        path.len() < 65536,
    ensures
        ({
            let key = key_bytes(path, size, mtime);
            &&& key.len() >= 2
            &&& 2 + stated_length(key) <= key.len()
            &&& key.subrange(2, 2 + stated_length(key)) == path
        }),
{
    lemma_key_parts(path, size, mtime);
}

/// Two keys have the same bytes only if path, size and modification time agree.
pub proof fn keys_are_distinct(
    path1: Seq<u8>,
    size1: u64,
    mtime1: i64,
    path2: Seq<u8>,
    size2: u64,
    mtime2: i64,
)
    requires
        key_bytes(path1, size1, mtime1) == key_bytes(path2, size2, mtime2),
    ensures
        path1 == path2,
        size1 == size2,
        mtime1 == mtime2,
{
    lemma_key_parts(path1, size1, mtime1);
    lemma_key_parts(path2, size2, mtime2);
}

/// A digest that is put into a store is found again under its own key, in place
/// of an earlier one, and under no other: a file whose size or modification time
/// has changed is not found.
pub proof fn a_digest_is_found_under_its_key_only(
    store: Map<Seq<u8>, Seq<u8>>,
    path: Seq<u8>,
    size: u64,
    mtime: i64,
    digest: Seq<u8>,
    other_path: Seq<u8>,
    other_size: u64,
    other_mtime: i64,
)
    ensures
        ({
            let after = store.insert(key_bytes(path, size, mtime), digest);
            let asked = key_bytes(other_path, other_size, other_mtime);
            if other_path == path && other_size == size && other_mtime == mtime {
                after.contains_key(asked) && after[asked] == digest
            } else {
                &&& after.contains_key(asked) == store.contains_key(asked)
                &&& store.contains_key(asked) ==> after[asked] == store[asked]
            }
        }),
{
    if key_bytes(path, size, mtime) == key_bytes(other_path, other_size, other_mtime) {
        keys_are_distinct(path, size, mtime, other_path, other_size, other_mtime);
    }
}

/// The bytes of a key, one by one: the length of the path in two bytes, the path,
/// and the size and the time in eight bytes each, all with the least significant
/// byte first. A negative time counts down from 2^64.
pub proof fn a_key_holds_length_path_size_and_time(path: Seq<u8>, size: u64, mtime: i64)
    ensures
        ({
            let k = key_bytes(path, size, mtime);
            let n = path.len() as int;
            let s = n + 2;
            let t = n + 10;
            &&& k.len() == n + 18
            &&& k[0] + 256 * k[1] == n % 65536
            &&& forall|i: int| 0 <= i < n ==> k[2 + i] == #[trigger] path[i]
            &&& k[s] + 256 * (k[s + 1] + 256 * (k[s + 2] + 256 * (k[s + 3] + 256 * (k[s + 4] + 256
                * (k[s + 5] + 256 * (k[s + 6] + 256 * k[s + 7])))))) == size
            &&& k[t] + 256 * (k[t + 1] + 256 * (k[t + 2] + 256 * (k[t + 3] + 256 * (k[t + 4] + 256
                * (k[t + 5] + 256 * (k[t + 6] + 256 * k[t + 7])))))) == mtime + (if mtime < 0 {
                0x1_0000_0000_0000_0000int
            } else {
                0
            })
        }),
{
    lemma_key_parts(path, size, mtime);
    let k = key_bytes(path, size, mtime);
    let n = path.len() as int;
    assert forall|i: int| 0 <= i < n implies k[2 + i] == #[trigger] path[i] by {
        assert(k.subrange(2, 2 + n)[i] == path[i]);
    }
    lemma_eight_bytes(k.subrange(2 + n, 10 + n));
    lemma_eight_bytes(k.subrange(10 + n, 18 + n));
}

/// What eight bytes spell.
proof fn lemma_eight_bytes(b: Seq<u8>)
    requires
        b.len() == 8,
    ensures
        le_value(b) == b[0] + 256 * (b[1] + 256 * (b[2] + 256 * (b[3] + 256 * (b[4] + 256 * (b[5]
            + 256 * (b[6] + 256 * b[7])))))),
{
    let b1 = b.drop_first();
    let b2 = b1.drop_first();
    let b3 = b2.drop_first();
    let b4 = b3.drop_first();
    let b5 = b4.drop_first();
    let b6 = b5.drop_first();
    let b7 = b6.drop_first();
    let b8 = b7.drop_first();
    assert(le_value(b8) == 0);
    assert(le_value(b7) == b[7]);
    assert(le_value(b6) == b[6] + 256 * le_value(b7));
    assert(le_value(b5) == b[5] + 256 * le_value(b6));
    assert(le_value(b4) == b[4] + 256 * le_value(b5));
    assert(le_value(b3) == b[3] + 256 * le_value(b4));
    assert(le_value(b2) == b[2] + 256 * le_value(b3));
    assert(le_value(b1) == b[1] + 256 * le_value(b2));
}

/// Exactly the keys whose file is gone are removed, each once and in order.
pub proof fn what_is_gone_is_swept(present: Seq<bool>, removed: Seq<int>)
    requires
        removed == positions(present.len() as int, |i: int| !present[i]),
    ensures
        forall|i: int| #[trigger]
            removed.contains(i) <==> 0 <= i < present.len() && !present[i],
        forall|a: int, b: int| 0 <= a < b < removed.len() ==> removed[a] < removed[b],
{
    let p = |i: int| !present[i];
    lemma_positions(present.len() as int, p);
    assert forall|i: int| #[trigger] removed.contains(i) <==> 0 <= i < present.len()
        && !present[i] by {
        if removed.contains(i) {
            let k = choose|k: int| 0 <= k < removed.len() && removed[k] == i;
            assert(p(removed[k]));
        }
        if 0 <= i < present.len() && !present[i] {
            assert(p(i));
        }
    }
}

} // verus!
