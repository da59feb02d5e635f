//! Unix file paths as byte strings, with the component rules of `std::path`.
//!
//! A path is split at `/`. Empty pieces are dropped, and so is every `.`
//! except one that starts a relative path. A leading `/` is a component of its
//! own, the root. Two paths are the same path when their components agree.

use vstd::prelude::*;
use vstd::slice::slice_to_vec;
use vstd::slice::slice_subrange;
use crate::order::{order_parts, path_order, path_order_linear, same_bytes, texts, Order};
use crate::sorting::ints;

verus! {

/// The byte `/`.
pub const SLASH: u8 = 47;

/// The byte `.`.
pub const DOT: u8 = 46;

/// The root component, `/`.
pub open spec fn root_component() -> Seq<u8> {
    seq![SLASH]
}

/// The component `.`.
pub open spec fn cur_dir() -> Seq<u8> {
    seq![DOT]
}

/// The component `..`.
pub open spec fn parent_dir() -> Seq<u8> {
    seq![DOT, DOT]
}

/// Where a left-to-right reading of a path stands: the components that are
/// complete, the position behind each of them, and the piece under way.
#[verifier::ext_equal]
pub struct Scan {
    pub done: Seq<Seq<u8>>,
    pub ends: Seq<int>,
    pub tail: Seq<u8>,
}

impl Scan {
    /// Whether the piece under way is a component.
    pub open spec fn keeps_tail(self) -> bool {
        self.tail.len() > 0 && (self.tail == cur_dir() ==> self.done.len() == 0)
    }
}

/// The reading of all of `s`.
pub open spec fn scan(s: Seq<u8>) -> Scan
    decreases s.len(),
{
    if s.len() == 0 {
        Scan { done: seq![], ends: seq![], tail: seq![] }
    } else {
        let p = scan(s.drop_last());
        if s.last() != SLASH {
            Scan { tail: p.tail.push(s.last()), ..p }
        } else if s.len() == 1 {
            Scan { done: seq![root_component()], ends: seq![1int], tail: seq![] }
        } else if p.keeps_tail() {
            Scan { done: p.done.push(p.tail), ends: p.ends.push(s.len() - 1), tail: seq![] }
        } else {
            Scan { tail: seq![], ..p }
        }
    }
}

/// The components of the path `s`.
pub open spec fn components(s: Seq<u8>) -> Seq<Seq<u8>> {
    let p = scan(s);
    if p.keeps_tail() {
        p.done.push(p.tail)
    } else {
        p.done
    }
}

/// For each component of `s`, the position just behind its last byte.
pub open spec fn component_ends(s: Seq<u8>) -> Seq<int> {
    let p = scan(s);
    if p.keeps_tail() {
        p.ends.push(s.len() as int)
    } else {
        p.ends
    }
}

/// The shortest prefix of `s` that holds its first `k` components.
pub open spec fn leading(s: Seq<u8>, k: int) -> Seq<u8> {
    if k <= 0 {
        seq![]
    } else {
        s.take(component_ends(s)[k - 1])
    }
}

/// What follows the first `k` components of `s`, from the first byte of the
/// next component to the last byte of the last one.
pub open spec fn trailing(s: Seq<u8>, k: int) -> Seq<u8> {
    let n = components(s).len();
    if k >= n {
        seq![]
    } else {
        s.subrange(
            component_ends(s)[k] - components(s)[k].len(),
            component_ends(s)[n - 1],
        )
    }
}

/// The parent of `s`: everything but the last component. The root and the
/// empty path have none.
pub open spec fn parent_of(s: Seq<u8>) -> Option<Seq<u8>> {
    let c = components(s);
    if c.len() == 0 || c == seq![root_component()] {
        None
    } else {
        Some(leading(s, c.len() - 1))
    }
}

/// `base` followed by `name`. An absolute `name` replaces `base`.
pub open spec fn joined(base: Seq<u8>, name: Seq<u8>) -> Seq<u8> {
    if name.len() > 0 && name[0] == SLASH {
        name
    } else if base.len() > 0 && base.last() != SLASH {
        base.push(SLASH) + name
    } else {
        base + name
    }
}

/// Whether the component `c` is an ordinary name.
pub open spec fn is_name(c: Seq<u8>) -> bool {
    c != root_component() && c != cur_dir() && c != parent_dir()
}

/// The last component of `s`, if it is an ordinary name.
pub open spec fn file_name_of(s: Seq<u8>) -> Option<Seq<u8>> {
    let c = components(s);
    if c.len() > 0 && is_name(c.last()) {
        Some(c.last())
    } else {
        None
    }
}

/// The position of the last dot of `name`, or -1.
pub open spec fn last_dot(name: Seq<u8>) -> int
    decreases name.len(),
{
    if name.len() == 0 {
        -1
    } else if name.last() == DOT {
        name.len() - 1
    } else {
        last_dot(name.drop_last())
    }
}

/// The file name up to its last dot. A dot that starts the name does not count.
pub open spec fn stem_of(name: Seq<u8>) -> Seq<u8> {
    if last_dot(name) > 0 {
        name.take(last_dot(name))
    } else {
        name
    }
}

/// The file name behind its last dot. A dot that starts the name does not count.
pub open spec fn extension_of(name: Seq<u8>) -> Option<Seq<u8>> {
    if last_dot(name) > 0 {
        Some(name.skip(last_dot(name) + 1))
    } else {
        None
    }
}

/// Whether `base` is `s` or one of its ancestors, component by component.
pub open spec fn is_under(s: Seq<u8>, base: Seq<u8>) -> bool {
    let b = components(base);
    b.len() <= components(s).len() && components(s).take(b.len() as int) == b
}

/// What a reading of `s` keeps true.
proof fn lemma_scan(s: Seq<u8>)
    ensures
        scan(s).done.len() == scan(s).ends.len(),
        scan(s).tail.len() <= s.len(),
        s.skip(s.len() - scan(s).tail.len()) =~= scan(s).tail,
        forall|j: int|
            #![trigger scan(s).ends[j]]
            #![trigger scan(s).done[j]]
            0 <= j < scan(s).done.len() ==> {
                &&& scan(s).done[j].len() > 0
                &&& scan(s).done[j].len() <= scan(s).ends[j]
                &&& scan(s).ends[j] <= s.len() - scan(s).tail.len()
                &&& s.subrange(scan(s).ends[j] - scan(s).done[j].len(), scan(s).ends[j])
                    =~= scan(s).done[j]
                &&& components(s.take(scan(s).ends[j])) =~= scan(s).done.take(j + 1)
                &&& component_ends(s.take(scan(s).ends[j])) =~= scan(s).ends.take(j + 1)
            },
        forall|i: int, j: int|
            0 <= i < j < scan(s).ends.len() ==> scan(s).ends[i] < scan(s).ends[j],
    decreases s.len(),
{
    if s.len() > 0 {
        let t = s.drop_last();
        let p = scan(t);
        lemma_scan(t);
        let q = scan(s);
        assert forall|j: int|
            #![trigger q.ends[j]]
            #![trigger q.done[j]]
            0 <= j < q.done.len() implies {
            &&& q.done[j].len() > 0
            &&& q.done[j].len() <= q.ends[j]
            &&& q.ends[j] <= s.len() - q.tail.len()
            &&& s.subrange(q.ends[j] - q.done[j].len(), q.ends[j]) =~= q.done[j]
            &&& components(s.take(q.ends[j])) =~= q.done.take(j + 1)
            &&& component_ends(s.take(q.ends[j])) =~= q.ends.take(j + 1)
        } by {
            if s.last() == SLASH && s.len() == 1 {
                assert(s.take(1) =~= s);
                assert(s =~= root_component());
            } else if j < p.done.len() {
                assert(p.ends[j] <= t.len());
                assert(s.take(q.ends[j]) =~= t.take(p.ends[j]));
                assert(s.subrange(q.ends[j] - q.done[j].len(), q.ends[j]) =~= t.subrange(
                    p.ends[j] - p.done[j].len(),
                    p.ends[j],
                ));
                assert(q.done.take(j + 1) =~= p.done.take(j + 1));
                assert(q.ends.take(j + 1) =~= p.ends.take(j + 1));
            } else {
                assert(s.take(q.ends[j]) =~= t);
                assert(s.subrange(q.ends[j] - q.done[j].len(), q.ends[j]) =~= t.skip(
                    t.len() - p.tail.len(),
                ));
                assert(q.done.take(j + 1) =~= q.done);
                assert(q.ends.take(j + 1) =~= q.ends);
            }
        }
        if s.last() != SLASH {
            assert(s.skip(s.len() - q.tail.len()) =~= t.skip(t.len() - p.tail.len()).push(s.last()));
        }
        assert forall|i: int, j: int| 0 <= i < j < q.ends.len() implies q.ends[i] < q.ends[j] by {
            if j >= p.ends.len() {
                assert(p.ends[i] <= t.len() - p.tail.len());
            }
        }
    }
}

/// The positions and the texts of components agree with the path's bytes, and
/// cutting a path behind a component keeps the components up to it.
pub proof fn lemma_components(s: Seq<u8>)
    ensures
        components(s).len() == component_ends(s).len(),
        forall|j: int|
            #![trigger component_ends(s)[j]]
            #![trigger components(s)[j]]
            0 <= j < components(s).len() ==> {
                &&& components(s)[j].len() > 0
                &&& components(s)[j].len() <= component_ends(s)[j]
                &&& component_ends(s)[j] <= s.len()
                &&& s.subrange(component_ends(s)[j] - components(s)[j].len(), component_ends(s)[j])
                    == components(s)[j]
            },
        forall|i: int, j: int|
            0 <= i < j < component_ends(s).len() ==> component_ends(s)[i] < component_ends(s)[j],
{
    lemma_scan(s);
    let p = scan(s);
    if p.keeps_tail() {
        assert(s.subrange(s.len() - p.tail.len(), s.len() as int) =~= s.skip(
            s.len() - p.tail.len(),
        ));
    }
}

/// The first `k` components of a path are the components of the prefix that
/// holds them.
pub proof fn lemma_leading(s: Seq<u8>, k: int)
    requires
        0 <= k <= components(s).len(),
    ensures
        components(leading(s, k)) == components(s).take(k),
        component_ends(leading(s, k)) == component_ends(s).take(k),
{
    lemma_scan(s);
    lemma_components(s);
    let p = scan(s);
    if k > 0 {
        if k - 1 < p.done.len() {
            assert(component_ends(s)[k - 1] == p.ends[k - 1]);
            assert(components(s).take(k) =~= p.done.take(k));
            assert(component_ends(s).take(k) =~= p.ends.take(k));
        } else {
            assert(s.take(s.len() as int) =~= s);
            assert(components(s).take(k) =~= components(s));
            assert(component_ends(s).take(k) =~= component_ends(s));
        }
    } else {
        assert(components(s).take(0) =~= seq![]);
        assert(component_ends(s).take(0) =~= seq![]);
    }
}

/// A file path.
#[derive(Debug)]
pub struct FilePath {
    pub bytes: Vec<u8>,
}

impl View for FilePath {
    type V = Seq<u8>;

    open spec fn view(&self) -> Seq<u8> {
        self.bytes@
    }
}

impl Clone for FilePath {
    fn clone(&self) -> (r: Self)
        ensures
            r@ == self@,
    {
        FilePath { bytes: slice_to_vec(self.bytes.as_slice()) }
    }
}

/// The bytes of each path of a list.
pub open spec fn path_bytes(paths: Seq<FilePath>) -> Seq<Seq<u8>> {
    Seq::new(paths.len(), |i: int| paths[i]@)
}

/// Copies a list of paths.
pub fn clone_paths(paths: &Vec<FilePath>) -> (r: Vec<FilePath>)
    ensures
        path_bytes(r@) == path_bytes(paths@),
{
    let mut out: Vec<FilePath> = Vec::new();
    let mut i: usize = 0;
    while i < paths.len()
        invariant
            i <= paths@.len(),
            out@.len() == i,
            forall|k: int| 0 <= k < i ==> (#[trigger] out@[k])@ == paths@[k]@,
        decreases paths@.len() - i,
    {
        out.push(paths[i].clone());
        i = i + 1;
    }
    assert(path_bytes(out@) =~= path_bytes(paths@));
    out
}

/// The components of a path, and the position behind each.
pub struct Parts {
    pub parts: Vec<Vec<u8>>,
    pub ends: Vec<usize>,
}

/// Whether the piece `tail` is a component behind `done` complete ones.
fn keeps_tail(done: usize, tail: &Vec<u8>) -> (r: bool)
    ensures
        r == (tail@.len() > 0 && (tail@ == cur_dir() ==> done == 0)),
{
    if tail.len() == 0 {
        false
    } else if tail.len() == 1 && tail[0] == DOT {
        assert(tail@ =~= cur_dir());
        done == 0
    } else {
        true
    }
}

/// Whether the component `c` is an ordinary name.
fn is_ordinary(c: &Vec<u8>) -> (r: bool)
    ensures
        r == is_name(c@),
{
    if c.len() == 1 && (c[0] == SLASH || c[0] == DOT) {
        assert(c@ =~= seq![c@[0]]);
        false
    } else if c.len() == 2 && c[0] == DOT && c[1] == DOT {
        assert(c@ =~= parent_dir());
        false
    } else {
        true
    }
}

/// The position of the last dot of a name.
fn find_last_dot(name: &Vec<u8>) -> (r: Option<usize>)
    ensures
        match r {
            Some(i) => i == last_dot(name@) && i < name@.len(),
            None => last_dot(name@) == -1,
        },
{
    let mut i: usize = name.len();
    assert(name@.take(i as int) =~= name@);
    while i > 0
        invariant
            i <= name@.len(),
            last_dot(name@.take(i as int)) == last_dot(name@),
        decreases i,
    {
        assert(name@.take(i as int).drop_last() =~= name@.take(i - 1));
        if name[i - 1] == DOT {
            return Some(i - 1);
        }
        i = i - 1;
    }
    None
}

/// The stem of a file name.
pub fn stem(name: &Vec<u8>) -> (r: Vec<u8>)
    ensures
        r@ == stem_of(name@),
{
    match find_last_dot(name) {
        Some(i) if i > 0 => slice_to_vec(slice_subrange(name.as_slice(), 0, i)),
        _ => slice_to_vec(name.as_slice()),
    }
}

/// The extension of a file name.
pub fn extension(name: &Vec<u8>) -> (r: Option<Vec<u8>>)
    ensures
        match r {
            Some(e) => extension_of(name@) == Some(e@),
            None => extension_of(name@) is None,
        },
{
    match find_last_dot(name) {
        Some(i) if i > 0 => {
            let n: usize = name.len();
            let e = slice_to_vec(slice_subrange(name.as_slice(), i + 1, n));
            assert(e@ =~= name@.skip(i + 1));
            Some(e)
        },
        _ => None,
    }
}

impl FilePath {
    /// The path that `text` spells.
    pub fn new(text: &str) -> (r: Self)
        ensures
            r@ == vstd::utf8::encode_utf8(text@),
    {
        FilePath { bytes: slice_to_vec(text.as_bytes()) }
    }

    /// The path of the given bytes.
    pub fn from_bytes(bytes: &[u8]) -> (r: Self)
        ensures
            r@ == bytes@,
    {
        FilePath { bytes: slice_to_vec(bytes) }
    }

    /// Splits the path into its components.
    pub fn parse(&self) -> (r: Parts)
        ensures
            texts(r.parts@) == components(self@),
            ints(r.ends@) == component_ends(self@),
    {
        let s = &self.bytes;
        let mut parts: Vec<Vec<u8>> = Vec::new();
        let mut ends: Vec<usize> = Vec::new();
        let mut tail: Vec<u8> = Vec::new();
        let mut i: usize = 0;
        assert(texts(parts@) =~= seq![]);
        assert(ints(ends@) =~= seq![]);
        while i < s.len()
            invariant
                s@ == self@,
                i <= s@.len(),
                texts(parts@) == scan(s@.take(i as int)).done,
                ints(ends@) == scan(s@.take(i as int)).ends,
                tail@ =~= scan(s@.take(i as int)).tail,
            decreases s@.len() - i,
        {
            let ghost before = s@.take(i as int);
            let ghost now = s@.take(i + 1);
            assert(now.drop_last() =~= before);
            let b = s[i];
            if b != SLASH {
                tail.push(b);
            } else if i == 0 {
                let mut root: Vec<u8> = Vec::new();
                root.push(SLASH);
                assert(root@ =~= root_component());
                parts.push(root);
                ends.push(1);
                assert(texts(parts@) =~= seq![root_component()]);
                assert(ints(ends@) =~= seq![1int]);
                tail = Vec::new();
            } else {
                if keeps_tail(parts.len(), &tail) {
                    let ghost old_parts = parts@;
                    let ghost old_ends = ends@;
                    let ghost piece = tail@;
                    parts.push(tail);
                    ends.push(i);
                    assert(texts(parts@) =~= texts(old_parts).push(piece));
                    assert(ints(ends@) =~= ints(old_ends).push(i as int));
                }
                tail = Vec::new();
            }
            i = i + 1;
        }
        assert(s@.take(i as int) =~= s@);
        if keeps_tail(parts.len(), &tail) {
            let ghost old_parts = parts@;
            let ghost old_ends = ends@;
            let ghost piece = tail@;
            parts.push(tail);
            ends.push(i);
            assert(texts(parts@) =~= texts(old_parts).push(piece));
            assert(ints(ends@) =~= ints(old_ends).push(i as int));
        }
        Parts { parts, ends }
    }

    /// The number of components.
    pub fn depth(&self) -> (r: usize)
        ensures
            r == components(self@).len(),
    {
        let p = self.parse();
        assert(texts(p.parts@).len() == p.parts@.len());
        p.parts.len()
    }

    /// The path of the first `k` components.
    pub(crate) fn cut(&self, p: &Parts, k: usize) -> (r: FilePath)
        requires
            texts(p.parts@) == components(self@),
            ints(p.ends@) == component_ends(self@),
            k <= components(self@).len(),
        ensures
            r@ == leading(self@, k as int),
    {
        proof {
            lemma_components(self@);
        }
        if k == 0 {
            let r = FilePath { bytes: Vec::new() };
            assert(r@ =~= seq![]);
            r
        } else {
            assert(ints(p.ends@)[k - 1] == p.ends@[k - 1] as int);
            FilePath::from_bytes(slice_subrange(self.bytes.as_slice(), 0, p.ends[k - 1]))
        }
    }

    /// The path without its last component. The root and the empty path have
    /// no parent.
    pub fn parent(&self) -> (r: Option<FilePath>)
        ensures
            match r {
                Some(p) => parent_of(self@) == Some(p@),
                None => parent_of(self@) is None,
            },
    {
        let p = self.parse();
        let n: usize = p.parts.len();
        assert(texts(p.parts@).len() == n);
        if n == 0 {
            return None;
        }
        if n == 1 {
            assert(texts(p.parts@)[0] == p.parts@[0]@);
            if p.parts[0].len() == 1 && p.parts[0][0] == SLASH {
                assert(p.parts@[0]@ =~= root_component());
                assert(components(self@) =~= seq![root_component()]);
                return None;
            }
            assert(components(self@)[0] != root_component());
        }
        Some(self.cut(&p, n - 1))
    }

    /// `self` followed by `name`.
    pub fn join(&self, name: &[u8]) -> (r: FilePath)
        ensures
            r@ == joined(self@, name@),
    {
        if name.len() > 0 && name[0] == SLASH {
            return FilePath::from_bytes(name);
        }
        let mut bytes: Vec<u8> = slice_to_vec(self.bytes.as_slice());
        if bytes.len() > 0 && bytes[bytes.len() - 1] != SLASH {
            bytes.push(SLASH);
        }
        let mut i: usize = 0;
        let ghost base = bytes@;
        assert(base + name@.take(0) =~= base);
        while i < name.len()
            invariant
                i <= name@.len(),
                bytes@ == base + name@.take(i as int),
            decreases name@.len() - i,
        {
            bytes.push(name[i]);
            assert(base + name@.take(i + 1) =~= (base + name@.take(i as int)).push(name@[i as int]));
            i = i + 1;
        }
        assert(name@.take(i as int) =~= name@);
        FilePath { bytes }
    }

    /// The last component, if it is an ordinary name.
    pub fn file_name(&self) -> (r: Option<Vec<u8>>)
        ensures
            match r {
                Some(n) => file_name_of(self@) == Some(n@),
                None => file_name_of(self@) is None,
            },
    {
        let mut p = self.parse();
        assert(texts(p.parts@).len() == p.parts@.len());
        let n: usize = p.parts.len();
        if n == 0 {
            return None;
        }
        assert(texts(p.parts@)[n - 1] == p.parts@[n - 1]@);
        if is_ordinary(&p.parts[n - 1]) {
            p.parts.pop()
        } else {
            None
        }
    }

    /// Whether `base` is this path or one of its ancestors.
    pub fn starts_with(&self, base: &FilePath) -> (r: bool)
        ensures
            r == is_under(self@, base@),
    {
        let p = self.parse();
        let b = base.parse();
        starts_with_parts(&p.parts, &b.parts)
    }

    /// The path from `base` to this path, if `base` is this path or one of its
    /// ancestors.
    pub fn strip_prefix(&self, base: &FilePath) -> (r: Option<FilePath>)
        ensures
            match r {
                Some(rest) => is_under(self@, base@) && rest@ == trailing(
                    self@,
                    components(base@).len() as int,
                ),
                None => !is_under(self@, base@),
            },
    {
        let p = self.parse();
        let b = base.parse();
        if !starts_with_parts(&p.parts, &b.parts) {
            return None;
        }
        let n: usize = p.parts.len();
        let k: usize = b.parts.len();
        assert(texts(p.parts@).len() == n);
        assert(texts(b.parts@).len() == k);
        if k >= n {
            let r = FilePath { bytes: Vec::new() };
            assert(r@ =~= seq![]);
            return Some(r);
        }
        proof {
            lemma_components(self@);
            assert(texts(p.parts@)[k as int] == p.parts@[k as int]@);
            assert(ints(p.ends@)[k as int] == p.ends@[k as int] as int);
            assert(ints(p.ends@)[n - 1] == p.ends@[n - 1] as int);
        }
        let from: usize = p.ends[k] - p.parts[k].len();
        Some(FilePath::from_bytes(slice_subrange(self.bytes.as_slice(), from, p.ends[n - 1])))
    }

    /// Whether the two paths have the same components.
    pub fn same_as(&self, other: &FilePath) -> (r: bool)
        ensures
            r == (components(self@) == components(other@)),
    {
        proof {
            path_order_linear(components(self@), components(other@));
        }
        match self.order(other) {
            Order::Equal => true,
            _ => false,
        }
    }

    /// How this path stands to another.
    pub fn order(&self, other: &FilePath) -> (o: Order)
        ensures
            o == path_order(components(self@), components(other@)),
    {
        let a = self.parse();
        let b = other.parse();
        order_parts(&a.parts, &b.parts)
    }
}

/// Whether one component list begins with another.
pub(crate) fn starts_with_parts(p: &Vec<Vec<u8>>, b: &Vec<Vec<u8>>) -> (r: bool)
    ensures
        r == (b@.len() <= p@.len() && texts(p@).take(b@.len() as int) == texts(b@)),
{
    if b.len() > p.len() {
        return false;
    }
    let mut i: usize = 0;
    while i < b.len()
        invariant
            i <= b@.len() <= p@.len(),
            forall|k: int| 0 <= k < i ==> texts(p@)[k] == #[trigger] texts(b@)[k],
        decreases b@.len() - i,
    {
        if !same_bytes(&p[i], &b[i]) {
            assert(texts(p@).take(b@.len() as int)[i as int] != texts(b@)[i as int]);
            return false;
        }
        i = i + 1;
    }
    assert(texts(p@).take(b@.len() as int) =~= texts(b@));
    true
}

impl PartialEq for FilePath {
    fn eq(&self, other: &Self) -> (r: bool) {
        self.same_as(other)
    }
}

impl vstd::std_specs::cmp::PartialEqSpecImpl for FilePath {
    open spec fn obeys_eq_spec() -> bool {
        true
    }

    open spec fn eq_spec(&self, other: &Self) -> bool {
        components(self@) == components(other@)
    }
}

impl Eq for FilePath {
}

/// Whether `name` can stand between slashes and counts there: it is not empty,
/// holds no slash and is not `.`.
pub open spec fn is_piece(name: Seq<u8>) -> bool {
    name.len() > 0 && !name.contains(47u8) && name != seq![46u8]
}

/// Bytes without a slash belong to the piece under way.
proof fn lemma_scan_piece(s: Seq<u8>, name: Seq<u8>)
    requires
        !name.contains(47u8),
    ensures
        scan(s + name).done == scan(s).done,
        scan(s + name).tail == scan(s).tail + name,
    decreases name.len(),
{
    if name.len() == 0 {
        assert(s + name =~= s);
        assert(scan(s).tail + name =~= scan(s).tail);
    } else {
        let rest = name.drop_last();
        assert(!rest.contains(47u8)) by {
            if rest.contains(47u8) {
                let k = choose|k: int| 0 <= k < rest.len() && rest[k] == 47u8;
                assert(name[k] == 47u8);
            }
        }
        lemma_scan_piece(s, rest);
        assert((s + name).drop_last() =~= s + rest);
        assert(name[name.len() - 1] == name.last());
        assert((s + name).last() == name.last());
        assert(scan(s + name).tail =~= scan(s).tail + name);
    }
}

/// The piece under way holds no slash.
proof fn lemma_scan_tail(s: Seq<u8>)
    ensures
        s.len() > 0 && s.last() == SLASH ==> scan(s).tail.len() == 0,
        s.len() > 0 && s.last() == SLASH ==> components(s) == scan(s).done,
{
}

/// The empty path has no components, and a path without slashes has itself as its
/// only one.
pub proof fn a_name_is_its_own_component(name: Seq<u8>)
    requires
        !name.contains(47u8),
    ensures
        name.len() == 0 ==> components(name) == Seq::<Seq<u8>>::empty(),
        name.len() > 0 ==> components(name) == seq![name],
{
    let none = Seq::<u8>::empty();
    lemma_scan_piece(none, name);
    assert(none + name =~= name);
    assert(scan(none).tail + name =~= name);
    if name.len() > 0 {
        assert(components(name) =~= seq![name]);
    }
}

/// A slash that starts a path is a component of its own.
pub proof fn a_leading_slash_is_the_root(name: Seq<u8>)
    requires
        is_piece(name),
    ensures
        components(seq![47u8]) == seq![seq![47u8]],
        components(seq![47u8] + name) == seq![seq![47u8], name],
{
    let slash = seq![47u8];
    assert(slash.drop_last() =~= Seq::<u8>::empty());
    assert(slash.last() == SLASH);
    assert(scan(slash).done == seq![root_component()]);
    assert(root_component() =~= seq![47u8]);
    lemma_scan_piece(slash, name);
    assert(scan(slash).tail + name =~= name);
    assert(cur_dir() =~= seq![46u8]);
    assert(components(slash + name) =~= seq![seq![47u8], name]);
}

/// A slash behind a path adds nothing.
pub proof fn a_trailing_slash_does_not_count(s: Seq<u8>)
    requires
        s.len() > 0,
    ensures
        components(s.push(47u8)) == components(s),
{
    let t = s.push(47u8);
    assert(t.drop_last() =~= s);
    assert(t.last() == SLASH);
    assert(components(t) =~= components(s));
}

/// A piece behind a path and a slash is one component more, whatever the path is.
pub proof fn a_piece_is_one_component_more(s: Seq<u8>, name: Seq<u8>)
    requires
        s.len() > 0,
        is_piece(name),
    ensures
        components(s.push(47u8) + name) == components(s).push(name),
{
    let t = s.push(47u8);
    a_trailing_slash_does_not_count(s);
    lemma_scan_tail(t);
    lemma_scan_piece(t, name);
    assert(scan(t).tail + name =~= name);
    assert(cur_dir() =~= seq![46u8]);
    assert(components(t + name) =~= components(s).push(name));
}

/// A `.` behind a path and a slash adds nothing.
pub proof fn a_dot_does_not_count(s: Seq<u8>)
    requires
        s.len() > 0,
        components(s).len() > 0,
    ensures
        components(s.push(47u8).push(46u8)) == components(s),
{
    let t = s.push(47u8);
    let dot = seq![46u8];
    a_trailing_slash_does_not_count(s);
    lemma_scan_tail(t);
    assert(!dot.contains(47u8));
    lemma_scan_piece(t, dot);
    assert(t + dot =~= s.push(47u8).push(46u8));
    assert(scan(t).tail + dot =~= dot);
    assert(cur_dir() =~= dot);
}

/// Joining a relative name of one piece to a path adds it as a component. An
/// absolute name takes the place of the path.
pub proof fn joining_adds_a_component(base: Seq<u8>, name: Seq<u8>)
    ensures
        is_piece(name) ==> components(joined(base, name)) == components(base).push(name),
        name.len() > 0 && name[0] == 47u8 ==> joined(base, name) == name,
{
    if is_piece(name) {
        if name[0] == SLASH {
            assert(name.contains(47u8));
        }
        if base.len() == 0 {
            a_name_is_its_own_component(base);
            a_name_is_its_own_component(name);
            assert(base + name =~= name);
            assert(components(base).push(name) =~= seq![name]);
        } else if base.last() != SLASH {
            a_piece_is_one_component_more(base, name);
        } else {
            lemma_scan_tail(base);
            lemma_scan_piece(base, name);
            assert(scan(base).tail + name =~= name);
            assert(cur_dir() =~= seq![46u8]);
            assert(base.len() == 1 ==> base =~= seq![47u8]);
            assert(components(base + name) =~= components(base).push(name));
        }
    }
}

/// The parent of a path has all its components but the last. Only the empty path
/// and the root have none.
pub proof fn the_parent_lacks_the_last_component(s: Seq<u8>)
    ensures
        parent_of(s) is None <==> components(s).len() == 0 || components(s) == seq![seq![47u8]],
        parent_of(s) is Some ==> components(parent_of(s)->0) == components(s).drop_last(),
        parent_of(s) is Some ==> parent_of(s)->0.len() <= s.len() && s.take(
            parent_of(s)->0.len() as int,
        ) == parent_of(s)->0,
{
    let c = components(s);
    assert(root_component() =~= seq![47u8]);
    lemma_components(s);
    if parent_of(s) is Some {
        lemma_leading(s, c.len() - 1);
        assert(c.take(c.len() - 1) =~= c.drop_last());
        if c.len() > 1 {
            assert(component_ends(s)[c.len() - 2] <= s.len());
            assert(component_ends(s)[c.len() - 2] >= components(s)[c.len() - 2].len());
        }
    }
}

/// The file name of a path is its last component, unless that is `/`, `.` or `..`.
pub proof fn the_name_is_the_last_component(s: Seq<u8>)
    ensures
        file_name_of(s) is Some ==> components(s).len() > 0 && file_name_of(s)->0 == components(
            s,
        ).last(),
        file_name_of(s) is None <==> components(s).len() == 0 || components(s).last() == seq![47u8]
            || components(s).last() == seq![46u8] || components(s).last() == seq![46u8, 46u8],
{
    assert(root_component() =~= seq![47u8]);
    assert(cur_dir() =~= seq![46u8]);
    assert(parent_dir() =~= seq![46u8, 46u8]);
}

/// Where the last dot of a name is.
proof fn lemma_last_dot(name: Seq<u8>)
    ensures
        -1 <= last_dot(name) < name.len(),
        last_dot(name) >= 0 ==> name[last_dot(name)] == 46u8,
        forall|k: int| last_dot(name) < k < name.len() ==> #[trigger] name[k] != 46u8,
    decreases name.len(),
{
    if name.len() > 0 && name.last() != DOT {
        lemma_last_dot(name.drop_last());
        assert forall|k: int| last_dot(name) < k < name.len() implies #[trigger] name[k]
            != 46u8 by {
            if k < name.len() - 1 {
                assert(name.drop_last()[k] == name[k]);
            }
        }
    }
}

/// A name is its stem, a dot and its extension, which holds no dot. It has no
/// extension just when no dot stands behind its first character, and is then all
/// stem.
pub proof fn a_name_is_stem_dot_extension(name: Seq<u8>)
    ensures
        extension_of(name) is Some ==> {
            let e = extension_of(name)->0;
            &&& name == stem_of(name).push(46u8) + e
            &&& !e.contains(46u8)
            &&& stem_of(name).len() > 0
        },
        extension_of(name) is None <==> forall|k: int| 0 < k < name.len() ==> name[k] != 46u8,
        extension_of(name) is None ==> stem_of(name) == name,
{
    lemma_last_dot(name);
    let d = last_dot(name);
    if d > 0 {
        let e = extension_of(name)->0;
        assert(name =~= stem_of(name).push(46u8) + e);
        assert(!e.contains(46u8)) by {
            if e.contains(46u8) {
                let k = choose|k: int| 0 <= k < e.len() && e[k] == 46u8;
                assert(name[d + 1 + k] == 46u8);
            }
        }
        assert(name[d] == 46u8);
    }
}

/// What follows the first components of a path, and the bytes before it, are the
/// path again, but for what stands between the two and behind the last component.
pub proof fn the_rest_follows_the_leading_components(s: Seq<u8>, k: int)
    requires
        0 <= k < components(s).len(),
    ensures
        trailing(s, k).len() >= components(s)[k].len(),
        trailing(s, k).take(components(s)[k].len() as int) == components(s)[k],
        trailing(s, k).skip(
            trailing(s, k).len() - components(s)[components(s).len() - 1].len(),
        ) == components(s)[components(s).len() - 1],
        exists|i: int|
            0 <= i <= s.len() - trailing(s, k).len() && #[trigger] s.subrange(
                i,
                i + trailing(s, k).len(),
            ) == trailing(s, k) && i >= leading(s, k).len(),
{
    lemma_components(s);
    let n = components(s).len() as int;
    let a = component_ends(s)[k] - components(s)[k].len();
    let b = component_ends(s)[n - 1];
    let t = trailing(s, k);
    assert(component_ends(s)[k] <= b) by {
        if k < n - 1 {
            assert(component_ends(s)[k] < component_ends(s)[n - 1]);
        }
    }
    assert(t.take(components(s)[k].len() as int) =~= s.subrange(a, component_ends(s)[k]));
    if k > 0 {
        lemma_starts(s, k);
    }
    assert(b - components(s)[n - 1].len() >= a) by {
        if k < n - 1 {
            lemma_starts(s, n - 1);
            if k < n - 2 {
                assert(component_ends(s)[k] < component_ends(s)[n - 2]);
            }
        }
    }
    assert(t.skip(t.len() - components(s)[n - 1].len()) =~= s.subrange(
        b - components(s)[n - 1].len(),
        b,
    ));
    assert(s.subrange(a, a + t.len()) =~= t);
    assert(a >= leading(s, k).len()) by {
        if k > 0 {
            assert(component_ends(s)[k - 1] <= s.len());
            assert(component_ends(s)[k - 1] >= components(s)[k - 1].len());
        }
    }
}

/// A component starts behind the one before it.
proof fn lemma_starts(s: Seq<u8>, k: int)
    requires
        0 < k < components(s).len(),
    ensures
        component_ends(s)[k - 1] <= component_ends(s)[k] - components(s)[k].len(),
    decreases s.len(),
{
    lemma_scan(s);
    lemma_components(s);
    let p = scan(s);
    if k == p.done.len() {
        assert(component_ends(s)[k] == s.len());
        assert(p.ends[k - 1] <= s.len() - p.tail.len());
    } else {
        let t = s.drop_last();
        lemma_scan(t);
        lemma_components(t);
        if s.last() != SLASH {
            assert(p.done == scan(t).done && p.ends == scan(t).ends);
        }
        assert(k < p.done.len());
        if k < components(t).len() {
            assert(components(t)[k] == p.done[k] && component_ends(t)[k] == p.ends[k]);
            assert(component_ends(t)[k - 1] == p.ends[k - 1]);
            lemma_starts(t, k);
        }
    }
}

/// No component but the root holds a slash, and `.` is one only where it starts a
/// path.
pub proof fn components_hold_no_slash(s: Seq<u8>)
    ensures
        forall|j: int|
            0 <= j < components(s).len() ==> (#[trigger] components(s)[j]) == seq![47u8]
                || !components(s)[j].contains(47u8),
        forall|j: int| 0 < j < components(s).len() ==> #[trigger] components(s)[j] != seq![46u8],
{
    lemma_scan_slashes(s);
    let p = scan(s);
    assert(cur_dir() =~= seq![46u8]);
    if p.keeps_tail() {
        assert forall|j: int| 0 <= j < components(s).len() implies (#[trigger] components(s)[j])
            == seq![47u8] || !components(s)[j].contains(47u8) by {
            if j < p.done.len() {
                assert(components(s)[j] == p.done[j]);
            }
        }
        assert forall|j: int| 0 < j < components(s).len() implies #[trigger] components(s)[j]
            != seq![46u8] by {
            if j < p.done.len() {
                assert(components(s)[j] == p.done[j]);
            }
        }
    }
}

/// What a reading of `s` never takes for a component.
proof fn lemma_scan_slashes(s: Seq<u8>)
    ensures
        !scan(s).tail.contains(47u8),
        forall|j: int|
            0 <= j < scan(s).done.len() ==> (#[trigger] scan(s).done[j]) == seq![47u8]
                || !scan(s).done[j].contains(47u8),
        forall|j: int| 0 < j < scan(s).done.len() ==> #[trigger] scan(s).done[j] != seq![46u8],
    decreases s.len(),
{
    if s.len() > 0 {
        let p = scan(s.drop_last());
        let q = scan(s);
        lemma_scan_slashes(s.drop_last());
        assert(cur_dir() =~= seq![46u8]);
        assert(root_component() =~= seq![47u8]);
        assert(!q.tail.contains(47u8)) by {
            if q.tail.contains(47u8) {
                let k = choose|k: int| 0 <= k < q.tail.len() && q.tail[k] == 47u8;
                if k < p.tail.len() {
                    assert(p.tail[k] == 47u8);
                }
            }
        }
        assert forall|j: int| 0 <= j < q.done.len() implies (#[trigger] q.done[j]) == seq![47u8]
            || !q.done[j].contains(47u8) by {
            if j < p.done.len() && s.len() > 1 {
                assert(q.done[j] == p.done[j]);
            }
        }
        assert forall|j: int| 0 < j < q.done.len() implies #[trigger] q.done[j] != seq![46u8] by {
            if j < p.done.len() {
                assert(q.done[j] == p.done[j]);
            }
        }
    }
}

/// A path lies under another just when its components go on from those of the other.
pub proof fn paths_go_on_from_what_holds_them(s: Seq<u8>, base: Seq<u8>)
    ensures
        is_under(s, base) <==> exists|rest: Seq<Seq<u8>>|
            components(s) == #[trigger] (components(base) + rest),
{
    let (c, b) = (components(s), components(base));
    if is_under(s, base) {
        let rest = c.skip(b.len() as int);
        assert(c =~= b + rest);
    }
    if exists|rest: Seq<Seq<u8>>| c == #[trigger] (b + rest) {
        let rest = choose|rest: Seq<Seq<u8>>| c == #[trigger] (b + rest);
        assert(c.take(b.len() as int) =~= b);
    }
}

/// The first components of a path are cut off just behind the last of them.
pub proof fn paths_are_cut_behind_a_component(s: Seq<u8>, k: int)
    requires
        0 < k <= components(s).len(),
    ensures
        leading(s, k).len() <= s.len(),
        s.take(leading(s, k).len() as int) == leading(s, k),
        components(leading(s, k)) == components(s).take(k),
        components(s)[k - 1].len() <= leading(s, k).len(),
        leading(s, k).skip(leading(s, k).len() - components(s)[k - 1].len()) == components(s)[k
            - 1],
        leading(s, 0).len() == 0,
{
    lemma_components(s);
    lemma_leading(s, k);
    let end = component_ends(s)[k - 1];
    let n = components(s)[k - 1].len() as int;
    assert(n <= end <= s.len());
    assert(leading(s, k).skip(end - n) =~= s.subrange(end - n, end));
}

/// Joining puts a relative name behind the path, with one slash between them unless
/// the path is empty or ends with one. An absolute one stands for itself.
pub proof fn joining_puts_one_slash_between(base: Seq<u8>, name: Seq<u8>)
    ensures
        name.len() > 0 && name[0] == 47u8 ==> joined(base, name) == name,
        name.len() == 0 || name[0] != 47u8 ==> {
            &&& base.len() > 0 && base.last() != 47u8 ==> joined(base, name) == base.push(47u8)
                + name
            &&& base.len() == 0 || base.last() == 47u8 ==> joined(base, name) == base + name
        },
{
}

} // verus!
