//! The orders in which byte strings, path components and paths stand.

use vstd::prelude::*;
use crate::sorting::Ranked;

verus! {

/// How one value stands to another.
#[derive(Debug, Clone, Copy, PartialEq, Eq, Structural)]
pub enum Order {
    Less,
    Equal,
    Greater,
}

/// The lexicographic order of byte strings.
pub open spec fn bytes_order(a: Seq<u8>, b: Seq<u8>) -> Order
    decreases a.len(),
{
    if a.len() == 0 {
        if b.len() == 0 {
            Order::Equal
        } else {
            Order::Less
        }
    } else if b.len() == 0 {
        Order::Greater
    } else if a[0] < b[0] {
        Order::Less
    } else if a[0] > b[0] {
        Order::Greater
    } else {
        bytes_order(a.drop_first(), b.drop_first())
    }
}

/// The rank of a component's kind: the root, then `.`, then `..`, then names.
pub open spec fn component_rank(c: Seq<u8>) -> int {
    if c == crate::paths::root_component() {
        0
    } else if c == crate::paths::cur_dir() {
        1
    } else if c == crate::paths::parent_dir() {
        2
    } else {
        3
    }
}

/// The order of path components: by kind, and names by their bytes.
pub open spec fn component_order(a: Seq<u8>, b: Seq<u8>) -> Order {
    if component_rank(a) < component_rank(b) {
        Order::Less
    } else if component_rank(a) > component_rank(b) {
        Order::Greater
    } else {
        bytes_order(a, b)
    }
}

/// The lexicographic order of component lists.
pub open spec fn path_order(a: Seq<Seq<u8>>, b: Seq<Seq<u8>>) -> Order
    decreases a.len(),
{
    if a.len() == 0 {
        if b.len() == 0 {
            Order::Equal
        } else {
            Order::Less
        }
    } else if b.len() == 0 {
        Order::Greater
    } else {
        match component_order(a[0], b[0]) {
            Order::Equal => path_order(a.drop_first(), b.drop_first()),
            o => o,
        }
    }
}

/// The opposite order.
pub open spec fn flipped(o: Order) -> Order {
    match o {
        Order::Less => Order::Greater,
        Order::Equal => Order::Equal,
        Order::Greater => Order::Less,
    }
}

/// Byte strings are ordered linearly: only equal ones tie.
pub proof fn bytes_order_linear(a: Seq<u8>, b: Seq<u8>)
    ensures
        bytes_order(b, a) == flipped(bytes_order(a, b)),
        bytes_order(a, b) == Order::Equal <==> a == b,
    decreases a.len(),
{
    if a.len() > 0 && b.len() > 0 {
        bytes_order_linear(a.drop_first(), b.drop_first());
        if a[0] == b[0] {
            assert(a =~= seq![a[0]] + a.drop_first());
            assert(b =~= seq![b[0]] + b.drop_first());
        }
    } else {
        assert(a.len() == b.len() ==> a =~= b);
    }
}

/// The order of byte strings is transitive.
pub proof fn bytes_order_transitive(a: Seq<u8>, b: Seq<u8>, c: Seq<u8>)
    requires
        bytes_order(a, b) != Order::Greater,
        bytes_order(b, c) != Order::Greater,
    ensures
        bytes_order(a, c) != Order::Greater,
        bytes_order(a, c) == Order::Equal ==> bytes_order(a, b) == Order::Equal,
    decreases a.len(),
{
    bytes_order_linear(a, b);
    bytes_order_linear(b, c);
    bytes_order_linear(a, c);
    if a.len() > 0 && b.len() > 0 && c.len() > 0 {
        if a[0] == b[0] && b[0] == c[0] {
            bytes_order_transitive(a.drop_first(), b.drop_first(), c.drop_first());
        }
    }
}

/// Components are ordered linearly: only equal ones tie.
pub proof fn component_order_linear(a: Seq<u8>, b: Seq<u8>)
    ensures
        component_order(b, a) == flipped(component_order(a, b)),
        component_order(a, b) == Order::Equal <==> a == b,
{
    bytes_order_linear(a, b);
}

/// The order of components is transitive.
pub proof fn component_order_transitive(a: Seq<u8>, b: Seq<u8>, c: Seq<u8>)
    requires
        component_order(a, b) != Order::Greater,
        component_order(b, c) != Order::Greater,
    ensures
        component_order(a, c) != Order::Greater,
        component_order(a, c) == Order::Equal ==> component_order(a, b) == Order::Equal,
{
    component_order_linear(a, b);
    component_order_linear(b, c);
    component_order_linear(a, c);
    if component_rank(a) == component_rank(b) && component_rank(b) == component_rank(c) {
        bytes_order_transitive(a, b, c);
    }
}

/// Paths are ordered linearly: only paths with the same components tie.
pub proof fn path_order_linear(a: Seq<Seq<u8>>, b: Seq<Seq<u8>>)
    ensures
        path_order(b, a) == flipped(path_order(a, b)),
        path_order(a, b) == Order::Equal <==> a == b,
    decreases a.len(),
{
    if a.len() > 0 && b.len() > 0 {
        component_order_linear(a[0], b[0]);
        path_order_linear(a.drop_first(), b.drop_first());
        if a[0] == b[0] {
            assert(a =~= seq![a[0]] + a.drop_first());
            assert(b =~= seq![b[0]] + b.drop_first());
        }
    } else {
        assert(a.len() == b.len() ==> a =~= b);
    }
}

/// The order of paths is transitive.
pub proof fn path_order_transitive(a: Seq<Seq<u8>>, b: Seq<Seq<u8>>, c: Seq<Seq<u8>>)
    requires
        path_order(a, b) != Order::Greater,
        path_order(b, c) != Order::Greater,
    ensures
        path_order(a, c) != Order::Greater,
        path_order(a, c) == Order::Equal ==> path_order(a, b) == Order::Equal,
    decreases a.len(),
{
    path_order_linear(a, b);
    path_order_linear(b, c);
    path_order_linear(a, c);
    if a.len() > 0 && b.len() > 0 && c.len() > 0 {
        component_order_linear(a[0], b[0]);
        component_order_linear(b[0], c[0]);
        component_order_linear(a[0], c[0]);
        component_order_transitive(a[0], b[0], c[0]);
        if a[0] == b[0] && b[0] == c[0] {
            path_order_transitive(a.drop_first(), b.drop_first(), c.drop_first());
        }
    }
}

/// Compares two byte strings.
pub fn order_bytes(a: &[u8], b: &[u8]) -> (o: Order)
    ensures
        o == bytes_order(a@, b@),
{
    let mut i: usize = 0;
    assert(a@.skip(0) =~= a@);
    assert(b@.skip(0) =~= b@);
    while i < a.len() && i < b.len()
        invariant
            i <= a@.len(),
            i <= b@.len(),
            bytes_order(a@, b@) == bytes_order(a@.skip(i as int), b@.skip(i as int)),
        decreases a@.len() - i,
    {
        if a[i] < b[i] {
            return Order::Less;
        }
        if a[i] > b[i] {
            return Order::Greater;
        }
        assert(a@.skip(i as int).drop_first() =~= a@.skip(i + 1));
        assert(b@.skip(i as int).drop_first() =~= b@.skip(i + 1));
        i = i + 1;
    }
    if i < b.len() {
        Order::Less
    } else if i < a.len() {
        Order::Greater
    } else {
        Order::Equal
    }
}

/// Whether two byte strings are equal.
pub fn same_bytes(a: &[u8], b: &[u8]) -> (r: bool)
    ensures
        r == (a@ == b@),
{
    proof {
        bytes_order_linear(a@, b@);
    }
    match order_bytes(a, b) {
        Order::Equal => true,
        _ => false,
    }
}

/// The rank of a component's kind.
fn rank(c: &[u8]) -> (r: u8)
    ensures
        r == component_rank(c@),
{
    if c.len() == 1 && c[0] == crate::paths::SLASH {
        assert(c@ =~= crate::paths::root_component());
        0
    } else if c.len() == 1 && c[0] == crate::paths::DOT {
        assert(c@ =~= crate::paths::cur_dir());
        1
    } else if c.len() == 2 && c[0] == crate::paths::DOT && c[1] == crate::paths::DOT {
        assert(c@ =~= crate::paths::parent_dir());
        2
    } else {
        3
    }
}

/// Compares two components.
fn order_components(a: &[u8], b: &[u8]) -> (o: Order)
    ensures
        o == component_order(a@, b@),
{
    let ra = rank(a);
    let rb = rank(b);
    if ra < rb {
        Order::Less
    } else if ra > rb {
        Order::Greater
    } else {
        order_bytes(a, b)
    }
}

/// The components of a parsed path as byte strings.
pub open spec fn texts(parts: Seq<Vec<u8>>) -> Seq<Seq<u8>> {
    Seq::new(parts.len(), |i: int| parts[i]@)
}

/// Compares two component lists.
pub fn order_parts(a: &Vec<Vec<u8>>, b: &Vec<Vec<u8>>) -> (o: Order)
    ensures
        o == path_order(texts(a@), texts(b@)),
{
    let ghost x = texts(a@);
    let ghost y = texts(b@);
    let mut i: usize = 0;
    assert(x.skip(0) =~= x);
    assert(y.skip(0) =~= y);
    while i < a.len() && i < b.len()
        invariant
            x == texts(a@),
            y == texts(b@),
            i <= a@.len(),
            i <= b@.len(),
            path_order(x, y) == path_order(x.skip(i as int), y.skip(i as int)),
        decreases a@.len() - i,
    {
        match order_components(&a[i], &b[i]) {
            Order::Less => {
                return Order::Less;
            },
            Order::Greater => {
                return Order::Greater;
            },
            Order::Equal => {},
        }
        assert(x.skip(i as int).drop_first() =~= x.skip(i + 1));
        assert(y.skip(i as int).drop_first() =~= y.skip(i + 1));
        i = i + 1;
    }
    if i < b.len() {
        Order::Less
    } else if i < a.len() {
        Order::Greater
    } else {
        Order::Equal
    }
}

impl Ranked for Vec<u8> {
    open spec fn le(&self, other: &Self) -> bool {
        bytes_order(self@, other@) != Order::Greater
    }

    proof fn le_total(a: &Self, b: &Self) {
        bytes_order_linear(a@, b@);
    }

    proof fn le_transitive(a: &Self, b: &Self, c: &Self) {
        bytes_order_transitive(a@, b@, c@);
    }

    fn at_most(&self, other: &Self) -> (r: bool) {
        match order_bytes(self, other) {
            Order::Greater => false,
            _ => true,
        }
    }
}

/// A parsed path, ranked as paths are.
pub struct PathKey {
    pub parts: Vec<Vec<u8>>,
}

impl Ranked for PathKey {
    open spec fn le(&self, other: &Self) -> bool {
        path_order(texts(self.parts@), texts(other.parts@)) != Order::Greater
    }

    proof fn le_total(a: &Self, b: &Self) {
        path_order_linear(texts(a.parts@), texts(b.parts@));
    }

    proof fn le_transitive(a: &Self, b: &Self, c: &Self) {
        path_order_transitive(texts(a.parts@), texts(b.parts@), texts(c.parts@));
    }

    fn at_most(&self, other: &Self) -> (r: bool) {
        match order_parts(&self.parts, &other.parts) {
            Order::Greater => false,
            _ => true,
        }
    }
}

/// A number, ranked with the largest first.
pub struct Largest {
    pub value: u64,
}

impl Ranked for Largest {
    open spec fn le(&self, other: &Self) -> bool {
        self.value >= other.value
    }

    proof fn le_total(a: &Self, b: &Self) {
    }

    proof fn le_transitive(a: &Self, b: &Self, c: &Self) {
    }

    fn at_most(&self, other: &Self) -> (r: bool) {
        self.value >= other.value
    }
}

/// A byte string comes before another just when it ends, or has the lower byte, at
/// the first place where they differ.
pub proof fn bytes_go_by_the_first_difference(a: Seq<u8>, b: Seq<u8>)
    ensures
        bytes_order(a, b) == Order::Less <==> exists|k: int|
            0 <= k <= a.len() && k < b.len() && #[trigger] a.take(k) == b.take(k) && (k == a.len()
                || a[k] < b[k]),
    decreases a.len(),
{
    if a.len() == 0 {
        if b.len() > 0 {
            assert(a.take(0) =~= b.take(0));
        }
    } else if b.len() > 0 {
        let (x, y) = (a.drop_first(), b.drop_first());
        bytes_go_by_the_first_difference(x, y);
        if a[0] < b[0] {
            assert(a.take(0) =~= b.take(0));
        } else if a[0] > b[0] {
            assert forall|k: int|
                0 <= k <= a.len() && k < b.len() && #[trigger] a.take(k) == b.take(k) implies !(k
                == a.len() || a[k] < b[k]) by {
                if k > 0 {
                    assert(a.take(k)[0] == b.take(k)[0]);
                }
            }
        } else {
            if bytes_order(x, y) == Order::Less {
                let k = choose|k: int|
                    0 <= k <= x.len() && k < y.len() && #[trigger] x.take(k) == y.take(k) && (k
                        == x.len() || x[k] < y[k]);
                assert(a.take(k + 1) =~= seq![a[0]] + x.take(k));
                assert(b.take(k + 1) =~= seq![b[0]] + y.take(k));
                assert(a.take(k + 1) == b.take(k + 1));
            }
            if exists|k: int|
                0 <= k <= a.len() && k < b.len() && #[trigger] a.take(k) == b.take(k) && (k
                    == a.len() || a[k] < b[k]) {
                let k = choose|k: int|
                    0 <= k <= a.len() && k < b.len() && #[trigger] a.take(k) == b.take(k) && (k
                        == a.len() || a[k] < b[k]);
                assert(k > 0);
                assert(x.take(k - 1) =~= a.take(k).drop_first());
                assert(y.take(k - 1) =~= b.take(k).drop_first());
                assert(x.take(k - 1) == y.take(k - 1));
            }
        }
    }
}

/// Among components `/` comes first, then `.`, then `..`, then all names, which go
/// by their bytes.
pub proof fn components_go_by_their_kind(a: Seq<u8>, b: Seq<u8>)
    ensures
        a == seq![47u8] && b != a ==> component_order(a, b) == Order::Less,
        a == seq![46u8] && b != a && b != seq![47u8] ==> component_order(a, b) == Order::Less,
        a == seq![46u8, 46u8] && b != a && b != seq![47u8] && b != seq![46u8] ==> component_order(
            a,
            b,
        ) == Order::Less,
        a != seq![47u8] && a != seq![46u8] && a != seq![46u8, 46u8] && b != seq![47u8] && b != seq![
            46u8,
        ] && b != seq![46u8, 46u8] ==> component_order(a, b) == bytes_order(a, b),
{
    let (one, two) = (seq![47u8], seq![46u8]);
    assert(one[0] != two[0]);
    assert(seq![46u8, 46u8].len() == 2);
}

/// A path comes before another just when it ends, or has the component that comes
/// first, where they differ first.
pub proof fn paths_go_by_the_first_difference(a: Seq<Seq<u8>>, b: Seq<Seq<u8>>)
    ensures
        path_order(a, b) == Order::Less <==> exists|k: int|
            0 <= k <= a.len() && k < b.len() && #[trigger] a.take(k) == b.take(k) && (k == a.len()
                || component_order(a[k], b[k]) == Order::Less),
    decreases a.len(),
{
    if a.len() == 0 {
        if b.len() > 0 {
            assert(a.take(0) =~= b.take(0));
        }
    } else if b.len() > 0 {
        let (x, y) = (a.drop_first(), b.drop_first());
        paths_go_by_the_first_difference(x, y);
        component_order_linear(a[0], b[0]);
        if a[0] != b[0] {
            assert(a.take(0) =~= b.take(0));
            assert forall|k: int|
                0 < k <= a.len() && k < b.len() implies #[trigger] a.take(k) != b.take(k) by {
                assert(a.take(k)[0] == a[0] && b.take(k)[0] == b[0]);
            }
        } else {
            if path_order(x, y) == Order::Less {
                let k = choose|k: int|
                    0 <= k <= x.len() && k < y.len() && #[trigger] x.take(k) == y.take(k) && (k
                        == x.len() || component_order(x[k], y[k]) == Order::Less);
                assert(a.take(k + 1) =~= seq![a[0]] + x.take(k));
                assert(b.take(k + 1) =~= seq![b[0]] + y.take(k));
                assert(a.take(k + 1) == b.take(k + 1));
            }
            if exists|k: int|
                0 <= k <= a.len() && k < b.len() && #[trigger] a.take(k) == b.take(k) && (k
                    == a.len() || component_order(a[k], b[k]) == Order::Less) {
                let k = choose|k: int|
                    0 <= k <= a.len() && k < b.len() && #[trigger] a.take(k) == b.take(k) && (k
                        == a.len() || component_order(a[k], b[k]) == Order::Less);
                assert(k > 0);
                assert(x.take(k - 1) =~= a.take(k).drop_first());
                assert(y.take(k - 1) =~= b.take(k).drop_first());
                assert(x.take(k - 1) == y.take(k - 1));
            }
        }
    }
}

} // verus!
