//! Numbers and names as text.

use vstd::prelude::*;
use vstd::utf8::valid_utf8;

verus! {

/// The decimal digits of `v`, the most significant first.
pub open spec fn digits(v: nat) -> Seq<u8>
    decreases v,
{
    if v < 10 {
        seq![v as u8]
    } else {
        digits(v / 10).push((v % 10) as u8)
    }
}

/// `d` with leading zeros up to `width` digits.
pub open spec fn zero_padded(d: Seq<u8>, width: nat) -> Seq<u8> {
    if d.len() < width {
        Seq::new((width - d.len()) as nat, |i: int| 0u8) + d
    } else {
        d
    }
}

/// The lower-case hexadecimal digit of a value below sixteen.
pub open spec fn digit_char(d: u8) -> char {
    if d < 10 {
        (48 + d) as char
    } else {
        (87 + d) as char
    }
}

/// Digits as characters.
pub open spec fn digit_chars(d: Seq<u8>) -> Seq<char> {
    Seq::new(d.len(), |i: int| digit_char(d[i]))
}

/// Decimal digits as ASCII bytes.
pub open spec fn digit_bytes(d: Seq<u8>) -> Seq<u8> {
    Seq::new(d.len(), |i: int| (48 + d[i]) as u8)
}

/// The decimal digits of `v`.
pub fn digits_of(v: u64) -> (r: Vec<u8>)
    ensures
        r@ == digits(v as nat),
        forall|i: int| 0 <= i < r@.len() ==> #[trigger] r@[i] < 10,
    decreases v,
{
    if v < 10 {
        let mut r: Vec<u8> = Vec::new();
        r.push(v as u8);
        assert(r@ =~= digits(v as nat));
        r
    } else {
        let mut r = digits_of(v / 10);
        r.push((v % 10) as u8);
        r
    }
}

/// Appends one hexadecimal digit.
fn push_digit(out: &mut String, d: u8)
    requires
        d < 16,
    ensures
        final(out)@ == old(out)@.push(digit_char(d)),
{
    let text: &str = match d {
        0 => "0",
        1 => "1",
        2 => "2",
        3 => "3",
        4 => "4",
        5 => "5",
        6 => "6",
        7 => "7",
        8 => "8",
        9 => "9",
        10 => "a",
        11 => "b",
        12 => "c",
        13 => "d",
        14 => "e",
        _ => "f",
    };
    proof {
        reveal_strlit("0");
        reveal_strlit("1");
        reveal_strlit("2");
        reveal_strlit("3");
        reveal_strlit("4");
        reveal_strlit("5");
        reveal_strlit("6");
        reveal_strlit("7");
        reveal_strlit("8");
        reveal_strlit("9");
        reveal_strlit("a");
        reveal_strlit("b");
        reveal_strlit("c");
        reveal_strlit("d");
        reveal_strlit("e");
        reveal_strlit("f");
    }
    assert(text@ =~= seq![digit_char(d)]);
    out.append(text);
    assert(out@ =~= old(out)@.push(digit_char(d)));
}

/// Appends digits.
pub fn push_digits(out: &mut String, d: &Vec<u8>)
    requires
        forall|i: int| 0 <= i < d@.len() ==> #[trigger] d@[i] < 16,
    ensures
        final(out)@ == old(out)@ + digit_chars(d@),
{
    let mut i: usize = 0;
    assert(out@ =~= old(out)@ + digit_chars(d@.take(0)));
    while i < d.len()
        invariant
            i <= d@.len(),
            forall|k: int| 0 <= k < d@.len() ==> #[trigger] d@[k] < 16,
            out@ == old(out)@ + digit_chars(d@.take(i as int)),
        decreases d@.len() - i,
    {
        push_digit(out, d[i]);
        i = i + 1;
        assert(out@ =~= old(out)@ + digit_chars(d@.take(i as int)));
    }
    assert(d@.take(i as int) =~= d@);
}

/// Appends a number with leading zeros up to `width` digits.
pub fn push_padded(out: &mut String, v: u64, width: usize)
    ensures
        final(out)@ == old(out)@ + digit_chars(zero_padded(digits(v as nat), width as nat)),
{
    let d = digits_of(v);
    let mut all: Vec<u8> = Vec::new();
    let mut n: usize = d.len();
    while n < width
        invariant
            d@.len() <= n,
            n <= width || n == d@.len(),
            all@ =~= Seq::new((n - d@.len()) as nat, |i: int| 0u8),
        decreases width - n,
    {
        all.push(0);
        n = n + 1;
    }
    let ghost zeros = all@;
    let mut i: usize = 0;
    while i < d.len()
        invariant
            i <= d@.len(),
            all@ =~= zeros + d@.take(i as int),
            forall|k: int| 0 <= k < d@.len() ==> #[trigger] d@[k] < 10,
            forall|k: int| 0 <= k < all@.len() ==> #[trigger] all@[k] < 10,
        decreases d@.len() - i,
    {
        all.push(d[i]);
        i = i + 1;
    }
    assert(all@ =~= zero_padded(d@, width as nat));
    push_digits(out, &all);
}

/// The two hexadecimal digits of a byte.
pub open spec fn hex_of(b: u8) -> Seq<char> {
    seq![digit_char(b / 16), digit_char(b % 16)]
}

/// The hexadecimal digits of a byte string.
pub open spec fn hex(s: Seq<u8>) -> Seq<char>
    decreases s.len(),
{
    if s.len() == 0 {
        seq![]
    } else {
        hex(s.drop_last()) + hex_of(s.last())
    }
}

/// Appends the two hexadecimal digits of a byte.
pub fn push_hex(out: &mut String, b: u8)
    ensures
        final(out)@ == old(out)@ + hex_of(b),
{
    push_digit(out, b / 16);
    push_digit(out, b % 16);
    assert(out@ =~= old(out)@ + hex_of(b));
}

/// Appends the decimal digits of a number as bytes.
pub fn push_decimal(out: &mut Vec<u8>, v: u64)
    ensures
        final(out)@ == old(out)@ + digit_bytes(digits(v as nat)),
{
    let d = digits_of(v);
    let mut i: usize = 0;
    assert(out@ =~= old(out)@ + digit_bytes(d@.take(0)));
    while i < d.len()
        invariant
            i <= d@.len(),
            forall|k: int| 0 <= k < d@.len() ==> #[trigger] d@[k] < 10,
            out@ == old(out)@ + digit_bytes(d@.take(i as int)),
        decreases d@.len() - i,
    {
        out.push(48 + d[i]);
        i = i + 1;
        assert(out@ =~= old(out)@ + digit_bytes(d@.take(i as int)));
    }
    assert(d@.take(i as int) =~= d@);
}

/// Appends a byte string.
pub fn push_bytes(out: &mut Vec<u8>, s: &[u8])
    ensures
        final(out)@ == old(out)@ + s@,
{
    let mut i: usize = 0;
    assert(out@ =~= old(out)@ + s@.take(0));
    while i < s.len()
        invariant
            i <= s@.len(),
            out@ == old(out)@ + s@.take(i as int),
        decreases s@.len() - i,
    {
        out.push(s[i]);
        i = i + 1;
        assert(out@ =~= old(out)@ + s@.take(i as int));
    }
    assert(s@.take(i as int) =~= s@);
}

/// Whether `a` comes before `b`: where they differ first, it ends or has the lower
/// character.
pub open spec fn comes_before(a: Seq<char>, b: Seq<char>) -> bool {
    exists|k: int|
        0 <= k <= a.len() && k < b.len() && #[trigger] a.take(k) == b.take(k) && (k == a.len()
            || a[k] < b[k])
}

/// Texts that start alike, or with parts of one length the first of which comes
/// before the other.
pub proof fn lemma_comes_before(p: Seq<char>, q: Seq<char>, x: Seq<char>, y: Seq<char>)
    requires
        p.len() == q.len(),
        comes_before(p, q) || p == q && comes_before(x, y),
    ensures
        comes_before(p + x, q + y),
{
    if comes_before(p, q) {
        let k = choose|k: int|
            0 <= k <= p.len() && k < q.len() && #[trigger] p.take(k) == q.take(k) && (k == p.len()
                || p[k] < q[k]);
        assert((p + x).take(k) =~= p.take(k));
        assert((q + y).take(k) =~= q.take(k));
        assert((p + x).take(k) == (q + y).take(k));
    } else {
        let k = choose|k: int|
            0 <= k <= x.len() && k < y.len() && #[trigger] x.take(k) == y.take(k) && (k == x.len()
                || x[k] < y[k]);
        let m = p.len() + k;
        assert((p + x).take(m) =~= p + x.take(k));
        assert((q + y).take(m) =~= q + y.take(k));
        assert((p + x).take(m) == (q + y).take(m));
    }
}

/// Whether every character is a decimal digit.
pub open spec fn all_digits(s: Seq<char>) -> bool {
    forall|i: int| 0 <= i < s.len() ==> '0' <= #[trigger] s[i] <= '9'
}

/// Numbers with two digits, written out.
pub proof fn lemma_two_places(v: nat)
    requires
        v < 100,
    ensures
        digit_chars(zero_padded(digits(v), 2)) == seq![
            digit_char((v / 10) as u8),
            digit_char((v % 10) as u8),
        ],
        all_digits(digit_chars(zero_padded(digits(v), 2))),
{
    reveal_with_fuel(digits, 3);
    assert(zero_padded(digits(v), 2) =~= seq![(v / 10) as u8, (v % 10) as u8]);
    assert(digit_chars(zero_padded(digits(v), 2)) =~= seq![
        digit_char((v / 10) as u8),
        digit_char((v % 10) as u8),
    ]);
}

/// Numbers with four digits, written out.
pub proof fn lemma_four_places(v: nat)
    requires
        v < 10000,
    ensures
        digit_chars(zero_padded(digits(v), 4)) == seq![
            digit_char((v / 1000) as u8),
            digit_char((v / 100 % 10) as u8),
            digit_char((v / 10 % 10) as u8),
            digit_char((v % 10) as u8),
        ],
        all_digits(digit_chars(zero_padded(digits(v), 4))),
{
    reveal_with_fuel(digits, 5);
    assert(v / 10 / 10 == v / 100);
    assert(v / 100 / 10 == v / 1000);
    assert(zero_padded(digits(v), 4) =~= seq![
        (v / 1000) as u8,
        (v / 100 % 10) as u8,
        (v / 10 % 10) as u8,
        (v % 10) as u8,
    ]);
    assert(digit_chars(zero_padded(digits(v), 4)) =~= seq![
        digit_char((v / 1000) as u8),
        digit_char((v / 100 % 10) as u8),
        digit_char((v / 10 % 10) as u8),
        digit_char((v % 10) as u8),
    ]);
}

/// `s` with each part that is not valid UTF-8 replaced by U+FFFD: what
/// `String::from_utf8_lossy` makes of it.
pub uninterp spec fn utf8_lossy(s: Seq<u8>) -> Seq<u8>;

/// Calls `String::from_utf8_lossy`, and gives the bytes of the text. The result
/// depends on `s` alone, and a valid UTF-8 string is kept as it is.
#[verifier::external_body]
pub(crate) fn lossy(s: &[u8]) -> (r: Vec<u8>)
    ensures
        r@ == utf8_lossy(s@),
        valid_utf8(s@) ==> r@ == s@,
{
    String::from_utf8_lossy(s).into_owned().into_bytes()
}

/// The number that decimal digits spell, the most significant first.
pub open spec fn number_of(d: Seq<u8>) -> nat
    decreases d.len(),
{
    if d.len() == 0 {
        0
    } else {
        10 * number_of(d.drop_last()) + d.last() as nat
    }
}

/// The digits of a number spell it, and no zero leads but in 0 itself.
pub proof fn digits_spell_the_number(v: nat)
    ensures
        number_of(digits(v)) == v,
        digits(v).len() > 0,
        forall|i: int| 0 <= i < digits(v).len() ==> #[trigger] digits(v)[i] < 10,
        v > 0 ==> digits(v)[0] > 0,
    decreases v,
{
    if v < 10 {
        assert(digits(v).drop_last() =~= seq![]);
        assert(number_of(digits(v).drop_last()) == 0);
    } else {
        digits_spell_the_number(v / 10);
        assert(digits(v).drop_last() =~= digits(v / 10));
        assert forall|i: int| 0 <= i < digits(v).len() implies #[trigger] digits(v)[i] < 10 by {
            if i < digits(v / 10).len() {
                assert(digits(v)[i] == digits(v / 10)[i]);
            }
        }
    }
}

/// Leading zeros spell no other number, and fill up to the width.
pub proof fn leading_zeros_do_not_count(d: Seq<u8>, width: nat)
    ensures
        number_of(zero_padded(d, width)) == number_of(d),
        zero_padded(d, width).len() == if d.len() < width {
            width
        } else {
            d.len()
        },
    decreases d.len(),
{
    if d.len() < width {
        let zeros = Seq::new((width - d.len()) as nat, |i: int| 0u8);
        if d.len() == 0 {
            lemma_zeros(zeros);
            assert(zeros + d =~= zeros);
        } else {
            leading_zeros_do_not_count(d.drop_last(), (width - 1) as nat);
            assert((zeros + d).drop_last() =~= zeros + d.drop_last());
            assert((zeros + d).last() == d.last());
        }
    }
}

/// Zeros spell 0.
proof fn lemma_zeros(z: Seq<u8>)
    requires
        forall|i: int| 0 <= i < z.len() ==> #[trigger] z[i] == 0,
    ensures
        number_of(z) == 0,
    decreases z.len(),
{
    if z.len() > 0 {
        assert forall|i: int| 0 <= i < z.drop_last().len() implies #[trigger] z.drop_last()[i]
            == 0 by {
            assert(z[i] == 0);
        }
        lemma_zeros(z.drop_last());
        assert(z[z.len() - 1] == 0);
    }
}

/// Decimal digits are written as the characters and bytes from `0` to `9`.
pub proof fn digits_are_written_in_ascii(d: Seq<u8>, i: int)
    requires
        0 <= i < d.len(),
        d[i] < 10,
    ensures
        digit_chars(d).len() == d.len(),
        digit_bytes(d).len() == d.len(),
        digit_chars(d)[i] as int == '0' as int + d[i],
        digit_bytes(d)[i] == '0' as int + d[i],
{
}

} // verus!
