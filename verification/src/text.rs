//! Building and reading strings one character at a time, and the small
//! vocabulary of character sequences that the rest of the library speaks.
use vstd::prelude::*;

verus! {

/// Appends one character to a string (`String::push`).
#[verifier::external_body]
pub(crate) fn push_char(s: &mut String, c: char)
    ensures
        final(s)@ == old(s)@.push(c),
{
    s.push(c);
}

/// The `Debug` rendering of a string slice: quoted and escaped.
pub uninterp spec fn debug_quoted(s: Seq<char>) -> Seq<char>;

/// Writes a string slice the way `{:?}` does (`<str as Debug>::fmt`).
/// Nothing is claimed of the text beyond its being a function of the slice.
#[verifier::external_body]
pub(crate) fn quoted(s: &str) -> (r: String)
    ensures
        r@ == debug_quoted(s@),
{
    format!("{:?}", s)
}

/// The characters of a string slice, in order.
pub fn chars_of(s: &str) -> (v: Vec<char>)
    ensures
        v@ == s@,
{
    let mut v: Vec<char> = Vec::new();
    let n = s.unicode_len();
    let mut i: usize = 0;
    while i < n
        invariant
            n == s@.len(),
            i <= n,
            v@ == s@.subrange(0, i as int),
        decreases n - i,
    {
        let c = s.get_char(i);
        v.push(c);
        i = i + 1;
    }
    v
}

/// Appends a string slice.
pub fn append(s: &mut String, t: &str)
    ensures
        final(s)@ == old(s)@ + t@,
{
    s.append(t);
}

/// A fresh string holding a copy of a slice.
pub fn owned(t: &str) -> (s: String)
    ensures
        s@ == t@,
{
    let mut s = String::new();
    s.append(t);
    s
}

/// A string made of the given characters.
pub fn from_chars(v: &[char]) -> (s: String)
    ensures
        s@ == v@,
{
    let mut s = String::new();
    let mut i: usize = 0;
    while i < v.len()
        invariant
            i <= v.len(),
            s@ == v@.subrange(0, i as int),
        decreases v.len() - i,
    {
        push_char(&mut s, v[i]);
        i = i + 1;
    }
    s
}

/// `n` copies of a character.
pub open spec fn repeat(c: char, n: nat) -> Seq<char> {
    Seq::new(n, |i: int| c)
}

/// Appends `n` copies of a character.
pub fn push_repeat(s: &mut String, c: char, n: usize)
    ensures
        final(s)@ == old(s)@ + repeat(c, n as nat),
{
    let mut i: usize = 0;
    while i < n
        invariant
            i <= n,
            s@ == old(s)@ + repeat(c, i as nat),
        decreases n - i,
    {
        push_char(s, c);
        i = i + 1;
        assert(s@ =~= old(s)@ + repeat(c, i as nat));
    }
}

/// The character of a decimal digit.
pub open spec fn digit_char(d: int) -> char {
    (48 + d) as char
}

/// The decimal writing of a natural number, without leading zeros.
pub open spec fn decimal(n: nat) -> Seq<char>
    decreases n,
{
    if n < 10 {
        seq![digit_char(n as int)]
    } else {
        decimal(n / 10).push(digit_char((n % 10) as int))
    }
}

fn digit(d: u64) -> (c: char)
    requires
        d < 10,
    ensures
        c == digit_char(d as int),
{
    let b: u8 = 48 + d as u8;
    b as char
}

/// A decimal writing has at least one digit, and as many as the number
/// needs: one under ten, two under a hundred, four under ten thousand.
pub proof fn lemma_decimal_width(n: nat)
    ensures
        decimal(n).len() >= 1,
        n < 10 ==> decimal(n).len() == 1,
        n < 100 ==> decimal(n).len() <= 2,
        n < 1000 ==> decimal(n).len() <= 3,
        n < 10000 ==> decimal(n).len() <= 4,
    decreases n,
{
    if n >= 10 {
        lemma_decimal_width(n / 10);
    }
}

/// Appends the decimal writing of `n` (`{}` on an integer).
pub fn push_decimal(s: &mut String, n: u64)
    ensures
        final(s)@ == old(s)@ + decimal(n as nat),
    decreases n,
{
    if n < 10 {
        push_char(s, digit(n));
        assert(s@ =~= old(s)@ + decimal(n as nat));
    } else {
        push_decimal(s, n / 10);
        push_char(s, digit(n % 10));
        assert(s@ =~= old(s)@ + decimal(n as nat));
    }
}

/// `s` written in at least `w` characters, zeros in front (`{:0w}`).
pub open spec fn zero_padded(s: Seq<char>, w: nat) -> Seq<char> {
    if s.len() < w {
        repeat('0', (w - s.len()) as nat) + s
    } else {
        s
    }
}

/// Appends `n` in at least `w` digits, zeros in front.
pub fn push_zero_padded(s: &mut String, n: u64, w: usize)
    ensures
        final(s)@ == old(s)@ + zero_padded(decimal(n as nat), w as nat),
{
    let mut d = String::new();
    push_decimal(&mut d, n);
    let len = d.as_str().unicode_len();
    if len < w {
        push_repeat(s, '0', w - len);
    }
    append(s, d.as_str());
}

/// `a` sorts before `b`, character by character, a prefix first: the order
/// of their UTF-8 bytes, by which a `String` key is sorted.
pub open spec fn text_less(a: Seq<char>, b: Seq<char>) -> bool
    decreases a.len(),
{
    if a.len() == 0 {
        b.len() > 0
    } else if b.len() == 0 {
        false
    } else if a[0] != b[0] {
        (a[0] as int) < (b[0] as int)
    } else {
        text_less(a.drop_first(), b.drop_first())
    }
}

pub proof fn lemma_text_less_strict(a: Seq<char>, b: Seq<char>)
    ensures
        text_less(a, b) ==> !text_less(b, a) && a != b,
    decreases a.len(),
{
    if a.len() > 0 && b.len() > 0 && a[0] == b[0] {
        lemma_text_less_strict(a.drop_first(), b.drop_first());
        if a == b {
            assert(a.drop_first() == b.drop_first());
        }
    }
}

pub proof fn lemma_text_less_total(a: Seq<char>, b: Seq<char>)
    ensures
        a == b || text_less(a, b) || text_less(b, a),
    decreases a.len(),
{
    if a.len() > 0 && b.len() > 0 && a[0] == b[0] {
        lemma_text_less_total(a.drop_first(), b.drop_first());
        if a.drop_first() == b.drop_first() {
            assert(a =~= seq![a[0]] + a.drop_first());
            assert(b =~= seq![b[0]] + b.drop_first());
        }
    } else if a.len() == 0 && b.len() == 0 {
        assert(a =~= b);
    }
}

pub proof fn lemma_text_less_transitive(a: Seq<char>, b: Seq<char>, c: Seq<char>)
    requires
        text_less(a, b),
        text_less(b, c),
    ensures
        text_less(a, c),
    decreases a.len(),
{
    if a.len() > 0 && b.len() > 0 && c.len() > 0 && a[0] == b[0] && b[0] == c[0] {
        lemma_text_less_transitive(a.drop_first(), b.drop_first(), c.drop_first());
    }
}

/// Two texts that start with parts of the same length compare by those
/// parts, and by what follows when the parts are the same.
pub proof fn lemma_text_less_by_parts(x: Seq<char>, u: Seq<char>, y: Seq<char>, v: Seq<char>)
    requires
        x.len() == y.len(),
    ensures
        text_less(x + u, y + v) == if x == y {
            text_less(u, v)
        } else {
            text_less(x, y)
        },
    decreases x.len(),
{
    if x.len() == 0 {
        assert(x + u =~= u);
        assert(y + v =~= v);
        assert(x =~= y);
    } else {
        assert((x + u)[0] == x[0]);
        assert((y + v)[0] == y[0]);
        if x[0] == y[0] {
            lemma_text_less_by_parts(x.drop_first(), u, y.drop_first(), v);
            assert((x + u).drop_first() =~= x.drop_first() + u);
            assert((y + v).drop_first() =~= y.drop_first() + v);
            if x.drop_first() == y.drop_first() {
                assert forall|i: int| 0 <= i < x.len() implies x[i] == y[i] by {
                    if i > 0 {
                        assert(x[i] == x.drop_first()[i - 1]);
                        assert(y[i] == y.drop_first()[i - 1]);
                    }
                }
                assert(x =~= y);
            }
        }
    }
}

/// `10^w`.
pub open spec fn ten_to(w: nat) -> nat
    decreases w,
{
    if w == 0 {
        1
    } else {
        10 * ten_to((w - 1) as nat)
    }
}

/// A number under `10^w` has at most `w` digits.
pub proof fn lemma_decimal_fits(n: nat, w: nat)
    requires
        w >= 1,
        n < ten_to(w),
    ensures
        decimal(n).len() <= w,
    decreases w,
{
    if n >= 10 {
        assert(w >= 2) by {
            if w == 1 {
                reveal_with_fuel(ten_to, 2);
            }
        }
        assert(n / 10 < ten_to((w - 1) as nat));
        lemma_decimal_fits(n / 10, (w - 1) as nat);
    }
}

/// `w` digits of `n`, zeros in front: those of `n / 10`, then the last.
proof fn lemma_padded_last_digit(n: nat, w: nat)
    requires
        w >= 2,
        n < ten_to(w),
    ensures
        zero_padded(decimal(n), w) == zero_padded(decimal(n / 10), (w - 1) as nat).push(digit_char((n % 10) as int)),
{
    assert(n / 10 < ten_to((w - 1) as nat));
    lemma_decimal_fits(n / 10, (w - 1) as nat);
    if n >= 10 {
        assert(zero_padded(decimal(n), w) =~= zero_padded(decimal(n / 10), (w - 1) as nat).push(
            digit_char((n % 10) as int),
        ));
    } else {
        assert(decimal(n / 10) == seq![digit_char(0)]);
        assert(zero_padded(decimal(n), w) =~= zero_padded(decimal(n / 10), (w - 1) as nat).push(
            digit_char((n % 10) as int),
        ));
    }
}

/// Written in `w` digits, a smaller number sorts first.
pub proof fn lemma_padded_order(a: nat, b: nat, w: nat)
    requires
        w >= 1,
        a < b < ten_to(w),
    ensures
        text_less(zero_padded(decimal(a), w), zero_padded(decimal(b), w)),
        zero_padded(decimal(a), w).len() == w,
        zero_padded(decimal(b), w).len() == w,
    decreases w,
{
    lemma_decimal_fits(a, w);
    lemma_decimal_fits(b, w);
    if w == 1 {
        reveal_with_fuel(ten_to, 2);
        assert(zero_padded(decimal(a), w) == seq![digit_char(a as int)]);
        assert(zero_padded(decimal(b), w) == seq![digit_char(b as int)]);
        assert(seq![digit_char(a as int)].drop_first() =~= Seq::<char>::empty());
    } else {
        lemma_padded_last_digit(a, w);
        lemma_padded_last_digit(b, w);
        let pa = zero_padded(decimal(a / 10), (w - 1) as nat);
        let pb = zero_padded(decimal(b / 10), (w - 1) as nat);
        let ca = seq![digit_char((a % 10) as int)];
        let cb = seq![digit_char((b % 10) as int)];
        assert(pa.push(ca[0]) =~= pa + ca);
        assert(pb.push(cb[0]) =~= pb + cb);
        assert(a / 10 < ten_to((w - 1) as nat));
        assert(b / 10 < ten_to((w - 1) as nat));
        lemma_decimal_fits(a / 10, (w - 1) as nat);
        lemma_decimal_fits(b / 10, (w - 1) as nat);
        if a / 10 < b / 10 {
            lemma_padded_order(a / 10, b / 10, (w - 1) as nat);
            lemma_text_less_strict(pa, pb);
        } else {
            assert(a % 10 < b % 10);
            assert(ca.drop_first() =~= Seq::<char>::empty());
        }
        lemma_text_less_by_parts(pa, ca, pb, cb);
    }
}

} // verus!
