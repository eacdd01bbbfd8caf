//! A candidate: one system, at one version, reachable at one URL.
//!
//! Any service that answers a GET with a ranked list of identifiers is a
//! candidate: a URL template, the field that carries an identifier, and where
//! the results sit in the answer.
use vstd::prelude::*;
use crate::text::{append, chars_of, decimal, owned, push_char, push_decimal};
use vstd::string::StringSliceAdditionalSpecFns;

verus! {

#[derive(Debug, Clone, PartialEq)]
pub struct Candidate {
    /// The whole request, with `{query}` and `{k}` left to fill in.
    pub url: String,
    /// Which field of a result carries its identifier.
    pub id_field: String,
    /// Where the array of results sits, when it is not the whole body.
    pub results_at: Option<String>,
    /// Where the token counts sit, for a candidate that reports them.
    pub usage_at: Option<String>,
}

/// `p` occurs in `s` at position `i`.
pub open spec fn occurs_at(s: Seq<char>, p: Seq<char>, i: int) -> bool {
    0 <= i && i + p.len() <= s.len() && s.subrange(i, i + p.len()) == p
}

/// `p` occurs somewhere in `s`.
pub open spec fn contains(s: Seq<char>, p: Seq<char>) -> bool {
    exists|i: int| occurs_at(s, p, i)
}

/// `s` with every occurrence of `p` replaced by `r`, scanning left to right
/// and never inside a replacement (`str::replace`).
pub open spec fn replaced(s: Seq<char>, p: Seq<char>, r: Seq<char>) -> Seq<char>
    recommends
        p.len() > 0,
    decreases s.len(),
{
    if s.len() < p.len() || p.len() == 0 {
        s
    } else if s.subrange(0, p.len() as int) == p {
        r + replaced(s.subrange(p.len() as int, s.len() as int), p, r)
    } else {
        seq![s[0]] + replaced(s.drop_first(), p, r)
    }
}

/// The field name a candidate uses when its configuration names none.
pub fn id_field_default() -> (s: String)
    ensures
        s@ == "id"@,
{
    owned("id")
}

pub open spec fn no_placeholder_message() -> Seq<char> {
    "the url has no {query} placeholder, so every case would ask the same thing"@
}

pub open spec fn empty_id_field_message() -> Seq<char> {
    "id_field is empty"@
}

/// Whether `p` occurs in `h` at `i`.
fn occurs_at_exec(h: &Vec<char>, p: &Vec<char>, i: usize) -> (b: bool)
    ensures
        b == occurs_at(h@, p@, i as int),
{
    if i > h.len() || p.len() > h.len() - i {
        return false;
    }
    let mut j: usize = 0;
    while j < p.len()
        invariant
            i + p@.len() <= h@.len(),
            i <= h.len(),
            j <= p@.len(),
            forall|t: int| 0 <= t < j ==> h@[i + t] == p@[t],
        decreases p.len() - j,
    {
        if h[i + j] != p[j] {
            assert(h@.subrange(i as int, i + p@.len())[j as int] != p@[j as int]);
            return false;
        }
        j = j + 1;
    }
    assert(h@.subrange(i as int, i + p@.len()) =~= p@);
    true
}

/// Whether `p` occurs anywhere in `h`.
pub fn contains_exec(h: &Vec<char>, p: &Vec<char>) -> (b: bool)
    ensures
        b == contains(h@, p@),
{
    if p.len() > h.len() {
        assert forall|t: int| !occurs_at(h@, p@, t) by {}
        return false;
    }
    if p.len() == 0 {
        assert(h@.subrange(0, 0) =~= p@);
        assert(occurs_at(h@, p@, 0));
        return true;
    }
    let last = h.len() - p.len();
    let mut i: usize = 0;
    while i <= last
        invariant
            last == h@.len() - p@.len(),
            last < usize::MAX,
            p@.len() > 0,
            i <= last + 1,
            forall|t: int| 0 <= t < i ==> !occurs_at(h@, p@, t),
        decreases last + 1 - i,
    {
        if occurs_at_exec(h, p, i) {
            return true;
        }
        i = i + 1;
    }
    assert forall|t: int| !occurs_at(h@, p@, t) by {
        if 0 <= t < i {
        }
    }
    false
}

/// Appends `replaced(h, p, r)`.
fn push_replaced(out: &mut String, h: &Vec<char>, p: &Vec<char>, r: &str)
    requires
        p@.len() > 0,
    ensures
        final(out)@ == old(out)@ + replaced(h@, p@, r@),
{
    let n = h.len();
    let mut i: usize = 0;
    assert(h@.subrange(0, n as int) =~= h@);
    while i < n
        invariant
            n == h@.len(),
            p@.len() > 0,
            i <= n,
            old(out)@ + replaced(h@, p@, r@) == out@ + replaced(h@.subrange(i as int, n as int), p@, r@),
        decreases n - i,
    {
        let ghost t = h@.subrange(i as int, n as int);
        if occurs_at_exec(h, p, i) {
            proof {
                assert(t.subrange(0, p@.len() as int) =~= h@.subrange(i as int, i + p@.len()));
                assert(t.subrange(p@.len() as int, t.len() as int) =~= h@.subrange(i + p@.len(), n as int));
            }
            append(out, r);
            i = i + p.len();
            assert(old(out)@ + replaced(h@, p@, r@) =~= out@ + replaced(h@.subrange(i as int, n as int), p@, r@));
        } else {
            proof {
                if t.len() >= p@.len() {
                    assert(t.subrange(0, p@.len() as int) =~= h@.subrange(i as int, i + p@.len()));
                }
                assert(t.drop_first() =~= h@.subrange(i + 1, n as int));
            }
            push_char(out, h[i]);
            i = i + 1;
            assert(old(out)@ + replaced(h@, p@, r@) =~= out@ + replaced(h@.subrange(i as int, n as int), p@, r@)) by {
                if t.len() < p@.len() {
                    lemma_replaced_short(t, p@, r@);
                    lemma_replaced_short(t.drop_first(), p@, r@);
                }
            }
        }
    }
    assert(h@.subrange(n as int, n as int) =~= Seq::<char>::empty());
}

proof fn lemma_replaced_short(s: Seq<char>, p: Seq<char>, r: Seq<char>)
    requires
        s.len() < p.len(),
    ensures
        replaced(s, p, r) == s,
{
}

/// A byte that RFC 3986 calls unreserved: it travels in a URL as it is.
pub open spec fn unreserved(b: u8) -> bool {
    ||| 65 <= b <= 90
    ||| 97 <= b <= 122
    ||| 48 <= b <= 57
    ||| b == 45
    ||| b == 95
    ||| b == 46
    ||| b == 126
}

/// The upper-case hexadecimal digit of `0 <= n < 16`.
pub open spec fn hex_upper(n: int) -> char {
    if n < 10 {
        (48 + n) as char
    } else {
        (55 + n) as char
    }
}

/// One byte as it appears in a URL: itself when unreserved, else `%XX`.
pub open spec fn escaped(b: u8) -> Seq<char> {
    if unreserved(b) {
        seq![b as char]
    } else {
        seq!['%', hex_upper(b as int / 16), hex_upper(b as int % 16)]
    }
}

/// Every byte of `bytes`, escaped, in order.
pub open spec fn percent_encoded(bytes: Seq<u8>) -> Seq<char>
    decreases bytes.len(),
{
    if bytes.len() == 0 {
        seq![]
    } else {
        percent_encoded(bytes.drop_last()) + escaped(bytes.last())
    }
}

fn hex_digit(n: u8) -> (c: char)
    requires
        n < 16,
    ensures
        c == hex_upper(n as int),
{
    if n < 10 {
        (48 + n) as char
    } else {
        (55 + n) as char
    }
}

/// Percent-encodes every byte of the UTF-8 encoding that is not unreserved,
/// per RFC 3986. A question is free text, and pasted raw into a query
/// string it breaks the request.
pub fn percent_encode(s: &str) -> (out: String)
    ensures
        out@ == percent_encoded(s.spec_bytes()),
{
    let bytes = s.as_bytes();
    let mut out = String::new();
    let mut i: usize = 0;
    while i < bytes.len()
        invariant
            bytes@ == s.spec_bytes(),
            i <= bytes@.len(),
            out@ == percent_encoded(bytes@.subrange(0, i as int)),
        decreases bytes.len() - i,
    {
        let b = bytes[i];
        proof {
            assert(bytes@.subrange(0, i + 1).drop_last() =~= bytes@.subrange(0, i as int));
        }
        let unres = (65 <= b && b <= 90) || (97 <= b && b <= 122) || (48 <= b && b <= 57) || b == 45
            || b == 95 || b == 46 || b == 126;
        if unres {
            push_char(&mut out, b as char);
        } else {
            push_char(&mut out, '%');
            push_char(&mut out, hex_digit(b / 16));
            push_char(&mut out, hex_digit(b % 16));
        }
        i = i + 1;
        assert(out@ =~= percent_encoded(bytes@.subrange(0, i as int)));
    }
    assert(bytes@.subrange(0, bytes@.len() as int) =~= bytes@);
    out
}

/// A character that may stand in a query string as it is.
pub open spec fn url_safe(c: char) -> bool {
    ||| 'A' <= c <= 'Z'
    ||| 'a' <= c <= 'z'
    ||| '0' <= c <= '9'
    ||| c == '-'
    ||| c == '_'
    ||| c == '.'
    ||| c == '~'
    ||| c == '%'
}

/// Whatever the question, its encoding holds only characters that travel in
/// a URL as they are: no space, no `&`, no `=`, no `#`.
pub proof fn law_an_encoded_question_is_url_safe(bytes: Seq<u8>)
    ensures
        forall|i: int|
            0 <= i < percent_encoded(bytes).len() ==> url_safe(#[trigger] percent_encoded(bytes)[i]),
    decreases bytes.len(),
{
    if bytes.len() > 0 {
        law_an_encoded_question_is_url_safe(bytes.drop_last());
        let e = escaped(bytes.last());
        let b = bytes.last();
        assert forall|i: int| 0 <= i < e.len() implies url_safe(#[trigger] e[i]) by {
            if !unreserved(b) {
                assert(0 <= b as int / 16 < 16);
                assert(0 <= b as int % 16 < 16);
            }
        }
        assert forall|i: int|
            0 <= i < percent_encoded(bytes).len() implies url_safe(
            #[trigger] percent_encoded(bytes)[i],
        ) by {
            let pre = percent_encoded(bytes.drop_last());
            if i >= pre.len() {
                assert(percent_encoded(bytes)[i] == e[i - pre.len()]);
            } else {
                assert(percent_encoded(bytes)[i] == pre[i]);
            }
        }
    }
}

/// The value of an upper-case hexadecimal digit.
pub open spec fn hex_value(c: char) -> int {
    if '0' <= c <= '9' {
        c as int - 48
    } else if 'A' <= c <= 'F' {
        c as int - 55
    } else {
        0
    }
}

/// The bytes a percent-encoded text stands for: `%XX` is the byte `XX`,
/// any other character the byte of its code.
pub open spec fn percent_decoded(s: Seq<char>) -> Seq<u8>
    decreases s.len(),
{
    if s.len() == 0 {
        seq![]
    } else if s[0] == '%' && s.len() >= 3 {
        seq![(hex_value(s[1]) * 16 + hex_value(s[2])) as u8] + percent_decoded(s.subrange(3, s.len() as int))
    } else {
        seq![s[0] as u8] + percent_decoded(s.drop_first())
    }
}

proof fn lemma_encoded_from_the_front(bytes: Seq<u8>)
    requires
        bytes.len() > 0,
    ensures
        percent_encoded(bytes) == escaped(bytes[0]) + percent_encoded(bytes.drop_first()),
    decreases bytes.len(),
{
    if bytes.len() == 1 {
        assert(bytes.drop_last().len() == 0);
        assert(bytes.drop_first().len() == 0);
        assert(percent_encoded(bytes.drop_last()) == Seq::<char>::empty());
        assert(percent_encoded(bytes.drop_first()) == Seq::<char>::empty());
        assert(percent_encoded(bytes) =~= escaped(bytes[0]) + percent_encoded(bytes.drop_first()));
    } else {
        lemma_encoded_from_the_front(bytes.drop_last());
        assert(bytes.drop_first().drop_last() =~= bytes.drop_last().drop_first());
        assert(bytes.drop_first().last() == bytes.last());
        assert(percent_encoded(bytes) =~= escaped(bytes[0]) + percent_encoded(bytes.drop_first()));
    }
}

proof fn lemma_hex_round_trip(n: int)
    requires
        0 <= n < 16,
    ensures
        hex_value(hex_upper(n)) == n,
{
}

proof fn lemma_decode_one(b: u8, rest: Seq<char>)
    ensures
        percent_decoded(escaped(b) + rest) == seq![b] + percent_decoded(rest),
{
    let s = escaped(b) + rest;
    if unreserved(b) {
        assert(s[0] == b as char);
        assert(s.drop_first() =~= rest);
        assert((b as char) as u8 == b);
    } else {
        lemma_hex_round_trip(b as int / 16);
        lemma_hex_round_trip(b as int % 16);
        assert(s[0] == '%');
        assert(s.subrange(3, s.len() as int) =~= rest);
        assert(((b as int / 16) * 16 + b as int % 16) == b as int);
    }
}

/// Decoding an encoded question gives back exactly its bytes: the
/// encoding loses nothing.
pub proof fn law_decoding_gives_back_the_question(bytes: Seq<u8>)
    ensures
        percent_decoded(percent_encoded(bytes)) == bytes,
    decreases bytes.len(),
{
    if bytes.len() > 0 {
        lemma_encoded_from_the_front(bytes);
        lemma_decode_one(bytes[0], percent_encoded(bytes.drop_first()));
        law_decoding_gives_back_the_question(bytes.drop_first());
        assert(bytes =~= seq![bytes[0]] + bytes.drop_first());
    }
}

/// Letters, digits, `-`, `_`, `.` and `~` travel as they are; every other
/// byte becomes `%` and its two upper-case hexadecimal digits.
pub proof fn law_only_reserved_bytes_are_escaped(bytes: Seq<u8>)
    ensures
        (forall|i: int|
            0 <= i < bytes.len() ==> (65 <= #[trigger] bytes[i] <= 90 || 97 <= bytes[i] <= 122 || 48 <= bytes[i]
                <= 57 || bytes[i] == 45 || bytes[i] == 95 || bytes[i] == 46 || bytes[i] == 126)) ==> percent_encoded(
            bytes,
        ) == bytes.map_values(|b: u8| b as char),
        bytes.len() == 1 && !(65 <= bytes[0] <= 90 || 97 <= bytes[0] <= 122 || 48 <= bytes[0] <= 57 || bytes[0] == 45
            || bytes[0] == 95 || bytes[0] == 46 || bytes[0] == 126) ==> {
            &&& percent_encoded(bytes).len() == 3
            &&& percent_encoded(bytes)[0] == '%'
            &&& percent_encoded(bytes)[1] == "0123456789ABCDEF"@[(bytes[0] / 16) as int]
            &&& percent_encoded(bytes)[2] == "0123456789ABCDEF"@[(bytes[0] % 16) as int]
        },
    decreases bytes.len(),
{
    reveal_strlit("0123456789ABCDEF");
    if bytes.len() > 0 {
        law_only_reserved_bytes_are_escaped(bytes.drop_last());
        if forall|i: int|
            0 <= i < bytes.len() ==> (65 <= #[trigger] bytes[i] <= 90 || 97 <= bytes[i] <= 122 || 48 <= bytes[i]
                <= 57 || bytes[i] == 45 || bytes[i] == 95 || bytes[i] == 46 || bytes[i] == 126) {
            assert forall|i: int|
                0 <= i < bytes.drop_last().len() implies (65 <= #[trigger] bytes.drop_last()[i] <= 90 || 97
                <= bytes.drop_last()[i] <= 122 || 48 <= bytes.drop_last()[i] <= 57 || bytes.drop_last()[i] == 45
                || bytes.drop_last()[i] == 95 || bytes.drop_last()[i] == 46 || bytes.drop_last()[i] == 126) by {
                assert(bytes.drop_last()[i] == bytes[i]);
            }
            assert(bytes[bytes.len() - 1] == bytes.last());
            assert(percent_encoded(bytes) =~= bytes.map_values(|b: u8| b as char));
        }
        if bytes.len() == 1 {
            assert(percent_encoded(bytes.drop_last()) == Seq::<char>::empty());
            assert(percent_encoded(bytes) =~= escaped(bytes[0]));
        }
    }
}

/// The URL asked for one question: `{query}` replaced by the question,
/// percent-encoded, then `{k}` by the number of results wanted.
pub open spec fn request_url_of(url: Seq<char>, question: Seq<u8>, k: nat) -> Seq<char> {
    replaced(
        replaced(url, "{query}"@, percent_encoded(question)),
        "{k}"@,
        decimal(k),
    )
}

impl Candidate {
    /// Refuses a configuration that cannot work: without a `{query}`
    /// placeholder every case would hit the same URL, and without an id
    /// field no result could be named.
    pub fn check(&self) -> (r: Result<(), String>)
        ensures
            match r {
                Ok(()) => contains(self.url@, "{query}"@) && self.id_field@.len() > 0,
                Err(e) => if !contains(self.url@, "{query}"@) {
                    e@ == no_placeholder_message()
                } else {
                    self.id_field@.len() == 0 && e@ == empty_id_field_message()
                },
            },
    {
        let url = chars_of(self.url.as_str());
        let placeholder = chars_of("{query}");
        if !contains_exec(&url, &placeholder) {
            return Err(
                owned("the url has no {query} placeholder, so every case would ask the same thing"),
            );
        }
        if self.id_field.as_str().is_empty() {
            return Err(owned("id_field is empty"));
        }
        Ok(())
    }

    /// The URL for one question, asking for `k` results.
    pub fn request_url(&self, question: &str, k: usize) -> (u: String)
        ensures
            u@ == request_url_of(self.url@, question.spec_bytes(), k as nat),
    {
        let url = chars_of(self.url.as_str());
        let placeholder = chars_of("{query}");
        let encoded = percent_encode(question);
        proof {
            reveal_strlit("{query}");
            reveal_strlit("{k}");
        }
        let mut first = String::new();
        push_replaced(&mut first, &url, &placeholder, encoded.as_str());
        let first_chars = chars_of(first.as_str());
        let k_placeholder = chars_of("{k}");
        let mut count = String::new();
        push_decimal(&mut count, k as u64);
        let mut u = String::new();
        push_replaced(&mut u, &first_chars, &k_placeholder, count.as_str());
        u
    }
}

} // verus!
