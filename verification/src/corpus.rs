//! The frozen corpus: the questions, and which answers count as right.
//!
//! It is frozen between two refreshes, not forever. Refreshing it
//! invalidates every earlier record by construction, which is why
//! [`Corpus::fingerprint`] travels with every record.
use vstd::prelude::*;
use vstd::utf8::encode_utf8;
use crate::text::{append, debug_quoted, owned, push_char, quoted};

verus! {

/// Shortest identifier prefix, in characters, a corpus may use as an expected
/// answer: anything shorter turns a coincidence into a passing case.
pub const MIN_GOLD: usize = 4;

#[derive(Debug, Clone, PartialEq)]
pub struct Case {
    pub question: String,
    /// Every answer that counts as right.
    pub gold: Vec<String>,
}

#[derive(Debug, Clone, PartialEq)]
pub struct Corpus {
    pub name: String,
    pub cases: Vec<Case>,
}

/// What a case asks, and what counts as its answer.
impl View for Case {
    type V = (Seq<char>, Seq<Seq<char>>);

    open spec fn view(&self) -> (Seq<char>, Seq<Seq<char>>) {
        (self.question@, self.gold.deep_view())
    }
}

/// What a corpus asks, case by case.
pub open spec fn asked(cases: Seq<Case>) -> Seq<(Seq<char>, Seq<Seq<char>>)> {
    cases.map_values(|c: Case| c@)
}

/// The first of the first `n` golds that is shorter than `MIN_GOLD` characters.
pub open spec fn first_short(gold: Seq<Seq<char>>, n: int) -> Option<int>
    decreases n,
{
    if n <= 0 {
        None
    } else {
        match first_short(gold, n - 1) {
            Some(j) => Some(j),
            None => if gold[n - 1].len() < MIN_GOLD {
                Some(n - 1)
            } else {
                None
            },
        }
    }
}

/// The first of the first `n` cases that lists no expected answer.
pub open spec fn first_without_gold(cases: Seq<(Seq<char>, Seq<Seq<char>>)>, n: int) -> Option<int>
    decreases n,
{
    if n <= 0 {
        None
    } else {
        match first_without_gold(cases, n - 1) {
            Some(i) => Some(i),
            None => if cases[n - 1].1.len() == 0 {
                Some(n - 1)
            } else {
                None
            },
        }
    }
}

/// The first of the first `n` cases that lists a gold that is too short.
pub open spec fn first_with_short_gold(cases: Seq<(Seq<char>, Seq<Seq<char>>)>, n: int) -> Option<int>
    decreases n,
{
    if n <= 0 {
        None
    } else {
        match first_with_short_gold(cases, n - 1) {
            Some(i) => Some(i),
            None => if first_short(cases[n - 1].1, cases[n - 1].1.len() as int) is Some {
                Some(n - 1)
            } else {
                None
            },
        }
    }
}

/// A corpus that can be replayed: some case to ask, each with an expected
/// answer, none of them so short that it matches what it does not mean.
pub open spec fn well_formed(cases: Seq<(Seq<char>, Seq<Seq<char>>)>) -> bool {
    &&& cases.len() > 0
    &&& first_without_gold(cases, cases.len() as int) is None
    &&& first_with_short_gold(cases, cases.len() as int) is None
}

pub open spec fn empty_corpus_message() -> Seq<char> {
    "no case in this corpus"@
}

pub open spec fn no_gold_message(question: Seq<char>) -> Seq<char> {
    "case "@ + debug_quoted(question) + " lists no expected answer"@
}

pub open spec fn short_gold_message(question: Seq<char>, gold: Seq<char>) -> Seq<char> {
    "case "@ + debug_quoted(question) + ": the expected answer "@ + debug_quoted(gold)
        + " is shorter than 4 characters, and would match identifiers it does not mean"@
}

/// Why a corpus is refused: the first problem found.
pub open spec fn corpus_refusal(cases: Seq<(Seq<char>, Seq<Seq<char>>)>) -> Seq<char> {
    if cases.len() == 0 {
        empty_corpus_message()
    } else if first_without_gold(cases, cases.len() as int) is Some {
        no_gold_message(cases[first_without_gold(cases, cases.len() as int)->0].0)
    } else {
        let i = first_with_short_gold(cases, cases.len() as int)->0;
        let g = cases[i].1;
        short_gold_message(cases[i].0, g[first_short(g, g.len() as int)->0])
    }
}

proof fn lemma_first_short_stays(gold: Seq<Seq<char>>, n: int, m: int)
    requires
        0 < n <= m,
        first_short(gold, n) is Some,
    ensures
        first_short(gold, m) == first_short(gold, n),
    decreases m - n,
{
    if m > n {
        lemma_first_short_stays(gold, n, m - 1);
    }
}

proof fn lemma_first_without_gold_facts(cases: Seq<(Seq<char>, Seq<Seq<char>>)>, n: int, m: int)
    requires
        0 < n <= m,
        first_without_gold(cases, n) is Some,
    ensures
        first_without_gold(cases, m) == first_without_gold(cases, n),
    decreases m - n,
{
    if m > n {
        lemma_first_without_gold_facts(cases, n, m - 1);
    }
}

proof fn lemma_first_with_short_gold_stays(cases: Seq<(Seq<char>, Seq<Seq<char>>)>, n: int, m: int)
    requires
        0 < n <= m,
        first_with_short_gold(cases, n) is Some,
    ensures
        first_with_short_gold(cases, m) == first_with_short_gold(cases, n),
    decreases m - n,
{
    if m > n {
        lemma_first_with_short_gold_stays(cases, n, m - 1);
    }
}

/// The first gold of `gold` shorter than `MIN_GOLD` characters, if any.
fn find_short(gold: &Vec<String>) -> (r: Option<usize>)
    ensures
        match r {
            Some(j) => first_short(gold.deep_view(), gold@.len() as int) == Some(j as int) && j < gold@.len(),
            None => first_short(gold.deep_view(), gold@.len() as int) is None,
        },
{
    let ghost g = gold.deep_view();
    let mut j: usize = 0;
    while j < gold.len()
        invariant
            g == gold.deep_view(),
            g.len() == gold@.len(),
            j <= gold@.len(),
            first_short(g, j as int) is None,
        decreases gold.len() - j,
    {
        assert(g[j as int] == gold@[j as int]@);
        if gold[j].as_str().unicode_len() < MIN_GOLD {
            proof {
                lemma_first_short_stays(g, j + 1, g.len() as int);
            }
            return Some(j);
        }
        j = j + 1;
    }
    None
}

impl Corpus {
    /// Refuses a corpus that cannot measure anything: an empty one would
    /// produce a record whose every rate is a division by zero; a case with
    /// no expected answer can only fail; a gold shorter than `MIN_GOLD`
    /// characters matches identifiers it was never meant to, and scores a wrong
    /// answer as right.
    pub fn check(&self) -> (r: Result<(), String>)
        ensures
            match r {
                Ok(()) => well_formed(asked(self.cases@)),
                Err(e) => !well_formed(asked(self.cases@)) && e@ == corpus_refusal(asked(self.cases@)),
            },
    {
        let ghost cs = asked(self.cases@);
        let n = self.cases.len();
        if n == 0 {
            return Err(owned("no case in this corpus"));
        }
        let mut i: usize = 0;
        while i < n
            invariant
                cs == asked(self.cases@),
                n == self.cases@.len(),
                cs.len() == n,
                i <= n,
                first_without_gold(cs, i as int) is None,
            decreases n - i,
        {
            assert(cs[i as int] == self.cases@[i as int]@);
            if self.cases[i].gold.len() == 0 {
                proof {
                    lemma_first_without_gold_facts(cs, i + 1, n as int);
                }
                let mut e = owned("case ");
                let q = quoted(self.cases[i].question.as_str());
                append(&mut e, q.as_str());
                append(&mut e, " lists no expected answer");
                return Err(e);
            }
            i = i + 1;
        }
        let mut i: usize = 0;
        while i < n
            invariant
                cs == asked(self.cases@),
                n == self.cases@.len(),
                cs.len() == n,
                i <= n,
                first_without_gold(cs, n as int) is None,
                first_with_short_gold(cs, i as int) is None,
            decreases n - i,
        {
            assert(cs[i as int] == self.cases@[i as int]@);
            match find_short(&self.cases[i].gold) {
                Some(j) => {
                    proof {
                        lemma_first_with_short_gold_stays(cs, i + 1, n as int);
                    }
                    let mut e = owned("case ");
                    let q = quoted(self.cases[i].question.as_str());
                    append(&mut e, q.as_str());
                    append(&mut e, ": the expected answer ");
                    let g = quoted(self.cases[i].gold[j].as_str());
                    append(&mut e, g.as_str());
                    append(
                        &mut e,
                        " is shorter than 4 characters, and would match identifiers it does not mean",
                    );
                    return Err(e);
                },
                None => {},
            }
            i = i + 1;
        }
        Ok(())
    }
}

/// The FNV-1a 64-bit offset basis and prime.
pub const FNV_OFFSET: u64 = 0xcbf2_9ce4_8422_2325;
pub const FNV_PRIME: u64 = 0x0000_0100_0000_01b3;

/// One step of FNV-1a: xor the byte in, then multiply, modulo `2^64`.
pub open spec fn fnv_step(h: u64, b: u8) -> u64 {
    (((h ^ (b as u64)) as nat * FNV_PRIME as nat) % 0x1_0000_0000_0000_0000nat) as u64
}

/// FNV-1a over `bytes`, starting from `h`.
pub open spec fn fnv(h: u64, bytes: Seq<u8>) -> u64
    decreases bytes.len(),
{
    if bytes.len() == 0 {
        h
    } else {
        fnv(fnv_step(h, bytes[0]), bytes.drop_first())
    }
}

/// One string into the hash, then a separator, so `["ab","c"]` and
/// `["a","bc"]` are not fed the same bytes.
pub open spec fn eat(h: u64, s: Seq<char>) -> u64 {
    fnv_step(fnv(h, encode_utf8(s)), 0xff)
}

/// Each string of `strings` into the hash, in order.
pub open spec fn eat_all(h: u64, strings: Seq<Seq<char>>) -> u64
    decreases strings.len(),
{
    if strings.len() == 0 {
        h
    } else {
        eat_all(eat(h, strings[0]), strings.drop_first())
    }
}

/// Each case into the hash: its question, then each of its golds.
pub open spec fn eat_cases(h: u64, cases: Seq<(Seq<char>, Seq<Seq<char>>)>) -> u64
    decreases cases.len(),
{
    if cases.len() == 0 {
        h
    } else {
        eat_cases(eat_all(eat(h, cases[0].0), cases[0].1), cases.drop_first())
    }
}

/// The lower-case hexadecimal digit of `0 <= n < 16`.
pub open spec fn hex_lower(n: int) -> char {
    if n < 10 {
        (48 + n) as char
    } else {
        (87 + n) as char
    }
}

/// The last `n` hexadecimal digits of `h`, most significant first.
pub open spec fn hex_digits(h: nat, n: nat) -> Seq<char>
    decreases n,
{
    if n == 0 {
        seq![]
    } else {
        hex_digits(h / 16, (n - 1) as nat).push(hex_lower((h % 16) as int))
    }
}

/// The fingerprint of what a corpus asks: FNV-1a over the questions and the
/// expected answers, as sixteen lower-case hexadecimal digits.
pub open spec fn fingerprint_of(cases: Seq<(Seq<char>, Seq<Seq<char>>)>) -> Seq<char> {
    hex_digits(eat_cases(FNV_OFFSET, cases) as nat, 16)
}

fn feed(h: u64, s: &str) -> (r: u64)
    ensures
        r == eat(h, s@),
{
    let bytes = s.as_bytes();
    let mut h = h;
    let ghost h0 = h;
    let mut i: usize = 0;
    assert(bytes@.subrange(0, bytes@.len() as int) =~= bytes@);
    while i < bytes.len()
        invariant
            bytes@ == encode_utf8(s@),
            i <= bytes@.len(),
            fnv(h, bytes@.subrange(i as int, bytes@.len() as int)) == fnv(h0, bytes@),
        decreases bytes.len() - i,
    {
        proof {
            let rest = bytes@.subrange(i as int, bytes@.len() as int);
            assert(rest.drop_first() =~= bytes@.subrange(i + 1, bytes@.len() as int));
        }
        h = (h ^ (bytes[i] as u64)).wrapping_mul(FNV_PRIME);
        i = i + 1;
    }
    proof {
        assert(bytes@.subrange(bytes@.len() as int, bytes@.len() as int) =~= Seq::<u8>::empty());
    }
    (h ^ 0xff).wrapping_mul(FNV_PRIME)
}

fn push_hex(s: &mut String, h: u64, n: usize)
    ensures
        final(s)@ == old(s)@ + hex_digits(h as nat, n as nat),
    decreases n,
{
    if n > 0 {
        push_hex(s, h / 16, n - 1);
        let d = h % 16;
        let c = if d < 10 {
            (48 + d as u8) as char
        } else {
            (87 + d as u8) as char
        };
        push_char(s, c);
        assert(s@ =~= old(s)@ + hex_digits(h as nat, n as nat));
    }
}

impl Corpus {
    /// A fingerprint of what the corpus asks, not of how its file is laid
    /// out: the questions and the expected answers, in order. The name is
    /// not part of it.
    ///
    /// FNV-1a, not a cryptographic hash: it answers "did the corpus change",
    /// not "is this the authentic corpus".
    pub fn fingerprint(&self) -> (f: String)
        ensures
            f@ == fingerprint_of(asked(self.cases@)),
            f@.len() == 16,
    {
        let ghost cs = asked(self.cases@);
        let mut h: u64 = FNV_OFFSET;
        let mut i: usize = 0;
        assert(cs.subrange(0, cs.len() as int) =~= cs);
        while i < self.cases.len()
            invariant
                cs == asked(self.cases@),
                i <= self.cases@.len(),
                eat_cases(h, cs.subrange(i as int, cs.len() as int)) == eat_cases(FNV_OFFSET, cs),
            decreases self.cases.len() - i,
        {
            let case = &self.cases[i];
            let ghost before = h;
            proof {
                let rest = cs.subrange(i as int, cs.len() as int);
                assert(rest.drop_first() =~= cs.subrange(i + 1, cs.len() as int));
                assert(rest[0] == case@);
            }
            h = feed(h, case.question.as_str());
            let ghost g = case.gold.deep_view();
            let ghost after_question = h;
            let mut j: usize = 0;
            assert(g.subrange(0, g.len() as int) =~= g);
            while j < case.gold.len()
                invariant
                    g == case.gold.deep_view(),
                    j <= case.gold@.len(),
                    eat_all(h, g.subrange(j as int, g.len() as int)) == eat_all(after_question, g),
                decreases case.gold.len() - j,
            {
                proof {
                    let rest = g.subrange(j as int, g.len() as int);
                    assert(rest.drop_first() =~= g.subrange(j + 1, g.len() as int));
                    assert(rest[0] == case.gold@[j as int]@);
                }
                h = feed(h, case.gold[j].as_str());
                j = j + 1;
            }
            proof {
                assert(g.subrange(0, g.len() as int) =~= g);
                assert(g.subrange(g.len() as int, g.len() as int) =~= Seq::<Seq<char>>::empty());
            }
            i = i + 1;
        }
        proof {
            assert(cs.subrange(0, cs.len() as int) =~= cs);
            assert(cs.subrange(cs.len() as int, cs.len() as int) =~= Seq::<(Seq<char>, Seq<Seq<char>>)>::empty());
        }
        let mut f = String::new();
        push_hex(&mut f, h, 16);
        proof {
            lemma_hex_digits_len(h as nat, 16);
        }
        f
    }
}

proof fn lemma_hex_digits_len(h: nat, n: nat)
    ensures
        hex_digits(h, n).len() == n,
    decreases n,
{
    if n > 0 {
        lemma_hex_digits_len(h / 16, (n - 1) as nat);
    }
}

proof fn lemma_fnv_append(h: u64, a: Seq<u8>, b: Seq<u8>)
    ensures
        fnv(h, a + b) == fnv(fnv(h, a), b),
    decreases a.len(),
{
    if a.len() == 0 {
        assert(a + b =~= b);
    } else {
        assert((a + b).drop_first() =~= a.drop_first() + b);
        assert((a + b)[0] == a[0]);
        lemma_fnv_append(fnv_step(h, a[0]), a.drop_first(), b);
    }
}

proof fn lemma_eat_is_fnv(h: u64, s: Seq<char>)
    ensures
        eat(h, s) == fnv(h, encode_utf8(s) + seq![0xffu8]),
{
    lemma_fnv_append(h, encode_utf8(s), seq![0xffu8]);
    let h2 = fnv(h, encode_utf8(s));
    assert(seq![0xffu8].drop_first() =~= Seq::<u8>::empty());
    assert(fnv(h2, seq![0xffu8]) == fnv(fnv_step(h2, 0xff), seq![0xffu8].drop_first()));
    assert(fnv(fnv_step(h2, 0xff), Seq::<u8>::empty()) == fnv_step(h2, 0xff));
}

proof fn lemma_eat_all_push(h: u64, g: Seq<Seq<char>>, x: Seq<char>)
    ensures
        eat_all(h, g.push(x)) == eat(eat_all(h, g), x),
    decreases g.len(),
{
    assert(g.push(x)[0] == if g.len() == 0 {
        x
    } else {
        g[0]
    });
    if g.len() == 0 {
        assert(g.push(x).drop_first() =~= Seq::<Seq<char>>::empty());
        assert(eat_all(eat(h, x), Seq::<Seq<char>>::empty()) == eat(h, x));
    } else {
        assert(g.push(x).drop_first() =~= g.drop_first().push(x));
        lemma_eat_all_push(eat(h, g[0]), g.drop_first(), x);
    }
}

proof fn lemma_eat_cases_push(h: u64, cs: Seq<(Seq<char>, Seq<Seq<char>>)>, c: (Seq<char>, Seq<Seq<char>>))
    ensures
        eat_cases(h, cs.push(c)) == eat_all(eat(eat_cases(h, cs), c.0), c.1),
    decreases cs.len(),
{
    assert(cs.push(c)[0] == if cs.len() == 0 {
        c
    } else {
        cs[0]
    });
    if cs.len() == 0 {
        assert(cs.push(c).drop_first() =~= Seq::<(Seq<char>, Seq<Seq<char>>)>::empty());
        let h1 = eat_all(eat(h, c.0), c.1);
        assert(eat_cases(h1, Seq::<(Seq<char>, Seq<Seq<char>>)>::empty()) == h1);
    } else {
        assert(cs.push(c).drop_first() =~= cs.drop_first().push(c));
        lemma_eat_cases_push(eat_all(eat(h, cs[0].0), cs[0].1), cs.drop_first(), c);
    }
}

/// What the fingerprint hashes, said with FNV-1a alone: nothing for no
/// case; a new case continues the hash with its question's UTF-8 bytes and
/// a `0xff` separator; and each expected answer of a case, the last as much
/// as the first, continues it with its own bytes and a `0xff`. So every
/// question and every gold entry, in order, goes into the hash.
pub proof fn law_every_question_and_answer_is_hashed(
    h: u64,
    cases: Seq<(Seq<char>, Seq<Seq<char>>)>,
    question: Seq<char>,
    gold: Seq<Seq<char>>,
    answer: Seq<char>,
)
    ensures
        eat_cases(h, seq![]) == h,
        eat_cases(h, cases.push((question, seq![]))) == fnv(
            eat_cases(h, cases),
            encode_utf8(question) + seq![0xffu8],
        ),
        eat_cases(h, cases.push((question, gold.push(answer)))) == fnv(
            eat_cases(h, cases.push((question, gold))),
            encode_utf8(answer) + seq![0xffu8],
        ),
        fingerprint_of(cases) == hex_digits(eat_cases(FNV_OFFSET, cases) as nat, 16),
{
    lemma_eat_cases_push(h, cases, (question, seq![]));
    lemma_eat_is_fnv(eat_cases(h, cases), question);
    lemma_eat_cases_push(h, cases, (question, gold.push(answer)));
    lemma_eat_cases_push(h, cases, (question, gold));
    let start = eat(eat_cases(h, cases), question);
    lemma_eat_all_push(start, gold, answer);
    lemma_eat_is_fnv(eat_all(start, gold), answer);
}

/// The fingerprint follows the questions and the expected answers, and
/// nothing else: two corpora that ask the same things, whatever their names
/// and however their files were laid out, share it.
pub proof fn law_the_fingerprint_follows_what_is_asked(a: Corpus, b: Corpus)
    requires
        asked(a.cases@) == asked(b.cases@),
    ensures
        fingerprint_of(asked(a.cases@)) == fingerprint_of(asked(b.cases@)),
{
}

} // verus!
