//! What one replay produced: one line per case, then the identity of the run.
//!
//! A record carries enough identity to be compared honestly later: which
//! system, which version, which corpus.
use vstd::prelude::*;
use crate::text::{append, chars_of, decimal, lemma_decimal_width, lemma_padded_order, lemma_text_less_by_parts, lemma_text_less_strict, owned, push_char, push_zero_padded, ten_to, text_less, zero_padded};
use crate::calendar::{civil, day_number, epoch_day, valid_date, lemma_before_year_ten_thousand, lemma_era, lemma_month, lemma_numbers_follow_dates, law_civil_is_the_calendar_date, law_one_number_one_date};

verus! {

/// Where the right answer landed for one case.
#[derive(Debug, Clone, PartialEq)]
pub struct Outcome {
    pub question: String,
    pub gold: Vec<String>,
    /// 1-based rank of the first expected answer, or `None` when it never
    /// came back. Absent is not zero and not a sentinel.
    pub rank: Option<usize>,
    pub returned: Vec<String>,
    /// Every numeric field the top result carried, by name, each number
    /// in the decimal writing it arrived in.
    pub top_numbers: Vec<(String, String)>,
    /// Tokens the candidate reported for this question, if it reported any.
    pub input_tokens: Option<u64>,
    pub output_tokens: Option<u64>,
}

/// The identity of a run: which system, which version, which corpus.
#[derive(Debug, Clone, PartialEq)]
pub struct Meta {
    pub produced_at: String,
    pub candidate: String,
    /// What identifies the version that was measured; `None` when nobody said.
    pub candidate_version: Option<String>,
    pub url: String,
    pub corpus: String,
    pub cases: usize,
    /// Travels beside the candidate's identity: a refreshed corpus retires
    /// the previous reference rather than extending it.
    pub corpus_fingerprint: String,
    pub k: usize,
    pub seconds: u64,
}

#[derive(Debug, Clone, PartialEq)]
pub struct Record {
    pub meta: Meta,
    pub outcomes: Vec<Outcome>,
}

/// The case was answered within the first `cutoff` results.
pub open spec fn found(o: Outcome, cutoff: int) -> bool {
    o.rank matches Some(r) && r <= cutoff
}

/// How many of the outcomes were answered within `cutoff`.
pub open spec fn found_count(outcomes: Seq<Outcome>, cutoff: int) -> nat
    decreases outcomes.len(),
{
    if outcomes.len() == 0 {
        0
    } else {
        found_count(outcomes.drop_last(), cutoff) + if found(outcomes.last(), cutoff) {
            1nat
        } else {
            0nat
        }
    }
}

/// How many outcomes never had an expected answer come back.
pub open spec fn absent_count(outcomes: Seq<Outcome>) -> nat
    decreases outcomes.len(),
{
    if outcomes.len() == 0 {
        0
    } else {
        absent_count(outcomes.drop_last()) + if outcomes.last().rank is None {
            1nat
        } else {
            0nat
        }
    }
}

pub proof fn lemma_found_count_bound(outcomes: Seq<Outcome>, cutoff: int)
    ensures
        found_count(outcomes, cutoff) <= outcomes.len(),
    decreases outcomes.len(),
{
    if outcomes.len() > 0 {
        lemma_found_count_bound(outcomes.drop_last(), cutoff);
    }
}

pub proof fn lemma_absent_count_bound(outcomes: Seq<Outcome>)
    ensures
        absent_count(outcomes) <= outcomes.len(),
    decreases outcomes.len(),
{
    if outcomes.len() > 0 {
        lemma_absent_count_bound(outcomes.drop_last());
    }
}

/// The number of cases whose expected answer landed in the first `cutoff`:
/// the numerator of recall at that cutoff.
pub fn count_found(outcomes: &[Outcome], cutoff: usize) -> (n: usize)
    ensures
        n == found_count(outcomes@, cutoff as int),
{
    let mut n: usize = 0;
    let mut i: usize = 0;
    while i < outcomes.len()
        invariant
            i <= outcomes.len(),
            n == found_count(outcomes@.subrange(0, i as int), cutoff as int),
        decreases outcomes.len() - i,
    {
        proof {
            assert(outcomes@.subrange(0, i + 1).drop_last() =~= outcomes@.subrange(0, i as int));
            lemma_found_count_bound(outcomes@.subrange(0, i as int), cutoff as int);
        }
        let hit = match outcomes[i].rank {
            Some(r) => r <= cutoff,
            None => false,
        };
        if hit {
            n = n + 1;
        }
        i = i + 1;
    }
    assert(outcomes@.subrange(0, outcomes.len() as int) =~= outcomes@);
    n
}

/// The numerator of recall at `cutoff` for a record that asked for `k`
/// results: nothing when the cutoff lies beyond `k`, for a rank beyond what
/// was asked for was never measured. Not zero, not a ceiling: absent.
pub fn found_within(outcomes: &[Outcome], cutoff: usize, k: usize) -> (n: Option<usize>)
    ensures
        n == (if cutoff <= k {
            Some(found_count(outcomes@, cutoff as int) as usize)
        } else {
            None
        }),
{
    if cutoff <= k {
        let c = count_found(outcomes, cutoff);
        Some(c)
    } else {
        None
    }
}

/// The number of cases whose expected answer never came back.
pub fn count_absent(outcomes: &[Outcome]) -> (n: usize)
    ensures
        n == absent_count(outcomes@),
{
    let mut n: usize = 0;
    let mut i: usize = 0;
    while i < outcomes.len()
        invariant
            i <= outcomes.len(),
            n == absent_count(outcomes@.subrange(0, i as int)),
        decreases outcomes.len() - i,
    {
        proof {
            assert(outcomes@.subrange(0, i + 1).drop_last() =~= outcomes@.subrange(0, i as int));
            lemma_absent_count_bound(outcomes@.subrange(0, i as int));
        }
        if outcomes[i].rank.is_none() {
            n = n + 1;
        }
        i = i + 1;
    }
    assert(outcomes@.subrange(0, outcomes.len() as int) =~= outcomes@);
    n
}

/// `p` is a prefix of `s`.
pub open spec fn is_prefix(p: Seq<char>, s: Seq<char>) -> bool {
    p.len() <= s.len() && s.subrange(0, p.len() as int) == p
}

/// `id` is one of the expected answers: some gold entry is a prefix of it.
/// A human types a short id; a service returns the full one.
pub open spec fn is_expected(id: Seq<char>, gold: Seq<Seq<char>>) -> bool {
    exists|j: int| 0 <= j < gold.len() && is_prefix(gold[j], id)
}

/// `rank` is where the first expected answer landed among `returned`,
/// 1-based, or `None` when none came back.
pub open spec fn is_rank_of(rank: Option<usize>, returned: Seq<Seq<char>>, gold: Seq<Seq<char>>) -> bool {
    match rank {
        Some(r) => {
            &&& 1 <= r <= returned.len()
            &&& is_expected(returned[r - 1], gold)
            &&& forall|i: int| 0 <= i < r - 1 ==> !is_expected(#[trigger] returned[i], gold)
        },
        None => forall|i: int| 0 <= i < returned.len() ==> !is_expected(#[trigger] returned[i], gold),
    }
}

fn starts_with(s: &str, p: &str) -> (b: bool)
    ensures
        b == is_prefix(p@, s@),
{
    let sc = chars_of(s);
    let pc = chars_of(p);
    if pc.len() > sc.len() {
        return false;
    }
    let mut j: usize = 0;
    while j < pc.len()
        invariant
            pc@.len() <= sc@.len(),
            sc@ == s@,
            pc@ == p@,
            j <= pc@.len(),
            forall|t: int| 0 <= t < j ==> sc@[t] == pc@[t],
        decreases pc.len() - j,
    {
        if sc[j] != pc[j] {
            assert(s@.subrange(0, p@.len() as int)[j as int] != p@[j as int]);
            return false;
        }
        j = j + 1;
    }
    assert(s@.subrange(0, p@.len() as int) =~= p@);
    true
}

fn expected(id: &String, gold: &[String]) -> (b: bool)
    ensures
        b == is_expected(id@, gold.deep_view()),
{
    let mut j: usize = 0;
    while j < gold.len()
        invariant
            j <= gold@.len(),
            forall|t: int| 0 <= t < j ==> !is_prefix(#[trigger] gold.deep_view()[t], id@),
        decreases gold.len() - j,
    {
        if starts_with(id.as_str(), gold[j].as_str()) {
            assert(gold.deep_view()[j as int] == gold@[j as int]@);
            return true;
        }
        assert(gold.deep_view()[j as int] == gold@[j as int]@);
        j = j + 1;
    }
    false
}

/// The rank of the first expected answer among the ids that came back.
///
/// A gold entry matches by prefix; of several golds, the first one to
/// appear wins, not the first listed.
pub fn rank_of(returned: &[String], gold: &[String]) -> (r: Option<usize>)
    ensures
        is_rank_of(r, returned.deep_view(), gold.deep_view()),
{
    let mut i: usize = 0;
    while i < returned.len()
        invariant
            i <= returned@.len(),
            forall|t: int| 0 <= t < i ==> !is_expected(#[trigger] returned.deep_view()[t], gold.deep_view()),
        decreases returned.len() - i,
    {
        assert(returned.deep_view()[i as int] == returned@[i as int]@);
        if expected(&returned[i], gold) {
            return Some(i + 1);
        }
        i = i + 1;
    }
    None
}

proof fn lemma_prefix_by_characters(p: Seq<char>, s: Seq<char>)
    ensures
        is_prefix(p, s) <==> (p.len() <= s.len() && forall|t: int| 0 <= t < p.len() ==> s[t] == p[t]),
{
    if p.len() <= s.len() && forall|t: int| 0 <= t < p.len() ==> s[t] == p[t] {
        assert(s.subrange(0, p.len() as int) =~= p);
    }
    if is_prefix(p, s) {
        assert forall|t: int| 0 <= t < p.len() implies s[t] == p[t] by {
            assert(s.subrange(0, p.len() as int)[t] == s[t]);
        }
    }
}

/// A rank names where the first answer whose id begins, character for
/// character, with one of the golds came back: an id that merely holds a
/// gold somewhere inside it is no match. With no such id, there is no rank.
pub proof fn law_a_gold_matches_by_prefix(rank: Option<usize>, returned: Seq<Seq<char>>, gold: Seq<Seq<char>>)
    requires
        is_rank_of(rank, returned, gold),
    ensures
        match rank {
            Some(r) => {
                &&& 1 <= r <= returned.len()
                &&& exists|j: int|
                    0 <= j < gold.len() && gold[j].len() <= returned[r - 1].len() && forall|t: int|
                        0 <= t < gold[j].len() ==> returned[r - 1][t] == #[trigger] gold[j][t]
                &&& forall|i: int, j: int|
                    #![trigger returned[i], gold[j]]
                    0 <= i < r - 1 && 0 <= j < gold.len() ==> !(gold[j].len() <= returned[i].len()
                        && forall|t: int| 0 <= t < gold[j].len() ==> returned[i][t] == #[trigger] gold[j][t])
            },
            None => forall|i: int, j: int|
                    #![trigger returned[i], gold[j]]
                0 <= i < returned.len() && 0 <= j < gold.len() ==> !(gold[j].len() <= returned[i].len()
                    && forall|t: int| 0 <= t < gold[j].len() ==> returned[i][t] == #[trigger] gold[j][t]),
        },
{
    assert forall|i: int, j: int| 0 <= i < returned.len() && 0 <= j < gold.len() implies (is_prefix(
        gold[j],
        returned[i],
    ) <==> (gold[j].len() <= returned[i].len() && forall|t: int|
        0 <= t < gold[j].len() ==> returned[i][t] == gold[j][t])) by {
        lemma_prefix_by_characters(gold[j], returned[i]);
    }
    match rank {
        Some(r) => {
            let j = choose|j: int| 0 <= j < gold.len() && is_prefix(gold[j], returned[r - 1]);
            lemma_prefix_by_characters(gold[j], returned[r - 1]);
            assert forall|i: int, j: int|
                    #![trigger returned[i], gold[j]]
                0 <= i < r - 1 && 0 <= j < gold.len() implies !(gold[j].len() <= returned[i].len()
                && forall|t: int| 0 <= t < gold[j].len() ==> returned[i][t] == #[trigger] gold[j][t]) by {
                assert(!is_expected(returned[i], gold));
                lemma_prefix_by_characters(gold[j], returned[i]);
            }
        },
        None => {
            assert forall|i: int, j: int|
                    #![trigger returned[i], gold[j]]
                0 <= i < returned.len() && 0 <= j < gold.len() implies !(gold[j].len() <= returned[i].len() && forall|t: int|
                0 <= t < gold[j].len() ==> returned[i][t] == #[trigger] gold[j][t]) by {
                assert(!is_expected(returned[i], gold));
                lemma_prefix_by_characters(gold[j], returned[i]);
            }
        },
    }
}

/// `s` without its colons (`str::replace(':', "")`).
pub open spec fn without_colons(s: Seq<char>) -> Seq<char>
    decreases s.len(),
{
    if s.len() == 0 {
        seq![]
    } else if s.last() == ':' {
        without_colons(s.drop_last())
    } else {
        without_colons(s.drop_last()).push(s.last())
    }
}

/// Where a run writes its record when no `--out` is given: under
/// `records/`, named by when it was produced and by the candidate. The
/// colons of the timestamp are left out of the file name.
pub fn record_path(produced_at: &str, candidate: &str) -> (p: String)
    ensures
        p@ == "records/"@ + without_colons(produced_at@) + "-"@ + candidate@ + ".json"@,
{
    let mut p = owned("records/");
    let ghost start = p@;
    let c = chars_of(produced_at);
    let mut i: usize = 0;
    while i < c.len()
        invariant
            c@ == produced_at@,
            i <= c@.len(),
            p@ == start + without_colons(c@.subrange(0, i as int)),
        decreases c.len() - i,
    {
        assert(c@.subrange(0, i + 1).drop_last() =~= c@.subrange(0, i as int));
        if c[i] != ':' {
            push_char(&mut p, c[i]);
        }
        i = i + 1;
        assert(p@ =~= start + without_colons(c@.subrange(0, i as int)));
    }
    assert(c@.subrange(0, c@.len() as int) =~= c@);
    append(&mut p, "-");
    append(&mut p, candidate);
    append(&mut p, ".json");
    p
}

/// `y-m-dTh:mi:sZ`, the year in at least four digits and every other
/// field in two.
pub open spec fn iso_text(y: nat, m: nat, d: nat, h: nat, mi: nat, s: nat) -> Seq<char> {
    field_then(
        y,
        4,
        "-"@,
        field_then(m, 2, "-"@, field_then(d, 2, "T"@, field_then(h, 2, ":"@, field_then(mi, 2, ":"@, field_then(s, 2, "Z"@, seq![]))))),
    )
}

/// The calendar date of the day `days` after the first of January 1970.
fn civil_of(days: u64) -> (r: (u64, u64, u64))
    requires
        days <= u64::MAX / 86400,
    ensures
        (r.0 as int, r.1 as int, r.2 as int) == civil(days as int),
{
    let z = days + 719468;
    let era = z / 146097;
    let doe = z - era * 146097;
    assert(doe == z % 146097);
    proof {
        lemma_era(doe as u32);
    }
    let yoe = (doe - doe / 1460 + doe / 36524 - doe / 146096) / 365;
    let doy = doe - (365 * yoe + yoe / 4 - yoe / 100);
    proof {
        lemma_month(doy as u32);
    }
    let mp = (5 * doy + 2) / 153;
    let d = doy - (153 * mp + 2) / 5 + 1;
    let m = if mp < 10 {
        mp + 3
    } else {
        mp - 9
    };
    let y = yoe + era * 400 + if m <= 2 {
        1
    } else {
        0
    };
    (y, m, d)
}

/// Appends one field of a timestamp and the separator after it.
fn push_field(t: &mut String, n: u64, w: usize, sep: &str)
    ensures
        final(t)@ == old(t)@ + (digits(n as nat, w as nat) + sep@),
{
    push_zero_padded(t, n, w);
    append(t, sep);
    assert(t@ =~= old(t)@ + (digits(n as nat, w as nat) + sep@));
}

proof fn lemma_then(x: Seq<char>, n: nat, w: nat, sep: Seq<char>, rest: Seq<char>)
    ensures
        (x + (digits(n, w) + sep)) + rest == x + field_then(n, w, sep, rest),
{
    assert((x + (digits(n, w) + sep)) + rest =~= x + field_then(n, w, sep, rest));
}

fn push_iso(t: &mut String, y: u64, m: u64, d: u64, h: u64, mi: u64, s: u64)
    ensures
        final(t)@ == old(t)@ + iso_text(y as nat, m as nat, d as nat, h as nat, mi as nat, s as nat),
{
    let ghost o = t@;
    push_field(t, y, 4, "-");
    let ghost t1 = t@;
    push_field(t, m, 2, "-");
    let ghost t2 = t@;
    push_field(t, d, 2, "T");
    let ghost t3 = t@;
    push_field(t, h, 2, ":");
    let ghost t4 = t@;
    push_field(t, mi, 2, ":");
    let ghost t5 = t@;
    push_field(t, s, 2, "Z");
    proof {
        let z: Seq<char> = seq![];
        let r6 = field_then(s as nat, 2, "Z"@, z);
        let r5 = field_then(mi as nat, 2, ":"@, r6);
        let r4 = field_then(h as nat, 2, ":"@, r5);
        let r3 = field_then(d as nat, 2, "T"@, r4);
        let r2 = field_then(m as nat, 2, "-"@, r3);
        assert(t@ + z =~= t@);
        lemma_then(t5, s as nat, 2, "Z"@, z);
        lemma_then(t4, mi as nat, 2, ":"@, r6);
        lemma_then(t3, h as nat, 2, ":"@, r5);
        lemma_then(t2, d as nat, 2, "T"@, r4);
        lemma_then(t1, m as nat, 2, "-"@, r3);
        lemma_then(o, y as nat, 4, "-"@, r2);
    }
}

/// The last second whose year has four digits: 9999-12-31T23:59:59Z.
pub const LAST_FOUR_DIGIT_SECOND: u64 = 253402300799;

/// `t` is the time `unix` seconds after the epoch, written
/// `YYYY-MM-DDTHH:MM:SSZ`: the calendar date that lies `unix / 86400` days
/// after the first of January 1970, and the time of day of the seconds left
/// over.
pub open spec fn is_utc_text(t: Seq<char>, unix: nat) -> bool {
    exists|y: nat, m: nat, d: nat|
            {
                &&& valid_date(y as int, m as int, d as int)
                &&& day_number(y, m as int, d as int) == unix / 86400 + epoch_day()
                &&& t == iso_text(
                    y,
                    m,
                    d,
                    ((unix % 86400) / 3600) as nat,
                    ((unix % 3600) / 60) as nat,
                    (unix % 60) as nat,
                )
            }
}

/// UTC as `YYYY-MM-DDTHH:MM:SSZ`, from seconds since the epoch: the
/// calendar date that lies `unix / 86400` days after the first of January
/// 1970, and the time of day of the seconds left over.
#[verifier::spinoff_prover]
#[verifier::rlimit(60)]
pub fn utc_iso(unix: u64) -> (t: String)
    ensures
        is_utc_text(t@, unix as nat),
        unix <= LAST_FOUR_DIGIT_SECOND ==> t@.len() == 20,
{
    let days = unix / 86400;
    let secs = unix % 86400;
    let (y, m, d) = civil_of(days);
    proof {
        law_civil_is_the_calendar_date(days as int);
        assert((secs % 3600) / 60 == (unix % 3600) / 60) by {
            assert(unix % 3600 == (unix % 86400) % 3600);
        }
        assert(secs % 60 == unix % 60) by {
            assert(unix % 60 == (unix % 86400) % 60);
        }
    }
    proof {
        if unix <= LAST_FOUR_DIGIT_SECOND {
            lemma_before_year_ten_thousand(y as nat, m as int, d as int);
            lemma_decimal_width(y as nat);
            lemma_decimal_width(m as nat);
            lemma_decimal_width(d as nat);
            lemma_decimal_width((secs / 3600) as nat);
            lemma_decimal_width(((secs % 3600) / 60) as nat);
            lemma_decimal_width((secs % 60) as nat);
            reveal_strlit("-");
            reveal_strlit("T");
            reveal_strlit(":");
            reveal_strlit("Z");
        }
    }
    let mut t = String::new();
    push_iso(&mut t, y, m, d, secs / 3600, (secs % 3600) / 60, secs % 60);
    assert(t@ =~= iso_text(
        y as nat,
        m as nat,
        d as nat,
        ((unix % 86400) / 3600) as nat,
        ((unix % 3600) / 60) as nat,
        (unix % 60) as nat,
    ));
    t
}

/// `w` digits of `n`.
pub open spec fn digits(n: nat, w: nat) -> Seq<char> {
    zero_padded(decimal(n), w)
}

/// One field of a timestamp, a separator, and what follows.
pub open spec fn field_then(n: nat, w: nat, sep: Seq<char>, rest: Seq<char>) -> Seq<char> {
    digits(n, w) + (sep + rest)
}

/// `x` sorts no later than `y`.
pub open spec fn text_le(x: Seq<char>, y: Seq<char>) -> bool {
    x == y || text_less(x, y)
}

/// A field sorts a text: a smaller field first, and an equal field leaves
/// the order to what follows.
proof fn lemma_field_step(a: nat, b: nat, w: nat, sep: Seq<char>, u: Seq<char>, v: Seq<char>)
    requires
        w >= 1,
        a <= b < ten_to(w),
        a == b ==> text_le(u, v),
    ensures
        text_le(field_then(a, w, sep, u), field_then(b, w, sep, v)),
{
    if a < b {
        lemma_padded_order(a, b, w);
        lemma_text_less_strict(digits(a, w), digits(b, w));
        lemma_text_less_by_parts(digits(a, w), sep + u, digits(b, w), sep + v);
    } else {
        lemma_text_less_by_parts(digits(a, w), sep + u, digits(b, w), sep + v);
        lemma_text_less_by_parts(sep, u, sep, v);
    }
}

/// Two timestamps in the order of their fields sort in that order.
proof fn lemma_iso_order(
    y1: nat,
    m1: nat,
    d1: nat,
    h1: nat,
    i1: nat,
    s1: nat,
    y2: nat,
    m2: nat,
    d2: nat,
    h2: nat,
    i2: nat,
    s2: nat,
)
    requires
        y1 < 10000 && y2 < 10000,
        m1 < 100 && m2 < 100 && d1 < 100 && d2 < 100 && h1 < 100 && h2 < 100,
        i1 < 100 && i2 < 100 && s1 < 100 && s2 < 100,
        y1 < y2 || (y1 == y2 && (m1 < m2 || (m1 == m2 && (d1 < d2 || (d1 == d2 && (h1 < h2 || (h1 == h2 && (
        i1 < i2 || (i1 == i2 && s1 <= s2))))))))),
    ensures
        text_le(iso_text(y1, m1, d1, h1, i1, s1), iso_text(y2, m2, d2, h2, i2, s2)),
{
    reveal_with_fuel(ten_to, 5);
    let z: Seq<char> = seq![];
    let t6a = field_then(s1, 2, "Z"@, z);
    let t6b = field_then(s2, 2, "Z"@, z);
    let t5a = field_then(i1, 2, ":"@, t6a);
    let t5b = field_then(i2, 2, ":"@, t6b);
    let t4a = field_then(h1, 2, ":"@, t5a);
    let t4b = field_then(h2, 2, ":"@, t5b);
    let t3a = field_then(d1, 2, "T"@, t4a);
    let t3b = field_then(d2, 2, "T"@, t4b);
    let t2a = field_then(m1, 2, "-"@, t3a);
    let t2b = field_then(m2, 2, "-"@, t3b);
    if y1 == y2 && m1 == m2 && d1 == d2 && h1 == h2 && i1 == i2 {
        lemma_field_step(s1, s2, 2, "Z"@, z, z);
    }
    if y1 == y2 && m1 == m2 && d1 == d2 && h1 == h2 {
        lemma_field_step(i1, i2, 2, ":"@, t6a, t6b);
    }
    if y1 == y2 && m1 == m2 && d1 == d2 {
        lemma_field_step(h1, h2, 2, ":"@, t5a, t5b);
    }
    if y1 == y2 && m1 == m2 {
        lemma_field_step(d1, d2, 2, "T"@, t4a, t4b);
    }
    if y1 == y2 {
        lemma_field_step(m1, m2, 2, "-"@, t3a, t3b);
    }
    lemma_field_step(y1, y2, 4, "-"@, t2a, t2b);
}

/// Within one day, a later second has a later time of day.
proof fn lemma_time_of_day_order(a: nat, b: nat)
    requires
        a <= b,
        a / 86400 == b / 86400,
    ensures
        ({
            let (ha, ia, sa) = ((a % 86400) / 3600, (a % 3600) / 60, a % 60);
            let (hb, ib, sb) = ((b % 86400) / 3600, (b % 3600) / 60, b % 60);
            ha < hb || (ha == hb && (ia < ib || (ia == ib && sa <= sb)))
        }),
{
    let day = a / 86400;
    let (ra, rb) = (a % 86400, b % 86400);
    vstd::arithmetic::div_mod::lemma_fundamental_div_mod(a as int, 86400);
    vstd::arithmetic::div_mod::lemma_fundamental_div_mod(b as int, 86400);
    assert(ra <= rb);
    assert(3600 * (24 * day) == 86400 * day);
    assert(60 * (1440 * day) == 86400 * day);
    vstd::arithmetic::div_mod::lemma_mod_multiples_vanish((24 * day) as int, ra as int, 3600);
    vstd::arithmetic::div_mod::lemma_mod_multiples_vanish((24 * day) as int, rb as int, 3600);
    vstd::arithmetic::div_mod::lemma_mod_multiples_vanish((1440 * day) as int, ra as int, 60);
    vstd::arithmetic::div_mod::lemma_mod_multiples_vanish((1440 * day) as int, rb as int, 60);
    assert(a % 3600 == ra % 3600);
    assert(b % 3600 == rb % 3600);
    assert(a % 60 == ra % 60);
    assert(b % 60 == rb % 60);
    vstd::arithmetic::div_mod::lemma_fundamental_div_mod(ra as int, 3600);
    vstd::arithmetic::div_mod::lemma_fundamental_div_mod(rb as int, 3600);
    vstd::arithmetic::div_mod::lemma_fundamental_div_mod((ra % 3600) as int, 60);
    vstd::arithmetic::div_mod::lemma_fundamental_div_mod((rb % 3600) as int, 60);
    assert(ra % 60 == (ra % 3600) % 60) by {
        vstd::arithmetic::div_mod::lemma_mod_multiples_vanish((ra / 3600 * 60) as int, (ra % 3600) as int, 60);
    }
    assert(rb % 60 == (rb % 3600) % 60) by {
        vstd::arithmetic::div_mod::lemma_mod_multiples_vanish((rb / 3600 * 60) as int, (rb % 3600) as int, 60);
    }
}

/// Timestamps sort as the times they write: of two instants up to the last
/// second of year 9999, the later one's text never sorts first.
pub proof fn law_later_times_sort_later(a: nat, b: nat, ta: Seq<char>, tb: Seq<char>)
    requires
        a <= b <= LAST_FOUR_DIGIT_SECOND,
        is_utc_text(ta, a),
        is_utc_text(tb, b),
    ensures
        text_le(ta, tb),
{
    let (ya, ma, da) = choose|y: nat, m: nat, d: nat|
        {
            &&& valid_date(y as int, m as int, d as int)
            &&& day_number(y, m as int, d as int) == a / 86400 + epoch_day()
            &&& ta == iso_text(y, m, d, ((a % 86400) / 3600) as nat, ((a % 3600) / 60) as nat, (a % 60) as nat)
        };
    let (yb, mb, db) = choose|y: nat, m: nat, d: nat|
        {
            &&& valid_date(y as int, m as int, d as int)
            &&& day_number(y, m as int, d as int) == b / 86400 + epoch_day()
            &&& tb == iso_text(y, m, d, ((b % 86400) / 3600) as nat, ((b % 3600) / 60) as nat, (b % 60) as nat)
        };
    assert(a / 86400 <= b / 86400 <= 2932896) by (nonlinear_arith)
        requires
            a <= b <= 253402300799,
    ;
    lemma_before_year_ten_thousand(ya, ma as int, da as int);
    lemma_before_year_ten_thousand(yb, mb as int, db as int);
    if a / 86400 == b / 86400 {
        law_one_number_one_date(ya, ma as int, da as int, yb, mb as int, db as int);
        lemma_time_of_day_order(a, b);
    } else {
        lemma_numbers_follow_dates(ya, ma as int, da as int, yb, mb as int, db as int);
    }
    lemma_iso_order(
        ya,
        ma,
        da,
        ((a % 86400) / 3600) as nat,
        ((a % 3600) / 60) as nat,
        (a % 60) as nat,
        yb,
        mb,
        db,
        ((b % 86400) / 3600) as nat,
        ((b % 3600) / 60) as nat,
        (b % 60) as nat,
    );
}

} // verus!
