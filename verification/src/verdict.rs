//! Comparing two records of the same corpus, case by case.
//!
//! The comparison is paired: the same questions, asked of both, matched one
//! by one. Only the cases that changed camp carry information; this module
//! finds them, names them, and refuses two records that cannot be paired.
use vstd::prelude::*;
use crate::record::{found, found_count, Outcome, Record, lemma_found_count_bound};
use crate::text::{append, push_decimal, quoted, debug_quoted};

verus! {

/// The questions (in case order) among the first `n` cases that the
/// reference found within `cutoff` and the candidate did not.
pub open spec fn lost_upto(r: Seq<Outcome>, c: Seq<Outcome>, cutoff: int, n: int) -> Seq<Seq<char>>
    decreases n,
{
    if n <= 0 {
        seq![]
    } else if found(r[n - 1], cutoff) && !found(c[n - 1], cutoff) {
        lost_upto(r, c, cutoff, n - 1).push(r[n - 1].question@)
    } else {
        lost_upto(r, c, cutoff, n - 1)
    }
}

/// The questions (in case order) among the first `n` cases that the
/// candidate found within `cutoff` and the reference did not.
pub open spec fn gained_upto(r: Seq<Outcome>, c: Seq<Outcome>, cutoff: int, n: int) -> Seq<Seq<char>>
    decreases n,
{
    if n <= 0 {
        seq![]
    } else if !found(r[n - 1], cutoff) && found(c[n - 1], cutoff) {
        gained_upto(r, c, cutoff, n - 1).push(r[n - 1].question@)
    } else {
        gained_upto(r, c, cutoff, n - 1)
    }
}

/// Cases the reference found and the candidate lost.
pub open spec fn lost(r: Seq<Outcome>, c: Seq<Outcome>, cutoff: int) -> Seq<Seq<char>> {
    lost_upto(r, c, cutoff, r.len() as int)
}

/// Cases the candidate found and the reference missed.
pub open spec fn gained(r: Seq<Outcome>, c: Seq<Outcome>, cutoff: int) -> Seq<Seq<char>> {
    gained_upto(r, c, cutoff, r.len() as int)
}

/// The first of the first `n` cases whose questions differ, if any.
pub open spec fn mismatch_upto(r: Seq<Outcome>, c: Seq<Outcome>, n: int) -> Option<int>
    decreases n,
{
    if n <= 0 {
        None
    } else {
        match mismatch_upto(r, c, n - 1) {
            Some(i) => Some(i),
            None => if r[n - 1].question@ != c[n - 1].question@ {
                Some(n - 1)
            } else {
                None
            },
        }
    }
}

/// The two records can be paired: same corpus, same number of results asked
/// for, the same cases in the same order.
pub open spec fn comparable(reference: Record, candidate: Record) -> bool {
    &&& reference.meta.corpus_fingerprint@ == candidate.meta.corpus_fingerprint@
    &&& reference.meta.k == candidate.meta.k
    &&& reference.outcomes@.len() == candidate.outcomes@.len()
    &&& mismatch_upto(reference.outcomes@, candidate.outcomes@, reference.outcomes@.len() as int) is None
}

pub open spec fn not_same_corpus_message(a: Seq<char>, b: Seq<char>) -> Seq<char> {
    "these records are not of the same corpus ("@ + a + " vs "@ + b
        + "). A refresh retires the previous reference rather than extending it: re-measure the reference on the new corpus first"@
}

pub open spec fn not_same_k_message(a: nat, b: nat) -> Seq<char> {
    "one record asked for "@ + crate::text::decimal(a) + " results and the other for "@
        + crate::text::decimal(b)
        + "; ranks beyond the smaller of the two were never measured"@
}

pub open spec fn not_same_count_message() -> Seq<char> {
    "the two records do not hold the same number of cases"@
}

pub open spec fn not_same_order_message(a: Seq<char>, b: Seq<char>) -> Seq<char> {
    "the cases are not in the same order: "@ + debug_quoted(a) + " against "@ + debug_quoted(b)
}

/// Why two records cannot be compared: the first check that fails.
pub open spec fn refusal(reference: Record, candidate: Record) -> Seq<char> {
    let (r, c) = (reference.outcomes@, candidate.outcomes@);
    if reference.meta.corpus_fingerprint@ != candidate.meta.corpus_fingerprint@ {
        not_same_corpus_message(reference.meta.corpus_fingerprint@, candidate.meta.corpus_fingerprint@)
    } else if reference.meta.k != candidate.meta.k {
        not_same_k_message(reference.meta.k as nat, candidate.meta.k as nat)
    } else if r.len() != c.len() {
        not_same_count_message()
    } else {
        let i = mismatch_upto(r, c, r.len() as int)->0;
        not_same_order_message(r[i].question@, c[i].question@)
    }
}

/// What changed at one cutoff.
#[derive(Debug, Clone, PartialEq)]
pub struct Discordance {
    pub cutoff: usize,
    /// How many cases both records hold.
    pub cases: usize,
    /// How many cases each record found within the cutoff.
    pub reference_found: usize,
    pub candidate_found: usize,
    /// Cases the reference found and the candidate lost.
    pub regressions: Vec<String>,
    /// Cases the candidate found and the reference missed.
    pub improvements: Vec<String>,
}

/// `d` is exactly what pairing `r` with `c` at `cutoff` shows.
pub open spec fn describes(d: Discordance, r: Seq<Outcome>, c: Seq<Outcome>, cutoff: int) -> bool {
    &&& d.cutoff == cutoff
    &&& d.cases == r.len()
    &&& d.reference_found == found_count(r, cutoff)
    &&& d.candidate_found == found_count(c, cutoff)
    &&& d.regressions.deep_view() == lost(r, c, cutoff)
    &&& d.improvements.deep_view() == gained(r, c, cutoff)
}

proof fn lemma_upto_bounds(r: Seq<Outcome>, c: Seq<Outcome>, cutoff: int, n: int)
    requires
        0 <= n,
    ensures
        lost_upto(r, c, cutoff, n).len() <= n,
        gained_upto(r, c, cutoff, n).len() <= n,
    decreases n,
{
    if n > 0 {
        lemma_upto_bounds(r, c, cutoff, n - 1);
    }
}

fn is_found(o: &Outcome, cutoff: usize) -> (b: bool)
    ensures
        b == found(*o, cutoff as int),
{
    match o.rank {
        Some(r) => r <= cutoff,
        None => false,
    }
}

/// Pairs the outcomes of two records at one cutoff.
fn discordance_at(r: &Vec<Outcome>, c: &Vec<Outcome>, cutoff: usize) -> (d: Discordance)
    requires
        r@.len() == c@.len(),
    ensures
        describes(d, r@, c@, cutoff as int),
{
    let mut regressions: Vec<String> = Vec::new();
    let mut improvements: Vec<String> = Vec::new();
    let mut reference_found: usize = 0;
    let mut candidate_found: usize = 0;
    let mut i: usize = 0;
    while i < r.len()
        invariant
            r@.len() == c@.len(),
            i <= r.len(),
            reference_found == found_count(r@.subrange(0, i as int), cutoff as int),
            candidate_found == found_count(c@.subrange(0, i as int), cutoff as int),
            regressions.deep_view() == lost_upto(r@, c@, cutoff as int, i as int),
            improvements.deep_view() == gained_upto(r@, c@, cutoff as int, i as int),
        decreases r.len() - i,
    {
        proof {
            assert(r@.subrange(0, i + 1).drop_last() =~= r@.subrange(0, i as int));
            assert(c@.subrange(0, i + 1).drop_last() =~= c@.subrange(0, i as int));
            lemma_found_count_bound(r@.subrange(0, i as int), cutoff as int);
            lemma_found_count_bound(c@.subrange(0, i as int), cutoff as int);
        }
        let a = is_found(&r[i], cutoff);
        let b = is_found(&c[i], cutoff);
        if a {
            reference_found = reference_found + 1;
        }
        if b {
            candidate_found = candidate_found + 1;
        }
        if a && !b {
            let q = r[i].question.clone();
            regressions.push(q);
            assert(regressions.deep_view() =~= lost_upto(r@, c@, cutoff as int, i + 1));
        } else if !a && b {
            let q = r[i].question.clone();
            improvements.push(q);
            assert(improvements.deep_view() =~= gained_upto(r@, c@, cutoff as int, i + 1));
        }
        i = i + 1;
    }
    assert(r@.subrange(0, r@.len() as int) =~= r@);
    assert(c@.subrange(0, c@.len() as int) =~= c@);
    Discordance {
        cutoff,
        cases: r.len(),
        reference_found,
        candidate_found,
        regressions,
        improvements,
    }
}

/// The first case, if any, whose questions differ between the two lists.
fn first_mismatch(r: &Vec<Outcome>, c: &Vec<Outcome>) -> (m: Option<usize>)
    requires
        r@.len() == c@.len(),
    ensures
        match m {
            Some(i) => mismatch_upto(r@, c@, r@.len() as int) == Some(i as int) && i < r@.len(),
            None => mismatch_upto(r@, c@, r@.len() as int) is None,
        },
{
    let mut i: usize = 0;
    while i < r.len()
        invariant
            r@.len() == c@.len(),
            i <= r.len(),
            mismatch_upto(r@, c@, i as int) is None,
        decreases r.len() - i,
    {
        if r[i].question != c[i].question {
            proof {
                lemma_mismatch_stays(r@, c@, i as int + 1, r@.len() as int);
            }
            return Some(i);
        }
        i = i + 1;
    }
    None
}

proof fn lemma_mismatch_stays(r: Seq<Outcome>, c: Seq<Outcome>, n: int, m: int)
    requires
        0 < n <= m,
        mismatch_upto(r, c, n) is Some,
    ensures
        mismatch_upto(r, c, m) == mismatch_upto(r, c, n),
    decreases m - n,
{
    if m > n {
        lemma_mismatch_stays(r, c, n, m - 1);
    }
}

/// Compares two records at each cutoff, or says why they cannot be compared.
///
/// Refusing is the point: two records of different corpora, or asked for a
/// different number of results, give a number that looks exactly like a
/// comparison and is not one.
pub fn compare(reference: &Record, candidate: &Record, cutoffs: &[usize]) -> (res: Result<
    Vec<Discordance>,
    String,
>)
    ensures
        match res {
            Ok(v) => {
                &&& comparable(*reference, *candidate)
                &&& v@.len() == cutoffs@.len()
                &&& forall|j: int|
                    0 <= j < v@.len() ==> describes(
                        #[trigger] v@[j],
                        reference.outcomes@,
                        candidate.outcomes@,
                        cutoffs@[j] as int,
                    )
                &&& forall|j: int|
                    0 <= j < v@.len() ==> (#[trigger] v@[j]).reference_found == reference.outcomes@.filter(
                        |o: Outcome| o.rank matches Some(x) && x <= cutoffs@[j],
                    ).len() && v@[j].candidate_found == candidate.outcomes@.filter(
                        |o: Outcome| o.rank matches Some(x) && x <= cutoffs@[j],
                    ).len()
                &&& forall|j: int|
                    0 <= j < v@.len() ==> (#[trigger] v@[j]).regressions.deep_view() == Seq::new(
                        reference.outcomes@.len(),
                        |i: int| i,
                    ).filter(
                        |i: int|
                            (reference.outcomes@[i].rank matches Some(x) && x <= cutoffs@[j])
                                && !(candidate.outcomes@[i].rank matches Some(y) && y <= cutoffs@[j]),
                    ).map_values(|i: int| reference.outcomes@[i].question@)
            },
            Err(e) => !comparable(*reference, *candidate) && e@ == refusal(*reference, *candidate),
        },
{
    let (rm, cm) = (&reference.meta, &candidate.meta);
    if rm.corpus_fingerprint != cm.corpus_fingerprint {
        let mut e = String::new();
        append(&mut e, "these records are not of the same corpus (");
        append(&mut e, rm.corpus_fingerprint.as_str());
        append(&mut e, " vs ");
        append(&mut e, cm.corpus_fingerprint.as_str());
        append(
            &mut e,
            "). A refresh retires the previous reference rather than extending it: re-measure the reference on the new corpus first",
        );
        return Err(e);
    }
    if rm.k != cm.k {
        let mut e = String::new();
        append(&mut e, "one record asked for ");
        push_decimal(&mut e, rm.k as u64);
        append(&mut e, " results and the other for ");
        push_decimal(&mut e, cm.k as u64);
        append(&mut e, "; ranks beyond the smaller of the two were never measured");
        return Err(e);
    }
    if reference.outcomes.len() != candidate.outcomes.len() {
        let mut e = String::new();
        append(&mut e, "the two records do not hold the same number of cases");
        return Err(e);
    }
    match first_mismatch(&reference.outcomes, &candidate.outcomes) {
        Some(i) => {
            let mut e = String::new();
            append(&mut e, "the cases are not in the same order: ");
            let a = quoted(reference.outcomes[i].question.as_str());
            append(&mut e, a.as_str());
            append(&mut e, " against ");
            let b = quoted(candidate.outcomes[i].question.as_str());
            append(&mut e, b.as_str());
            return Err(e);
        },
        None => {},
    }
    let mut v: Vec<Discordance> = Vec::new();
    let mut j: usize = 0;
    while j < cutoffs.len()
        invariant
            reference.outcomes@.len() == candidate.outcomes@.len(),
            j <= cutoffs@.len(),
            v@.len() == j,
            forall|t: int|
                0 <= t < j ==> describes(
                    #[trigger] v@[t],
                    reference.outcomes@,
                    candidate.outcomes@,
                    cutoffs@[t] as int,
                ),
        decreases cutoffs.len() - j,
    {
        let d = discordance_at(&reference.outcomes, &candidate.outcomes, cutoffs[j]);
        v.push(d);
        j = j + 1;
    }
    proof {
        assert forall|j: int| 0 <= j < v@.len() implies (#[trigger] v@[j]).reference_found
            == reference.outcomes@.filter(|o: Outcome| o.rank matches Some(x) && x <= cutoffs@[j]).len()
            && v@[j].candidate_found == candidate.outcomes@.filter(
            |o: Outcome| o.rank matches Some(x) && x <= cutoffs@[j],
        ).len() by {
            law_found_means_within_the_cutoff(v@[j], reference.outcomes@, candidate.outcomes@, cutoffs@[j] as int);
        }
        assert forall|j: int| 0 <= j < v@.len() implies (#[trigger] v@[j]).regressions.deep_view() == Seq::new(
            reference.outcomes@.len(),
            |i: int| i,
        ).filter(
            |i: int|
                (reference.outcomes@[i].rank matches Some(x) && x <= cutoffs@[j])
                    && !(candidate.outcomes@[i].rank matches Some(y) && y <= cutoffs@[j]),
        ).map_values(|i: int| reference.outcomes@[i].question@) by {
            law_the_lists_name_the_cases_that_changed_camp(
                v@[j],
                reference.outcomes@,
                candidate.outcomes@,
                cutoffs@[j] as int,
            );
        }
    }
    Ok(v)
}

proof fn lemma_found_count_is_a_filter(s: Seq<Outcome>, cutoff: int, pred: spec_fn(Outcome) -> bool)
    requires
        forall|o: Outcome| #[trigger] pred(o) == (o.rank matches Some(x) && x <= cutoff),
    ensures
        found_count(s, cutoff) == s.filter(pred).len(),
    decreases s.len(),
{
    if s.len() > 0 {
        lemma_found_count_is_a_filter(s.drop_last(), cutoff, pred);
        assert(pred(s.last()) == found(s.last(), cutoff));
        reveal(Seq::filter);
    } else {
        reveal(Seq::filter);
    }
}

/// At each cutoff, a record's found count is the number of its cases
/// whose expected answer came back at a rank no deeper than the cutoff: a
/// case answered at rank 3 is not found at cutoff 1, and a case with no
/// answer is found at no cutoff.
pub proof fn law_found_means_within_the_cutoff(d: Discordance, r: Seq<Outcome>, c: Seq<Outcome>, cutoff: int)
    requires
        describes(d, r, c, cutoff),
    ensures
        d.reference_found == r.filter(|o: Outcome| o.rank matches Some(x) && x <= cutoff).len(),
        d.candidate_found == c.filter(|o: Outcome| o.rank matches Some(x) && x <= cutoff).len(),
{
    lemma_found_count_is_a_filter(r, cutoff, |o: Outcome| o.rank matches Some(x) && x <= cutoff);
    lemma_found_count_is_a_filter(c, cutoff, |o: Outcome| o.rank matches Some(x) && x <= cutoff);
}

proof fn lemma_lost_is_a_filter(r: Seq<Outcome>, c: Seq<Outcome>, cutoff: int, n: int)
    requires
        0 <= n <= r.len(),
        r.len() == c.len(),
    ensures
        lost_upto(r, c, cutoff, n) == Seq::new(n as nat, |i: int| i).filter(
            |i: int|
                (r[i].rank matches Some(x) && x <= cutoff) && !(c[i].rank matches Some(y) && y <= cutoff),
        ).map_values(|i: int| r[i].question@),
        gained_upto(r, c, cutoff, n) == Seq::new(n as nat, |i: int| i).filter(
            |i: int|
                !(r[i].rank matches Some(x) && x <= cutoff) && (c[i].rank matches Some(y) && y <= cutoff),
        ).map_values(|i: int| r[i].question@),
    decreases n,
{
    reveal(Seq::filter);
    let lp = |i: int| (r[i].rank matches Some(x) && x <= cutoff) && !(c[i].rank matches Some(y) && y <= cutoff);
    let gp = |i: int| !(r[i].rank matches Some(x) && x <= cutoff) && (c[i].rank matches Some(y) && y <= cutoff);
    let q = |i: int| r[i].question@;
    let idx = Seq::new(n as nat, |i: int| i);
    if n == 0 {
        assert(idx.filter(lp) =~= Seq::<int>::empty());
        assert(idx.filter(gp) =~= Seq::<int>::empty());
        assert(idx.filter(lp).map_values(q) =~= Seq::<Seq<char>>::empty());
        assert(idx.filter(gp).map_values(q) =~= Seq::<Seq<char>>::empty());
    } else {
        lemma_lost_is_a_filter(r, c, cutoff, n - 1);
        let prev = Seq::new((n - 1) as nat, |i: int| i);
        assert(idx.drop_last() =~= prev);
        assert(idx.last() == n - 1);
        assert(idx.filter(lp) == if lp(n - 1) {
            prev.filter(lp).push(n - 1)
        } else {
            prev.filter(lp)
        });
        assert(idx.filter(gp) == if gp(n - 1) {
            prev.filter(gp).push(n - 1)
        } else {
            prev.filter(gp)
        });
        assert(prev.filter(lp).push(n - 1).map_values(q) =~= prev.filter(lp).map_values(q).push(q(n - 1)));
        assert(prev.filter(gp).push(n - 1).map_values(q) =~= prev.filter(gp).map_values(q).push(q(n - 1)));
        assert(found(r[n - 1], cutoff) == (r[n - 1].rank matches Some(x) && x <= cutoff));
        assert(found(c[n - 1], cutoff) == (c[n - 1].rank matches Some(y) && y <= cutoff));
    }
}

/// At each cutoff, the regressions are the questions, in corpus order, of
/// exactly the cases the reference answered within the cutoff and the
/// candidate did not; the improvements those of the cases the candidate
/// answered within the cutoff and the reference did not. Cases on which
/// the two agree are in neither list.
pub proof fn law_the_lists_name_the_cases_that_changed_camp(
    d: Discordance,
    r: Seq<Outcome>,
    c: Seq<Outcome>,
    cutoff: int,
)
    requires
        describes(d, r, c, cutoff),
        r.len() == c.len(),
    ensures
        d.regressions.deep_view() == Seq::new(r.len(), |i: int| i).filter(
            |i: int|
                (r[i].rank matches Some(x) && x <= cutoff) && !(c[i].rank matches Some(y) && y <= cutoff),
        ).map_values(|i: int| r[i].question@),
        d.improvements.deep_view() == Seq::new(r.len(), |i: int| i).filter(
            |i: int|
                !(r[i].rank matches Some(x) && x <= cutoff) && (c[i].rank matches Some(y) && y <= cutoff),
        ).map_values(|i: int| r[i].question@),
{
    lemma_lost_is_a_filter(r, c, cutoff, r.len() as int);
}

/// Pairing a record with itself changes nothing: no case is lost and none is
/// gained, at any cutoff.
pub proof fn law_a_record_agrees_with_itself(r: Seq<Outcome>, cutoff: int)
    ensures
        lost(r, r, cutoff) == Seq::<Seq<char>>::empty(),
        gained(r, r, cutoff) == Seq::<Seq<char>>::empty(),
{
    lemma_self_upto(r, cutoff, r.len() as int);
}

proof fn lemma_self_upto(r: Seq<Outcome>, cutoff: int, n: int)
    ensures
        lost_upto(r, r, cutoff, n) == Seq::<Seq<char>>::empty(),
        gained_upto(r, r, cutoff, n) == Seq::<Seq<char>>::empty(),
    decreases n,
{
    if n > 0 {
        lemma_self_upto(r, cutoff, n - 1);
    }
}

/// Asking from the other side swaps the two lists: what the reference lost
/// against the candidate is what the candidate gained against the reference,
/// for records holding the same cases in the same order.
pub proof fn law_swapping_sides_swaps_the_lists(r: Seq<Outcome>, c: Seq<Outcome>, cutoff: int)
    requires
        r.len() == c.len(),
        mismatch_upto(r, c, r.len() as int) is None,
    ensures
        lost(r, c, cutoff) == gained(c, r, cutoff),
        gained(r, c, cutoff) == lost(c, r, cutoff),
{
    lemma_swap_upto(r, c, cutoff, r.len() as int);
}

proof fn lemma_no_mismatch_below(r: Seq<Outcome>, c: Seq<Outcome>, n: int, i: int)
    requires
        0 <= i < n,
        mismatch_upto(r, c, n) is None,
    ensures
        r[i].question@ == c[i].question@,
    decreases n,
{
    if i < n - 1 {
        lemma_no_mismatch_below(r, c, n - 1, i);
    }
}

proof fn lemma_swap_upto(r: Seq<Outcome>, c: Seq<Outcome>, cutoff: int, n: int)
    requires
        n <= r.len(),
        mismatch_upto(r, c, r.len() as int) is None,
    ensures
        lost_upto(r, c, cutoff, n) == gained_upto(c, r, cutoff, n),
        gained_upto(r, c, cutoff, n) == lost_upto(c, r, cutoff, n),
    decreases n,
{
    if n > 0 {
        lemma_swap_upto(r, c, cutoff, n - 1);
        lemma_no_mismatch_below(r, c, r.len() as int, n - 1);
    }
}

/// The discordant cases account exactly for the change in what was found:
/// regressions minus improvements is the reference's count minus the
/// candidate's. Agreement, either way, carries no information.
pub proof fn law_discordance_is_the_net_change(r: Seq<Outcome>, c: Seq<Outcome>, cutoff: int)
    requires
        r.len() == c.len(),
    ensures
        lost(r, c, cutoff).len() - gained(r, c, cutoff).len() == found_count(r, cutoff)
            - found_count(c, cutoff),
{
    lemma_net_upto(r, c, cutoff, r.len() as int);
    assert(r.subrange(0, r.len() as int) =~= r);
    assert(c.subrange(0, c.len() as int) =~= c);
}

proof fn lemma_net_upto(r: Seq<Outcome>, c: Seq<Outcome>, cutoff: int, n: int)
    requires
        0 <= n <= r.len(),
        r.len() == c.len(),
    ensures
        lost_upto(r, c, cutoff, n).len() - gained_upto(r, c, cutoff, n).len() == found_count(
            r.subrange(0, n),
            cutoff,
        ) - found_count(c.subrange(0, n), cutoff),
    decreases n,
{
    if n == 0 {
        assert(r.subrange(0, 0).len() == 0);
        assert(c.subrange(0, 0).len() == 0);
    } else {
        lemma_net_upto(r, c, cutoff, n - 1);
        assert(r.subrange(0, n).drop_last() =~= r.subrange(0, n - 1));
        assert(c.subrange(0, n).drop_last() =~= c.subrange(0, n - 1));
    }
}

/// `2^n`.
pub open spec fn two_to(n: nat) -> nat
    decreases n,
{
    if n == 0 {
        1
    } else {
        2 * two_to((n - 1) as nat)
    }
}

/// The binomial coefficient `n choose j`.
pub open spec fn binomial(n: nat, j: nat) -> nat
    decreases n,
{
    if j == 0 {
        1
    } else if n == 0 {
        0
    } else {
        binomial((n - 1) as nat, (j - 1) as nat) + binomial((n - 1) as nat, j)
    }
}

/// `sum_{j <= m} (n choose j)`.
pub open spec fn binomial_sum(n: nat, m: nat) -> nat
    decreases m,
{
    if m == 0 {
        binomial(n, 0)
    } else {
        binomial_sum(n, (m - 1) as nat) + binomial(n, m)
    }
}

pub open spec fn min_nat(a: nat, b: nat) -> nat {
    if a <= b {
        a
    } else {
        b
    }
}

/// The two-sided exact McNemar p-value for `b` regressions and `i`
/// improvements is under `num / den`.
///
/// Under the hypothesis that the change did nothing, each discordant case is
/// a coin flip, so the p-value is the binomial tail
/// `min(1, 2 * sum_{j <= min(b, i)} (n choose j) / 2^n)` with `n = b + i`,
/// and exactly 1 when nothing changed camp.
pub open spec fn mcnemar_below(b: nat, i: nat, num: nat, den: nat) -> bool {
    let n = b + i;
    if n == 0 {
        den < num
    } else {
        let top = min_nat(2 * binomial_sum(n, min_nat(b, i)), two_to(n));
        top * den < num * two_to(n)
    }
}

/// The test does not care which side it is asked from.
pub proof fn law_mcnemar_is_symmetric(b: nat, i: nat, num: nat, den: nat)
    ensures
        mcnemar_below(b, i, num, den) == mcnemar_below(i, b, num, den),
{
    assert(b + i == i + b);
}

/// Nothing changed camp: the strongest agreement, never under any level
/// below one.
pub proof fn law_no_discordance_is_never_significant(num: nat, den: nat)
    requires
        num <= den,
    ensures
        !mcnemar_below(0, 0, num, den),
{
}

/// The p-value is a probability: above nothing, and never above one.
pub proof fn law_the_p_value_is_a_probability(b: nat, i: nat, num: nat, den: nat)
    ensures
        den < num ==> mcnemar_below(b, i, num, den),
        !mcnemar_below(b, i, 0, den),
{
    let n = b + i;
    if n > 0 {
        let top = min_nat(2 * binomial_sum(n, min_nat(b, i)), two_to(n));
        lemma_two_to_grows(0, n);
        if den < num {
            assert(top * den <= two_to(n) * den) by (nonlinear_arith)
                requires
                    top <= two_to(n),
            ;
            assert(two_to(n) * den < num * two_to(n)) by (nonlinear_arith)
                requires
                    den < num,
                    1 <= two_to(n),
            ;
        }
    }
}

/// `n choose j` is nothing for `j` above `n`, and one for `j == n`.
proof fn lemma_binomial_edges(n: nat, j: nat)
    ensures
        j > n ==> binomial(n, j) == 0,
        binomial(n, n) == 1,
    decreases n,
{
    if n > 0 {
        lemma_binomial_edges((n - 1) as nat, (j - 1) as nat);
        lemma_binomial_edges((n - 1) as nat, j);
        lemma_binomial_edges((n - 1) as nat, n);
    }
}

/// `n choose j == n choose (n - j)`.
proof fn lemma_binomial_symmetric(n: nat, j: nat)
    requires
        j <= n,
    ensures
        binomial(n, j) == binomial(n, (n - j) as nat),
    decreases n,
{
    lemma_binomial_edges(n, n);
    if n > 0 && 0 < j < n {
        lemma_binomial_symmetric((n - 1) as nat, (j - 1) as nat);
        lemma_binomial_symmetric((n - 1) as nat, j);
    }
}

/// Pascal's rule, summed.
proof fn lemma_binomial_sum_pascal(n: nat, m: nat)
    requires
        n >= 1,
        m >= 1,
    ensures
        binomial_sum(n, m) == binomial_sum((n - 1) as nat, m) + binomial_sum((n - 1) as nat, (m - 1) as nat),
    decreases m,
{
    let p = (n - 1) as nat;
    assert(binomial(n, m) == binomial(p, (m - 1) as nat) + binomial(p, m));
    assert(binomial_sum(p, m) == binomial_sum(p, (m - 1) as nat) + binomial(p, m));
    if m > 1 {
        lemma_binomial_sum_pascal(n, (m - 1) as nat);
        assert(binomial_sum(p, (m - 1) as nat) == binomial_sum(p, (m - 2) as nat) + binomial(
            p,
            (m - 1) as nat,
        ));
    } else {
        assert(binomial_sum(n, 0) == 1);
        assert(binomial_sum(p, 0) == 1);
    }
}

/// All the coefficients of row `n` add up to `2^n`.
proof fn lemma_binomial_row(n: nat)
    ensures
        binomial_sum(n, n) == two_to(n),
    decreases n,
{
    if n > 0 {
        lemma_binomial_row((n - 1) as nat);
        lemma_binomial_sum_pascal(n, n);
        lemma_binomial_edges((n - 1) as nat, n);
    }
}

/// `sum_{lo <= j <= n} (n choose j)`.
pub open spec fn binomial_tail(n: nat, lo: nat) -> nat
    decreases n + 1 - lo,
{
    if lo > n {
        0
    } else {
        binomial(n, lo) + binomial_tail(n, lo + 1)
    }
}

/// Row `n` split after `m`: the head and the tail make the whole row.
proof fn lemma_row_split(n: nat, m: nat)
    requires
        m <= n,
    ensures
        binomial_sum(n, m) + binomial_tail(n, m + 1) == two_to(n),
    decreases n - m,
{
    if m == n {
        lemma_binomial_row(n);
    } else {
        lemma_row_split(n, m + 1);
    }
}

/// The head of a row mirrors its tail.
proof fn lemma_head_mirrors_tail(n: nat, m: nat)
    requires
        m <= n,
    ensures
        binomial_sum(n, m) == binomial_tail(n, (n - m) as nat),
    decreases m,
{
    lemma_binomial_edges(n, n);
    lemma_binomial_symmetric(n, m);
    assert(binomial_tail(n, n + 1) == 0);
    if m > 0 {
        lemma_head_mirrors_tail(n, (m - 1) as nat);
        assert((n - (m - 1)) as nat == (n - m) as nat + 1);
        assert(binomial_tail(n, (n - m) as nat) == binomial(n, (n - m) as nat) + binomial_tail(
            n,
            ((n - m) as nat + 1) as nat,
        ));
    } else {
        assert(binomial_tail(n, n) == binomial(n, n) + binomial_tail(n, n + 1));
    }
}

/// A change that moves as many cases each way says nothing: the p-value
/// is one, under no level below one.
pub proof fn law_an_even_split_is_never_significant(b: nat, num: nat, den: nat)
    requires
        num <= den,
    ensures
        !mcnemar_below(b, b, num, den),
{
    let n = b + b;
    if b > 0 {
        lemma_head_mirrors_tail(n, b);
        lemma_row_split(n, (b - 1) as nat);
        assert(2 * binomial_sum(n, b) >= two_to(n));
        let top = min_nat(2 * binomial_sum(n, min_nat(b, b)), two_to(n));
        assert(top == two_to(n));
        assert(top * den >= num * two_to(n)) by (nonlinear_arith)
            requires
                top == two_to(n),
                num <= den,
        ;
    }
}

pub proof fn lemma_two_to_grows(a: nat, b: nat)
    requires
        a <= b,
    ensures
        two_to(a) <= two_to(b),
        1 <= two_to(a),
    decreases b,
{
    if a < b {
        lemma_two_to_grows(a, (b - 1) as nat);
    } else if a > 0 {
        lemma_two_to_grows((a - 1) as nat, (a - 1) as nat);
    }
}

pub proof fn lemma_small_powers()
    ensures
        two_to(0) == 1,
        two_to(1) == 2,
        two_to(2) == 4,
        two_to(3) == 8,
        two_to(4) == 16,
        two_to(5) == 32,
        two_to(6) == 64,
{
    assert(two_to(0) == 1);
    assert(two_to(1) == 2);
    assert(two_to(2) == 4);
    assert(two_to(3) == 8);
    assert(two_to(4) == 16);
    assert(two_to(5) == 32);
    assert(two_to(6) == 64);
}

/// With `b` regressions and no improvement the p-value is `2 / 2^b`: under
/// five percent from six regressions on, and not before.
pub proof fn law_six_regressions_without_improvement_are_significant(b: nat)
    requires
        b >= 1,
    ensures
        mcnemar_below(b, 0, 1, 20) <==> b >= 6,
{
    assert(binomial_sum(b, 0) == 1);
    lemma_small_powers();
    lemma_two_to_grows(1, b);
    if b >= 6 {
        lemma_two_to_grows(6, b);
        lemma_small_powers();
    } else {
        lemma_two_to_grows(b, 5);
        lemma_small_powers();
    }
}

/// The written figures of one cutoff: both recalls with four decimals, the
/// p-value with three.
#[derive(Debug, Clone, PartialEq)]
pub struct CutoffFigures {
    pub reference_recall: String,
    pub candidate_recall: String,
    pub p_value: String,
}

/// What changed at one cutoff, and what the judge makes of it.
#[derive(Debug, Clone, PartialEq)]
pub struct AtCutoff {
    pub cutoff: usize,
    pub cases: usize,
    pub reference_found: usize,
    pub candidate_found: usize,
    /// Cases the reference found and the candidate lost.
    pub regressions: Vec<String>,
    /// Cases the candidate found and the reference missed.
    pub improvements: Vec<String>,
    /// More cases lost than gained, and the paired test says it is no chance.
    pub significant_regression: bool,
    /// The candidate's recall at this cutoff is under an absolute floor.
    pub below_floor: bool,
    /// Both recalls and the p-value, as the verdict writes them.
    pub figures: CutoffFigures,
}

impl AtCutoff {
    /// Judges one discordance. `p_below_alpha` says whether the exact McNemar
    /// p-value of its regressions and improvements is under the judge's
    /// significance level; `below_floor` whether the candidate's recall is
    /// under a floor configured for this cutoff; `figures` are the recalls
    /// and the p-value, written. A change that gains as much as it loses is
    /// never called a regression, however small the p-value.
    pub fn judged(d: Discordance, p_below_alpha: bool, below_floor: bool, figures: CutoffFigures) -> (a: AtCutoff)
        ensures
            a.cutoff == d.cutoff,
            a.cases == d.cases,
            a.reference_found == d.reference_found,
            a.candidate_found == d.candidate_found,
            a.regressions == d.regressions,
            a.improvements == d.improvements,
            a.significant_regression == (d.regressions@.len() > d.improvements@.len()
                && p_below_alpha),
            a.below_floor == below_floor,
            a.figures == figures,
    {
        let significant_regression = d.regressions.len() > d.improvements.len() && p_below_alpha;
        AtCutoff {
            cutoff: d.cutoff,
            cases: d.cases,
            reference_found: d.reference_found,
            candidate_found: d.candidate_found,
            regressions: d.regressions,
            improvements: d.improvements,
            significant_regression,
            below_floor,
            figures,
        }
    }

    /// This cutoff fails the comparison.
    pub fn failed(&self) -> (f: bool)
        ensures
            f == (self.significant_regression || self.below_floor),
    {
        self.significant_regression || self.below_floor
    }
}

/// Some cutoff fails the comparison: the exit code a pipeline reads.
pub fn any_failed(at: &[AtCutoff]) -> (f: bool)
    ensures
        f == exists|j: int|
            0 <= j < at@.len() && ((#[trigger] at@[j]).significant_regression
                || at@[j].below_floor),
{
    let mut j: usize = 0;
    while j < at.len()
        invariant
            j <= at@.len(),
            forall|t: int| 0 <= t < j ==> !(#[trigger] at@[t]).significant_regression && !at@[t].below_floor,
        decreases at.len() - j,
    {
        if at[j].failed() {
            return true;
        }
        j = j + 1;
    }
    false
}

} // verus!
