//! What a run and a verdict look like once written down.
//!
//! Every function here composes a string and returns it. The measured
//! fractions (recalls, the mean reciprocal rank, p-values) arrive already
//! written with their decimals; everything else is laid out here.
use vstd::prelude::*;
use crate::record::{absent_count, count_absent, Meta, Record};
use crate::text::{append, decimal, push_decimal, push_repeat, repeat};
use crate::verdict::{any_failed, mcnemar_below, two_to, lemma_small_powers, law_six_regressions_without_improvement_are_significant, AtCutoff};

verus! {

/// The smallest number of discordant cases this kind of comparison can ever
/// call significant at five percent: with `b` regressions and no
/// improvement the exact p-value is `2 / 2^b`, and the floor is the first
/// `b` where that drops under 0.05. It does not depend on the size of the
/// corpus: adding cases widens what can be measured, it does not change how
/// small a difference can be seen.
pub fn discordant_floor() -> (b: usize)
    ensures
        b == 6,
        forall|n: nat| n >= 1 ==> (mcnemar_below(n, 0, 1, 20) <==> n >= b),
{
    let mut b: usize = 1;
    let mut p: u64 = 2;
    proof {
        lemma_small_powers();
    }
    while p <= 40
        invariant
            1 <= b <= 6,
            p == two_to(b as nat),
        decreases 6 - b,
    {
        proof {
            lemma_small_powers();
        }
        b = b + 1;
        p = p * 2;
    }
    proof {
        lemma_small_powers();
        assert forall|n: nat| n >= 1 implies (mcnemar_below(n, 0, 1, 20) <==> n >= b) by {
            law_six_regressions_without_improvement_are_significant(n);
        }
    }
    b
}

/// The measured fractions of a run, each already written with four
/// decimals; `None` for a recall at a cutoff beyond the `k` asked for.
#[derive(Debug, Clone, PartialEq)]
pub struct Figures {
    pub recall_at_1: Option<String>,
    pub recall_at_5: Option<String>,
    pub recall_at_10: Option<String>,
    pub mrr: String,
}

/// One line of recall: the figure, or a dash that says why there is none.
/// A ceiling does not present itself as a measurement.
pub open spec fn recall_line(name: Seq<char>, value: Option<String>, k: nat) -> Seq<char> {
    match value {
        Some(v) => name + "  "@ + v@ + "\n"@,
        None => name + "  -  (beyond the "@ + decimal(k) + " results requested)\n"@,
    }
}

/// The summary of a run.
pub open spec fn report_text(m: Meta, absent: nat, f: Figures) -> Seq<char> {
    report_head(m) + recall_line("recall@1 "@, f.recall_at_1, m.k as nat) + recall_line(
        "recall@5 "@,
        f.recall_at_5,
        m.k as nat,
    ) + recall_line("recall@10"@, f.recall_at_10, m.k as nat) + mrr_line(f.mrr@) + report_foot(m, absent)
}

/// What was measured, and on which corpus.
pub open spec fn report_head(m: Meta) -> Seq<char> {
    "candidate  "@ + m.candidate@ + "\n"@ + "corpus     "@ + m.corpus@ + " ("@ + decimal(m.cases as nat)
        + " cases, "@ + m.corpus_fingerprint@ + ")\n"@
}

pub open spec fn mrr_line(mrr: Seq<char>) -> Seq<char> {
    "mrr        "@ + mrr + "\n"@
}

/// How many cases never had an answer come back, and the resolution of
/// the corpus.
pub open spec fn report_foot(m: Meta, absent: nat) -> Seq<char> {
    "\n"@ + decimal(m.cases as nat) + " cases, "@ + decimal(absent)
        + " out of reach. A difference smaller than about "@ + decimal(6)
        + " discordant cases is not detectable on this corpus.\n"@
}

/// `x` and `y` sit between the same texts: equal wholes have equal middles.
proof fn lemma_same_middle(a: Seq<char>, x: Seq<char>, y: Seq<char>, b: Seq<char>)
    requires
        a + x + b == a + y + b,
    ensures
        x == y,
{
    let w = a + x + b;
    assert(w.len() == (a + y + b).len());
    assert(x.len() == y.len());
    assert(x =~= w.subrange(a.len() as int, (a.len() + x.len()) as int));
    assert(y =~= (a + y + b).subrange(a.len() as int, (a.len() + y.len()) as int));
}

proof fn lemma_recall_line_value(name: Seq<char>, v1: String, v2: String, k: nat)
    requires
        recall_line(name, Some(v1), k) == recall_line(name, Some(v2), k),
    ensures
        v1@ == v2@,
{
    lemma_same_middle(name + "  "@, v1@, v2@, "\n"@);
}

/// Each figure of a run is written on its own line, and only there: two
/// summaries that differ in nothing but one figure (recall at 1, 5 or 10,
/// or the mean reciprocal rank) are the same text exactly when that figure
/// is the same text.
pub proof fn law_each_figure_on_its_own_line(m: Meta, absent: nat, f: Figures, v1: String, v2: String)
    ensures
        report_text(m, absent, Figures { recall_at_1: Some(v1), ..f }) == report_text(
            m,
            absent,
            Figures { recall_at_1: Some(v2), ..f },
        ) <==> v1@ == v2@,
        report_text(m, absent, Figures { recall_at_5: Some(v1), ..f }) == report_text(
            m,
            absent,
            Figures { recall_at_5: Some(v2), ..f },
        ) <==> v1@ == v2@,
        report_text(m, absent, Figures { recall_at_10: Some(v1), ..f }) == report_text(
            m,
            absent,
            Figures { recall_at_10: Some(v2), ..f },
        ) <==> v1@ == v2@,
        report_text(m, absent, Figures { mrr: v1, ..f }) == report_text(m, absent, Figures { mrr: v2, ..f })
            <==> v1@ == v2@,
{
    let k = m.k as nat;
    let h = report_head(m);
    let t = report_foot(m, absent);
    let l1 = recall_line("recall@1 "@, f.recall_at_1, k);
    let l5 = recall_line("recall@5 "@, f.recall_at_5, k);
    let l10 = recall_line("recall@10"@, f.recall_at_10, k);
    let mr = mrr_line(f.mrr@);
    let (a1, a2) = (recall_line("recall@1 "@, Some(v1), k), recall_line("recall@1 "@, Some(v2), k));
    if report_text(m, absent, Figures { recall_at_1: Some(v1), ..f }) == report_text(
        m,
        absent,
        Figures { recall_at_1: Some(v2), ..f },
    ) {
        assert(h + a1 + l5 + l10 + mr + t =~= h + a1 + (l5 + l10 + mr + t));
        assert(h + a2 + l5 + l10 + mr + t =~= h + a2 + (l5 + l10 + mr + t));
        lemma_same_middle(h, a1, a2, l5 + l10 + mr + t);
        lemma_recall_line_value("recall@1 "@, v1, v2, k);
    }
    let (b1, b2) = (recall_line("recall@5 "@, Some(v1), k), recall_line("recall@5 "@, Some(v2), k));
    if report_text(m, absent, Figures { recall_at_5: Some(v1), ..f }) == report_text(
        m,
        absent,
        Figures { recall_at_5: Some(v2), ..f },
    ) {
        assert(h + l1 + b1 + l10 + mr + t =~= (h + l1) + b1 + (l10 + mr + t));
        assert(h + l1 + b2 + l10 + mr + t =~= (h + l1) + b2 + (l10 + mr + t));
        lemma_same_middle(h + l1, b1, b2, l10 + mr + t);
        lemma_recall_line_value("recall@5 "@, v1, v2, k);
    }
    let (c1, c2) = (recall_line("recall@10"@, Some(v1), k), recall_line("recall@10"@, Some(v2), k));
    if report_text(m, absent, Figures { recall_at_10: Some(v1), ..f }) == report_text(
        m,
        absent,
        Figures { recall_at_10: Some(v2), ..f },
    ) {
        assert(h + l1 + l5 + c1 + mr + t =~= (h + l1 + l5) + c1 + (mr + t));
        assert(h + l1 + l5 + c2 + mr + t =~= (h + l1 + l5) + c2 + (mr + t));
        lemma_same_middle(h + l1 + l5, c1, c2, mr + t);
        lemma_recall_line_value("recall@10"@, v1, v2, k);
    }
    if report_text(m, absent, Figures { mrr: v1, ..f }) == report_text(m, absent, Figures { mrr: v2, ..f }) {
        lemma_same_middle(h + l1 + l5 + l10, mrr_line(v1@), mrr_line(v2@), t);
        lemma_same_middle("mrr        "@, v1@, v2@, "\n"@);
    }
}

fn push_recall_line(out: &mut String, name: &str, value: &Option<String>, k: usize)
    ensures
        final(out)@ == old(out)@ + recall_line(name@, *value, k as nat),
{
    append(out, name);
    match value {
        Some(v) => {
            append(out, "  ");
            append(out, v.as_str());
            append(out, "\n");
        },
        None => {
            append(out, "  -  (beyond the ");
            push_decimal(out, k as u64);
            append(out, " results requested)\n");
        },
    }
    assert(out@ =~= old(out)@ + recall_line(name@, *value, k as nat));
}

/// The summary of a run: what was measured, on which corpus, how many cases
/// never had their answer come back, and the resolution of the corpus,
/// stated where the numbers are read.
pub fn report(record: &Record, figures: &Figures) -> (out: String)
    ensures
        out@ == report_text(record.meta, absent_count(record.outcomes@), *figures),
{
    let m = &record.meta;
    let mut out = String::new();
    append(&mut out, "candidate  ");
    append(&mut out, m.candidate.as_str());
    append(&mut out, "\n");
    append(&mut out, "corpus     ");
    append(&mut out, m.corpus.as_str());
    append(&mut out, " (");
    push_decimal(&mut out, m.cases as u64);
    append(&mut out, " cases, ");
    append(&mut out, m.corpus_fingerprint.as_str());
    append(&mut out, ")\n");
    let ghost head = out@;
    push_recall_line(&mut out, "recall@1 ", &figures.recall_at_1, m.k);
    push_recall_line(&mut out, "recall@5 ", &figures.recall_at_5, m.k);
    push_recall_line(&mut out, "recall@10", &figures.recall_at_10, m.k);
    append(&mut out, "mrr        ");
    append(&mut out, figures.mrr.as_str());
    append(&mut out, "\n");
    append(&mut out, "\n");
    push_decimal(&mut out, m.cases as u64);
    append(&mut out, " cases, ");
    let absent = count_absent(record.outcomes.as_slice());
    push_decimal(&mut out, absent as u64);
    append(&mut out, " out of reach. A difference smaller than about ");
    let floor = discordant_floor();
    push_decimal(&mut out, floor as u64);
    append(&mut out, " discordant cases is not detectable on this corpus.\n");
    assert(out@ =~= report_text(record.meta, absent_count(record.outcomes@), *figures));
    out
}

/// `s` right-aligned in at least `w` characters (`{:>w}`).
pub open spec fn right_aligned(s: Seq<char>, w: nat) -> Seq<char> {
    if s.len() < w {
        repeat(' ', (w - s.len()) as nat) + s
    } else {
        s
    }
}

/// The version a record measured, or a word that says nobody said which.
pub open spec fn label_of(m: Meta) -> Seq<char> {
    match m.candidate_version {
        Some(v) => v@,
        None => "unlabelled"@,
    }
}

/// What the judge says of one cutoff.
pub open spec fn mark_of(a: AtCutoff) -> Seq<char> {
    if a.below_floor {
        "under floor"@
    } else if a.significant_regression {
        "REGRESSION"@
    } else {
        "ok"@
    }
}

pub open spec fn row_line(a: AtCutoff) -> Seq<char> {
    let f = a.figures;
    right_aligned(decimal(a.cutoff as nat), 6) + "  "@ + right_aligned(f.reference_recall@, 9) + "  "@
        + right_aligned(f.candidate_recall@, 9) + "  "@ + right_aligned(decimal(a.regressions@.len()), 9)
        + "  "@ + right_aligned(decimal(a.improvements@.len()), 8) + "  "@ + right_aligned(f.p_value@, 5)
        + "  "@ + mark_of(a) + "\n"@
}

pub open spec fn rows_text(at: Seq<AtCutoff>, n: int) -> Seq<char>
    decreases n,
{
    if n <= 0 {
        seq![]
    } else {
        rows_text(at, n - 1) + row_line(at[n - 1])
    }
}

/// One line per lost question.
pub open spec fn question_lines(qs: Seq<Seq<char>>, n: int) -> Seq<char>
    decreases n,
{
    if n <= 0 {
        seq![]
    } else {
        question_lines(qs, n - 1) + "  "@ + qs[n - 1] + "\n"@
    }
}

/// The cases lost at one cutoff, named: the actionable half of a verdict.
pub open spec fn lost_section(a: AtCutoff) -> Seq<char> {
    if a.regressions@.len() == 0 {
        seq![]
    } else {
        "\ncases lost at rank "@ + decimal(a.cutoff as nat) + ":\n"@ + question_lines(
            a.regressions.deep_view(),
            a.regressions@.len() as int,
        )
    }
}

pub open spec fn lost_text(at: Seq<AtCutoff>, n: int) -> Seq<char>
    decreases n,
{
    if n <= 0 {
        seq![]
    } else {
        lost_text(at, n - 1) + lost_section(at[n - 1])
    }
}

/// Some cutoff fails the comparison.
pub open spec fn some_failed(at: Seq<AtCutoff>) -> bool {
    exists|j: int| 0 <= j < at.len() && ((#[trigger] at[j]).significant_regression || at[j].below_floor)
}

pub open spec fn closing_line(failed: bool) -> Seq<char> {
    "\n"@ + (if failed {
        "FAIL - this corpus can see this regression"@
    } else {
        "PASS - no regression this corpus can see. Its floor is "@ + decimal(6)
            + " discordant cases; anything smaller is invisible here, whatever the number of cases."@
    }) + "\n"@
}

/// The two records, each cutoff with its counts, the questions lost, and
/// PASS or FAIL.
pub open spec fn verdict_text(
    r: Meta,
    c: Meta,
    at: Seq<AtCutoff>,
    rp: Seq<char>,
    cp: Seq<char>,
) -> Seq<char> {
    "reference  "@ + rp + "  "@ + r.candidate@ + " @ "@ + label_of(r) + "  "@ + r.produced_at@ + "\n"@
    + "candidate  "@ + cp + "  "@ + c.candidate@ + " @ "@ + label_of(c) + "  "@ + c.produced_at@ + "\n"@
    + "corpus     "@ + r.corpus@ + " ("@ + decimal(r.cases as nat) + " cases, "@ + r.corpus_fingerprint@
    + "), k="@ + decimal(r.k as nat) + "\n"@ + "\n"@
    + "cutoff  reference  candidate  regressed  improved      p  verdict\n"@
    + rows_text(at, at.len() as int) + lost_text(at, at.len() as int) + closing_line(some_failed(at))
}

/// The last line of a failing verdict.
pub open spec fn fail_line() -> Seq<char> {
    "\nFAIL - this corpus can see this regression\n"@
}

/// `t` ends with `e`.
pub open spec fn ends_with(t: Seq<char>, e: Seq<char>) -> bool {
    e.len() <= t.len() && t.subrange(t.len() - e.len(), t.len() as int) == e
}

/// The verdict says FAIL exactly when the exit code does: its text ends
/// with the FAIL line exactly when some cutoff has a significant regression
/// or falls under its floor.
pub proof fn law_the_text_agrees_with_the_exit_code(
    r: Meta,
    c: Meta,
    at: Seq<AtCutoff>,
    rp: Seq<char>,
    cp: Seq<char>,
)
    ensures
        ends_with(verdict_text(r, c, at, rp, cp), fail_line()) <==> exists|j: int|
            0 <= j < at.len() && ((#[trigger] at[j]).significant_regression || at[j].below_floor),
{
    let v = verdict_text(r, c, at, rp, cp);
    let failed = exists|j: int|
        0 <= j < at.len() && ((#[trigger] at[j]).significant_regression || at[j].below_floor);
    let last = closing_line(some_failed(at));
    let x = v.subrange(0, v.len() - last.len());
    assert(v =~= x + last);
    reveal_strlit("\nFAIL - this corpus can see this regression\n");
    reveal_strlit("FAIL - this corpus can see this regression");
    reveal_strlit("\n");
    reveal_strlit("PASS - no regression this corpus can see. Its floor is ");
    reveal_strlit(" discordant cases; anything smaller is invisible here, whatever the number of cases.");
    let f = fail_line();
    assert(f.len() == 44);
    if some_failed(at) {
        assert(last =~= f);
        assert(v.subrange(v.len() - f.len(), v.len() as int) =~= f);
    } else {
        assert(decimal(6) == seq!['6']);
        assert(last.len() > f.len());
        assert(v[v.len() - 2] == last[last.len() - 2]);
        assert(last[last.len() - 2] == '.');
        assert(f[f.len() - 2] == 'n');
        assert(v.subrange(v.len() - f.len(), v.len() as int)[f.len() - 2] == v[v.len() - 2]);
    }
}

proof fn lemma_ends_with_itself(x: Seq<char>, e: Seq<char>)
    ensures
        ends_with(x + e, e),
{
    assert((x + e).subrange(x.len() as int, (x + e).len() as int) =~= e);
}

proof fn lemma_not_ending_with(t: Seq<char>, e: Seq<char>)
    requires
        e.len() >= 2,
        t.len() >= 2,
        t[t.len() - 2] != e[e.len() - 2],
    ensures
        !ends_with(t, e),
{
    if e.len() <= t.len() {
        assert(t.subrange(t.len() - e.len(), t.len() as int)[e.len() - 2] == t[t.len() - 2]);
    }
}

/// Each row of a verdict says, in its last column, what the judge found at
/// that cutoff: "under floor" exactly when the candidate fell under a
/// floor; otherwise "REGRESSION" exactly when the regression is
/// significant; otherwise "ok".
pub proof fn law_each_row_says_what_the_judge_found(a: AtCutoff)
    ensures
        ends_with(row_line(a), "under floor\n"@) <==> a.below_floor,
        ends_with(row_line(a), "REGRESSION\n"@) <==> (!a.below_floor && a.significant_regression),
        ends_with(row_line(a), "  ok\n"@) <==> (!a.below_floor && !a.significant_regression),
{
    reveal_strlit("under floor\n");
    reveal_strlit("REGRESSION\n");
    reveal_strlit("  ok\n");
    reveal_strlit("under floor");
    reveal_strlit("REGRESSION");
    reveal_strlit("ok");
    reveal_strlit("\n");
    reveal_strlit("  ");
    let t = row_line(a);
    let x = t.subrange(0, t.len() - (mark_of(a).len() + 1));
    assert(t =~= x + (mark_of(a) + "\n"@));
    let uf = "under floor\n"@;
    let rg = "REGRESSION\n"@;
    let ok = "  ok\n"@;
    if a.below_floor {
        assert(mark_of(a) + "\n"@ =~= uf);
        lemma_ends_with_itself(x, uf);
        lemma_not_ending_with(t, rg);
        lemma_not_ending_with(t, ok);
    } else if a.significant_regression {
        assert(mark_of(a) + "\n"@ =~= rg);
        lemma_ends_with_itself(x, rg);
        lemma_not_ending_with(t, uf);
        lemma_not_ending_with(t, ok);
    } else {
        let y = t.subrange(0, t.len() - 5);
        assert(t =~= y + ok);
        lemma_ends_with_itself(y, ok);
        lemma_not_ending_with(t, uf);
        lemma_not_ending_with(t, rg);
    }
}

fn push_right(out: &mut String, s: &str, w: usize)
    ensures
        final(out)@ == old(out)@ + right_aligned(s@, w as nat),
{
    let n = s.unicode_len();
    if n < w {
        push_repeat(out, ' ', w - n);
    }
    append(out, s);
    assert(out@ =~= old(out)@ + right_aligned(s@, w as nat));
}

fn push_right_number(out: &mut String, n: usize, w: usize)
    ensures
        final(out)@ == old(out)@ + right_aligned(decimal(n as nat), w as nat),
{
    let mut d = String::new();
    push_decimal(&mut d, n as u64);
    push_right(out, d.as_str(), w);
}

fn push_label(out: &mut String, m: &Meta)
    ensures
        final(out)@ == old(out)@ + label_of(*m),
{
    match &m.candidate_version {
        Some(v) => append(out, v.as_str()),
        None => append(out, "unlabelled"),
    }
}

#[verifier::spinoff_prover]
#[verifier::rlimit(40)]
fn push_row(out: &mut String, a: &AtCutoff)
    ensures
        final(out)@ == old(out)@ + row_line(*a),
{
    let f = &a.figures;
    push_right_number(out, a.cutoff, 6);
    append(out, "  ");
    push_right(out, f.reference_recall.as_str(), 9);
    append(out, "  ");
    push_right(out, f.candidate_recall.as_str(), 9);
    append(out, "  ");
    push_right_number(out, a.regressions.len(), 9);
    append(out, "  ");
    push_right_number(out, a.improvements.len(), 8);
    append(out, "  ");
    push_right(out, f.p_value.as_str(), 5);
    append(out, "  ");
    if a.below_floor {
        append(out, "under floor");
    } else if a.significant_regression {
        append(out, "REGRESSION");
    } else {
        append(out, "ok");
    }
    append(out, "\n");
    assert(out@ =~= old(out)@ + row_line(*a));
}

fn push_lost(out: &mut String, a: &AtCutoff)
    ensures
        final(out)@ == old(out)@ + lost_section(*a),
{
    if a.regressions.len() == 0 {
        assert(out@ =~= old(out)@ + lost_section(*a));
        return;
    }
    append(out, "\ncases lost at rank ");
    push_decimal(out, a.cutoff as u64);
    append(out, ":\n");
    let ghost start = out@;
    let ghost qs = a.regressions.deep_view();
    let mut i: usize = 0;
    while i < a.regressions.len()
        invariant
            qs == a.regressions.deep_view(),
            i <= a.regressions@.len(),
            out@ == start + question_lines(qs, i as int),
        decreases a.regressions.len() - i,
    {
        assert(qs[i as int] == a.regressions@[i as int]@);
        append(out, "  ");
        append(out, a.regressions[i].as_str());
        append(out, "\n");
        i = i + 1;
        assert(out@ =~= start + question_lines(qs, i as int));
    }
    assert(out@ =~= old(out)@ + lost_section(*a));
}

/// A verdict, written for a human: the identity of what is compared at the
/// top, one line per cutoff, the lost cases named, and PASS or FAIL with
/// the floor below which this corpus sees nothing.
pub fn report_verdict(
    reference: &Record,
    candidate: &Record,
    at: &[AtCutoff],
    reference_path: &str,
    candidate_path: &str,
) -> (out: String)
    ensures
        out@ == verdict_text(
            reference.meta,
            candidate.meta,
            at@,
            reference_path@,
            candidate_path@,
        ),
        ends_with(out@, fail_line()) <==> exists|j: int|
            0 <= j < at@.len() && ((#[trigger] at@[j]).significant_regression || at@[j].below_floor),
{
    let (r, c) = (&reference.meta, &candidate.meta);
    let mut out = String::new();
    append(&mut out, "reference  ");
    append(&mut out, reference_path);
    append(&mut out, "  ");
    append(&mut out, r.candidate.as_str());
    append(&mut out, " @ ");
    push_label(&mut out, r);
    append(&mut out, "  ");
    append(&mut out, r.produced_at.as_str());
    append(&mut out, "\n");
    append(&mut out, "candidate  ");
    append(&mut out, candidate_path);
    append(&mut out, "  ");
    append(&mut out, c.candidate.as_str());
    append(&mut out, " @ ");
    push_label(&mut out, c);
    append(&mut out, "  ");
    append(&mut out, c.produced_at.as_str());
    append(&mut out, "\n");
    append(&mut out, "corpus     ");
    append(&mut out, r.corpus.as_str());
    append(&mut out, " (");
    push_decimal(&mut out, r.cases as u64);
    append(&mut out, " cases, ");
    append(&mut out, r.corpus_fingerprint.as_str());
    append(&mut out, "), k=");
    push_decimal(&mut out, r.k as u64);
    append(&mut out, "\n");
    append(&mut out, "\n");
    append(&mut out, "cutoff  reference  candidate  regressed  improved      p  verdict\n");
    let ghost head = out@;
    let mut i: usize = 0;
    while i < at.len()
        invariant
            i <= at@.len(),
            out@ == head + rows_text(at@, i as int),
        decreases at.len() - i,
    {
        push_row(&mut out, &at[i]);
        i = i + 1;
        assert(out@ =~= head + rows_text(at@, i as int));
    }
    let ghost mid = out@;
    let mut i: usize = 0;
    while i < at.len()
        invariant
            i <= at@.len(),
            out@ == mid + lost_text(at@, i as int),
        decreases at.len() - i,
    {
        push_lost(&mut out, &at[i]);
        i = i + 1;
        assert(out@ =~= mid + lost_text(at@, i as int));
    }
    append(&mut out, "\n");
    if any_failed(at) {
        append(&mut out, "FAIL - this corpus can see this regression");
    } else {
        append(&mut out, "PASS - no regression this corpus can see. Its floor is ");
        let floor = discordant_floor();
        push_decimal(&mut out, floor as u64);
        append(
            &mut out,
            " discordant cases; anything smaller is invisible here, whatever the number of cases.",
        );
    }
    append(&mut out, "\n");
    assert(out@ =~= verdict_text(
        reference.meta,
        candidate.meta,
        at@,
        reference_path@,
        candidate_path@,
    ));
    proof {
        law_the_text_agrees_with_the_exit_code(
            reference.meta,
            candidate.meta,
            at@,
            reference_path@,
            candidate_path@,
        );
    }
    out
}

} // verus!
