use askable::record::{Meta, Outcome, Record};
use askable::report::{discordant_floor, report, report_verdict, Figures};
use askable::verdict::{compare, AtCutoff, CutoffFigures};

fn record(ranks: &[Option<usize>], k: usize) -> Record {
    Record {
        meta: Meta {
            produced_at: "2026-01-01T00:00:00Z".into(),
            candidate: "c".into(),
            candidate_version: Some("v1".into()),
            url: "http://x/{query}".into(),
            corpus: "bench".into(),
            cases: ranks.len(),
            corpus_fingerprint: "ffff".into(),
            k,
            seconds: 1,
        },
        outcomes: ranks
            .iter()
            .enumerate()
            .map(|(i, r)| Outcome {
                question: format!("q{i}"),
                gold: vec!["aaaa".into()],
                rank: *r,
                returned: Vec::new(),
                top_numbers: Vec::new(),
                input_tokens: None,
                output_tokens: None,
            })
            .collect(),
    }
}

/// The figures of a record whose recall at 1 is absent unless given.
fn figures(recall_at_1: Option<f64>, mrr: f64) -> Figures {
    Figures {
        recall_at_1: recall_at_1.map(|v| format!("{v:.4}")),
        recall_at_5: None,
        recall_at_10: None,
        mrr: format!("{mrr:.4}"),
    }
}

/// Exact two-sided McNemar p-value, as the judge computes it.
fn mcnemar(b: usize, i: usize) -> f64 {
    let n = b + i;
    if n == 0 {
        return 1.0;
    }
    let mut term = 0.5f64.powi(n as i32);
    let mut sum = term;
    for step in 0..b.min(i) {
        term *= (n - step) as f64 / (step + 1) as f64;
        sum += term;
    }
    (2.0 * sum).min(1.0)
}

/// Judges the comparison with the default judge: alpha 0.05, no floor.
fn judged(before: &Record, after: &Record) -> Vec<AtCutoff> {
    let ds = compare(before, after, &[1, 5]).unwrap();
    let mut at = Vec::new();
    for d in ds {
        let p = mcnemar(d.regressions.len(), d.improvements.len());
        let n = d.cases as f64;
        let figures = CutoffFigures {
            reference_recall: format!("{:.4}", d.reference_found as f64 / n),
            candidate_recall: format!("{:.4}", d.candidate_found as f64 / n),
            p_value: format!("{p:.3}"),
        };
        at.push(AtCutoff::judged(d, p < 0.05, false, figures));
    }
    at
}

#[test]
fn a_cutoff_beyond_k_is_a_dash_and_says_why() {
    let r = record(&[Some(1)], 5);
    let t = report(&r, &figures(Some(1.0), 0.5));
    assert!(t.contains("recall@1   1.0000"), "got: {t}");
    // A ceiling does not present itself as a measurement.
    assert!(t.contains("recall@10  -"), "got: {t}");
    assert!(t.contains("beyond the 5 results"), "got: {t}");
}

#[test]
fn the_report_says_how_many_cases_are_out_of_reach() {
    let t = report(&record(&[Some(1), None, None], 10), &figures(None, 0.5));
    assert!(t.contains("3 cases, 2 out of reach"), "got: {t}");
    // And it recalls its own resolution, where the numbers are read.
    assert!(t.contains("6 discordant"), "got: {t}");
}

#[test]
fn the_floor_is_six_and_does_not_depend_on_anything() {
    assert_eq!(discordant_floor(), 6);
}

#[test]
fn a_verdict_names_what_it_lost_and_says_pass_or_fail() {
    let before = record(&[Some(1); 10], 10);
    let mut after = record(&[Some(1); 10], 10);
    for o in after.outcomes.iter_mut().take(7) {
        o.rank = Some(9);
    }
    let at = judged(&before, &after);
    let t = report_verdict(&before, &after, &at, "a.json", "b.json");
    assert!(t.contains("REGRESSION"), "got: {t}");
    assert!(t.contains("FAIL"), "got: {t}");
    // The actionable half: the lost cases are NAMED.
    assert!(t.contains("q0") && t.contains("q6"), "got: {t}");
    // And the identity of what is compared is at the top.
    assert!(t.contains("v1"), "the label has to show: {t}");
    assert!(t.contains("bench") && t.contains("ffff"), "got: {t}");
}

#[test]
fn an_unlabelled_record_says_so_rather_than_leaving_a_blank() {
    let mut before = record(&[Some(1)], 10);
    before.meta.candidate_version = None;
    let same = record(&[Some(1)], 10);
    let at = judged(&before, &same);
    let t = report_verdict(&before, &same, &at, "a.json", "b.json");
    assert!(t.contains("unlabelled"), "got: {t}");
    assert!(t.contains("PASS"), "got: {t}");
}

#[test]
fn a_report_is_laid_out_line_by_line() {
    let r = record(&[Some(1), None], 10);
    let f = Figures {
        recall_at_1: Some("0.5000".into()),
        recall_at_5: Some("0.5000".into()),
        recall_at_10: Some("0.5000".into()),
        mrr: "0.5000".into(),
    };
    assert_eq!(
        report(&r, &f),
        "candidate  c\ncorpus     bench (2 cases, ffff)\nrecall@1   0.5000\nrecall@5   0.5000\n\
recall@10  0.5000\nmrr        0.5000\n\n2 cases, 1 out of reach. A difference smaller than about 6 \
discordant cases is not detectable on this corpus.\n"
    );
}

#[test]
fn a_verdict_table_lines_up() {
    let before = record(&[Some(1), Some(1)], 10);
    let mut after = record(&[Some(1), Some(1)], 10);
    after.outcomes[1].rank = None;
    let at = judged(&before, &after);
    let t = report_verdict(&before, &after, &at, "a.json", "b.json");
    let expected = "reference  a.json  c @ v1  2026-01-01T00:00:00Z\n\
candidate  b.json  c @ v1  2026-01-01T00:00:00Z\n\
corpus     bench (2 cases, ffff), k=10\n\n\
cutoff  reference  candidate  regressed  improved      p  verdict\n\
\x20    1     1.0000     0.5000          1         0  1.000  ok\n\
\x20    5     1.0000     0.5000          1         0  1.000  ok\n\
\ncases lost at rank 1:\n  q1\n\
\ncases lost at rank 5:\n  q1\n\
\nPASS - no regression this corpus can see. Its floor is 6 discordant cases; anything smaller is \
invisible here, whatever the number of cases.\n";
    assert_eq!(t, expected);
}
