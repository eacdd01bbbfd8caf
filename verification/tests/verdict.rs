use askable::record::{Meta, Outcome, Record};
use askable::verdict::{any_failed, compare, AtCutoff, CutoffFigures};

fn record(ranks: &[Option<usize>], fingerprint: &str, k: usize) -> Record {
    Record {
        meta: Meta {
            produced_at: "2026-01-01T00:00:00Z".into(),
            candidate: "c".into(),
            candidate_version: None,
            url: "http://x/{query}".into(),
            corpus: "t".into(),
            cases: ranks.len(),
            corpus_fingerprint: fingerprint.into(),
            k,
            seconds: 0,
        },
        outcomes: ranks
            .iter()
            .enumerate()
            .map(|(i, r)| Outcome {
                question: format!("q{i}"),
                gold: vec!["aaaa".into()],
                rank: *r,
                returned: Vec::new(),
                top_numbers: Vec::new(),
                input_tokens: None,
                output_tokens: None,
            })
            .collect(),
    }
}

/// Exact two-sided McNemar p-value.
fn mcnemar(b: usize, i: usize) -> f64 {
    let n = b + i;
    if n == 0 {
        return 1.0;
    }
    let mut term = 0.5f64.powi(n as i32);
    let mut sum = term;
    for step in 0..b.min(i) {
        term *= (n - step) as f64 / (step + 1) as f64;
        sum += term;
    }
    (2.0 * sum).min(1.0)
}

/// The figures of a cutoff whose recalls are not looked at.
fn written(p: f64) -> CutoffFigures {
    CutoffFigures {
        reference_recall: "-".into(),
        candidate_recall: "-".into(),
        p_value: format!("{p:.3}"),
    }
}

/// The default judge (cutoffs 1 and 5, alpha 0.05) with optional floors on
/// the candidate's recall, as `(cutoff, recall)`.
fn judge(before: &Record, after: &Record, floors: &[(usize, f64)]) -> Vec<AtCutoff> {
    compare(before, after, &[1, 5])
        .unwrap()
        .into_iter()
        .map(|d| {
            let p = mcnemar(d.regressions.len(), d.improvements.len());
            let recall = d.candidate_found as f64 / d.cases as f64;
            let under = floors
                .iter()
                .any(|(c, r)| *c == d.cutoff && recall < *r);
            AtCutoff::judged(d, p < 0.05, under, written(p))
        })
        .collect()
}

#[test]
fn a_real_regression_is_caught_and_named() {
    let before = record(&[Some(1); 10], "f", 10);
    let mut after = record(&[Some(1); 10], "f", 10);
    for o in after.outcomes.iter_mut().take(6) {
        o.rank = Some(3);
    }
    let at = judge(&before, &after, &[]);
    let at1 = &at[0];
    assert_eq!(at1.regressions.len(), 6);
    assert_eq!(at1.improvements.len(), 0);
    assert!(at1.significant_regression && at1.failed());
    // Naming them is the actionable half of the verdict.
    assert!(at1.regressions.contains(&"q0".to_string()));
    // At cutoff 5 nothing moved: rank 3 is still inside the top five.
    assert!(!at[1].failed());
    assert_eq!(at[1].regressions.len(), 0);
}

#[test]
fn a_change_under_the_floor_is_not_called_a_regression() {
    let before = record(&[Some(1); 10], "f", 10);
    let mut after = record(&[Some(1); 10], "f", 10);
    after.outcomes[0].rank = Some(4);
    let at = judge(&before, &after, &[]);
    // One case moved. Real, but below what this corpus can resolve.
    assert_eq!(at[0].regressions.len(), 1);
    assert!(!at[0].significant_regression);
    assert!(!at[0].failed());
}

#[test]
fn an_absolute_floor_still_catches_a_collapse() {
    let before = record(&[Some(1); 10], "f", 10);
    let after = record(&[None; 10], "f", 10);
    let at = judge(&before, &after, &[(1, 0.5)]);
    assert!(at[0].below_floor);
    assert!(at[0].failed());
}

#[test]
fn records_that_cannot_be_compared_are_refused() {
    let a = record(&[Some(1)], "aaa", 10);
    // A refreshed corpus: different fingerprint.
    let e = compare(&a, &record(&[Some(1)], "bbb", 10), &[1, 5])
        .err()
        .unwrap();
    assert!(e.contains("same corpus"), "got: {e}");
    // A different k: ranks past the smaller one were never measured.
    let e = compare(&a, &record(&[Some(1)], "aaa", 5), &[1, 5])
        .err()
        .unwrap();
    assert!(e.contains("results"), "got: {e}");
    // Same fingerprint, cases reordered by hand.
    let mut shuffled = record(&[Some(1), Some(1)], "aaa", 10);
    let two = record(&[Some(1), Some(1)], "aaa", 10);
    shuffled.outcomes[0].question = "elsewhere".into();
    assert!(compare(&two, &shuffled, &[1, 5]).is_err());
}

#[test]
fn every_refusal_says_exactly_why() {
    let a = record(&[Some(1)], "aaa", 10);
    assert_eq!(
        compare(&a, &record(&[Some(1)], "aaa", 5), &[1]).err().unwrap(),
        "one record asked for 10 results and the other for 5; ranks beyond the smaller of the two \
were never measured"
    );
    assert_eq!(
        compare(&a, &record(&[Some(1), None], "aaa", 10), &[1]).err().unwrap(),
        "the two records do not hold the same number of cases"
    );
    let mut b = record(&[Some(1)], "aaa", 10);
    b.outcomes[0].question = "elsewhere".into();
    assert_eq!(
        compare(&a, &b, &[1]).err().unwrap(),
        "the cases are not in the same order: \"q0\" against \"elsewhere\""
    );
    assert!(compare(&a, &record(&[Some(1)], "bbb", 10), &[1])
        .err()
        .unwrap()
        .starts_with("these records are not of the same corpus (aaa vs bbb)."));
}

#[test]
fn a_record_agrees_with_itself() {
    let a = record(&[Some(1), None, Some(7)], "f", 10);
    let b = record(&[Some(1), None, Some(7)], "f", 10);
    for d in compare(&a, &b, &[1, 5, 10]).unwrap() {
        assert!(d.regressions.is_empty() && d.improvements.is_empty());
        assert_eq!(d.reference_found, d.candidate_found);
    }
}

#[test]
fn swapping_sides_swaps_the_lists_and_the_counts_add_up() {
    let a = record(&[Some(1), None, Some(3), Some(1)], "f", 10);
    let b = record(&[None, Some(2), Some(1), Some(1)], "f", 10);
    let ab = compare(&a, &b, &[1, 5]).unwrap();
    let ba = compare(&b, &a, &[1, 5]).unwrap();
    for (x, y) in ab.iter().zip(&ba) {
        assert_eq!(x.regressions, y.improvements);
        assert_eq!(x.improvements, y.regressions);
        assert_eq!(
            x.regressions.len() as i64 - x.improvements.len() as i64,
            x.reference_found as i64 - x.candidate_found as i64
        );
    }
    assert_eq!(ab[0].regressions, vec!["q0"]);
    assert_eq!(ab[0].improvements, vec!["q2"]);
    assert_eq!(ab[1].regressions, vec!["q0"]);
    assert_eq!(ab[1].improvements, vec!["q1"]);
}

#[test]
fn nothing_fails_unless_some_cutoff_does() {
    let a = record(&[Some(1)], "f", 10);
    let none: Vec<AtCutoff> = compare(&a, &a, &[1, 5])
        .unwrap()
        .into_iter()
        .map(|d| AtCutoff::judged(d, true, false, written(0.0)))
        .collect();
    // A p-value under alpha is no regression when nothing was lost.
    assert!(!any_failed(&none));
    let floor: Vec<AtCutoff> = compare(&a, &a, &[1])
        .unwrap()
        .into_iter()
        .map(|d| AtCutoff::judged(d, false, true, written(1.0)))
        .collect();
    assert!(any_failed(&floor));
    assert!(!any_failed(&[]));
}
