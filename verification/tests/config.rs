use askable::candidate::Candidate;
use askable::config::{cutoffs_default, Config};

fn candidate(url: &str, id_field: &str, results_at: Option<&str>) -> Candidate {
    Candidate {
        url: url.into(),
        id_field: id_field.into(),
        results_at: results_at.map(String::from),
        usage_at: None,
    }
}

/// A configuration of two candidates.
fn config() -> Config {
    let mut c = Config::new(cutoffs_default());
    c.insert(
        "demo".to_string(),
        candidate("http://localhost:8080/search?q={query}&n={k}", "id", None),
    );
    c.insert(
        "other".to_string(),
        candidate("http://localhost:9090/find?text={query}", "uuid", Some("results")),
    );
    c
}

#[test]
fn an_unknown_name_says_what_is_there() {
    let c = config();
    let e = c.get("nope").unwrap_err();
    assert!(e.contains("demo") && e.contains("other"), "got: {e}");
}

#[test]
fn a_url_without_a_placeholder_is_refused_at_load() {
    let mut flat = Config::new(cutoffs_default());
    flat.insert(
        "x".to_string(),
        candidate("http://localhost/search?q=hello", "id", None),
    );
    let e = flat.check().unwrap_err();
    assert!(e.contains("{query}"), "got: {e}");
}

#[test]
fn a_candidate_is_found_by_name() {
    let c = config();
    assert!(c.check().is_ok());
    assert_eq!(c.get("other").unwrap().id_field, "uuid");
    assert_eq!(c.get("demo").unwrap().results_at, None);
    assert_eq!(
        c.get("nope").unwrap_err(),
        "no candidate `nope`; this file has: demo, other"
    );
    let none = Config::new(cutoffs_default());
    assert_eq!(none.get("x").unwrap_err(), "no candidate is configured");
}

#[test]
fn the_judge_needs_a_cutoff() {
    assert_eq!(cutoffs_default(), vec![1, 5]);
    let nothing = Config::new(Vec::new());
    assert_eq!(
        nothing.check().unwrap_err(),
        "judge.cutoffs is empty, so there is nothing to judge"
    );
    let mut bad = config();
    bad.insert(
        "other".to_string(),
        candidate("http://x/", "uuid", Some("results")),
    );
    assert_eq!(
        bad.check().unwrap_err(),
        "candidate `other`: the url has no {query} placeholder, so every case would ask the same \
thing"
    );
}

#[test]
fn candidates_are_kept_by_name_in_order_and_read_back() {
    let mut c = Config::new(cutoffs_default());
    c.insert("zeta".into(), candidate("http://z/{query}", "id", None));
    c.insert("alpha".into(), candidate("http://a/{query}", "id", None));
    c.insert("mid".into(), candidate("http://m/{query}", "id", None));
    let names: Vec<&str> = c.candidates().iter().map(|(n, _)| n.as_str()).collect();
    assert_eq!(names, vec!["alpha", "mid", "zeta"]);
    // The same name again replaces, and every other name keeps its candidate.
    c.insert("mid".into(), candidate("http://m2/{query}", "uuid", None));
    assert_eq!(c.candidates().len(), 3);
    assert_eq!(c.get("mid").unwrap().url, "http://m2/{query}");
    assert_eq!(c.get("alpha").unwrap().url, "http://a/{query}");
    assert_eq!(c.get("zeta").unwrap().url, "http://z/{query}");
    assert_eq!(
        c.get("nope").unwrap_err(),
        "no candidate `nope`; this file has: alpha, mid, zeta"
    );
    // A prefix sorts first, and byte order is the order.
    c.insert("mi".into(), candidate("http://mi/{query}", "id", None));
    c.insert("Zed".into(), candidate("http://Z/{query}", "id", None));
    let names: Vec<&str> = c.candidates().iter().map(|(n, _)| n.as_str()).collect();
    assert_eq!(names, vec!["Zed", "alpha", "mi", "mid", "zeta"]);
}
