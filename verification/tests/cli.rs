use askable::cli::{judge_args, parse_usize, run_args, tail_args, DEFAULT_CONFIG, DEFAULT_LAST, USAGE};

fn args(line: &str) -> Vec<String> {
    line.split_whitespace().map(String::from).collect()
}

#[test]
fn a_run_without_a_label_is_refused_and_says_why() {
    let e = run_args(&args("--candidate c --corpus f.json")).unwrap_err();
    assert!(e.contains("--label"), "got: {e}");
    assert!(e.contains("WHICH version"), "the message must say what for");
}

#[test]
fn the_whole_ci_gesture_parses() {
    let a = run_args(&args(
        "--candidate mine --corpus bench.json --label abc123 --judge records/ref.json --k 5",
    ))
    .unwrap();
    assert_eq!(a.label, "abc123");
    assert_eq!(a.judge, Some("records/ref.json".to_string()));
    assert_eq!(a.k, 5);
    // The defaults still hold for everything not named.
    assert_eq!(a.config, DEFAULT_CONFIG.to_string());
    assert_eq!(a.out, None);
}

#[test]
fn a_run_still_needs_something_to_ask_and_someone_to_ask() {
    assert!(run_args(&args("--corpus f.json --label x")).is_err());
    assert!(run_args(&args("--candidate c --label x")).is_err());
    assert!(run_args(&args("--candidate c --corpus f.json --label x --k 0")).is_err());
    assert!(run_args(&args("--candidate c --corpus f.json --label x --nope 1")).is_err());
}

#[test]
fn every_refusal_of_run_says_what_it_wants() {
    assert_eq!(
        run_args(&args("--corpus f.json --label x")).unwrap_err(),
        "run needs --candidate NAME"
    );
    assert_eq!(
        run_args(&args("--candidate c --label x")).unwrap_err(),
        "run needs --corpus FILE"
    );
    assert_eq!(
        run_args(&args("--candidate c --corpus f --label x --k 0")).unwrap_err(),
        "--k 0 would ask for no result at all"
    );
    assert_eq!(
        run_args(&args("--candidate c --corpus f --label x --k five")).unwrap_err(),
        "--k wants a number"
    );
    assert_eq!(
        run_args(&args("--candidate c --corpus")).unwrap_err(),
        "--corpus expects a value"
    );
    assert_eq!(
        run_args(&args("--nope")).unwrap_err(),
        format!("unknown flag `--nope`\n{USAGE}")
    );
}

#[test]
fn a_later_flag_wins_and_every_field_is_read() {
    let a = run_args(&args(
        "--candidate a --candidate b --corpus c.json --label l --config x.toml --out o.json",
    ))
    .unwrap();
    assert_eq!(a.candidate, "b");
    assert_eq!(a.corpus, "c.json");
    assert_eq!(a.config, "x.toml");
    assert_eq!(a.out, Some("o.json".to_string()));
    assert_eq!(a.k, 10);
    assert_eq!(a.judge, None);
}

#[test]
fn tail_reads_filters_columns_and_a_count() {
    let o = tail_args(&args("--match rag=true --match a=b=c --show query,ms_total,,x --last 3"))
        .unwrap();
    assert_eq!(
        o.filters,
        vec![
            ("rag".to_string(), "true".to_string()),
            ("a".to_string(), "b=c".to_string())
        ]
    );
    assert_eq!(o.columns, vec!["query", "ms_total", "", "x"]);
    assert_eq!(o.last, 3);

    let d = tail_args(&[]).unwrap();
    assert!(d.filters.is_empty() && d.columns.is_empty());
    assert_eq!(d.last, DEFAULT_LAST);

    // A column list is trimmed piece by piece, as the flag is written by hand.
    let o = tail_args(&["--show".to_string(), " a , b\t".to_string()]).unwrap();
    assert_eq!(o.columns, vec!["a", "b"]);
}

#[test]
fn tail_refuses_what_it_cannot_read() {
    assert_eq!(
        tail_args(&args("--match novalue")).unwrap_err(),
        "--match wants key=value, got `novalue`"
    );
    assert_eq!(
        tail_args(&args("--last many")).unwrap_err(),
        "--last wants a number"
    );
    assert_eq!(
        tail_args(&args("--show")).unwrap_err(),
        "--show expects a value"
    );
    assert!(tail_args(&args("--other 1")).unwrap_err().starts_with("unknown flag `--other`"));
}

#[test]
fn a_number_reads_as_rust_reads_it() {
    assert_eq!(parse_usize("42"), Some(42));
    assert_eq!(parse_usize("+7"), Some(7));
    assert_eq!(parse_usize("007"), Some(7));
    assert_eq!(parse_usize(""), None);
    assert_eq!(parse_usize("+"), None);
    assert_eq!(parse_usize("-1"), None);
    assert_eq!(parse_usize(" 1"), None);
    assert_eq!(parse_usize("99999999999999999999999"), None);
    assert_eq!(parse_usize(&usize::MAX.to_string()), Some(usize::MAX));
}

#[test]
fn judge_takes_two_records_and_a_config_in_any_order() {
    let a = judge_args(&args("a.json --config other.toml b.json")).unwrap();
    assert_eq!(a.reference, "a.json");
    assert_eq!(a.candidate, "b.json");
    assert_eq!(a.config, "other.toml");
    let a = judge_args(&args("a.json b.json")).unwrap();
    assert_eq!(a.config, DEFAULT_CONFIG);
}

#[test]
fn judge_refuses_the_wrong_number_of_records() {
    assert_eq!(
        judge_args(&args("a.json")).unwrap_err(),
        format!("judge wants two records, got 1\n{USAGE}")
    );
    assert_eq!(
        judge_args(&args("a.json b.json c.json")).unwrap_err(),
        format!("judge wants two records, got 3\n{USAGE}")
    );
    assert_eq!(
        judge_args(&[]).unwrap_err(),
        format!("judge wants two records, got 0\n{USAGE}")
    );
}

#[test]
fn judge_refuses_an_unknown_flag_and_a_config_without_value() {
    assert_eq!(
        judge_args(&args("a.json b.json --nope")).unwrap_err(),
        format!("unknown flag `--nope`\n{USAGE}")
    );
    assert_eq!(
        judge_args(&args("a.json b.json --config")).unwrap_err(),
        "--config expects a value"
    );
    // A single dash is a file name, not a flag.
    assert!(judge_args(&args("- b.json")).is_ok());
}

#[test]
fn tail_keeps_every_filter_in_order_and_the_last_show_and_count() {
    let o = tail_args(&args(
        "--match a=1 --show x,y --match b=c=d --last 3 --show z --last 7",
    ))
    .unwrap();
    assert_eq!(
        o.filters,
        vec![
            ("a".to_string(), "1".to_string()),
            ("b".to_string(), "c=d".to_string())
        ]
    );
    assert_eq!(o.columns, vec!["z"]);
    assert_eq!(o.last, 7);
    // An odd number of arguments leaves a flag without its value.
    assert_eq!(tail_args(&args("--last")).err().unwrap(), "--last expects a value");
}
