use askable::record::{count_absent, count_found, found_within, rank_of, record_path, utc_iso, Outcome};

fn outcome(rank: Option<usize>) -> Outcome {
    Outcome {
        question: "q".into(),
        gold: vec!["a".into()],
        rank,
        returned: Vec::new(),
        top_numbers: Vec::new(),
        input_tokens: None,
        output_tokens: None,
    }
}

#[test]
fn a_short_gold_matches_a_full_identifier() {
    let returned = vec![
        "2eebc3e2-b77c-4180".to_string(),
        "af076cc4-0000".to_string(),
    ];
    assert_eq!(rank_of(&returned, &["2eebc3e2".into()]), Some(1));
    assert_eq!(rank_of(&returned, &["af076cc4".into()]), Some(2));
    // Several golds: the FIRST one to appear wins, not the first listed.
    assert_eq!(
        rank_of(&returned, &["af076cc4".into(), "2eebc3e2".into()]),
        Some(1)
    );
    assert_eq!(rank_of(&returned, &["deadbeef".into()]), None);
}

#[test]
fn the_timestamp_is_right_including_a_leap_day() {
    for (seconds, expected) in [
        (0u64, "1970-01-01T00:00:00Z"),
        (5_097_600, "1970-03-01T00:00:00Z"),
        (5_270_400, "1970-03-03T00:00:00Z"),
        (946_684_800, "2000-01-01T00:00:00Z"),
        (951_782_400, "2000-02-29T00:00:00Z"),
        (1_709_251_200, "2024-03-01T00:00:00Z"),
        (1_769_903_999, "2026-01-31T23:59:59Z"),
        (1_772_323_200, "2026-03-01T00:00:00Z"),
        (1_782_777_600, "2026-06-30T00:00:00Z"),
        (1_789_117_199, "2026-09-11T08:59:59Z"),
        (1_789_117_200, "2026-09-11T09:00:00Z"),
        (1_798_718_400, "2026-12-31T12:00:00Z"),
    ] {
        assert_eq!(utc_iso(seconds), expected, "for {seconds}");
    }
}

#[test]
fn the_timestamp_survives_the_largest_instant() {
    // The last second a u64 can count: a year far beyond four digits.
    let t = utc_iso(u64::MAX);
    assert_eq!(t, "584554051223-11-09T07:00:15Z");
    assert_eq!(utc_iso(86_399), "1970-01-01T23:59:59Z");
    assert_eq!(utc_iso(68_169_600), "1972-02-29T00:00:00Z");
    assert_eq!(utc_iso(4_107_542_400), "2100-03-01T00:00:00Z");
}

#[test]
fn an_empty_gold_list_or_answer_list_finds_nothing() {
    let returned = vec!["abcd".to_string()];
    assert_eq!(rank_of(&returned, &[]), None);
    assert_eq!(rank_of(&[], &["abcd".into()]), None);
    // A gold longer than the id is no prefix of it.
    assert_eq!(rank_of(&returned, &["abcde".into()]), None);
}

#[test]
fn found_and_absent_cases_are_counted() {
    let all = vec![outcome(Some(1)), outcome(Some(4)), outcome(None)];
    assert_eq!(count_found(&all, 1), 1);
    assert_eq!(count_found(&all, 5), 2);
    assert_eq!(count_found(&all, 0), 0);
    assert_eq!(count_absent(&all), 1);
    assert_eq!(count_found(&[], 3), 0);
}

#[test]
fn a_record_is_named_by_its_time_without_colons() {
    assert_eq!(
        record_path("2026-01-01T09:00:00Z", "mine"),
        "records/2026-01-01T090000Z-mine.json"
    );
}

#[test]
fn a_cutoff_beyond_what_was_asked_for_is_not_counted() {
    let all = vec![outcome(Some(1))];
    assert_eq!(found_within(&all, 1, 5), Some(1));
    assert_eq!(found_within(&all, 5, 5), Some(1));
    // Asked for five, so recall@10 was never measured. Not 1, not 0.
    assert_eq!(found_within(&all, 10, 5), None);
}

#[test]
fn timestamps_are_twenty_characters_and_sort_as_time() {
    let seconds = [
        0u64,
        59,
        60,
        3_599,
        3_600,
        86_399,
        86_400,
        951_782_400,
        1_789_117_199,
        1_789_117_200,
        253_402_300_799,
    ];
    let texts: Vec<String> = seconds.iter().map(|s| utc_iso(*s)).collect();
    for t in &texts {
        assert_eq!(t.chars().count(), 20, "{t}");
    }
    for w in texts.windows(2) {
        assert!(w[0] < w[1], "{} then {}", w[0], w[1]);
    }
    assert_eq!(utc_iso(253_402_300_799), "9999-12-31T23:59:59Z");
}
