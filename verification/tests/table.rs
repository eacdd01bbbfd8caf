use askable::cli::TailArgs;
use askable::table::{clip, columns, render, tail_report, Event};

/// The event a log line `2026-01-01T09:00:00Z INFO s: a=1 b=deux` carries.
fn event(time: &str, fields: &[(&str, &str)]) -> Event {
    Event {
        time: time.into(),
        fields: fields
            .iter()
            .map(|(k, v)| (k.to_string(), v.to_string()))
            .collect(),
    }
}

#[test]
fn a_missing_field_shows_a_dash_and_never_a_blank() {
    let e = event("09:00:00", &[("a", "1"), ("b", "deux")]);
    let t = render(&[e], &["a".into(), "absent".into()]);
    assert!(t.contains("09:00:00"), "got: {t}");
    // Absent and empty must not look alike.
    assert!(t.contains('-'), "got: {t}");
    // Columns are sized on what fills them, header included.
    assert!(t.lines().count() >= 3, "header, rule, and one row: {t}");
}

#[test]
fn the_columns_fall_back_to_every_field_seen() {
    let e = event("09:00:00", &[("rag", "true"), ("ms", "12")]);
    let opts = TailArgs {
        filters: Vec::new(),
        columns: Vec::new(),
        last: 20,
    };
    let c = columns(&opts, std::slice::from_ref(&e));
    assert!(
        c.contains(&"rag".to_string()) && c.contains(&"ms".to_string()),
        "{c:?}"
    );
}

#[test]
fn a_long_cell_is_clipped_with_a_visible_mark() {
    assert_eq!(clip("abcdef", 3), "ab\u{2026}");
    assert_eq!(clip("abc", 3), "abc", "what fits is not clipped");
    // Clips on CHARACTERS, not on bytes.
    assert_eq!(clip("éééé", 2), "é\u{2026}");
}

#[test]
fn a_table_is_laid_out_exactly() {
    let events = [
        event("09:00:00", &[("a", "1"), ("b", "deux")]),
        event("09:00:01", &[("b", "x")]),
    ];
    let t = render(&events, &["a".into(), "absent".into(), "b".into()]);
    assert_eq!(
        t,
        "time      a  absent  b   \n\
-------------------------\n\
09:00:00  1  -       deux\n\
09:00:01  -  -       x   \n"
    );
    // Every line has the same width when the times fit in nine.
    let widths: Vec<usize> = t.lines().map(|l| l.chars().count()).collect();
    assert!(widths.iter().all(|w| *w == widths[0]), "{widths:?}");
}

#[test]
fn asked_columns_win_and_each_field_is_named_once() {
    let events = [
        event("t", &[("b", "1"), ("a", "2")]),
        event("t", &[("c", "3"), ("a", "4")]),
    ];
    let all = TailArgs {
        filters: Vec::new(),
        columns: Vec::new(),
        last: 20,
    };
    assert_eq!(columns(&all, &events), vec!["b", "a", "c"]);
    let asked = TailArgs {
        filters: Vec::new(),
        columns: vec!["z".into()],
        last: 20,
    };
    assert_eq!(columns(&asked, &events), vec!["z"]);
}

#[test]
fn a_clip_to_nothing_still_shows_the_mark() {
    assert_eq!(clip("abc", 0), "\u{2026}");
    assert_eq!(clip("", 0), "");
    let long = "x".repeat(50);
    let c = clip(&long, 44);
    assert_eq!(c.chars().count(), 44);
    assert!(c.ends_with('\u{2026}'));
}

fn last(n: usize) -> TailArgs {
    TailArgs {
        filters: Vec::new(),
        columns: vec!["a".into()],
        last: n,
    }
}

#[test]
fn tail_shows_only_the_last_events_and_says_how_many() {
    let events = [
        event("09:00:00", &[("a", "1")]),
        event("09:00:01", &[("a", "2")]),
        event("09:00:02", &[("a", "3")]),
    ];
    let (table, note) = tail_report(&events, &last(2), "raw");
    assert_eq!(table, render(&events[1..], &["a".into()]));
    assert!(!table.contains("09:00:00"), "{table}");
    assert_eq!(note, "askable: 3 matched, 2 shown");
    let (table, note) = tail_report(&events, &last(20), "raw");
    assert_eq!(table, render(&events, &["a".into()]));
    assert_eq!(note, "askable: 3 matched, 3 shown");
}

#[test]
fn tail_tells_an_empty_input_from_nothing_matching() {
    let (table, note) = tail_report(&[], &last(20), "  \n\t");
    assert_eq!(table, "");
    assert_eq!(note, "askable: no event matched (the input was empty)");
    let (table, note) = tail_report(&[], &last(20), "a line\n");
    assert_eq!(table, "");
    assert_eq!(note, "askable: no event matched");
    // Asking for none of them shows none.
    let one = [event("t", &[("a", "1")])];
    let (table, note) = tail_report(&one, &last(0), "a line");
    assert_eq!(table, "");
    assert_eq!(note, "askable: no event matched");
}
