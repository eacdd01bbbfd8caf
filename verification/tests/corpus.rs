use askable::corpus::{Case, Corpus, MIN_GOLD};

const RAW: &str = r#"{"name":"demo","cases":[
    {"question":"where do backups live","gold":["a1b2"]},
    {"question":"how is a release cut","gold":["c3d4","e5f6"]}]}"#;

/// Reads a corpus written as JSON, by hand, the way the binary's reader
/// hands one to the library.
fn from_value(v: &serde_json::Value) -> Corpus {
    Corpus {
        name: v["name"].as_str().unwrap().to_string(),
        cases: v["cases"]
            .as_array()
            .unwrap()
            .iter()
            .map(|c| Case {
                question: c["question"].as_str().unwrap().to_string(),
                gold: c["gold"]
                    .as_array()
                    .unwrap()
                    .iter()
                    .map(|g| g.as_str().unwrap().to_string())
                    .collect(),
            })
            .collect(),
    }
}

fn corpus(raw: &str) -> Corpus {
    from_value(&serde_json::from_str(raw).unwrap())
}

fn case(question: &str, gold: &[&str]) -> Case {
    Case {
        question: question.into(),
        gold: gold.iter().map(|g| g.to_string()).collect(),
    }
}

#[test]
fn a_gold_too_short_to_mean_anything_is_refused() {
    let tiny = Corpus {
        name: "x".into(),
        cases: vec![case("q", &["a1"])],
    };
    let e = tiny.check().unwrap_err();
    assert!(e.contains("shorter than"), "got: {e}");
}

#[test]
fn a_corpus_with_nothing_to_ask_is_refused() {
    let empty = Corpus {
        name: "x".into(),
        cases: Vec::new(),
    };
    assert!(empty.check().is_err());
    let no_gold = Corpus {
        name: "x".into(),
        cases: vec![case("q", &[])],
    };
    assert!(no_gold.check().is_err());
}

#[test]
fn the_fingerprint_follows_the_questions_not_the_formatting() {
    let pretty =
        serde_json::to_string_pretty(&serde_json::from_str::<serde_json::Value>(RAW).unwrap())
            .unwrap();
    assert_eq!(
        corpus(RAW).fingerprint(),
        corpus(&pretty).fingerprint(),
        "reformatting a file must not look like a refreshed corpus"
    );
    // Editing one character of one question must move it.
    let edited = RAW.replace("where do backups live", "where do backups sleep");
    assert_ne!(corpus(RAW).fingerprint(), corpus(&edited).fingerprint());
    // So must dropping a case: the denominator changed.
    let shorter =
        r#"{"name":"demo","cases":[{"question":"where do backups live","gold":["a1b2"]}]}"#;
    assert_ne!(corpus(RAW).fingerprint(), corpus(shorter).fingerprint());
}

#[test]
fn a_well_formed_corpus_passes_and_every_refusal_says_why() {
    assert!(corpus(RAW).check().is_ok());
    let empty = Corpus {
        name: "x".into(),
        cases: Vec::new(),
    };
    assert_eq!(empty.check().unwrap_err(), "no case in this corpus");
    let no_gold = Corpus {
        name: "x".into(),
        cases: vec![case("first", &["abcd"]), case("say \"hi\"", &[])],
    };
    assert_eq!(
        no_gold.check().unwrap_err(),
        "case \"say \\\"hi\\\"\" lists no expected answer"
    );
    let short = Corpus {
        name: "x".into(),
        cases: vec![case("q", &["abcd", "abc", "ab"])],
    };
    assert_eq!(
        short.check().unwrap_err(),
        "case \"q\": the expected answer \"abc\" is shorter than 4 characters, and would match \
identifiers it does not mean"
    );
    // Characters are counted, not bytes: two characters of four bytes are
    // still too short, and four characters of eight bytes are enough.
    let accents = Corpus {
        name: "x".into(),
        cases: vec![case("q", &["éé"])],
    };
    assert_eq!(
        accents.check().unwrap_err(),
        "case \"q\": the expected answer \"éé\" is shorter than 4 characters, and would match \
identifiers it does not mean"
    );
    let long_accents = Corpus {
        name: "x".into(),
        cases: vec![case("q", &["éééé"])],
    };
    assert!(long_accents.check().is_ok());
    assert_eq!(MIN_GOLD, 4);
}

#[test]
fn the_fingerprint_is_fnv1a_over_what_is_asked() {
    let c = Corpus {
        name: "anything".into(),
        cases: vec![case("a", &["bcde"])],
    };
    // FNV-1a 64 of "a", 0xff, "bcde", 0xff.
    let mut h: u64 = 0xcbf2_9ce4_8422_2325;
    for b in b"a\xffbcde\xff" {
        h ^= *b as u64;
        h = h.wrapping_mul(0x0000_0100_0000_01b3);
    }
    assert_eq!(c.fingerprint(), format!("{h:016x}"));
    // The name is not part of it; the split between strings is.
    let renamed = Corpus {
        name: "other".into(),
        cases: vec![case("a", &["bcde"])],
    };
    assert_eq!(c.fingerprint(), renamed.fingerprint());
    let resplit = Corpus {
        name: "anything".into(),
        cases: vec![case("ab", &["cde"])],
    };
    assert_ne!(c.fingerprint(), resplit.fingerprint());
    assert_eq!(c.fingerprint().len(), 16);
}
