use askable::candidate::Candidate;
use askable::corpus::{Case, Corpus};
use askable::record::Outcome;
use askable::replay::{hits_from, usage_from, Answer, Hit, Json, JsonNumber, Replay, Usage};

fn corpus() -> Corpus {
    let case = |q: &str, g: &str| Case {
        question: q.into(),
        gold: vec![g.into()],
    };
    Corpus {
        name: "t".into(),
        cases: vec![case("one", "aaa1"), case("two", "bbb2"), case("three", "ccc3")],
    }
}

fn candidate() -> Candidate {
    Candidate {
        url: "http://x/s?q={query}&k={k}".into(),
        id_field: "id".into(),
        results_at: None,
        usage_at: None,
    }
}

fn hit(id: &str) -> Hit {
    Hit {
        id: id.into(),
        numbers: Vec::new(),
    }
}

fn repond(ids: &[&str]) -> Answer {
    Answer {
        hits: ids.iter().map(|i| hit(i)).collect(),
        usage: Usage::default(),
    }
}

/// Asks every question in turn, as the binary does, stopping at the first
/// failure.
fn replay(
    corpus: &Corpus,
    cand: &Candidate,
    k: usize,
    mut fetch: impl FnMut(&str) -> Result<Answer, String>,
) -> Result<Vec<Outcome>, String> {
    let mut r = Replay::new();
    while let Some(url) = r.next_url(corpus, cand, k) {
        r.receive(corpus, fetch(&url))?;
    }
    Ok(r.outcomes)
}

fn obj(members: &[(&str, Json)]) -> Json {
    Json::Object(
        members
            .iter()
            .map(|(k, v)| (k.to_string(), clone(v)))
            .collect(),
    )
}

fn clone(v: &Json) -> Json {
    match v {
        Json::Null => Json::Null,
        Json::Bool(b) => Json::Bool(*b),
        Json::Number(n) => Json::Number(JsonNumber {
            as_u64: n.as_u64,
            text: n.text.clone(),
        }),
        Json::Text(s) => Json::Text(s.clone()),
        Json::Array(a) => Json::Array(a.iter().map(clone).collect()),
        Json::Object(o) => Json::Object(o.iter().map(|(k, v)| (k.clone(), clone(v))).collect()),
    }
}

fn whole(n: u64) -> Json {
    Json::Number(JsonNumber {
        as_u64: Some(n),
        text: n.to_string(),
    })
}

fn float(text: &str) -> Json {
    Json::Number(JsonNumber {
        as_u64: None,
        text: text.into(),
    })
}

fn text(s: &str) -> Json {
    Json::Text(s.into())
}

#[test]
fn every_case_is_asked_and_ranked() {
    let mut seen = Vec::new();
    let out = replay(&corpus(), &candidate(), 10, |url| {
        seen.push(url.to_string());
        Ok(repond(&["zzz1", "bbb2"]))
    })
    .unwrap();
    assert_eq!(seen.len(), 3);
    assert!(seen[0].ends_with("q=one&k=10"));
    // Only the second case had its expected answer come back.
    assert_eq!(
        out.iter().map(|o| o.rank).collect::<Vec<_>>(),
        vec![None, Some(2), None]
    );
}

#[test]
fn one_failed_case_aborts_the_whole_run() {
    let mut asked = 0;
    let err = replay(&corpus(), &candidate(), 10, |_| {
        asked += 1;
        if asked == 2 {
            Err("connection refused".into())
        } else {
            Ok(repond(&["aaa1"]))
        }
    })
    .unwrap_err();
    // It stopped AT the failure, and said which case and why.
    assert_eq!(asked, 2);
    assert!(err.contains("case 2/3"), "got: {err}");
    assert!(err.contains("connection refused"), "got: {err}");
    assert_eq!(err, "case 2/3 (\"two\"): connection refused");
}

#[test]
fn a_candidate_that_reports_nothing_reports_nothing() {
    // The common case: a search engine has neither prompt nor completion.
    let without = candidate();
    let body = Json::Array(vec![obj(&[("id", text("aaaa"))])]);
    assert_eq!(usage_from(&body, &without), Usage::default());
    // Even when the answer carries a usage object: with no usage_at we do
    // not go looking. Guessing where the numbers live is inventing them.
    let with_object = obj(&[("usage", obj(&[("input_tokens", whole(10))]))]);
    assert_eq!(usage_from(&with_object, &without), Usage::default());
}

#[test]
fn both_spellings_are_read_and_the_current_one_wins() {
    let mut cand = candidate();
    cand.usage_at = Some("usage".into());

    let current = obj(&[(
        "usage",
        obj(&[("input_tokens", whole(12)), ("output_tokens", whole(34))]),
    )]);
    assert_eq!(
        usage_from(&current, &cand),
        Usage {
            input: Some(12),
            output: Some(34)
        }
    );
    // The deprecated names, still emitted by most services.
    let legacy = obj(&[(
        "usage",
        obj(&[("completion_tokens", whole(6)), ("prompt_tokens", whole(5))]),
    )]);
    assert_eq!(
        usage_from(&legacy, &cand),
        Usage {
            input: Some(5),
            output: Some(6)
        }
    );
    // Both present: the current name wins, never the sum.
    let both = obj(&[(
        "usage",
        obj(&[
            ("input_tokens", whole(1)),
            ("output_tokens", whole(2)),
            ("prompt_tokens", whole(99)),
        ]),
    )]);
    assert_eq!(usage_from(&both, &cand).input, Some(1));
    // One half only: the other stays absent, not zero.
    let half = obj(&[("usage", obj(&[("input_tokens", whole(7))]))]);
    assert_eq!(
        usage_from(&half, &cand),
        Usage {
            input: Some(7),
            output: None
        }
    );
}

#[test]
fn a_count_that_is_no_count_is_absent() {
    let mut cand = candidate();
    cand.usage_at = Some("usage".into());
    // The current name holds text: it still wins, and reads as nothing.
    let odd = obj(&[(
        "usage",
        obj(&[("input_tokens", text("12")), ("prompt_tokens", whole(5))]),
    )]);
    assert_eq!(usage_from(&odd, &cand).input, None);
    // A fraction is no count of tokens.
    let frac = obj(&[("usage", obj(&[("input_tokens", float("1.5"))]))]);
    assert_eq!(usage_from(&frac, &cand).input, None);
    // Usage is looked for in an object only.
    assert_eq!(usage_from(&Json::Null, &cand), Usage::default());
}

#[test]
fn what_a_candidate_reports_travels_to_the_outcome() {
    let mut cand = candidate();
    cand.usage_at = Some("usage".into());
    let out = replay(&corpus(), &cand, 10, |_| {
        Ok(Answer {
            hits: vec![hit("aaa1")],
            usage: Usage {
                input: Some(100),
                output: Some(20),
            },
        })
    })
    .unwrap();
    assert_eq!(out[0].input_tokens, Some(100));
    assert_eq!(out[2].output_tokens, Some(20));
}

#[test]
fn a_wrong_shape_is_a_configuration_error_not_an_empty_result() {
    let cand = candidate();
    assert!(hits_from(&obj(&[("oops", whole(1))]), &cand).is_err());
    assert!(hits_from(&Json::Array(vec![obj(&[("name", text("x"))])]), &cand).is_err());
    // Nested results, and the numbers of the top hit are kept as they came.
    let mut nested = candidate();
    nested.results_at = Some("results".into());
    let body = obj(&[(
        "results",
        Json::Array(vec![obj(&[
            ("id", text("aaa")),
            ("note", text("x")),
            ("score", float("0.5")),
        ])]),
    )]);
    let hits = hits_from(&body, &nested).unwrap();
    assert_eq!(hits[0].id, "aaa");
    let get = |name: &str| {
        hits[0]
            .numbers
            .iter()
            .find(|(k, _)| k == name)
            .map(|(_, v)| v.clone())
    };
    assert_eq!(get("score"), Some("0.5".to_string()));
    assert_eq!(get("note"), None);
}

#[test]
fn every_shape_refusal_says_what_was_expected() {
    let mut cand = candidate();
    assert_eq!(
        hits_from(&obj(&[("oops", whole(1))]), &cand).err().unwrap(),
        "the answer is not a list of results"
    );
    assert_eq!(
        hits_from(&Json::Array(vec![obj(&[("id", whole(3))])]), &cand)
            .err()
            .unwrap(),
        "a result carries no `id` string"
    );
    cand.results_at = Some("results".into());
    assert_eq!(
        hits_from(&Json::Array(Vec::new()), &cand).err().unwrap(),
        "the answer has no `results` field"
    );
    // An empty list is a valid answer that found nothing.
    let empty = obj(&[("results", Json::Array(Vec::new()))]);
    assert_eq!(hits_from(&empty, &cand).ok().unwrap().len(), 0);
}

#[test]
fn an_outcome_keeps_every_id_and_the_numbers_of_the_top_hit() {
    let mut r = Replay::new();
    let c = corpus();
    assert!(r.next_url(&c, &candidate(), 3).unwrap().ends_with("q=one&k=3"));
    let answer = Answer {
        hits: vec![
            Hit {
                id: "zzzz".into(),
                numbers: vec![("score".into(), "0.9".into())],
            },
            hit("aaa1-full"),
        ],
        usage: Usage::default(),
    };
    r.receive(&c, Ok(answer)).unwrap();
    let o = &r.outcomes[0];
    assert_eq!(o.question, "one");
    assert_eq!(o.rank, Some(2));
    assert_eq!(o.returned, vec!["zzzz", "aaa1-full"]);
    assert_eq!(o.top_numbers, vec![("score".to_string(), "0.9".to_string())]);
    // A failure keeps nothing of the case.
    assert!(r.receive(&c, Err("down".into())).is_err());
    assert_eq!(r.outcomes.len(), 1);
}
