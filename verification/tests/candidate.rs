use askable::candidate::{id_field_default, percent_encode, Candidate};

fn candidate(url: &str) -> Candidate {
    Candidate {
        url: url.into(),
        id_field: "id".into(),
        results_at: None,
        usage_at: None,
    }
}

#[test]
fn a_question_is_escaped_before_it_reaches_the_url() {
    let c = candidate("http://localhost:8080/search?q={query}&n={k}");
    assert_eq!(
        c.request_url("why & how", 10),
        "http://localhost:8080/search?q=why%20%26%20how&n=10"
    );
    // Accented text is bytes, not characters, once it is encoded.
    assert_eq!(percent_encode("é"), "%C3%A9");
}

#[test]
fn a_url_without_a_placeholder_is_refused() {
    assert!(candidate("http://localhost/search?q=hello").check().is_err());
    assert!(candidate("http://localhost/search?q={query}").check().is_ok());
}

#[test]
fn the_check_names_what_is_wrong() {
    let e = candidate("http://localhost/search?q=hello").check().unwrap_err();
    assert_eq!(
        e,
        "the url has no {query} placeholder, so every case would ask the same thing"
    );
    let mut c = candidate("http://x/?q={query}");
    c.id_field = String::new();
    assert_eq!(c.check().unwrap_err(), "id_field is empty");
}

#[test]
fn every_placeholder_is_filled_and_unreserved_bytes_pass() {
    let c = candidate("http://x/{query}/{query}?k={k}&again={k}");
    assert_eq!(c.request_url("A-z_0.~", 125), "http://x/A-z_0.~/A-z_0.~?k=125&again=125");
    // A url that never asks for k keeps what it has.
    let c = candidate("http://x/?q={query}");
    assert_eq!(c.request_url("", 3), "http://x/?q=");
}

#[test]
fn an_encoded_question_is_url_safe() {
    let e = percent_encode("a b&c=d#e/f?g'h\u{1F600}");
    assert_eq!(e, "a%20b%26c%3Dd%23e%2Ff%3Fg%27h%F0%9F%98%80");
    assert!(e
        .chars()
        .all(|c| c.is_ascii_alphanumeric() || "-_.~%".contains(c)));
}

#[test]
fn the_default_id_field_is_id() {
    assert_eq!(id_field_default(), "id");
}
