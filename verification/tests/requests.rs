//! What backends are asked, and how their answers are read.
use fingerjoin::backend::{
    endpoint_url, outcome, request_url, verdict, Backend, BodyBuffer, Outcome, Verdict,
    MAX_BODY_BYTES, MAX_IN_FLIGHT,
};
use fingerjoin::http::{requests, WebfingerQuery};
use fingerjoin::query::build_query;
use fingerjoin::webfinger::JrdResource;
use url::Url;

fn backend(url: &str) -> Backend {
    Backend {
        name: "social".to_string(),
        url: url.to_string(),
        priority: 50,
    }
}

fn strings(texts: &[&str]) -> Vec<String> {
    texts.iter().map(|t| t.to_string()).collect()
}

/// What a backend reads out of the query it is sent.
fn read(resource: &str, rels: &[&str]) -> Vec<(String, String)> {
    let url = request_url(&backend("http://social/"), resource, &strings(rels)).unwrap();
    Url::parse(&url)
        .unwrap()
        .query_pairs()
        .into_owned()
        .collect()
}

fn pairs(expected: &[(&str, &str)]) -> Vec<(String, String)> {
    expected
        .iter()
        .map(|(name, value)| (name.to_string(), value.to_string()))
        .collect()
}

#[test]
fn test_url_construction_with_resource() {
    let base = backend("http://social.example.svc.cluster.local:8080");
    let url = endpoint_url(&base).unwrap();
    assert_eq!(
        url.as_str(),
        "http://social.example.svc.cluster.local:8080/.well-known/webfinger"
    );
}

#[test]
fn plain_resource_goes_out_as_it_came() {
    let base = backend("http://social.example.svc.cluster.local:8080/");
    assert_eq!(
        request_url(&base, "acct:alice@example.com", &[]).unwrap(),
        "http://social.example.svc.cluster.local:8080/.well-known/webfinger?resource=acct:alice@example.com"
    );
}

#[test]
fn rels_are_forwarded() {
    let base = backend("http://social/");
    assert_eq!(
        request_url(
            &base,
            "acct:alice@example.com",
            &strings(&["self", "http://webfinger.net/rel/profile-page"])
        )
        .unwrap(),
        "http://social/.well-known/webfinger?resource=acct:alice@example.com&rel=self&rel=http%3A%2F%2Fwebfinger.net%2Frel%2Fprofile-page"
    );
}

#[test]
fn query_is_written_in_order() {
    assert_eq!(build_query("r", &[]), "resource=r");
    assert_eq!(
        build_query("a b", &strings(&["x y", "%", "\u{e9}*-._"])),
        "resource=a%20b&rel=x+y&rel=%25&rel=%C3%A9*-._"
    );
}

#[test]
fn backend_reads_what_was_asked() {
    assert_eq!(
        read("acct:alice@example.com", &["self", "a&b=c#d e+f%41"]),
        pairs(&[
            ("resource", "acct:alice@example.com"),
            ("rel", "self"),
            ("rel", "a&b=c#d e+f%41")
        ])
    );
    // Characters that a query escapes, equals signs, and a lone percent sign.
    assert_eq!(
        read("https://example.com/?a=b '\"<>\u{e9}\u{1f600}%4", &[]),
        pairs(&[("resource", "https://example.com/?a=b '\"<>\u{e9}\u{1f600}%4")])
    );
}

#[test]
fn nothing_in_the_resource_means_something_else() {
    for resource in [
        "acct:a+b@example.com",
        "https://example.com/?a&b",
        "https://example.com/#fragment",
        "https://example.com/caf%C3%A9",
        "https://example.com/&rel=other",
        "https://example.com/\ttab\nline\r",
        "https://example.com/ \u{0}\u{1f} ",
        "100%",
        "",
    ] {
        assert_eq!(
            read(resource, &["self"]),
            pairs(&[("resource", resource), ("rel", "self")])
        );
        assert_eq!(read(resource, &[]), pairs(&[("resource", resource)]));
    }
}

#[test]
fn only_what_means_more_is_escaped() {
    assert_eq!(
        build_query("#%&+ \t\u{1f}!\"'<=>?@~\u{7f}\u{e9}", &[]),
        "resource=%23%25%26%2B%20%09%1F!\"'<=>?@~\u{7f}\u{e9}"
    );
    let url = request_url(&backend("http://social/"), "acct:a+b@example.com", &[]).unwrap();
    assert_eq!(
        url,
        "http://social/.well-known/webfinger?resource=acct:a%2Bb@example.com"
    );
}

#[test]
fn backend_without_a_base_is_not_asked() {
    assert_eq!(endpoint_url(&backend("acct:alice@example.com")), None);
    assert_eq!(endpoint_url(&backend("no url")), None);
    assert_eq!(request_url(&backend("no url"), "acct:a@b", &[]), None);
}

#[test]
fn every_backend_is_asked_once() {
    let query = WebfingerQuery {
        resource: "acct:a@b".to_string(),
        rels: strings(&["self"]),
    };
    let mut first = backend("http://one/");
    first.priority = 7;
    let asked = requests(&query, &[first, backend("no url"), backend("https://two/sub/")]);
    assert_eq!(
        asked,
        vec![
            (
                7,
                Some("http://one/.well-known/webfinger?resource=acct:a@b&rel=self".to_string())
            ),
            (50, None),
            (
                50,
                Some(
                    "https://two/sub/.well-known/webfinger?resource=acct:a@b&rel=self".to_string()
                )
            ),
        ]
    );
}

#[test]
fn statuses_are_read() {
    assert_eq!(verdict(200), Verdict::Document);
    assert_eq!(verdict(204), Verdict::Document);
    assert_eq!(verdict(299), Verdict::Document);
    assert_eq!(verdict(404), Verdict::NotFound);
    assert_eq!(verdict(410), Verdict::Gone);
    assert_eq!(verdict(400), Verdict::Declined);
    assert_eq!(verdict(429), Verdict::Declined);
    assert_eq!(verdict(499), Verdict::Declined);
    assert_eq!(verdict(500), Verdict::Failed);
    assert_eq!(verdict(503), Verdict::Failed);
    assert_eq!(verdict(301), Verdict::Failed);
    assert_eq!(verdict(199), Verdict::Failed);
}

#[test]
fn answers_come_to_outcomes() {
    let document = || Some(JrdResource::default());
    assert!(matches!(outcome(Some(200), document()), Outcome::Success(_)));
    assert!(matches!(outcome(Some(200), None), Outcome::Failed));
    assert!(matches!(outcome(Some(404), document()), Outcome::NotFound));
    assert!(matches!(outcome(Some(410), None), Outcome::Gone));
    assert!(matches!(outcome(Some(401), None), Outcome::Declined));
    assert!(matches!(outcome(Some(500), document()), Outcome::Failed));
    assert!(matches!(outcome(None, document()), Outcome::Failed));
}

#[test]
fn bodies_are_capped() {
    assert_eq!(MAX_BODY_BYTES, 256 * 1024);
    assert_eq!(MAX_IN_FLIGHT, 10);
    let mut buffer = BodyBuffer::new();
    assert!(buffer.push_chunk(&vec![1; MAX_BODY_BYTES - 1]));
    assert!(!buffer.push_chunk(&[2, 3]));
    assert!(buffer.push_chunk(&[4]));
    assert!(buffer.push_chunk(&[]));
    assert!(!buffer.push_chunk(&[5]));
    let bytes = buffer.into_bytes();
    assert_eq!(bytes.len(), MAX_BODY_BYTES);
    assert_eq!(bytes[MAX_BODY_BYTES - 1], 4);
    assert_eq!(bytes[0], 1);
}
