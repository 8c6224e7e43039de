//! Settings, texts, errors and named members.
use fingerjoin::config::{cluster_domain, listen_port, wants_json_logs};
use fingerjoin::error::Error;
use fingerjoin::members::Members;
use fingerjoin::text::{
    chars_of, decimal_text, is_before, read_u16, same_text, same_text_ignoring_case,
};
use fingerjoin::webfinger;

fn some(text: &str) -> Option<String> {
    Some(text.to_string())
}

#[test]
fn port_falls_back_where_it_is_no_number() {
    assert_eq!(listen_port(None), (8080, false));
    assert_eq!(listen_port(some("9000")), (9000, false));
    assert_eq!(listen_port(some("0")), (0, false));
    assert_eq!(listen_port(some("65536")), (8080, true));
    assert_eq!(listen_port(some("http")), (8080, true));
    assert_eq!(listen_port(some("")), (8080, true));
}

#[test]
fn cluster_domain_is_taken_as_it_is() {
    assert_eq!(cluster_domain(None), "cluster.local");
    assert_eq!(cluster_domain(some("k8s.example")), "k8s.example");
    assert_eq!(cluster_domain(some("")), "");
}

#[test]
fn json_logs_are_asked_for_by_name() {
    assert!(wants_json_logs(some("json")));
    assert!(wants_json_logs(some("JSON")));
    assert!(!wants_json_logs(some("text")));
    assert!(!wants_json_logs(some("jsonl")));
    assert!(!wants_json_logs(None));
}

#[test]
fn errors_in_words() {
    let json = || Error::Webfinger(webfinger::Error::Json("boom".to_string()));
    assert_eq!(
        webfinger::Error::Json("boom".to_string()).to_text(),
        "JSON error: boom"
    );
    assert_eq!(
        json().to_text(),
        "webfinger serialization error: JSON error: boom"
    );
    assert_eq!(
        Error::InvalidResource("x".to_string()).to_text(),
        "invalid resource format: x"
    );
    assert_eq!(Error::NoBackends.to_text(), "no backends available");
    assert_eq!(Error::ResourceNotFound.to_text(), "resource not found");
    assert_eq!(Error::ResourceGone.to_text(), "resource gone");
    assert_eq!(Error::AllBackendsFailed.to_text(), "all backends failed");
}

#[test]
fn errors_are_answered() {
    let flat = |error: Error| {
        let reply = error.reply();
        (reply.status, reply.message, reply.retry_after)
    };
    assert_eq!(
        flat(Error::Webfinger(webfinger::Error::Json("boom".to_string()))),
        (500, "internal error".to_string(), None)
    );
    assert_eq!(
        flat(Error::InvalidResource("x".to_string())),
        (400, "invalid resource format: x".to_string(), None)
    );
    assert_eq!(
        flat(Error::NoBackends),
        (503, "no backends configured".to_string(), Some(10))
    );
    assert_eq!(
        flat(Error::ResourceNotFound),
        (404, "resource not found".to_string(), None)
    );
    assert_eq!(
        flat(Error::ResourceGone),
        (410, "resource gone".to_string(), None)
    );
    assert_eq!(
        flat(Error::AllBackendsFailed),
        (502, "all backends failed".to_string(), None)
    );
}

#[test]
fn texts_compare() {
    assert!(same_text("a", "a") && !same_text("a", "A") && !same_text("a", "ab"));
    assert!(same_text_ignoring_case("TrUe", "true"));
    // Only ASCII letters have two cases here.
    assert!(!same_text_ignoring_case("\u{c9}", "\u{e9}"));
    assert!(!same_text_ignoring_case("@", "`"));
    assert!(is_before("a", "b") && is_before("a", "ab") && !is_before("ab", "a"));
    assert!(!is_before("a", "a") && is_before("Z", "a") && is_before("", "a"));
    // Characters order as their UTF-8 bytes do, beyond the surrogates too.
    assert!(is_before("\u{ffff}", "\u{10000}") && "\u{ffff}" < "\u{10000}");
    assert_eq!(chars_of("a\u{e9}\u{10000}"), vec!['a', '\u{e9}', '\u{10000}']);
}

#[test]
fn numbers_read_and_written() {
    assert_eq!(read_u16("65535"), Some(65535));
    assert_eq!(read_u16("65536"), None);
    assert_eq!(read_u16("000000000065535"), Some(65535));
    assert_eq!(read_u16("99999999999999999999999999"), None);
    assert_eq!(read_u16("+5"), Some(5));
    assert_eq!(read_u16("++5"), None);
    assert_eq!(read_u16("\u{665}"), None);
    for n in [0, 7, 10, 8080, 2147483647, u32::MAX] {
        assert_eq!(decimal_text(n), n.to_string());
    }
}

#[test]
fn members_keep_one_value_for_a_name() {
    let mut members: Members<u8> = Members::new();
    assert!(members.is_empty());
    members.insert("a".to_string(), 1);
    members.insert("b".to_string(), 2);
    members.insert("a".to_string(), 3);
    assert_eq!(members.len(), 2);
    assert_eq!(members.get("a"), Some(&3));
    members.or_insert("b".to_string(), 4);
    members.or_insert("c".to_string(), 5);
    assert_eq!(members.get("b"), Some(&2));
    assert_eq!(members.get("c"), Some(&5));
    let copy = members.clone();
    members.remove("b");
    members.remove("missing");
    assert_eq!(members.get("b"), None);
    assert_eq!(copy.get("b"), Some(&2));
    let mut entries = members.into_entries();
    entries.sort();
    assert_eq!(entries, vec![("a".to_string(), 3), ("c".to_string(), 5)]);
    assert_eq!(copy.entries().len(), 3);
}
