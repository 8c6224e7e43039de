//! Documents, how they merge, and what a query is answered.
use fingerjoin::backend::{
    outcome, tally, verdict, Backend, BodyBuffer, FanOut, Outcome, Verdict, JRD_MEDIA_TYPE,
};
use fingerjoin::error::Error;
use fingerjoin::http::{accept_query, check_query, conclude, find_resource, requests};
use fingerjoin::members::Members;
use fingerjoin::webfinger::{filter_rels, merge_jrd, JrdLink, JrdResource};
use serde_json::Value;

fn text(value: &Value) -> String {
    value.as_str().unwrap().to_string()
}

fn properties(value: &Value) -> Members<Option<String>> {
    let mut members = Members::new();
    for (name, value) in value.as_object().unwrap() {
        members.insert(name.clone(), value.as_str().map(|v| v.to_string()));
    }
    members
}

fn link(value: &Value) -> JrdLink {
    let mut link = JrdLink {
        rel: None,
        href: None,
        media_type: None,
        titles: None,
        properties: None,
        extra: Members::new(),
    };
    for (name, value) in value.as_object().unwrap() {
        match name.as_str() {
            "rel" => link.rel = Some(text(value)),
            "href" => link.href = Some(text(value)),
            "type" => link.media_type = Some(text(value)),
            "properties" => link.properties = Some(properties(value)),
            _ => link.extra.insert(name.clone(), value.clone()),
        }
    }
    link
}

fn jrd(json: &str) -> JrdResource {
    let value: Value = serde_json::from_str(json).expect("should parse");
    let mut document = JrdResource::default();
    for (name, value) in value.as_object().unwrap() {
        match name.as_str() {
            "subject" => document.subject = Some(text(value)),
            "aliases" => document.aliases = value.as_array().unwrap().iter().map(text).collect(),
            "properties" => document.properties = properties(value),
            "links" => document.links = value.as_array().unwrap().iter().map(link).collect(),
            _ => document.extra.insert(name.clone(), value.clone()),
        }
    }
    document
}

/// What a backend of the given variant answers.
fn mock_answer(variant: &str, params: &[(String, String)]) -> (u16, String) {
    let Some(resource) = params.iter().find(|(k, _)| k == "resource").map(|(_, v)| v) else {
        return (400, String::new());
    };
    if resource.contains("missing") {
        return (404, String::new());
    }
    if resource.contains("gone") {
        return (410, String::new());
    }
    if resource.contains("boom") {
        return (500, String::new());
    }
    if resource.contains("decline") && variant == "a" {
        return (400, String::new());
    }
    if resource.contains("huge") {
        return (200, "x".repeat(512 * 1024));
    }
    let body = format!(
        r#"{{"subject":"{resource}","aliases":["https://{variant}.example.com/@user","https://shared.example.com/@user"],"properties":{{"http://example.com/ns/variant":"{variant}","http://example.com/ns/null":null}},"links":[{{"rel":"self","type":"application/activity+json","href":"https://{variant}.example.com/users/user"}},{{"rel":"http://webfinger.net/rel/profile-page","type":"text/html","href":"https://shared.example.com/@user"}},{{"rel":"http://ostatus.org/schema/1.0/subscribe","template":"https://{variant}.example.com/authorize_interaction?uri={{uri}}"}}]}}"#
    );
    (200, body)
}

fn params(uri: &str) -> Vec<(String, String)> {
    let query = uri.split_once('?').map_or("", |(_, query)| query);
    url::form_urlencoded::parse(query.as_bytes())
        .into_owned()
        .collect()
}

fn body(text: &str) -> Option<JrdResource> {
    let mut buffer = BodyBuffer::new();
    for chunk in text.as_bytes().chunks(16 * 1024) {
        if !buffer.push_chunk(chunk) {
            return None;
        }
    }
    let bytes = buffer.into_bytes();
    assert_eq!(bytes, text.as_bytes());
    serde_json::from_slice::<Value>(&bytes)
        .ok()
        .map(|value| jrd(&value.to_string()))
}

/// Answers `uri`, with backends given by variant and priority; the variant
/// `dead` never answers.
fn answer(backends: &[(&str, u16)], uri: &str) -> Result<JrdResource, Error> {
    let known: Vec<Backend> = backends
        .iter()
        .map(|(variant, priority)| Backend {
            name: format!("mock-{priority}"),
            url: format!("http://{variant}.example.svc.cluster.local:8080/"),
            priority: *priority,
        })
        .collect();
    let query = accept_query(&params(uri), known.len())?;
    let outcomes: Vec<(u16, Outcome)> = requests(&query, &known)
        .into_iter()
        .zip(backends)
        .map(|((priority, url), (variant, _))| {
            let url = url.expect("should have a URL");
            if *variant == "dead" {
                return (priority, outcome(None, None));
            }
            let (status, text) = mock_answer(variant, &params(&url));
            let document = match verdict(status) {
                Verdict::Document => body(&text),
                _ => None,
            };
            (priority, outcome(Some(status), document))
        })
        .collect();
    conclude(tally(outcomes), &query.rels)
}

fn status(answer: Result<JrdResource, Error>) -> u16 {
    match answer {
        Ok(_) => 200,
        Err(error) => error.reply().status,
    }
}

fn rels<'a>(document: &'a JrdResource) -> Vec<&'a str> {
    document
        .links
        .iter()
        .map(|l| l.rel.as_deref().unwrap())
        .collect()
}

#[test]
fn test_merge_higher_priority_wins() {
    let low = jrd(
        r#"{"subject":"acct:low@example.com","properties":{"http://example.com/ns/p":"low"},"links":[{"rel":"self","href":"https://low.example.com/actor"}]}"#,
    );
    let high = jrd(
        r#"{"subject":"acct:high@example.com","properties":{"http://example.com/ns/p":"high"},"links":[{"rel":"self","href":"https://high.example.com/actor"}]}"#,
    );

    // Insertion order must not matter; the priority value must.
    let merged = merge_jrd(vec![(10, low), (100, high)]);
    assert_eq!(merged.subject, Some("acct:high@example.com".to_string()));
    assert_eq!(
        merged.properties.get("http://example.com/ns/p"),
        Some(&Some("high".to_string()))
    );
    // Different hrefs are distinct links, highest priority first.
    assert_eq!(merged.links.len(), 2);
    assert_eq!(
        merged.links[0].href.as_deref(),
        Some("https://high.example.com/actor")
    );
}

#[test]
fn test_merge_dedups_links_and_aliases() {
    let a = jrd(
        r#"{"subject":"acct:user@example.com","aliases":["https://a.example.com/@user","https://shared.example.com/@user"],"links":[{"rel":"http://webfinger.net/rel/profile-page","href":"https://shared.example.com/@user"}]}"#,
    );
    let b = jrd(
        r#"{"aliases":["https://b.example.com/@user","https://shared.example.com/@user"],"links":[{"rel":"http://webfinger.net/rel/profile-page","href":"https://shared.example.com/@user","type":"text/html"}]}"#,
    );

    let merged = merge_jrd(vec![(50, a), (50, b)]);
    assert_eq!(merged.aliases.len(), 3);
    // Same (rel, href) from both backends collapses to one link.
    assert_eq!(merged.links.len(), 1);
    // Of equal priorities the first stays first.
    assert_eq!(merged.links[0].media_type, None);
    assert_eq!(
        merged.aliases,
        vec![
            "https://a.example.com/@user",
            "https://shared.example.com/@user",
            "https://b.example.com/@user"
        ]
    );
}

#[test]
fn test_merge_drops_links_without_rel() {
    let a = jrd(
        r#"{"subject":"acct:user@example.com","links":[{"href":"https://a.example.com/broken"},{"rel":"self","href":"https://a.example.com/actor"}]}"#,
    );
    let merged = merge_jrd(vec![(50, a)]);
    assert_eq!(merged.links.len(), 1);
    assert_eq!(merged.links[0].rel.as_deref(), Some("self"));
}

#[test]
fn test_filter_rels() {
    let mut j = jrd(
        r#"{"subject":"acct:user@example.com","links":[{"rel":"self","href":"https://a.example.com/actor"},{"rel":"http://webfinger.net/rel/profile-page","href":"https://a.example.com/@user"}]}"#,
    );
    filter_rels(&mut j, &["self".to_string()]);
    assert_eq!(j.links.len(), 1);
    assert_eq!(j.links[0].rel.as_deref(), Some("self"));

    // No rel params: everything passes through untouched.
    let mut j2 = jrd(r#"{"links":[{"rel":"self","href":"https://a.example.com/actor"}]}"#);
    filter_rels(&mut j2, &[]);
    assert_eq!(j2.links.len(), 1);
}

#[test]
fn merging_nothing_gives_the_empty_document() {
    let merged = merge_jrd(vec![]);
    assert_eq!(merged.subject, None);
    assert!(merged.aliases.is_empty());
    assert!(merged.properties.is_empty());
    assert!(merged.links.is_empty());
    assert!(merged.extra.is_empty());
}

#[test]
fn first_subject_that_is_not_empty_wins() {
    let subject = |docs: &[(u16, &str)]| {
        merge_jrd(docs.iter().map(|(p, json)| (*p, jrd(json))).collect()).subject
    };
    assert_eq!(
        subject(&[
            (1, r#"{"subject":"acct:lowest@example.com"}"#),
            (2, r#"{"subject":"acct:low@example.com"}"#),
            (3, r#"{"subject":""}"#),
            (4, "{}"),
        ])
        .as_deref(),
        Some("acct:low@example.com")
    );
    // Where no subject says anything, there is one if any backend gave one.
    assert_eq!(
        subject(&[(1, "{}"), (2, r#"{"subject":""}"#), (3, "{}")]).as_deref(),
        Some("")
    );
    assert_eq!(subject(&[(1, "{}"), (2, "{}")]), None);
}

#[test]
fn null_properties_and_unknown_members_win_by_priority_too() {
    let merged = merge_jrd(vec![
        (1, jrd(r#"{"properties":{"p":"low","q":"low"},"x":1,"y":[2]}"#)),
        (2, jrd(r#"{"properties":{"p":null},"x":{"z":3}}"#)),
    ]);
    assert_eq!(merged.properties.get("p"), Some(&None));
    assert_eq!(merged.properties.get("q"), Some(&Some("low".to_string())));
    assert_eq!(merged.extra.get("x").unwrap()["z"], 3);
    assert_eq!(merged.extra.get("y").unwrap()[0], 2);
}

#[test]
fn links_differ_by_rel_or_href() {
    let merged = merge_jrd(vec![
        (
            1,
            jrd(r#"{"links":[{"rel":"a"},{"rel":"a","href":""},{"rel":"b"},{"rel":"a","type":"t"}]}"#),
        ),
        (2, jrd(r#"{"links":[{"rel":"a","type":"u"}]}"#)),
    ]);
    let flat: Vec<_> = merged
        .links
        .iter()
        .map(|l| {
            (
                l.rel.as_deref().unwrap(),
                l.href.as_deref(),
                l.media_type.as_deref(),
            )
        })
        .collect();
    assert_eq!(
        flat,
        vec![
            ("a", None, Some("u")),
            ("a", Some(""), None),
            ("b", None, None)
        ]
    );
}

#[test]
fn merge_order_does_not_matter_between_priorities() {
    let docs = || {
        vec![
            (1, jrd(r#"{"aliases":["a","b"],"links":[{"rel":"x"}]}"#)),
            (9, jrd(r#"{"aliases":["c","a"],"links":[{"rel":"y"}]}"#)),
            (5, jrd(r#"{"aliases":["d","c"],"links":[{"rel":"x"}]}"#)),
        ]
    };
    let forward = merge_jrd(docs());
    let mut reversed = docs();
    reversed.reverse();
    let backward = merge_jrd(reversed);
    assert_eq!(forward.aliases, vec!["c", "a", "d", "b"]);
    assert_eq!(forward.aliases, backward.aliases);
    assert_eq!(rels(&forward), vec!["y", "x"]);
    assert_eq!(rels(&forward), rels(&backward));
}

#[test]
fn filtering_twice_is_filtering_once() {
    let mut j = jrd(r#"{"links":[{"rel":"a"},{"href":"h"},{"rel":"b"},{"rel":"c"}]}"#);
    let wanted = vec!["c".to_string(), "a".to_string(), "z".to_string()];
    filter_rels(&mut j, &wanted);
    assert_eq!(rels(&j), vec!["a", "c"]);
    filter_rels(&mut j, &wanted);
    assert_eq!(rels(&j), vec!["a", "c"]);
    filter_rels(&mut j, &["A".to_string()]);
    assert!(j.links.is_empty());
}

#[test]
fn backends_may_filter_by_themselves() {
    let wanted = vec!["a".to_string(), "c".to_string()];
    let docs = || {
        vec![
            (1, jrd(r#"{"links":[{"rel":"a"},{"rel":"b"},{"rel":"c","href":"x"}]}"#)),
            (2, jrd(r#"{"links":[{"rel":"c","href":"y"},{"rel":"d"},{"rel":"a"}]}"#)),
        ]
    };
    let flat = |document: &JrdResource| {
        document
            .links
            .iter()
            .map(|l| (l.rel.clone(), l.href.clone()))
            .collect::<Vec<_>>()
    };
    let mut plain = merge_jrd(docs());
    filter_rels(&mut plain, &wanted);
    for which in 0..2 {
        let mut thin = docs();
        filter_rels(&mut thin[which].1, &wanted);
        let mut merged = merge_jrd(thin);
        filter_rels(&mut merged, &wanted);
        assert_eq!(flat(&merged), flat(&plain));
    }
    assert_eq!(rels(&plain), vec!["c", "a", "c"]);
}

#[test]
fn merging_again_changes_nothing() {
    let merged = merge_jrd(vec![
        (1, jrd(r#"{"subject":"s","aliases":["a"],"links":[{"rel":"x"},{"href":"h"}]}"#)),
        (2, jrd(r#"{"aliases":["b","a"],"links":[{"rel":"y"},{"rel":"x"}]}"#)),
    ]);
    let again = merge_jrd(vec![(7, merged.clone())]);
    assert_eq!(again.subject, merged.subject);
    assert_eq!(again.aliases, merged.aliases);
    assert_eq!(rels(&again), rels(&merged));
}

#[test]
fn missing_resource_is_400() {
    let error = answer(&[("a", 50)], "/.well-known/webfinger").unwrap_err();
    let reply = error.reply();
    assert_eq!(reply.status, 400);
    assert_eq!(
        reply.message,
        "invalid resource format: missing resource parameter"
    );
}

#[test]
fn test_non_uri_resource_is_400() {
    let answer = answer(
        &[("a", 50)],
        "/.well-known/webfinger?resource=alice%40example.com",
    );
    let reply = answer.unwrap_err().reply();
    assert_eq!(reply.status, 400);
    assert_eq!(reply.message, "invalid resource format: alice@example.com");
}

#[test]
fn test_no_backends_is_503_with_retry_after() {
    let answer = answer(
        &[],
        "/.well-known/webfinger?resource=acct:alice@example.com",
    );
    let reply = answer.unwrap_err().reply();
    assert_eq!(reply.status, 503);
    assert_eq!(reply.retry_after.map(|s| s.to_string()).as_deref(), Some("10"));
}

#[test]
fn success_merges_by_priority() {
    let document = answer(
        &[("a", 10), ("b", 90)],
        "/.well-known/webfinger?resource=acct:alice@example.com",
    )
    .unwrap();

    assert_eq!(JRD_MEDIA_TYPE, "application/jrd+json");
    assert_eq!(document.subject.as_deref(), Some("acct:alice@example.com"));
    // One self link per variant (different hrefs) survives the merge...
    assert_eq!(rels(&document).iter().filter(|r| **r == "self").count(), 2);
    // ...while the shared profile-page link deduplicates to one.
    assert_eq!(
        rels(&document)
            .iter()
            .filter(|r| **r == "http://webfinger.net/rel/profile-page")
            .count(),
        1
    );
    // Higher priority backend wins the contested property.
    assert_eq!(
        document.properties.get("http://example.com/ns/variant"),
        Some(&Some("b".to_string()))
    );
    assert_eq!(
        document.properties.get("http://example.com/ns/null"),
        Some(&None)
    );
    // Nonstandard `template` member passes through.
    assert!(document.links.iter().any(|l| l.rel.as_deref()
        == Some("http://ostatus.org/schema/1.0/subscribe")
        && l.extra.get("template").is_some_and(|t| t.is_string())));
}

#[test]
fn test_rel_filter_applied_to_merged_result() {
    let document = answer(
        &[("a", 50)],
        "/.well-known/webfinger?resource=acct:alice@example.com&rel=self",
    )
    .unwrap();
    assert!(!document.links.is_empty());
    assert!(rels(&document).iter().all(|r| *r == "self"));
}

#[test]
fn test_unknown_resource_is_404() {
    assert_eq!(
        status(answer(
            &[("a", 50)],
            "/.well-known/webfinger?resource=acct:missing@example.com",
        )),
        404
    );
}

#[test]
fn test_gone_resource_is_410() {
    assert_eq!(
        status(answer(
            &[("a", 50)],
            "/.well-known/webfinger?resource=acct:gone@example.com",
        )),
        410
    );
}

#[test]
fn test_declined_resource_is_404() {
    // The only backend rejects the resource form with 400: definitive
    // negative, so the client gets 404, never a retryable 502.
    assert_eq!(
        status(answer(
            &[("a", 50)],
            "/.well-known/webfinger?resource=acct:decline@example.com",
        )),
        404
    );
}

#[test]
fn test_decline_does_not_poison_merge() {
    // One backend declines with 400 while another answers: the answer must
    // merge through as a 200.
    let document = answer(
        &[("a", 50), ("b", 60)],
        "/.well-known/webfinger?resource=acct:decline@example.com",
    )
    .unwrap();
    assert_eq!(
        document.subject.as_deref(),
        Some("acct:decline@example.com")
    );
    assert_eq!(
        document.properties.get("http://example.com/ns/variant"),
        Some(&Some("b".to_string()))
    );
}

#[test]
fn test_backend_error_is_502() {
    assert_eq!(
        status(answer(
            &[("a", 50)],
            "/.well-known/webfinger?resource=acct:boom@example.com",
        )),
        502
    );
}

#[test]
fn test_mixed_failure_and_not_found_is_502() {
    // One backend says 404, another is down: the answer is unknown, so the
    // retryable status must win over the definitive 404.
    assert_eq!(
        status(answer(
            &[("a", 50), ("dead", 60)],
            "/.well-known/webfinger?resource=acct:missing@example.com",
        )),
        502
    );
}

#[test]
fn oversized_answer_is_502() {
    assert_eq!(
        status(answer(
            &[("a", 50)],
            "/.well-known/webfinger?resource=acct:huge@example.com",
        )),
        502
    );
}

#[test]
fn dead_backend_does_not_spoil_a_document() {
    assert_eq!(
        status(answer(
            &[("dead", 90), ("b", 60)],
            "/.well-known/webfinger?resource=https://example.com/@alice",
        )),
        200
    );
}

#[test]
fn answer_goes_by_what_backends_say() {
    let say = |outcomes: &[u8]| {
        let outcomes = outcomes
            .iter()
            .map(|kind| {
                (
                    1,
                    match kind {
                        b's' => Outcome::Success(JrdResource::default()),
                        b'n' => Outcome::NotFound,
                        b'g' => Outcome::Gone,
                        b'd' => Outcome::Declined,
                        _ => Outcome::Failed,
                    },
                )
            })
            .collect();
        status(conclude(tally(outcomes), &[]))
    };
    assert_eq!(say(b""), 404);
    assert_eq!(say(b"n"), 404);
    assert_eq!(say(b"dnd"), 404);
    assert_eq!(say(b"ndg"), 410);
    assert_eq!(say(b"gfn"), 502);
    assert_eq!(say(b"gfns"), 200);
}

#[test]
fn tally_counts_each_outcome_once() {
    let out: FanOut = tally(vec![
        (3, Outcome::Failed),
        (7, Outcome::Success(jrd(r#"{"subject":"a"}"#))),
        (1, Outcome::NotFound),
        (2, Outcome::Success(jrd(r#"{"subject":"b"}"#))),
        (1, Outcome::Declined),
        (1, Outcome::Gone),
        (1, Outcome::NotFound),
    ]);
    assert_eq!(out.not_found, 2);
    assert_eq!(out.gone, 1);
    assert_eq!(out.declined, 1);
    assert_eq!(out.failed, 1);
    let kept: Vec<_> = out
        .successes
        .iter()
        .map(|(priority, document)| (*priority, document.subject.as_deref().unwrap()))
        .collect();
    assert_eq!(kept, vec![(7, "a"), (2, "b")]);
}

#[test]
fn first_resource_and_every_rel_are_read() {
    let params = params("?rel=a&resource=acct:x@y&rel=&resource=nonsense&Rel=c&rel=b");
    assert_eq!(find_resource(&params).as_deref(), Some("acct:x@y"));
    let query = accept_query(&params, 1).unwrap();
    assert_eq!(query.resource, "acct:x@y");
    assert_eq!(query.rels, vec!["a", "", "b"]);
}

#[test]
fn queries_are_refused_in_order() {
    let none = params("?rel=a");
    let named = params("?resource=acct:x@y");
    let text = |result: Result<_, Error>| result.map(|_| ()).unwrap_err().to_text();
    assert_eq!(
        text(check_query(&none, true, 1)),
        "invalid resource format: missing resource parameter"
    );
    assert_eq!(
        text(check_query(&named, false, 0)),
        "invalid resource format: acct:x@y"
    );
    assert_eq!(text(check_query(&named, true, 0)), "no backends available");
    assert!(check_query(&named, true, 1).is_ok());
}

#[test]
fn any_absolute_uri_may_be_asked_for() {
    let accepted = |resource: &str| {
        accept_query(&[("resource".to_string(), resource.to_string())], 1).is_ok()
    };
    assert!(accepted("acct:alice@example.com"));
    assert!(accepted("https://example.com/@alice"));
    assert!(accepted("mailto:alice@example.com"));
    assert!(!accepted("alice"));
    assert!(!accepted("//example.com"));
    assert!(!accepted(""));
}
