//! Services, the backends they become, and following them as they change.
use fingerjoin::backend::Backend;
use fingerjoin::http::{healthz, readyz};
use fingerjoin::k8s::{
    backend_from_service, backends_from_services, candidate_from_service, parse_annotation,
    register, ObjectMeta, Service, ServicePort, ServiceSpec, HTTPS_KEY, PORT_KEY, PRIORITY_KEY,
    WEBFINGER_KEY,
};
use fingerjoin::members::Members;
use fingerjoin::watch::{reconcile, BackendState, ServiceEvent, ServiceStore, Watched};
use url::Url;

fn members(entries: &[(&str, &str)]) -> Members<String> {
    let mut members = Members::new();
    for (name, value) in entries {
        members.insert(name.to_string(), value.to_string());
    }
    members
}

fn named(name: &str, annotations: &[(&str, &str)], ports: &[(&str, i32)]) -> Service {
    Service {
        metadata: ObjectMeta {
            name: Some(name.to_string()),
            namespace: Some("apps".to_string()),
            annotations: Some(members(annotations)),
        },
        spec: Some(ServiceSpec {
            ports: Some(
                ports
                    .iter()
                    .map(|(name, port)| ServicePort {
                        name: Some(name.to_string()),
                        port: *port,
                    })
                    .collect(),
            ),
        }),
    }
}

fn service(annotations: &[(&str, &str)], ports: &[(&str, i32)]) -> Service {
    named("test-service", annotations, ports)
}

fn ports() -> Vec<(&'static str, i32)> {
    vec![("http", 8080), ("https", 8443)]
}

fn url(backend: &Backend) -> Url {
    Url::parse(&backend.url).unwrap()
}

#[test]
fn unannotated_service_is_ignored() {
    let service = service(&[], &ports());
    assert!(backend_from_service(&service, "cluster.local").is_none());
}

#[test]
fn webfinger_annotation_is_case_insensitive() {
    let service = service(&[(WEBFINGER_KEY, "TrUe")], &ports());
    let b = backend_from_service(&service, "cluster.local").expect("should resolve");
    assert_eq!(
        b.url.as_str(),
        "http://test-service.apps.svc.cluster.local:8080/"
    );
    assert_eq!(b.priority, 50);
}

#[test]
fn priority_defaults_and_malformed_values_fall_back() {
    let defaulted = service(&[(WEBFINGER_KEY, "true")], &ports());
    let malformed = service(
        &[(WEBFINGER_KEY, "true"), (PRIORITY_KEY, "not-a-number")],
        &ports(),
    );
    assert_eq!(
        backend_from_service(&defaulted, "cluster.local")
            .unwrap()
            .priority,
        50
    );
    assert_eq!(
        backend_from_service(&malformed, "cluster.local")
            .unwrap()
            .priority,
        50
    );
}

#[test]
fn custom_priority_is_used() {
    let service = service(&[(WEBFINGER_KEY, "true"), (PRIORITY_KEY, "100")], &ports());
    assert_eq!(
        backend_from_service(&service, "cluster.local")
            .unwrap()
            .priority,
        100
    );
}

#[test]
fn http_annotation_prefers_http_then_https() {
    let service = service(&[(WEBFINGER_KEY, "true")], &ports());
    let b = backend_from_service(&service, "cluster.local").unwrap();
    assert_eq!(url(&b).port(), Some(8080));
    assert_eq!(url(&b).scheme(), "http");
}

#[test]
fn https_annotation_reverses_named_port_preference() {
    let service = service(&[(WEBFINGER_KEY, "true"), (HTTPS_KEY, "true")], &ports());
    let b = backend_from_service(&service, "cluster.local").unwrap();
    assert_eq!(url(&b).port(), Some(8443));
    assert_eq!(url(&b).scheme(), "https");
}

#[test]
fn unnamed_ports_fall_back_to_first_usable_port() {
    let service = service(
        &[(WEBFINGER_KEY, "true")],
        &[("metrics", 9090), ("invalid", 0)],
    );
    let b = backend_from_service(&service, "cluster.local").unwrap();
    assert_eq!(url(&b).port(), Some(9090));
}

#[test]
fn explicit_port_name_overrides_automatic_selection() {
    let service = service(
        &[(WEBFINGER_KEY, "true"), (PORT_KEY, "metrics")],
        &[("http", 8080), ("metrics", 9090)],
    );
    let b = backend_from_service(&service, "cluster.local").unwrap();
    assert_eq!(url(&b).port(), Some(9090));
    assert_eq!(url(&b).scheme(), "http");
}

#[test]
fn missing_explicit_port_name_skips_service() {
    let service = service(&[(WEBFINGER_KEY, "true"), (PORT_KEY, "missing")], &ports());
    assert!(backend_from_service(&service, "cluster.local").is_none());
}

#[test]
fn https_named_port_uses_actual_non_443_port() {
    let service = service(&[(WEBFINGER_KEY, "true")], &[("https", 8443)]);
    let b = backend_from_service(&service, "cluster.local").unwrap();
    assert_eq!(
        b.url.as_str(),
        "https://test-service.apps.svc.cluster.local:8443/"
    );
}

#[test]
fn explicit_custom_port_https_depends_on_annotation() {
    let http = service(
        &[(WEBFINGER_KEY, "true"), (PORT_KEY, "custom")],
        &[("custom", 9443)],
    );
    let https = service(
        &[
            (WEBFINGER_KEY, "true"),
            (PORT_KEY, "custom"),
            (HTTPS_KEY, "TRUE"),
        ],
        &[("custom", 9443)],
    );
    assert_eq!(
        url(&backend_from_service(&http, "cluster.local").unwrap()).scheme(),
        "http"
    );
    assert_eq!(
        url(&backend_from_service(&https, "cluster.local").unwrap()).scheme(),
        "https"
    );
}

#[test]
fn namespace_falls_back_to_default_for_fqdn() {
    let mut service = service(&[(WEBFINGER_KEY, "true")], &ports());
    service.metadata.namespace = None;
    let b = backend_from_service(&service, "cluster.local").unwrap();
    assert_eq!(
        url(&b).host_str(),
        Some("test-service.default.svc.cluster.local")
    );
}

#[test]
fn service_without_usable_ports_is_skipped() {
    let service = service(
        &[(WEBFINGER_KEY, "true")],
        &[("http", 0), ("https", -1)],
    );
    assert!(backend_from_service(&service, "cluster.local").is_none());
}

#[test]
fn duplicate_urls_keep_highest_priority_and_sort() {
    let low = service(&[(WEBFINGER_KEY, "true"), (PRIORITY_KEY, "10")], &ports());
    let high = service(&[(WEBFINGER_KEY, "true"), (PRIORITY_KEY, "90")], &ports());
    let other = named(
        "another-service",
        &[(WEBFINGER_KEY, "true")],
        &[("http", 8080)],
    );

    let backends = backends_from_services(vec![low, other, high], "cluster.local");
    assert_eq!(backends.len(), 2);
    assert_eq!(backends[0].name, "another-service");
    assert_eq!(backends[1].priority, 90);
}

#[test]
fn first_of_equal_priorities_stays() {
    // Host names are read without regard to case, so both have one URL.
    let upper = named("SAME", &[(WEBFINGER_KEY, "true")], &[("http", 80)]);
    let lower = named("same", &[(WEBFINGER_KEY, "true")], &[("http", 80)]);
    let backends = backends_from_services(vec![upper, lower], "cluster.local");
    assert_eq!(backends.len(), 1);
    assert_eq!(backends[0].name, "SAME");
    assert_eq!(backends[0].url, "http://same.apps.svc.cluster.local/");
}

#[test]
fn listing_order_does_not_matter() {
    let make = |name: &str, priority: &str| {
        named(
            name,
            &[(WEBFINGER_KEY, "true"), (PRIORITY_KEY, priority)],
            &[("http", 8080)],
        )
    };
    let one = backends_from_services(
        vec![make("c", "1"), make("a", "2"), make("b", "3"), make("a", "9")],
        "cluster.local",
    );
    let two = backends_from_services(
        vec![make("a", "9"), make("b", "3"), make("a", "2"), make("c", "1")],
        "cluster.local",
    );
    let flat = |list: &[Backend]| {
        list.iter()
            .map(|b| (b.name.clone(), b.url.clone(), b.priority))
            .collect::<Vec<_>>()
    };
    assert_eq!(flat(&one), flat(&two));
    assert_eq!(
        flat(&one)
            .iter()
            .map(|b| (b.0.as_str(), b.2))
            .collect::<Vec<_>>(),
        vec![("a", 9), ("b", 3), ("c", 1)]
    );
}

#[test]
fn listing_order_changes_no_url_even_on_a_tie() {
    let make = |name: &str, priority: &str| {
        named(
            name,
            &[(WEBFINGER_KEY, "true"), (PRIORITY_KEY, priority)],
            &[("http", 80)],
        )
    };
    let flat = |services: Vec<Service>| {
        backends_from_services(services, "cluster.local")
            .into_iter()
            .map(|b| (b.url, b.priority))
            .collect::<Vec<_>>()
    };
    let one = flat(vec![make("SAME", "5"), make("z", "1"), make("same", "5")]);
    let two = flat(vec![make("same", "5"), make("SAME", "5"), make("z", "1")]);
    assert_eq!(one, two);
    assert_eq!(one.len(), 2);
}

#[test]
fn impossible_port_number_is_no_url() {
    let service = service(&[(WEBFINGER_KEY, "true")], &[("http", 70000)]);
    let candidate = candidate_from_service(&service, "cluster.local").unwrap();
    assert_eq!(
        candidate.url,
        "http://test-service.apps.svc.cluster.local:70000"
    );
    assert!(backend_from_service(&service, "cluster.local").is_none());
}

#[test]
fn registering_takes_the_url_as_read() {
    let service = service(&[(WEBFINGER_KEY, "true")], &ports());
    let candidate = candidate_from_service(&service, "cluster.local").unwrap();
    let backend = register(candidate, Some("http://elsewhere/".to_string())).unwrap();
    assert_eq!(backend.name, "test-service");
    assert_eq!(backend.url, "http://elsewhere/");
    let candidate = candidate_from_service(&service, "cluster.local").unwrap();
    assert!(register(candidate, None).is_none());
}

#[test]
fn unnamed_service_is_called_unnamed() {
    let mut service = service(&[(WEBFINGER_KEY, "true")], &ports());
    service.metadata.name = None;
    let candidate = candidate_from_service(&service, "cluster.local").unwrap();
    assert_eq!(candidate.name, "<unnamed>");
    // `<` cannot stand in a host name.
    assert!(backend_from_service(&service, "cluster.local").is_none());
}

#[test]
fn service_without_metadata_or_ports_is_skipped() {
    let mut bare = service(&[(WEBFINGER_KEY, "true")], &ports());
    bare.metadata.annotations = None;
    assert!(backend_from_service(&bare, "cluster.local").is_none());
    let mut bare = service(&[(WEBFINGER_KEY, "true")], &ports());
    bare.spec = None;
    assert!(backend_from_service(&bare, "cluster.local").is_none());
    let bare = service(&[(WEBFINGER_KEY, "yes")], &ports());
    assert!(backend_from_service(&bare, "cluster.local").is_none());
}

#[test]
fn secondary_port_name_comes_before_the_first_port() {
    let service = service(
        &[(WEBFINGER_KEY, "true"), (HTTPS_KEY, "true")],
        &[("metrics", 9090), ("http", 8080)],
    );
    let b = backend_from_service(&service, "cluster.local").unwrap();
    assert_eq!(b.url, "https://test-service.apps.svc.cluster.local:8080/");
}

#[test]
fn annotations_read_as_numbers() {
    let annotations = members(&[
        ("max", "65535"),
        ("over", "65536"),
        ("plus", "+7"),
        ("minus", "-7"),
        ("zeros", "0010"),
        ("empty", ""),
        ("sign", "+"),
        ("space", " 7"),
    ]);
    assert_eq!(parse_annotation(&annotations, "max", 50), 65535);
    assert_eq!(parse_annotation(&annotations, "over", 50), 50);
    assert_eq!(parse_annotation(&annotations, "plus", 50), 7);
    assert_eq!(parse_annotation(&annotations, "minus", 50), 50);
    assert_eq!(parse_annotation(&annotations, "zeros", 50), 10);
    assert_eq!(parse_annotation(&annotations, "empty", 50), 50);
    assert_eq!(parse_annotation(&annotations, "sign", 50), 50);
    assert_eq!(parse_annotation(&annotations, "space", 50), 50);
    assert_eq!(parse_annotation(&annotations, "absent", 3), 3);
}

#[test]
fn service_store_buffers_initial_snapshot_until_init_done() {
    let mut store = ServiceStore::default();
    let service = service(&[(WEBFINGER_KEY, "true")], &ports());

    assert!(store.apply(ServiceEvent::Init).is_none());
    assert!(store.apply(ServiceEvent::InitApply(service)).is_none());

    let snapshot = store
        .apply(ServiceEvent::InitDone)
        .expect("complete initialization should publish");
    assert_eq!(snapshot.len(), 1);
    assert_eq!(snapshot[0].metadata.name.as_deref(), Some("test-service"));
}

#[test]
fn service_store_applies_and_deletes_live_events() {
    let mut store = ServiceStore::default();
    let initial = service(&[(WEBFINGER_KEY, "true")], &ports());
    store.apply(ServiceEvent::Init);
    store.apply(ServiceEvent::InitApply(initial));
    store.apply(ServiceEvent::InitDone);

    let updated = service(&[(WEBFINGER_KEY, "true")], &[("http", 9090)]);
    let snapshot = store
        .apply(ServiceEvent::Apply(updated))
        .expect("applied events should publish");
    assert_eq!(snapshot.len(), 1);
    assert_eq!(
        snapshot[0].spec.as_ref().unwrap().ports.as_ref().unwrap()[0].port,
        9090
    );

    let deleted = service(&[(WEBFINGER_KEY, "true")], &ports());
    let snapshot = store
        .apply(ServiceEvent::Delete(deleted))
        .expect("deleted events should publish");
    assert!(snapshot.is_empty());
}

#[test]
fn service_store_relist_replaces_stale_services_atomically() {
    let mut store = ServiceStore::default();
    let retained = service(&[(WEBFINGER_KEY, "true")], &ports());
    let stale = named(
        "stale-service",
        &[(WEBFINGER_KEY, "true")],
        &[("http", 8081)],
    );

    store.apply(ServiceEvent::Init);
    store.apply(ServiceEvent::InitApply(retained.clone()));
    store.apply(ServiceEvent::InitApply(stale));
    store.apply(ServiceEvent::InitDone);

    store.apply(ServiceEvent::Init);
    store.apply(ServiceEvent::InitApply(retained));
    let snapshot = store
        .apply(ServiceEvent::InitDone)
        .expect("relist completion should publish");
    assert_eq!(snapshot.len(), 1);
    assert!(snapshot
        .iter()
        .all(|s| s.metadata.name.as_deref() != Some("stale-service")));
}

#[test]
fn list_builds_up_beside_live_events() {
    let mut store = ServiceStore::new();
    store.apply(ServiceEvent::Apply(named("a", &[], &[])));
    store.apply(ServiceEvent::Init);
    store.apply(ServiceEvent::InitApply(named("b", &[], &[])));
    let snapshot = store.apply(ServiceEvent::Apply(named("c", &[], &[]))).unwrap();
    let mut names: Vec<_> = snapshot
        .iter()
        .map(|s| s.metadata.name.clone().unwrap())
        .collect();
    names.sort();
    assert_eq!(names, vec!["a", "c"]);
    let snapshot = store.apply(ServiceEvent::InitDone).unwrap();
    assert_eq!(snapshot.len(), 1);
    assert_eq!(snapshot[0].metadata.name.as_deref(), Some("b"));
    // A list that never began is empty.
    assert!(store.apply(ServiceEvent::InitDone).unwrap().is_empty());
}

#[test]
fn services_are_told_apart_by_namespace() {
    let mut store = ServiceStore::new();
    let mut elsewhere = named("a", &[], &[]);
    elsewhere.metadata.namespace = None;
    store.apply(ServiceEvent::Apply(named("a", &[], &[])));
    assert_eq!(store.apply(ServiceEvent::Apply(elsewhere)).unwrap().len(), 2);
    let mut same = named("a", &[], &[]);
    same.metadata.namespace = Some("default".to_string());
    assert_eq!(store.apply(ServiceEvent::Delete(same)).unwrap().len(), 1);
}

#[test]
fn reconciling_publishes_complete_lists_only() {
    let mut store = ServiceStore::new();
    let mut state = BackendState::new();
    let annotated = || service(&[(WEBFINGER_KEY, "true")], &ports());
    let mut step = |state: &mut BackendState, watched: Watched, now: u64| {
        reconcile(&mut store, state, watched, "cluster.local", now)
    };

    assert!(!step(&mut state, Watched::Failure, 1));
    assert!(!step(&mut state, Watched::Event(ServiceEvent::Init), 2));
    assert!(!step(
        &mut state,
        Watched::Event(ServiceEvent::InitApply(annotated())),
        3
    ));
    assert!(!state.synced());
    assert!(state.get_all().is_empty());

    assert!(step(&mut state, Watched::Event(ServiceEvent::InitDone), 4));
    assert!(state.synced());
    assert_eq!(state.get_all().len(), 1);
    assert_eq!(
        state.get_all()[0].url,
        "http://test-service.apps.svc.cluster.local:8080/"
    );

    // A failure keeps what is known, and when it was learned.
    assert!(!step(&mut state, Watched::Failure, 5));
    assert_eq!(state.get_all().len(), 1);
    assert_eq!(state.last_sync_age(10), Some(6));

    // The same Service again changes nothing but the time.
    assert!(!step(
        &mut state,
        Watched::Event(ServiceEvent::Apply(annotated())),
        7
    ));
    assert_eq!(state.last_sync_age(10), Some(3));

    assert!(step(
        &mut state,
        Watched::Event(ServiceEvent::Delete(annotated())),
        8
    ));
    assert!(state.get_all().is_empty());
    assert!(state.synced());
}

#[test]
fn relist_gives_what_a_fresh_list_gives() {
    let list = || {
        vec![
            ServiceEvent::Init,
            ServiceEvent::InitApply(named("b", &[(WEBFINGER_KEY, "true")], &[("http", 1)])),
            ServiceEvent::InitApply(named("a", &[(WEBFINGER_KEY, "true")], &[("http", 2)])),
            ServiceEvent::InitDone,
        ]
    };
    let run = |before: Vec<ServiceEvent>| {
        let mut store = ServiceStore::new();
        let mut state = BackendState::default();
        for event in before.into_iter().chain(list()) {
            reconcile(&mut store, &mut state, Watched::Event(event), "cluster.local", 0);
        }
        state
            .get_all()
            .into_iter()
            .map(|b| b.url)
            .collect::<Vec<_>>()
    };
    let fresh = run(vec![]);
    let later = run(vec![
        ServiceEvent::Apply(named("z", &[(WEBFINGER_KEY, "true")], &[("http", 3)])),
        ServiceEvent::Init,
        ServiceEvent::InitApply(named("y", &[(WEBFINGER_KEY, "true")], &[("http", 4)])),
    ]);
    assert_eq!(fresh, later);
    assert_eq!(
        fresh,
        vec![
            "http://a.apps.svc.cluster.local:2/",
            "http://b.apps.svc.cluster.local:1/"
        ]
    );
}

#[test]
fn test_readiness_gates_on_first_sync() {
    let mut state = BackendState::new();
    assert_eq!(readyz(&state).status, 503);
    assert_eq!(readyz(&state).backends, None);

    // An empty-but-completed sync still counts as ready.
    state.update(vec![], 0);
    assert_eq!(readyz(&state).status, 200);
    assert_eq!(readyz(&state).backends, Some(0));
}

#[test]
fn test_healthz_always_ok() {
    let mut state = BackendState::new();
    let health = healthz(&state, 5_000_000_000);
    assert_eq!(health.status, 200);
    assert_eq!(health.last_sync_seconds, None);
    assert_eq!(health.backends, 0);

    let backend = Backend {
        name: "a".to_string(),
        url: "http://a/".to_string(),
        priority: 50,
    };
    assert!(state.update(vec![backend.clone()], 5_000_000_000));
    assert!(!state.update(vec![backend], 6_000_000_000));
    let health = healthz(&state, 8_999_999_999);
    assert_eq!(health.status, 200);
    assert_eq!(health.backends, 1);
    assert_eq!(health.last_sync_seconds, Some(2));
    // A reading before the last sync counts as none having passed.
    assert_eq!(healthz(&state, 0).last_sync_seconds, Some(0));
}

#[test]
fn backends_differ_by_any_field() {
    let backend = |name: &str, url: &str, priority: u16| Backend {
        name: name.to_string(),
        url: url.to_string(),
        priority,
    };
    let mut state = BackendState::new();
    assert!(!state.update(vec![], 0));
    assert!(state.update(vec![backend("a", "http://a/", 1)], 0));
    assert!(!state.update(vec![backend("a", "http://a/", 1)], 0));
    assert!(state.update(vec![backend("b", "http://a/", 1)], 0));
    assert!(state.update(vec![backend("b", "http://b/", 1)], 0));
    assert!(state.update(vec![backend("b", "http://b/", 2)], 0));
    assert_eq!(state.get_all()[0].priority, 2);
    assert!(state.update(vec![], 0));
}
