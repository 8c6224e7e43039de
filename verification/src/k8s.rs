//! From Kubernetes Services to backends.
use crate::backend::{Backend, BackendView};
use crate::members::Members;
use crate::text::{decimal_text, is_before, read_u16, same_text, same_text_ignoring_case};
use crate::url_text::parse_url;
use crate::{members, rows, text, url_text};
use vstd::prelude::*;
use vstd::string::*;

verus! {

/// The annotation that registers a Service.
pub const WEBFINGER_KEY: &'static str = "fingerjoin.naktis.eu/webfinger";

/// The annotation that sets the merge priority.
pub const PRIORITY_KEY: &'static str = "fingerjoin.naktis.eu/priority";

/// The annotation that asks for HTTPS.
pub const HTTPS_KEY: &'static str = "fingerjoin.naktis.eu/https";

/// The annotation that picks a port by name.
pub const PORT_KEY: &'static str = "fingerjoin.naktis.eu/port";

/// The merge priority of a Service that sets none.
pub const DEFAULT_PRIORITY: u16 = 50;

/// One port of a Service.
#[derive(Debug)]
pub struct ServicePort {
    pub name: Option<String>,
    pub port: i32,
}

pub struct PortView {
    pub name: Option<Seq<char>>,
    pub port: i32,
}

impl View for ServicePort {
    type V = PortView;

    open spec fn view(&self) -> PortView {
        PortView { name: text::opt_text(self.name), port: self.port }
    }
}

/// The part of an object's metadata that backends are made from.
#[derive(Debug)]
pub struct ObjectMeta {
    pub name: Option<String>,
    pub namespace: Option<String>,
    pub annotations: Option<Members<String>>,
}

/// The part of a Service's spec that backends are made from.
#[derive(Debug)]
pub struct ServiceSpec {
    pub ports: Option<Vec<ServicePort>>,
}

/// A Kubernetes Service.
#[derive(Debug)]
pub struct Service {
    pub metadata: ObjectMeta,
    pub spec: Option<ServiceSpec>,
}

/// A Service as a mathematical value. A Service without a spec, one without a
/// list of ports and one with an empty list have the same `ports`.
pub struct ServiceView {
    pub name: Option<Seq<char>>,
    pub namespace: Option<Seq<char>>,
    pub annotations: Option<Map<Seq<char>, Seq<char>>>,
    pub ports: Seq<PortView>,
}

/// Ports, each by its view.
pub open spec fn port_views(ports: Seq<ServicePort>) -> Seq<PortView> {
    ports.map_values(|port: ServicePort| port@)
}

impl View for Service {
    type V = ServiceView;

    open spec fn view(&self) -> ServiceView {
        ServiceView {
            name: text::opt_text(self.metadata.name),
            namespace: text::opt_text(self.metadata.namespace),
            annotations: match self.metadata.annotations {
                Some(annotations) => Some(members::texts(annotations@)),
                None => None,
            },
            ports: match self.spec {
                Some(spec) => match spec.ports {
                    Some(ports) => port_views(ports@),
                    None => Seq::empty(),
                },
                None => Seq::empty(),
            },
        }
    }
}

fn clone_text(t: &Option<String>) -> (copy: Option<String>)
    ensures
        text::opt_text(copy) == text::opt_text(*t),
{
    match t {
        Some(t) => Some(t.clone()),
        None => None,
    }
}

impl Clone for ServicePort {
    fn clone(&self) -> (copy: Self)
        ensures
            copy@ == self@,
    {
        ServicePort { name: clone_text(&self.name), port: self.port }
    }
}

fn clone_ports(ports: &Vec<ServicePort>) -> (copy: Vec<ServicePort>)
    ensures
        port_views(copy@) == port_views(ports@),
{
    let mut copy: Vec<ServicePort> = Vec::new();
    for i in 0..ports.len()
        invariant
            copy@.len() == i,
            forall|j: int| 0 <= j < i ==> (#[trigger] copy@[j])@ == ports@[j]@,
    {
        copy.push(ports[i].clone());
    }
    assert(port_views(copy@) =~= port_views(ports@));
    copy
}

impl Clone for Service {
    fn clone(&self) -> (copy: Self)
        ensures
            copy@ == self@,
    {
        let annotations = match &self.metadata.annotations {
            Some(annotations) => {
                let copy = annotations.clone();
                assert(members::texts(copy@) =~= members::texts(annotations@)) by {
                    assert forall|name: Seq<char>| #[trigger]
                        copy@.contains_key(name) implies copy@[name]@ == annotations@[name]@ by {
                        assert(cloned(annotations@[name], copy@[name]));
                    }
                }
                Some(copy)
            },
            None => None,
        };
        Service {
            metadata: ObjectMeta {
                name: clone_text(&self.metadata.name),
                namespace: clone_text(&self.metadata.namespace),
                annotations,
            },
            spec: match &self.spec {
                Some(spec) => Some(
                    ServiceSpec {
                        ports: match &spec.ports {
                            Some(ports) => Some(clone_ports(ports)),
                            None => None,
                        },
                    },
                ),
                None => None,
            },
        }
    }
}

/// Whether the annotation `key` reads `true`, in any case.
pub open spec fn annotation_is_true(
    annotations: Map<Seq<char>, Seq<char>>,
    key: Seq<char>,
) -> bool {
    annotations.contains_key(key) && text::equal_ignoring_case(annotations[key], "true"@)
}

/// The number that the annotation `key` holds, or `default` where it is
/// missing or no number.
pub open spec fn annotation_number(
    annotations: Map<Seq<char>, Seq<char>>,
    key: Seq<char>,
    default: u16,
) -> u16 {
    if annotations.contains_key(key) {
        match text::u16_of(annotations[key]) {
            Some(number) => number,
            None => default,
        }
    } else {
        default
    }
}

/// The ports that can be connected to, in order.
pub open spec fn usable_ports(ports: Seq<PortView>) -> Seq<PortView> {
    ports.filter(|port: PortView| port.port > 0)
}

/// The first port of that name.
pub open spec fn first_named(ports: Seq<PortView>, name: Seq<char>) -> Option<PortView>
    decreases ports.len(),
{
    if ports.len() == 0 {
        None
    } else if ports[0].name == Some(name) {
        Some(ports[0])
    } else {
        first_named(ports.drop_first(), name)
    }
}

/// The port that a Service is reached by, of its usable ports. A port asked
/// for by name is that port or none. Otherwise the port named for the wanted
/// protocol comes first, then the one named for the other, then the first.
pub open spec fn selected_port(
    ports: Seq<PortView>,
    explicit: Option<Seq<char>>,
    https: bool,
) -> Option<PortView> {
    match explicit {
        Some(name) => first_named(ports, name),
        None => {
            let preferred = first_named(ports, if https { "https"@ } else { "http"@ });
            let secondary = first_named(ports, if https { "http"@ } else { "https"@ });
            if preferred is Some {
                preferred
            } else if secondary is Some {
                secondary
            } else if ports.len() > 0 {
                Some(ports[0])
            } else {
                None
            }
        },
    }
}

/// The scheme a Service is reached with: HTTPS where it is asked for, and
/// where the port was found, not asked for, and is named for it.
pub open spec fn scheme_of(
    port: PortView,
    explicit: Option<Seq<char>>,
    https: bool,
) -> Seq<char> {
    if https || (explicit is None && port.name == Some("https"@)) {
        "https"@
    } else {
        "http"@
    }
}

/// `<scheme>://<name>.<namespace>.svc.<cluster domain>:<port>`
pub open spec fn service_url(
    scheme: Seq<char>,
    name: Seq<char>,
    namespace: Seq<char>,
    cluster_domain: Seq<char>,
    port: nat,
) -> Seq<char> {
    scheme + "://"@ + name + "."@ + namespace + ".svc."@ + cluster_domain + ":"@ + text::decimal(
        port,
    )
}

/// `text`, or `default` where there is none.
pub open spec fn text_or(text: Option<Seq<char>>, default: Seq<char>) -> Seq<char> {
    match text {
        Some(t) => t,
        None => default,
    }
}

/// The value of `key`, if it is there.
pub open spec fn lookup(map: Map<Seq<char>, Seq<char>>, key: Seq<char>) -> Option<Seq<char>> {
    if map.contains_key(key) {
        Some(map[key])
    } else {
        None
    }
}

/// The backend that a Service asks to be, its URL not yet read: `None` where
/// it does not ask, or where no port can be selected.
pub open spec fn candidate_of(service: ServiceView, cluster_domain: Seq<char>) -> Option<
    BackendView,
> {
    match service.annotations {
        None => None,
        Some(annotations) => {
            let https = annotation_is_true(annotations, HTTPS_KEY@);
            let explicit = lookup(annotations, PORT_KEY@);
            let selected = selected_port(usable_ports(service.ports), explicit, https);
            if annotation_is_true(annotations, WEBFINGER_KEY@) && selected is Some {
                let name = text_or(service.name, "<unnamed>"@);
                Some(
                    BackendView {
                        name,
                        url: service_url(
                            scheme_of(selected->0, explicit, https),
                            name,
                            text_or(service.namespace, "default"@),
                            cluster_domain,
                            selected->0.port as nat,
                        ),
                        priority: annotation_number(annotations, PRIORITY_KEY@, DEFAULT_PRIORITY),
                    },
                )
            } else {
                None
            }
        },
    }
}

/// A candidate with its URL read: `None` where it is no URL.
pub open spec fn registered(candidate: BackendView, url: Option<Seq<char>>) -> Option<
    BackendView,
> {
    match url {
        Some(url) => Some(BackendView { url, ..candidate }),
        None => None,
    }
}

/// The backend that a Service is.
pub open spec fn backend_of(service: ServiceView, cluster_domain: Seq<char>) -> Option<
    BackendView,
> {
    match candidate_of(service, cluster_domain) {
        Some(candidate) => registered(candidate, url_text::url_parsed(candidate.url)),
        None => None,
    }
}

/// A backend, or none, by its view.
pub open spec fn opt_backend(backend: Option<Backend>) -> Option<BackendView> {
    match backend {
        Some(b) => Some(b@),
        None => None,
    }
}

/// The backends that Services are, in their order.
pub open spec fn backends_of(services: Seq<ServiceView>, cluster_domain: Seq<char>) -> Seq<
    BackendView,
> {
    services.filter_map(|service: ServiceView| backend_of(service, cluster_domain))
}

/// Of the backends with that URL, the first of the highest priority.
pub open spec fn best(backends: Seq<BackendView>, url: Seq<char>) -> Option<BackendView>
    decreases backends.len(),
{
    if backends.len() == 0 {
        None
    } else {
        let earlier = best(backends.drop_last(), url);
        let last = backends.last();
        if last.url == url && (earlier matches Some(b) ==> last.priority > b.priority) {
            Some(last)
        } else {
            earlier
        }
    }
}

/// Whether the URLs come one before the other.
pub open spec fn sorted_by_url(list: Seq<BackendView>) -> bool {
    forall|i: int, j: int|
        0 <= i < j < list.len() ==> text::text_before(
            (#[trigger] list[i]).url,
            (#[trigger] list[j]).url,
        )
}

/// Whether `list` holds, sorted by URL, the best backend of each URL that
/// occurs among `backends`, and nothing else.
pub open spec fn is_registry(list: Seq<BackendView>, backends: Seq<BackendView>) -> bool {
    &&& sorted_by_url(list)
    &&& forall|i: int|
        0 <= i < list.len() ==> best(backends, (#[trigger] list[i]).url) == Some(list[i])
    &&& forall|i: int|
        0 <= i < backends.len() ==> exists|j: int|
            0 <= j < list.len() && (#[trigger] list[j]).url == (#[trigger] backends[i]).url
}

/// Backends, each by its view.
pub open spec fn backend_views(backends: Seq<Backend>) -> Seq<BackendView> {
    backends.map_values(|backend: Backend| backend@)
}

/// Services, each by its view.
pub open spec fn service_views(services: Seq<Service>) -> Seq<ServiceView> {
    services.map_values(|service: Service| service@)
}

/// Reads the annotation `key` as a number.
pub fn parse_annotation(annotations: &Members<String>, key: &str, default: u16) -> (number: u16)
    ensures
        number == annotation_number(members::texts(annotations@), key@, default),
{
    match annotations.get(key) {
        None => default,
        Some(raw) => match read_u16(raw.as_str()) {
            Some(number) => number,
            None => default,
        },
    }
}

fn is_true(annotations: &Members<String>, key: &str) -> (yes: bool)
    ensures
        yes == annotation_is_true(members::texts(annotations@), key@),
{
    match annotations.get(key) {
        None => false,
        Some(raw) => same_text_ignoring_case(raw.as_str(), "true"),
    }
}

/// Borrowed ports, each by its view.
spec fn borrowed_views(ports: Seq<&ServicePort>) -> Seq<PortView> {
    ports.map_values(|port: &ServicePort| port@)
}

fn collect_usable(service: &Service) -> (usable: Vec<&ServicePort>)
    ensures
        borrowed_views(usable@) == usable_ports(service@.ports),
{
    let mut usable: Vec<&ServicePort> = Vec::new();
    let keep = Ghost(|port: PortView| port.port > 0);
    reveal(Seq::filter);
    match &service.spec {
        None => {
            assert(borrowed_views(usable@) =~= usable_ports(service@.ports));
        },
        Some(spec) => match &spec.ports {
            None => {
                assert(borrowed_views(usable@) =~= usable_ports(service@.ports));
            },
            Some(ports) => {
                assert(port_views(ports@).take(0) =~= Seq::<PortView>::empty());
                assert(borrowed_views(usable@) =~= port_views(ports@).take(0).filter(keep@));
                for i in 0..ports.len()
                    invariant
                        borrowed_views(usable@) == port_views(ports@).take(i as int).filter(keep@),
                        keep@ == (|port: PortView| port.port > 0),
                {
                    let ghost views = port_views(ports@);
                    let ghost before = usable@;
                    if ports[i].port > 0 {
                        usable.push(&ports[i]);
                    }
                    proof {
                        reveal(Seq::filter);
                        assert(views.take(i + 1).drop_last() =~= views.take(i as int));
                        assert(views.take(i + 1).last() == ports@[i as int]@);
                        if ports@[i as int].port > 0 {
                            assert(borrowed_views(usable@) =~= borrowed_views(before).push(
                                ports@[i as int]@,
                            ));
                        }
                    }
                }
                assert(port_views(ports@).take(ports@.len() as int) =~= port_views(ports@));
            },
        },
    }
    usable
}

fn has_name(port: &ServicePort, name: &str) -> (yes: bool)
    ensures
        yes == (port@.name == Some(name@)),
{
    match &port.name {
        Some(n) => same_text(n.as_str(), name),
        None => false,
    }
}

fn find_named<'a>(ports: &Vec<&'a ServicePort>, name: &str) -> (found: Option<&'a ServicePort>)
    ensures
        match found {
            Some(port) => first_named(borrowed_views(ports@), name@) == Some(port@),
            None => first_named(borrowed_views(ports@), name@) is None,
        },
{
    let ghost views = borrowed_views(ports@);
    assert(views.skip(0) =~= views);
    for i in 0..ports.len()
        invariant
            views == borrowed_views(ports@),
            first_named(views, name@) == first_named(views.skip(i as int), name@),
    {
        assert(views.skip(i as int)[0] == ports@[i as int]@);
        if has_name(ports[i], name) {
            return Some(ports[i]);
        }
        assert(views.skip(i as int).drop_first() =~= views.skip(i + 1));
    }
    None
}

fn select_port<'a>(
    ports: &Vec<&'a ServicePort>,
    explicit: Option<&String>,
    https: bool,
) -> (selected: Option<&'a ServicePort>)
    ensures
        ({
            let name = match explicit {
                Some(name) => Some(name@),
                None => None,
            };
            match selected {
                Some(port) => selected_port(borrowed_views(ports@), name, https) == Some(port@),
                None => selected_port(borrowed_views(ports@), name, https) is None,
            }
        }),
{
    match explicit {
        Some(name) => find_named(ports, name.as_str()),
        None => {
            let preferred = find_named(ports, if https { "https" } else { "http" });
            if preferred.is_some() {
                return preferred;
            }
            let secondary = find_named(ports, if https { "http" } else { "https" });
            if secondary.is_some() {
                return secondary;
            }
            if ports.len() > 0 {
                assert(borrowed_views(ports@)[0] == ports@[0]@);
                Some(ports[0])
            } else {
                None
            }
        },
    }
}

fn build_url(scheme: &str, name: &str, namespace: &str, cluster_domain: &str, port: u32) -> (url:
    String)
    ensures
        url@ == service_url(scheme@, name@, namespace@, cluster_domain@, port as nat),
{
    let mut url = scheme.to_owned();
    url.append("://");
    url.append(name);
    url.append(".");
    url.append(namespace);
    url.append(".svc.");
    url.append(cluster_domain);
    url.append(":");
    url.append(decimal_text(port).as_str());
    url
}

fn or_default<'a>(text: &'a Option<String>, default: &'a str) -> (chosen: &'a str)
    ensures
        chosen@ == text_or(text::opt_text(*text), default@),
{
    match text {
        Some(t) => t.as_str(),
        None => default,
    }
}

/// The backend that a Service asks to be, with the text of its URL.
pub fn candidate_from_service(service: &Service, cluster_domain: &str) -> (candidate: Option<
    Backend,
>)
    ensures
        opt_backend(candidate) == candidate_of(service@, cluster_domain@),
{
    let annotations = match &service.metadata.annotations {
        Some(annotations) => annotations,
        None => {
            return None;
        },
    };
    if !is_true(annotations, WEBFINGER_KEY) {
        return None;
    }
    let priority: u16 = parse_annotation(annotations, PRIORITY_KEY, DEFAULT_PRIORITY);
    let https = is_true(annotations, HTTPS_KEY);
    let explicit = annotations.get(PORT_KEY);
    let usable = collect_usable(service);
    let selected = match select_port(&usable, explicit, https) {
        Some(port) => port,
        None => {
            return None;
        },
    };
    proof {
        lemma_selected_usable(
            service@.ports,
            lookup(members::texts(annotations@), PORT_KEY@),
            https,
        );
    }
    let scheme = if https || (explicit.is_none() && has_name(selected, "https")) {
        "https"
    } else {
        "http"
    };
    let name = or_default(&service.metadata.name, "<unnamed>");
    let namespace = or_default(&service.metadata.namespace, "default");
    let url = build_url(scheme, name, namespace, cluster_domain, selected.port as u32);
    Some(Backend { name: name.to_owned(), url, priority })
}

/// A candidate, once its URL has been read.
pub fn register(candidate: Backend, url: Option<String>) -> (backend: Option<Backend>)
    ensures
        opt_backend(backend) == registered(candidate@, text::opt_text(url)),
{
    match url {
        Some(url) => Some(Backend { name: candidate.name, url, priority: candidate.priority }),
        None => None,
    }
}

/// The backend that a Service is: `None` where it does not ask to be one, has
/// no port to be reached by, or would have no URL.
pub fn backend_from_service(service: &Service, cluster_domain: &str) -> (backend: Option<Backend>)
    ensures
        opt_backend(backend) == backend_of(service@, cluster_domain@),
{
    match candidate_from_service(service, cluster_domain) {
        Some(candidate) => {
            let url = parse_url(candidate.url.as_str());
            register(candidate, url)
        },
        None => None,
    }
}

/// Puts a backend into a registry.
fn admit_backend(list: &mut Vec<Backend>, backend: Backend)
    ensures
        forall|backends: Seq<BackendView>|
            is_registry(backend_views(old(list)@), backends) ==> #[trigger] is_registry(
                backend_views(final(list)@),
                backends.push(backend@),
            ),
{
    let mut at: usize = 0;
    let ghost before = backend_views(list@);
    while at < list.len() && is_before(list[at].url.as_str(), backend.url.as_str())
        invariant
            at <= list.len(),
            before == backend_views(list@),
            forall|i: int|
                0 <= i < at ==> text::text_before((#[trigger] before[i]).url, backend@.url),
        decreases list.len() - at,
    {
        assert(before[at as int] == list@[at as int]@);
        at = at + 1;
    }
    if at < list.len() && same_text(list[at].url.as_str(), backend.url.as_str()) {
        assert(before[at as int] == list@[at as int]@);
        if backend.priority > list[at].priority {
            let ghost new = backend@;
            list[at] = backend;
            proof {
                assert(backend_views(list@) =~= before.update(at as int, new));
                assert forall|backends: Seq<BackendView>| is_registry(
                    before,
                    backends,
                ) implies #[trigger] is_registry(
                    backend_views(list@),
                    backends.push(new),
                ) by {
                    lemma_registry_meets(before, backends, at as int, new);
                }
            }
        } else {
            proof {
                assert forall|backends: Seq<BackendView>| is_registry(
                    before,
                    backends,
                ) implies #[trigger] is_registry(
                    backend_views(list@),
                    backends.push(backend@),
                ) by {
                    lemma_registry_meets(before, backends, at as int, backend@);
                }
            }
        }
    } else {
        let ghost new = backend@;
        proof {
            if at < list@.len() {
                assert(before[at as int] == list@[at as int]@);
                text::law_order_total(before[at as int].url, new.url);
            }
        }
        list.insert(at, backend);
        proof {
            assert(backend_views(list@) =~= before.insert(at as int, new));
            assert forall|backends: Seq<BackendView>| is_registry(
                before,
                backends,
            ) implies #[trigger] is_registry(backend_views(list@), backends.push(new)) by {
                lemma_registry_gains(before, backends, at as int, new);
            }
        }
    }
}

/// The backends that Services are: one per URL, of the highest priority, and
/// sorted by URL, so that equal sets are equal lists.
pub fn backends_from_services(services: Vec<Service>, cluster_domain: &str) -> (backends: Vec<
    Backend,
>)
    ensures
        is_registry(
            backend_views(backends@),
            backends_of(service_views(services@), cluster_domain@),
        ),
{
    let mut list: Vec<Backend> = Vec::new();
    let ghost views = service_views(services@);
    let ghost map = |service: ServiceView| backend_of(service, cluster_domain@);
    assert(views.take(0) =~= Seq::<ServiceView>::empty());
    for i in 0..services.len()
        invariant
            views == service_views(services@),
            map == (|service: ServiceView| backend_of(service, cluster_domain@)),
            is_registry(backend_views(list@), views.take(i as int).filter_map(map)),
    {
        proof {
            assert(views.take(i + 1).drop_last() =~= views.take(i as int));
            assert(views.take(i + 1).last() == services@[i as int]@);
        }
        match backend_from_service(&services[i], cluster_domain) {
            Some(backend) => {
                proof {
                    let earlier = views.take(i as int).filter_map(map);
                    assert(earlier + seq![backend@] =~= earlier.push(backend@));
                }
                admit_backend(&mut list, backend);
            },
            None => {},
        }
    }
    assert(views.take(services@.len() as int) =~= views);
    list
}

proof fn lemma_best(backends: Seq<BackendView>, url: Seq<char>)
    ensures
        match best(backends, url) {
            Some(b) => {
                &&& backends.contains(b)
                &&& b.url == url
                &&& forall|i: int|
                    0 <= i < backends.len() && (#[trigger] backends[i]).url == url
                        ==> backends[i].priority <= b.priority
            },
            None => forall|i: int|
                0 <= i < backends.len() ==> (#[trigger] backends[i]).url != url,
        },
    decreases backends.len(),
{
    if backends.len() > 0 {
        let rest = backends.drop_last();
        lemma_best(rest, url);
        match best(backends, url) {
            Some(b) => {
                if rest.contains(b) {
                    let i = choose|i: int| 0 <= i < rest.len() && rest[i] == b;
                    assert(backends[i] == b);
                }
                assert(backends.contains(backends.last()));
                assert forall|i: int|
                    0 <= i < backends.len() && (#[trigger] backends[i]).url == url implies backends[i].priority
                    <= b.priority by {
                    if i < rest.len() {
                        assert(rest[i] == backends[i]);
                    }
                }
            },
            None => {
                assert forall|i: int| 0 <= i < backends.len() implies (#[trigger] backends[i]).url
                    != url by {
                    if i < rest.len() {
                        assert(rest[i] == backends[i]);
                    }
                }
            },
        }
    }
}

/// A backend whose URL the registry has: it takes its place, or leaves the
/// registry as it is.
proof fn lemma_registry_meets(
    list: Seq<BackendView>,
    backends: Seq<BackendView>,
    at: int,
    new: BackendView,
)
    requires
        is_registry(list, backends),
        0 <= at < list.len(),
        list[at].url == new.url,
    ensures
        is_registry(
            if new.priority > list[at].priority {
                list.update(at, new)
            } else {
                list
            },
            backends.push(new),
        ),
{
    let all = backends.push(new);
    assert(all.drop_last() =~= backends);
    let after = if new.priority > list[at].priority { list.update(at, new) } else { list };
    assert forall|i: int, j: int| 0 <= i < j < after.len() implies text::text_before(
        (#[trigger] after[i]).url,
        (#[trigger] after[j]).url,
    ) by {
        assert(text::text_before(list[i].url, list[j].url));
    }
    assert forall|i: int| 0 <= i < after.len() implies best(all, (#[trigger] after[i]).url) == Some(
        after[i],
    ) by {
        assert(best(backends, list[i].url) == Some(list[i]));
        if i < at {
            assert(text::text_before(list[i].url, list[at].url));
            text::law_order_irreflexive(new.url);
        } else if i > at {
            assert(text::text_before(list[at].url, list[i].url));
            text::law_order_irreflexive(new.url);
        }
    }
    assert forall|i: int| 0 <= i < all.len() implies exists|j: int|
        0 <= j < after.len() && (#[trigger] after[j]).url == (#[trigger] all[i]).url by {
        if i < backends.len() {
            assert(all[i] == backends[i]);
            let j = choose|j: int|
                0 <= j < list.len() && (#[trigger] list[j]).url == backends[i].url;
            assert(after[j].url == list[j].url);
        } else {
            assert(after[at].url == new.url);
        }
    }
}

/// A backend whose URL the registry does not have: it gets a place of its own.
proof fn lemma_registry_gains(
    list: Seq<BackendView>,
    backends: Seq<BackendView>,
    at: int,
    new: BackendView,
)
    requires
        is_registry(list, backends),
        0 <= at <= list.len(),
        forall|i: int| 0 <= i < at ==> text::text_before((#[trigger] list[i]).url, new.url),
        at < list.len() ==> text::text_before(new.url, list[at].url),
    ensures
        is_registry(list.insert(at, new), backends.push(new)),
{
    let all = backends.push(new);
    assert(all.drop_last() =~= backends);
    let after = list.insert(at, new);
    assert forall|j: int| at <= j < list.len() implies text::text_before(
        new.url,
        (#[trigger] list[j]).url,
    ) by {
        if j > at {
            assert(text::text_before(list[at].url, list[j].url));
            text::law_order_transitive(new.url, list[at].url, list[j].url);
        }
    }
    assert forall|i: int, j: int| 0 <= i < j < after.len() implies text::text_before(
        (#[trigger] after[i]).url,
        (#[trigger] after[j]).url,
    ) by {
        let i1 = if i < at { i } else { i - 1 };
        let j1 = if j < at { j } else { j - 1 };
        if i != at && j != at {
            assert(text::text_before(list[i1].url, list[j1].url));
        }
    }
    assert forall|i: int| 0 <= i < list.len() implies (#[trigger] list[i]).url != new.url by {
        text::law_order_irreflexive(new.url);
    }
    lemma_best(backends, new.url);
    if best(backends, new.url) is Some {
        let b = best(backends, new.url)->0;
        let i = choose|i: int| 0 <= i < backends.len() && backends[i] == b;
        let j = choose|j: int| 0 <= j < list.len() && (#[trigger] list[j]).url == backends[i].url;
        assert(list[j].url != new.url);
    }
    assert forall|i: int| 0 <= i < after.len() implies best(all, (#[trigger] after[i]).url) == Some(
        after[i],
    ) by {
        let i1 = if i < at { i } else { i - 1 };
        if i != at {
            assert(after[i] == list[i1]);
            assert(best(backends, list[i1].url) == Some(list[i1]));
        }
    }
    assert forall|i: int| 0 <= i < all.len() implies exists|j: int|
        0 <= j < after.len() && (#[trigger] after[j]).url == (#[trigger] all[i]).url by {
        if i < backends.len() {
            assert(all[i] == backends[i]);
            let j = choose|j: int|
                0 <= j < list.len() && (#[trigger] list[j]).url == backends[i].url;
            let j1 = if j < at { j } else { j + 1 };
            assert(after[j1] == list[j]);
        } else {
            assert(after[at] == new);
        }
    }
}

proof fn lemma_first_named(ports: Seq<PortView>, name: Seq<char>)
    ensures
        first_named(ports, name) matches Some(port) ==> ports.contains(port) && port.name == Some(
            name,
        ),
    decreases ports.len(),
{
    if ports.len() > 0 && ports[0].name != Some(name) {
        let rest = ports.drop_first();
        lemma_first_named(rest, name);
        if first_named(rest, name) is Some {
            let i = choose|i: int| 0 <= i < rest.len() && rest[i] == first_named(rest, name)->0;
            assert(ports[i + 1] == rest[i]);
        }
    }
}

proof fn lemma_selected_usable(ports: Seq<PortView>, explicit: Option<Seq<char>>, https: bool)
    ensures
        selected_port(usable_ports(ports), explicit, https) matches Some(port) ==> port.port > 0
            && ports.contains(port),
{
    let usable = usable_ports(ports);
    let keep = |port: PortView| port.port > 0;
    if explicit is Some {
        lemma_first_named(usable, explicit->0);
    }
    lemma_first_named(usable, "http"@);
    lemma_first_named(usable, "https"@);
    if selected_port(usable, explicit, https) is Some {
        let port = selected_port(usable, explicit, https)->0;
        assert(usable.contains(port));
        ports.lemma_filter_contains_rev(keep, port);
        let i = choose|i: int| 0 <= i < usable.len() && usable[i] == port;
        ports.lemma_filter_pred(keep, i);
    }
}

proof fn lemma_sorted_same(a: Seq<BackendView>, b: Seq<BackendView>)
    requires
        sorted_by_url(a),
        sorted_by_url(b),
        forall|x: BackendView| #[trigger] a.contains(x) <==> b.contains(x),
    ensures
        a == b,
    decreases a.len(),
{
    if a.len() == 0 {
        if b.len() > 0 {
            assert(b.contains(b[0]));
            assert(a.contains(b[0]));
        }
        assert(a =~= b);
    } else {
        assert(a.contains(a.last()));
        assert(b.contains(a.last()));
        let i = choose|i: int| 0 <= i < b.len() && b[i] == a.last();
        assert(b.contains(b.last()));
        assert(a.contains(b.last()));
        let j = choose|j: int| 0 <= j < a.len() && a[j] == b.last();
        if i < b.len() - 1 {
            assert(text::text_before(b[i].url, b[b.len() - 1].url));
            if j < a.len() - 1 {
                assert(text::text_before(a[j].url, a[a.len() - 1].url));
                text::law_order_transitive(b[i].url, a[j].url, b[i].url);
            }
            text::law_order_irreflexive(b[i].url);
        }
        let a1 = a.drop_last();
        let b1 = b.drop_last();
        assert forall|x: BackendView| #[trigger] a1.contains(x) <==> b1.contains(x) by {
            if a1.contains(x) {
                let k = choose|k: int| 0 <= k < a1.len() && a1[k] == x;
                assert(a[k] == x);
                assert(a.contains(x));
                assert(text::text_before(a[k].url, a[a.len() - 1].url));
                text::law_order_irreflexive(x.url);
                let l = choose|l: int| 0 <= l < b.len() && b[l] == x;
                assert(b1[l] == x);
            }
            if b1.contains(x) {
                let k = choose|k: int| 0 <= k < b1.len() && b1[k] == x;
                assert(b[k] == x);
                assert(b.contains(x));
                assert(text::text_before(b[k].url, b[b.len() - 1].url));
                text::law_order_irreflexive(x.url);
                assert(a.contains(x));
                let l = choose|l: int| 0 <= l < a.len() && a[l] == x;
                assert(a1[l] == x);
            }
        }
        assert forall|i: int, j: int| 0 <= i < j < a1.len() implies text::text_before(
            (#[trigger] a1[i]).url,
            (#[trigger] a1[j]).url,
        ) by {
            assert(text::text_before(a[i].url, a[j].url));
        }
        assert forall|i: int, j: int| 0 <= i < j < b1.len() implies text::text_before(
            (#[trigger] b1[i]).url,
            (#[trigger] b1[j]).url,
        ) by {
            assert(text::text_before(b[i].url, b[j].url));
        }
        lemma_sorted_same(a1, b1);
        assert(a =~= a1.push(a.last()));
        assert(b =~= b1.push(b.last()));
    }
}

proof fn lemma_registry_holds(list: Seq<BackendView>, backends: Seq<BackendView>, x: BackendView)
    requires
        is_registry(list, backends),
    ensures
        list.contains(x) <==> best(backends, x.url) == Some(x),
{
    if list.contains(x) {
        let i = choose|i: int| 0 <= i < list.len() && list[i] == x;
        assert(best(backends, list[i].url) == Some(list[i]));
    }
    if best(backends, x.url) == Some(x) {
        lemma_best(backends, x.url);
        let i = choose|i: int| 0 <= i < backends.len() && backends[i] == x;
        let j = choose|j: int| 0 <= j < list.len() && (#[trigger] list[j]).url == backends[i].url;
        assert(best(backends, list[j].url) == Some(list[j]));
        assert(list[j] == x);
    }
}

/// Registries of backends among which every URL has the same best backend are
/// the same list. With one and the same row of backends on both sides: there
/// is only one registry of it.
pub proof fn law_registry_determined(
    a: Seq<BackendView>,
    b: Seq<BackendView>,
    a_backends: Seq<BackendView>,
    b_backends: Seq<BackendView>,
)
    requires
        is_registry(a, a_backends),
        is_registry(b, b_backends),
        forall|url: Seq<char>| #[trigger] best(a_backends, url) == best(b_backends, url),
    ensures
        a == b,
{
    assert forall|x: BackendView| #[trigger] a.contains(x) <==> b.contains(x) by {
        lemma_registry_holds(a, a_backends, x);
        lemma_registry_holds(b, b_backends, x);
        assert(best(a_backends, x.url) == best(b_backends, x.url));
    }
    lemma_sorted_same(a, b);
}

/// A registry has each URL once, and at the highest priority at which it was
/// registered.
pub proof fn law_registry_unique_and_highest(list: Seq<BackendView>, backends: Seq<BackendView>)
    requires
        is_registry(list, backends),
    ensures
        forall|i: int, j: int|
            0 <= i < j < list.len() ==> (#[trigger] list[i]).url != (#[trigger] list[j]).url,
        forall|i: int| 0 <= i < list.len() ==> backends.contains(#[trigger] list[i]),
        forall|i: int, j: int|
            0 <= i < list.len() && 0 <= j < backends.len() && (#[trigger] list[i]).url == (
            #[trigger] backends[j]).url ==> backends[j].priority <= list[i].priority,
{
    assert forall|i: int, j: int| 0 <= i < j < list.len() implies (#[trigger] list[i]).url != (
    #[trigger] list[j]).url by {
        assert(text::text_before(list[i].url, list[j].url));
        text::law_order_irreflexive(list[i].url);
    }
    assert forall|i: int| 0 <= i < list.len() implies backends.contains(#[trigger] list[i]) by {
        lemma_best(backends, list[i].url);
    }
    assert forall|i: int, j: int|
        0 <= i < list.len() && 0 <= j < backends.len() && (#[trigger] list[i]).url == (
        #[trigger] backends[j]).url implies backends[j].priority <= list[i].priority by {
        lemma_best(backends, list[i].url);
    }
}

/// The same Services in another order are the same backends in another order.
proof fn lemma_same_backends(
    a_services: Seq<ServiceView>,
    b_services: Seq<ServiceView>,
    cluster_domain: Seq<char>,
)
    requires
        forall|s: ServiceView| #[trigger] a_services.contains(s) <==> b_services.contains(s),
    ensures
        forall|x: BackendView| #[trigger]
            backends_of(a_services, cluster_domain).contains(x) <==> backends_of(
                b_services,
                cluster_domain,
            ).contains(x),
{
    let f = |service: ServiceView| backend_of(service, cluster_domain);
    let ab = backends_of(a_services, cluster_domain);
    let bb = backends_of(b_services, cluster_domain);
    assert forall|x: BackendView| #[trigger] ab.contains(x) <==> bb.contains(x) by {
        lemma_filter_map_has(a_services, f, x);
        lemma_filter_map_has(b_services, f, x);
        if ab.contains(x) {
            let s = choose|s: ServiceView| #[trigger] a_services.contains(s) && f(s) == Some(x);
            assert(b_services.contains(s) && f(s) == Some(x));
        }
        if bb.contains(x) {
            let s = choose|s: ServiceView| #[trigger] b_services.contains(s) && f(s) == Some(x);
            assert(a_services.contains(s) && f(s) == Some(x));
        }
    }
}

/// The best backend of a URL depends only on which backends there are, where no
/// two different ones share URL and priority.
proof fn lemma_same_best(a: Seq<BackendView>, b: Seq<BackendView>, url: Seq<char>)
    requires
        forall|x: BackendView| #[trigger] a.contains(x) <==> b.contains(x),
        forall|x: BackendView, y: BackendView|
            #![trigger a.contains(x), a.contains(y)]
            a.contains(x) && a.contains(y) && x.url == y.url && x.priority == y.priority ==> x == y,
    ensures
        best(a, url) == best(b, url),
{
    lemma_best(a, url);
    lemma_best(b, url);
    if best(a, url) is Some {
        let x = best(a, url)->0;
        assert(a.contains(x) && b.contains(x));
        let i = choose|i: int| 0 <= i < b.len() && b[i] == x;
        assert(b[i].url == url);
        let y = best(b, url)->0;
        assert(a.contains(y));
        let j = choose|j: int| 0 <= j < a.len() && a[j] == y;
        assert(a[j].url == url);
    } else if best(b, url) is Some {
        let y = best(b, url)->0;
        assert(a.contains(y));
        let j = choose|j: int| 0 <= j < a.len() && a[j] == y;
        assert(a[j].url == url);
    }
}

/// The order in which Services are listed does not matter, as long as no URL
/// is registered by two different backends at one priority.
pub proof fn law_registry_ignores_order(
    a: Seq<BackendView>,
    b: Seq<BackendView>,
    a_services: Seq<ServiceView>,
    b_services: Seq<ServiceView>,
    cluster_domain: Seq<char>,
)
    requires
        is_registry(a, backends_of(a_services, cluster_domain)),
        is_registry(b, backends_of(b_services, cluster_domain)),
        forall|s: ServiceView| #[trigger] a_services.contains(s) <==> b_services.contains(s),
        forall|s: ServiceView, t: ServiceView|
            a_services.contains(s) && a_services.contains(t) ==> (match (
                #[trigger] backend_of(s, cluster_domain),
                #[trigger] backend_of(t, cluster_domain),
            ) {
                (Some(x), Some(y)) => x.url == y.url && x.priority == y.priority ==> x == y,
                _ => true,
            }),
    ensures
        a == b,
{
    let ab = backends_of(a_services, cluster_domain);
    let bb = backends_of(b_services, cluster_domain);
    let f = |service: ServiceView| backend_of(service, cluster_domain);
    lemma_same_backends(a_services, b_services, cluster_domain);
    assert forall|x: BackendView, y: BackendView|
        #![trigger ab.contains(x), ab.contains(y)]
        ab.contains(x) && ab.contains(y) && x.url == y.url && x.priority == y.priority implies x
        == y by {
        lemma_filter_map_has(a_services, f, x);
        lemma_filter_map_has(a_services, f, y);
        let s = choose|s: ServiceView| #[trigger] a_services.contains(s) && f(s) == Some(x);
        let t = choose|t: ServiceView| #[trigger] a_services.contains(t) && f(t) == Some(y);
        assert(backend_of(s, cluster_domain) == Some(x));
        assert(backend_of(t, cluster_domain) == Some(y));
    }
    assert forall|url: Seq<char>| #[trigger] best(ab, url) == best(bb, url) by {
        lemma_same_best(ab, bb, url);
    }
    law_registry_determined(a, b, ab, bb);
}

/// Backends with their names left out.
spec fn unnamed(backends: Seq<BackendView>) -> Seq<BackendView> {
    backends.map_values(|b: BackendView| BackendView { name: Seq::empty(), ..b })
}

proof fn lemma_best_unnamed(backends: Seq<BackendView>, url: Seq<char>)
    ensures
        best(unnamed(backends), url) == (match best(backends, url) {
            Some(b) => Some(BackendView { name: Seq::empty(), ..b }),
            None => None,
        }),
    decreases backends.len(),
{
    if backends.len() > 0 {
        assert(unnamed(backends).drop_last() =~= unnamed(backends.drop_last()));
        lemma_best_unnamed(backends.drop_last(), url);
    }
}

proof fn lemma_registry_unnamed(list: Seq<BackendView>, backends: Seq<BackendView>)
    requires
        is_registry(list, backends),
    ensures
        is_registry(unnamed(list), unnamed(backends)),
{
    let short = unnamed(list);
    let all = unnamed(backends);
    assert forall|i: int, j: int| 0 <= i < j < short.len() implies text::text_before(
        (#[trigger] short[i]).url,
        (#[trigger] short[j]).url,
    ) by {
        assert(text::text_before(list[i].url, list[j].url));
    }
    assert forall|i: int| 0 <= i < short.len() implies best(all, (#[trigger] short[i]).url) == Some(
        short[i],
    ) by {
        assert(best(backends, list[i].url) == Some(list[i]));
        lemma_best_unnamed(backends, list[i].url);
    }
    assert forall|i: int| 0 <= i < all.len() implies exists|j: int|
        0 <= j < short.len() && (#[trigger] short[j]).url == (#[trigger] all[i]).url by {
        assert(all[i].url == backends[i].url);
        let j = choose|j: int| 0 <= j < list.len() && (#[trigger] list[j]).url == backends[i].url;
        assert(short[j].url == all[i].url);
    }
}

proof fn lemma_unnamed_has(backends: Seq<BackendView>, x: BackendView)
    ensures
        unnamed(backends).contains(x) <==> exists|b: BackendView|
            #![trigger backends.contains(b)]
            backends.contains(b) && x == (BackendView { name: Seq::empty(), ..b }),
{
    if unnamed(backends).contains(x) {
        let i = choose|i: int| 0 <= i < backends.len() && unnamed(backends)[i] == x;
        assert(backends.contains(backends[i]));
    }
    if exists|b: BackendView|
        #![trigger backends.contains(b)]
        backends.contains(b) && x == (BackendView { name: Seq::empty(), ..b }) {
        let b = choose|b: BackendView|
            #![trigger backends.contains(b)]
            backends.contains(b) && x == (BackendView { name: Seq::empty(), ..b });
        let i = choose|i: int| 0 <= i < backends.len() && backends[i] == b;
        assert(unnamed(backends)[i] == x);
    }
}

/// Whatever is registered, the order in which Services are listed does not
/// change at which URLs, in which order and with which priorities backends are
/// asked.
pub proof fn law_registry_urls_ignore_order(
    a: Seq<BackendView>,
    b: Seq<BackendView>,
    a_services: Seq<ServiceView>,
    b_services: Seq<ServiceView>,
    cluster_domain: Seq<char>,
)
    requires
        is_registry(a, backends_of(a_services, cluster_domain)),
        is_registry(b, backends_of(b_services, cluster_domain)),
        forall|s: ServiceView| #[trigger] a_services.contains(s) <==> b_services.contains(s),
    ensures
        a.len() == b.len(),
        forall|i: int|
            0 <= i < a.len() ==> (#[trigger] a[i]).url == b[i].url && a[i].priority
                == b[i].priority,
{
    let ab = backends_of(a_services, cluster_domain);
    let bb = backends_of(b_services, cluster_domain);
    let au = unnamed(ab);
    let bu = unnamed(bb);
    lemma_same_backends(a_services, b_services, cluster_domain);
    assert forall|x: BackendView| #[trigger] au.contains(x) <==> bu.contains(x) by {
        lemma_unnamed_has(ab, x);
        lemma_unnamed_has(bb, x);
        if au.contains(x) {
            let y = choose|y: BackendView|
                #![trigger ab.contains(y)]
                ab.contains(y) && x == (BackendView { name: Seq::empty(), ..y });
            assert(bb.contains(y));
        }
        if bu.contains(x) {
            let y = choose|y: BackendView|
                #![trigger bb.contains(y)]
                bb.contains(y) && x == (BackendView { name: Seq::empty(), ..y });
            assert(ab.contains(y));
        }
    }
    assert forall|x: BackendView, y: BackendView|
        #![trigger au.contains(x), au.contains(y)]
        au.contains(x) && au.contains(y) && x.url == y.url && x.priority == y.priority implies x
        == y by {
        lemma_unnamed_has(ab, x);
        lemma_unnamed_has(ab, y);
    }
    assert forall|url: Seq<char>| #[trigger] best(au, url) == best(bu, url) by {
        lemma_same_best(au, bu, url);
    }
    lemma_registry_unnamed(a, ab);
    lemma_registry_unnamed(b, bb);
    law_registry_determined(unnamed(a), unnamed(b), au, bu);
    assert(unnamed(a).len() == a.len() && unnamed(b).len() == b.len());
    assert forall|i: int| 0 <= i < a.len() implies (#[trigger] a[i]).url == b[i].url
        && a[i].priority == b[i].priority by {
        assert(unnamed(a)[i] == unnamed(b)[i]);
    }
}

proof fn lemma_filter_map_has<A, B>(s: Seq<A>, f: spec_fn(A) -> Option<B>, x: B)
    ensures
        s.filter_map(f).contains(x) <==> exists|a: A| #[trigger] s.contains(a) && f(a) == Some(x),
    decreases s.len(),
{
    if s.filter_map(f).contains(x) {
        s.lemma_filter_map_contains(f, x);
    }
    if exists|a: A| #[trigger] s.contains(a) && f(a) == Some(x) {
        let a = choose|a: A| #[trigger] s.contains(a) && f(a) == Some(x);
        let rest = s.drop_last();
        if a == s.last() {
            let m = s.filter_map(f);
            assert(m[m.len() - 1] == x);
        } else {
            let i = choose|i: int| 0 <= i < s.len() && s[i] == a;
            assert(rest[i] == a);
            assert(rest.contains(a));
            lemma_filter_map_has(rest, f, x);
            let m = rest.filter_map(f);
            let k = choose|k: int| 0 <= k < m.len() && m[k] == x;
            assert(s.filter_map(f)[k] == x);
        }
    }
}

/// Only a Service that carries the annotation is ever registered, and it is
/// reached by one of its own ports, of a positive number.
pub proof fn law_only_annotated_services(service: ServiceView, cluster_domain: Seq<char>)
    ensures
        backend_of(service, cluster_domain) is Some ==> {
            &&& service.annotations is Some
            &&& annotation_is_true(service.annotations->0, WEBFINGER_KEY@)
            &&& exists|port: PortView|
                #![trigger service.ports.contains(port)]
                service.ports.contains(port) && port.port > 0 && selected_port(
                    usable_ports(service.ports),
                    lookup(service.annotations->0, PORT_KEY@),
                    annotation_is_true(service.annotations->0, HTTPS_KEY@),
                ) == Some(port)
        },
{
    if backend_of(service, cluster_domain) is Some {
        lemma_selected_usable(
            service.ports,
            lookup(service.annotations->0, PORT_KEY@),
            annotation_is_true(service.annotations->0, HTTPS_KEY@),
        );
    }
}

/// Where a port is asked for by name, no other port is ever used, and the
/// scheme goes by the HTTPS annotation alone.
pub proof fn law_explicit_port(ports: Seq<PortView>, name: Seq<char>, https: bool)
    ensures
        selected_port(ports, Some(name), https) matches Some(port) ==> {
            &&& port.name == Some(name)
            &&& scheme_of(port, Some(name), https) == (if https {
                "https"@
            } else {
                "http"@
            })
        },
{
    lemma_first_named(ports, name);
}

/// Whether a text is `true`, each letter in either case.
pub open spec fn reads_true(t: Seq<char>) -> bool {
    &&& t.len() == 4
    &&& t[0] == 't' || t[0] == 'T'
    &&& t[1] == 'r' || t[1] == 'R'
    &&& t[2] == 'u' || t[2] == 'U'
    &&& t[3] == 'e' || t[3] == 'E'
}

proof fn lemma_reads_true(annotations: Map<Seq<char>, Seq<char>>, key: Seq<char>)
    ensures
        annotation_is_true(annotations, key) <==> annotations.contains_key(key) && reads_true(
            annotations[key],
        ),
{
    let t = annotations[key];
    reveal_strlit("true");
    text::law_case_is_ascii_only(t, "true"@);
    if text::equal_ignoring_case(t, "true"@) {
        assert(t[0] == "true"@[0] || t[0] as int + 32 == "true"@[0] as int);
        assert(t[1] == "true"@[1] || t[1] as int + 32 == "true"@[1] as int);
        assert(t[2] == "true"@[2] || t[2] as int + 32 == "true"@[2] as int);
        assert(t[3] == "true"@[3] || t[3] as int + 32 == "true"@[3] as int);
    }
    if reads_true(t) {
        assert forall|i: int| 0 <= i < t.len() implies {
            ||| (#[trigger] t[i]) == "true"@[i]
            ||| ('A' <= t[i] && t[i] <= 'Z' && t[i] as int + 32 == "true"@[i] as int)
            ||| ('A' <= "true"@[i] && "true"@[i] <= 'Z' && "true"@[i] as int + 32 == t[i] as int)
        } by {
            if i == 0 {
            } else if i == 1 {
            } else if i == 2 {
            } else {
                assert(i == 3);
            }
        }
    }
}

/// Whether port `k` has a positive number and that name, and no port before it
/// has both.
pub open spec fn first_port_named(ports: Seq<PortView>, k: int, name: Seq<char>) -> bool {
    &&& 0 <= k < ports.len()
    &&& ports[k].port > 0
    &&& ports[k].name == Some(name)
    &&& forall|j: int| 0 <= j < k ==> !((#[trigger] ports[j]).port > 0 && ports[j].name == Some(name))
}

/// Whether no port of a positive number has that name.
pub open spec fn no_port_named(ports: Seq<PortView>, name: Seq<char>) -> bool {
    forall|j: int|
        0 <= j < ports.len() && (#[trigger] ports[j]).port > 0 ==> ports[j].name != Some(name)
}

/// Whether port `k` is the one to use where none is asked for: the first of a
/// positive number that is named for the wanted protocol, else the first that
/// is named for the other, else the first, named or not.
pub open spec fn is_port_to_use(ports: Seq<PortView>, k: int, https: bool) -> bool {
    let wanted = if https { "https"@ } else { "http"@ };
    let other = if https { "http"@ } else { "https"@ };
    ||| first_port_named(ports, k, wanted)
    ||| (no_port_named(ports, wanted) && first_port_named(ports, k, other))
    ||| (no_port_named(ports, wanted) && no_port_named(ports, other) && 0 <= k < ports.len()
        && ports[k].port > 0 && forall|j: int| 0 <= j < k ==> (#[trigger] ports[j]).port <= 0)
}

proof fn lemma_first_named_at(ports: Seq<PortView>, name: Seq<char>, i: int)
    requires
        0 <= i < ports.len(),
        ports[i].name == Some(name),
        forall|j: int| 0 <= j < i ==> (#[trigger] ports[j]).name != Some(name),
    ensures
        first_named(ports, name) == Some(ports[i]),
    decreases i,
{
    if i > 0 {
        assert(ports[0].name != Some(name));
        let rest = ports.drop_first();
        assert forall|j: int| 0 <= j < i - 1 implies (#[trigger] rest[j]).name != Some(name) by {
            assert(rest[j] == ports[j + 1]);
        }
        lemma_first_named_at(rest, name, i - 1);
    }
}

proof fn lemma_first_named_none(ports: Seq<PortView>, name: Seq<char>)
    requires
        forall|j: int| 0 <= j < ports.len() ==> (#[trigger] ports[j]).name != Some(name),
    ensures
        first_named(ports, name) is None,
    decreases ports.len(),
{
    if ports.len() > 0 {
        assert(ports[0].name != Some(name));
        let rest = ports.drop_first();
        assert forall|j: int| 0 <= j < rest.len() implies (#[trigger] rest[j]).name != Some(
            name,
        ) by {
            assert(rest[j] == ports[j + 1]);
        }
        lemma_first_named_none(rest, name);
    }
}

/// Where port `k` stands among the usable ports: behind exactly the usable ports
/// before it.
proof fn lemma_usable_place(ports: Seq<PortView>, k: int) -> (place: (Seq<int>, int))
    requires
        0 <= k < ports.len(),
        ports[k].port > 0,
    ensures
        ({
            let (positions, i) = place;
            let usable = usable_ports(ports);
            &&& positions.len() == usable.len()
            &&& 0 <= i < usable.len()
            &&& positions[i] == k
            &&& usable[i] == ports[k]
            &&& forall|j: int|
                0 <= j < usable.len() ==> 0 <= #[trigger] positions[j] < ports.len() && usable[j]
                    == ports[positions[j]] && ports[positions[j]].port > 0
            &&& forall|j: int| 0 <= j < i ==> #[trigger] positions[j] < k
        }),
{
    let positive = |port: PortView| port.port > 0;
    let positions = rows::lemma_filter_positions(ports, positive);
    let wanted = |j: int| positive(ports[j]);
    assert(wanted(k));
    let i = choose|i: int| 0 <= i < positions.len() && positions[i] == k;
    assert forall|j: int| 0 <= j < positions.len() implies 0 <= #[trigger] positions[j]
        < ports.len() && usable_ports(ports)[j] == ports[positions[j]] && ports[positions[j]].port
        > 0 by {
        assert(wanted(positions[j]));
    }
    assert(usable_ports(ports)[i] == ports[positions[i]]);
    (positions, i)
}

proof fn lemma_named_among_usable(ports: Seq<PortView>, k: int, name: Seq<char>)
    requires
        first_port_named(ports, k, name),
    ensures
        first_named(usable_ports(ports), name) == Some(ports[k]),
{
    let usable = usable_ports(ports);
    let (positions, i) = lemma_usable_place(ports, k);
    assert forall|j: int| 0 <= j < i implies (#[trigger] usable[j]).name != Some(name) by {
        assert(positions[j] < k);
        assert(usable[j] == ports[positions[j]]);
    }
    lemma_first_named_at(usable, name, i);
}

proof fn lemma_none_named_among_usable(ports: Seq<PortView>, name: Seq<char>)
    requires
        no_port_named(ports, name),
    ensures
        first_named(usable_ports(ports), name) is None,
{
    let usable = usable_ports(ports);
    let positive = |port: PortView| port.port > 0;
    assert forall|j: int| 0 <= j < usable.len() implies (#[trigger] usable[j]).name != Some(
        name,
    ) by {
        assert(usable.contains(usable[j]));
        ports.lemma_filter_contains_rev(positive, usable[j]);
        ports.lemma_filter_pred(positive, j);
        let i = choose|i: int| 0 <= i < ports.len() && ports[i] == usable[j];
        assert(ports[i].port > 0);
    }
    lemma_first_named_none(usable, name);
}

/// The backend that a Service asks to be when it is reached by `port`: its name,
/// its in-cluster host and the port in the URL, and its priority.
pub open spec fn is_candidate(
    candidate: BackendView,
    service: ServiceView,
    cluster_domain: Seq<char>,
    port: PortView,
    scheme: Seq<char>,
) -> bool {
    let name = if service.name is Some {
        service.name->0
    } else {
        "<unnamed>"@
    };
    let namespace = if service.namespace is Some {
        service.namespace->0
    } else {
        "default"@
    };
    let annotations = service.annotations->0;
    let key = "fingerjoin.naktis.eu/priority"@;
    &&& candidate.name == name
    &&& candidate.url == scheme + "://"@ + name + "."@ + namespace + ".svc."@ + cluster_domain
        + ":"@ + text::decimal(port.port as nat)
    &&& candidate.priority == (if annotations.contains_key(key) && text::u16_of(
        annotations[key],
    ) is Some {
        text::u16_of(annotations[key])->0
    } else {
        50
    })
}

/// An annotated Service that asks for no port is reached by the port to use,
/// over HTTPS where that is annotated or the port is named for it.
pub proof fn law_service_by_its_ports(service: ServiceView, cluster_domain: Seq<char>, k: int)
    requires
        service.annotations is Some,
        service.annotations->0.contains_key("fingerjoin.naktis.eu/webfinger"@),
        reads_true(service.annotations->0["fingerjoin.naktis.eu/webfinger"@]),
        !service.annotations->0.contains_key("fingerjoin.naktis.eu/port"@),
        is_port_to_use(
            service.ports,
            k,
            service.annotations->0.contains_key("fingerjoin.naktis.eu/https"@) && reads_true(
                service.annotations->0["fingerjoin.naktis.eu/https"@],
            ),
        ),
    ensures
        candidate_of(service, cluster_domain) is Some,
        is_candidate(
            candidate_of(service, cluster_domain)->0,
            service,
            cluster_domain,
            service.ports[k],
            if (service.annotations->0.contains_key("fingerjoin.naktis.eu/https"@) && reads_true(
                service.annotations->0["fingerjoin.naktis.eu/https"@],
            )) || service.ports[k].name == Some("https"@) {
                "https"@
            } else {
                "http"@
            },
        ),
{
    let a = service.annotations->0;
    let ports = service.ports;
    let usable = usable_ports(ports);
    let https = a.contains_key("fingerjoin.naktis.eu/https"@) && reads_true(
        a["fingerjoin.naktis.eu/https"@],
    );
    let wanted = if https { "https"@ } else { "http"@ };
    let other = if https { "http"@ } else { "https"@ };
    lemma_reads_true(a, WEBFINGER_KEY@);
    lemma_reads_true(a, HTTPS_KEY@);
    if first_port_named(ports, k, wanted) {
        lemma_named_among_usable(ports, k, wanted);
    } else if no_port_named(ports, wanted) && first_port_named(ports, k, other) {
        lemma_none_named_among_usable(ports, wanted);
        lemma_named_among_usable(ports, k, other);
    } else {
        lemma_none_named_among_usable(ports, wanted);
        lemma_none_named_among_usable(ports, other);
        let (positions, i) = lemma_usable_place(ports, k);
        if i > 0 {
            assert(positions[0] < k);
            assert(ports[positions[0]].port > 0);
        }
        assert(usable[0] == ports[k]);
    }
}

/// An annotated Service that asks for a port by name is reached by the first of
/// a positive number that has it, over HTTPS exactly where that is annotated.
pub proof fn law_service_by_named_port(service: ServiceView, cluster_domain: Seq<char>, k: int)
    requires
        service.annotations is Some,
        service.annotations->0.contains_key("fingerjoin.naktis.eu/webfinger"@),
        reads_true(service.annotations->0["fingerjoin.naktis.eu/webfinger"@]),
        service.annotations->0.contains_key("fingerjoin.naktis.eu/port"@),
        first_port_named(service.ports, k, service.annotations->0["fingerjoin.naktis.eu/port"@]),
    ensures
        candidate_of(service, cluster_domain) is Some,
        is_candidate(
            candidate_of(service, cluster_domain)->0,
            service,
            cluster_domain,
            service.ports[k],
            if service.annotations->0.contains_key("fingerjoin.naktis.eu/https"@) && reads_true(
                service.annotations->0["fingerjoin.naktis.eu/https"@],
            ) {
                "https"@
            } else {
                "http"@
            },
        ),
{
    let a = service.annotations->0;
    lemma_reads_true(a, WEBFINGER_KEY@);
    lemma_reads_true(a, HTTPS_KEY@);
    lemma_named_among_usable(service.ports, k, a[PORT_KEY@]);
}

proof fn lemma_least_port(ports: Seq<PortView>, from: int, name: Seq<char>, any: bool) -> (k: int)
    requires
        0 <= from < ports.len(),
        ports[from].port > 0,
        any || ports[from].name == Some(name),
    ensures
        0 <= k <= from,
        ports[k].port > 0,
        any || ports[k].name == Some(name),
        forall|j: int|
            0 <= j < k ==> !((#[trigger] ports[j]).port > 0 && (any || ports[j].name == Some(name))),
    decreases from,
{
    if exists|j: int|
        0 <= j < from && (#[trigger] ports[j]).port > 0 && (any || ports[j].name == Some(name)) {
        let j = choose|j: int|
            0 <= j < from && (#[trigger] ports[j]).port > 0 && (any || ports[j].name == Some(name));
        lemma_least_port(ports, j, name, any)
    } else {
        from
    }
}

/// Any port of a positive number is enough: one of the ports is then the one to
/// use.
pub proof fn law_some_port_to_use(ports: Seq<PortView>, i: int, https: bool) -> (k: int)
    requires
        0 <= i < ports.len(),
        ports[i].port > 0,
    ensures
        is_port_to_use(ports, k, https),
{
    let wanted = if https { "https"@ } else { "http"@ };
    let other = if https { "http"@ } else { "https"@ };
    if !no_port_named(ports, wanted) {
        let j = choose|j: int|
            0 <= j < ports.len() && (#[trigger] ports[j]).port > 0 && ports[j].name == Some(wanted);
        lemma_least_port(ports, j, wanted, false)
    } else if !no_port_named(ports, other) {
        let j = choose|j: int|
            0 <= j < ports.len() && (#[trigger] ports[j]).port > 0 && ports[j].name == Some(other);
        lemma_least_port(ports, j, other, false)
    } else {
        lemma_least_port(ports, i, wanted, true)
    }
}

/// Which Services ask to be a backend: those that are annotated with `true`, in
/// any case, and have a port of a positive number, of the name that is asked
/// for where one is. All of them do, and no others.
pub proof fn law_which_services_are_candidates(service: ServiceView, cluster_domain: Seq<char>)
    ensures
        candidate_of(service, cluster_domain) is Some <==> {
            &&& service.annotations is Some
            &&& service.annotations->0.contains_key("fingerjoin.naktis.eu/webfinger"@)
            &&& reads_true(service.annotations->0["fingerjoin.naktis.eu/webfinger"@])
            &&& exists|k: int|
                0 <= k < service.ports.len() && (#[trigger] service.ports[k]).port > 0 && (
                service.annotations->0.contains_key("fingerjoin.naktis.eu/port"@)
                    ==> service.ports[k].name == Some(
                    service.annotations->0["fingerjoin.naktis.eu/port"@],
                ))
        },
{
    let ports = service.ports;
    if service.annotations is Some {
        let a = service.annotations->0;
        lemma_reads_true(a, WEBFINGER_KEY@);
        lemma_reads_true(a, HTTPS_KEY@);
        let https = annotation_is_true(a, HTTPS_KEY@);
        let explicit = lookup(a, PORT_KEY@);
        if candidate_of(service, cluster_domain) is Some {
            let port = selected_port(usable_ports(ports), explicit, https)->0;
            lemma_selected_usable(ports, explicit, https);
            let k = choose|k: int| 0 <= k < ports.len() && ports[k] == port;
            assert(ports[k].port > 0);
            if explicit is Some {
                law_explicit_port(usable_ports(ports), explicit->0, https);
            }
        }
        if annotation_is_true(a, WEBFINGER_KEY@) && exists|k: int|
            0 <= k < ports.len() && (#[trigger] ports[k]).port > 0 && (a.contains_key(PORT_KEY@)
                ==> ports[k].name == Some(a[PORT_KEY@])) {
            let i = choose|k: int|
                0 <= k < ports.len() && (#[trigger] ports[k]).port > 0 && (a.contains_key(PORT_KEY@)
                    ==> ports[k].name == Some(a[PORT_KEY@]));
            if a.contains_key(PORT_KEY@) {
                let k = lemma_least_port(ports, i, a[PORT_KEY@], false);
                law_service_by_named_port(service, cluster_domain, k);
            } else {
                let k = law_some_port_to_use(ports, i, https);
                law_service_by_its_ports(service, cluster_domain, k);
            }
        }
    }
}

/// A Service is a backend exactly where what it asks to be has a URL that can be
/// read; it is then what it asks to be, at the URL as read.
pub proof fn law_backend_is_candidate(service: ServiceView, cluster_domain: Seq<char>)
    ensures
        match candidate_of(service, cluster_domain) {
            None => backend_of(service, cluster_domain) is None,
            Some(candidate) => match url_text::url_parsed(candidate.url) {
                None => backend_of(service, cluster_domain) is None,
                Some(url) => {
                    &&& backend_of(service, cluster_domain) is Some
                    &&& backend_of(service, cluster_domain)->0.name == candidate.name
                    &&& backend_of(service, cluster_domain)->0.url == url
                    &&& backend_of(service, cluster_domain)->0.priority == candidate.priority
                },
            },
        },
{
}

/// Every Service that is a backend is in the registry of its list, itself or as
/// another of the same URL and no lower priority; everything in the registry is
/// the backend of a listed Service; and the URLs come one before the other.
pub proof fn law_registry_of_services(
    list: Seq<BackendView>,
    services: Seq<ServiceView>,
    cluster_domain: Seq<char>,
)
    requires
        is_registry(list, backends_of(services, cluster_domain)),
    ensures
        forall|i: int|
            0 <= i < services.len() && (#[trigger] backend_of(services[i], cluster_domain)) is Some
                ==> exists|j: int|
                0 <= j < list.len() && (#[trigger] list[j]).url == backend_of(
                    services[i],
                    cluster_domain,
                )->0.url && list[j].priority >= backend_of(services[i], cluster_domain)->0.priority,
        forall|j: int|
            0 <= j < list.len() ==> exists|i: int|
                0 <= i < services.len() && #[trigger] backend_of(services[i], cluster_domain)
                    == Some(#[trigger] list[j]),
        forall|j: int, l: int|
            0 <= j < l < list.len() ==> text::text_before(
                (#[trigger] list[j]).url,
                (#[trigger] list[l]).url,
            ),
{
    let backends = backends_of(services, cluster_domain);
    let f = |service: ServiceView| backend_of(service, cluster_domain);
    law_registry_unique_and_highest(list, backends);
    assert forall|i: int|
        0 <= i < services.len() && (#[trigger] backend_of(
            services[i],
            cluster_domain,
        )) is Some implies exists|j: int|
        0 <= j < list.len() && (#[trigger] list[j]).url == backend_of(
            services[i],
            cluster_domain,
        )->0.url && list[j].priority >= backend_of(services[i], cluster_domain)->0.priority by {
        let b = backend_of(services[i], cluster_domain)->0;
        assert(services.contains(services[i]) && f(services[i]) == Some(b));
        lemma_filter_map_has(services, f, b);
        let m = choose|m: int| 0 <= m < backends.len() && backends[m] == b;
        let j = choose|j: int| 0 <= j < list.len() && (#[trigger] list[j]).url == backends[m].url;
        assert(list[j].url == b.url && list[j].priority >= b.priority);
    }
    assert forall|j: int| 0 <= j < list.len() implies exists|i: int|
        0 <= i < services.len() && #[trigger] backend_of(services[i], cluster_domain) == Some(
            #[trigger] list[j],
        ) by {
        assert(backends.contains(list[j]));
        lemma_filter_map_has(services, f, list[j]);
        let s = choose|s: ServiceView| #[trigger] services.contains(s) && f(s) == Some(list[j]);
        let i = choose|i: int| 0 <= i < services.len() && services[i] == s;
        assert(backend_of(services[i], cluster_domain) == Some(list[j]));
    }
}

proof fn lemma_filter_map_push<A, B>(s: Seq<A>, f: spec_fn(A) -> Option<B>)
    requires
        s.len() > 0,
    ensures
        s.filter_map(f) == (match f(s.last()) {
            Some(b) => s.drop_last().filter_map(f).push(b),
            None => s.drop_last().filter_map(f),
        }),
{
    assert(s.take(s.len() as int) =~= s);
    assert(s.take(s.len() - 1) =~= s.drop_last());
    s.lemma_filter_map_take_succ(f, s.len() - 1);
}

proof fn lemma_best_service(services: Seq<ServiceView>, cluster_domain: Seq<char>, i: int)
    requires
        0 <= i < services.len(),
        backend_of(services[i], cluster_domain) is Some,
        forall|j: int|
            0 <= j < services.len() && j != i && (#[trigger] backend_of(
                services[j],
                cluster_domain,
            )) is Some && backend_of(services[j], cluster_domain)->0.url == backend_of(
                services[i],
                cluster_domain,
            )->0.url ==> {
                let (other, own) = (
                    backend_of(services[j], cluster_domain)->0.priority,
                    backend_of(services[i], cluster_domain)->0.priority,
                );
                other < own || (other == own && i < j)
            },
    ensures
        best(backends_of(services, cluster_domain), backend_of(services[i], cluster_domain)->0.url)
            == backend_of(services[i], cluster_domain),
    decreases services.len(),
{
    let f = |service: ServiceView| backend_of(service, cluster_domain);
    let b = backend_of(services[i], cluster_domain)->0;
    let rest = services.drop_last();
    let earlier = backends_of(rest, cluster_domain);
    lemma_filter_map_push(services, f);
    if f(services.last()) is Some {
        assert(backends_of(services, cluster_domain).drop_last() =~= earlier);
    }
    if i < rest.len() {
        assert(rest[i] == services[i]);
        assert forall|j: int|
            0 <= j < rest.len() && j != i && (#[trigger] backend_of(
                rest[j],
                cluster_domain,
            )) is Some && backend_of(rest[j], cluster_domain)->0.url == backend_of(
                rest[i],
                cluster_domain,
            )->0.url implies {
            let (other, own) = (
                backend_of(rest[j], cluster_domain)->0.priority,
                backend_of(rest[i], cluster_domain)->0.priority,
            );
            other < own || (other == own && i < j)
        } by {
            assert(rest[j] == services[j]);
            assert(backend_of(services[j], cluster_domain) is Some);
        }
        lemma_best_service(rest, cluster_domain, i);
        assert(backend_of(services[services.len() - 1], cluster_domain) == f(services.last()));
    } else {
        lemma_best(earlier, b.url);
        if best(earlier, b.url) is Some {
            let x = best(earlier, b.url)->0;
            assert(earlier.contains(x));
            lemma_filter_map_has(rest, f, x);
            let s = choose|s: ServiceView| #[trigger] rest.contains(s) && f(s) == Some(x);
            let j = choose|j: int| 0 <= j < rest.len() && rest[j] == s;
            assert(services[j] == s);
            assert(backend_of(services[j], cluster_domain) == Some(x));
        }
    }
}

/// Of the Services that are backends at one URL, the registry has the one of the
/// highest priority; of those, the one that is listed first.
pub proof fn law_registry_keeps_the_best(
    list: Seq<BackendView>,
    services: Seq<ServiceView>,
    cluster_domain: Seq<char>,
    i: int,
)
    requires
        is_registry(list, backends_of(services, cluster_domain)),
        0 <= i < services.len(),
        backend_of(services[i], cluster_domain) is Some,
        forall|j: int|
            0 <= j < services.len() && j != i && (#[trigger] backend_of(
                services[j],
                cluster_domain,
            )) is Some && backend_of(services[j], cluster_domain)->0.url == backend_of(
                services[i],
                cluster_domain,
            )->0.url ==> {
                let (other, own) = (
                    backend_of(services[j], cluster_domain)->0.priority,
                    backend_of(services[i], cluster_domain)->0.priority,
                );
                other < own || (other == own && i < j)
            },
    ensures
        list.contains(backend_of(services[i], cluster_domain)->0),
{
    lemma_best_service(services, cluster_domain, i);
    lemma_registry_holds(
        list,
        backends_of(services, cluster_domain),
        backend_of(services[i], cluster_domain)->0,
    );
}

/// A number annotation is read where it is there and a number, and is the
/// default else.
pub proof fn law_annotation_number(
    annotations: Map<Seq<char>, Seq<char>>,
    key: Seq<char>,
    default: u16,
)
    ensures
        !annotations.contains_key(key) ==> annotation_number(annotations, key, default) == default,
        annotations.contains_key(key) ==> match text::u16_of(annotations[key]) {
            Some(n) => annotation_number(annotations, key, default) == n,
            None => annotation_number(annotations, key, default) == default,
        },
{
}

/// A Service's view says what the Service holds, part by part.
pub proof fn law_service_view(service: Service, name: Seq<char>)
    ensures
        service.metadata.name is None ==> service@.name is None,
        service.metadata.name matches Some(text) ==> service@.name == Some(text@),
        service.metadata.namespace is None ==> service@.namespace is None,
        service.metadata.namespace matches Some(text) ==> service@.namespace == Some(text@),
        service.metadata.annotations is None ==> service@.annotations is None,
        service.metadata.annotations matches Some(annotations) ==> service@.annotations is Some
            && service@.annotations->0.contains_key(name) == annotations@.contains_key(name) && (
        annotations@.contains_key(name) ==> service@.annotations->0[name] == annotations@[name]@),
        service.spec is None || service.spec->0.ports is None ==> service@.ports.len() == 0,
        service.spec is Some && service.spec->0.ports is Some ==> service@.ports.len()
            == service.spec->0.ports->0@.len() && forall|i: int|
            0 <= i < service@.ports.len() ==> (#[trigger] service@.ports[i]).port
                == service.spec->0.ports->0@[i].port && service@.ports[i].name == (
            match service.spec->0.ports->0@[i].name {
                Some(text) => Some(text@),
                None => None,
            }),
{
}

/// Rows of backends and of Services are viewed entry by entry.
pub proof fn law_registry_views(backends: Seq<Backend>, services: Seq<Service>)
    ensures
        backend_views(backends).len() == backends.len(),
        forall|i: int|
            0 <= i < backends.len() ==> (#[trigger] backend_views(backends)[i]).name
                == backends[i].name@ && backend_views(backends)[i].url == backends[i].url@
                && backend_views(backends)[i].priority == backends[i].priority,
        service_views(services).len() == services.len(),
        forall|i: int|
            0 <= i < services.len() ==> #[trigger] service_views(services)[i] == services[i]@,
{
}

/// A backend, or none, is viewed as it is.
pub proof fn law_opt_backend(backend: Backend)
    ensures
        opt_backend(None) is None,
        opt_backend(Some(backend)) == Some(backend@),
{
}

} // verus!
