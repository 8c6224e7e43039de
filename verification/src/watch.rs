//! Following the cluster's Services, and the backends that follow from them.
use crate::backend::{Backend, BackendView};
use crate::k8s;
use crate::k8s::{backends_from_services, Service, ServiceView};
use crate::members;
use crate::members::Members;
use crate::text::same_text;
use vstd::prelude::*;
use vstd::string::*;

verus! {

/// The seconds after which a client may try again while there are no
/// backends: a hint, in line with how soon the watch first retries.
pub const RETRY_AFTER: u64 = 10;

/// What a watch on Services reports.
#[derive(Debug)]
pub enum ServiceEvent {
    /// A complete list begins.
    Init,
    /// A Service of the list that has begun.
    InitApply(Service),
    /// The list is complete.
    InitDone,
    /// A Service was added or changed.
    Apply(Service),
    /// A Service was deleted.
    Delete(Service),
}

pub enum EventView {
    Init,
    InitApply(ServiceView),
    InitDone,
    Apply(ServiceView),
    Delete(ServiceView),
}

impl View for ServiceEvent {
    type V = EventView;

    open spec fn view(&self) -> EventView {
        match self {
            ServiceEvent::Init => EventView::Init,
            ServiceEvent::InitApply(service) => EventView::InitApply(service@),
            ServiceEvent::InitDone => EventView::InitDone,
            ServiceEvent::Apply(service) => EventView::Apply(service@),
            ServiceEvent::Delete(service) => EventView::Delete(service@),
        }
    }
}

/// What the watch on Services yields: an event, or a failure after which it
/// tries again by itself.
#[derive(Debug)]
pub enum Watched {
    Event(ServiceEvent),
    Failure,
}

/// The Services that are known, and those of a list that is not complete yet.
#[derive(Debug)]
pub struct ServiceStore {
    active: Members<Service>,
    pending: Option<Members<Service>>,
}

/// Both by `<namespace>/<name>`.
pub struct StoreView {
    pub active: Map<Seq<char>, ServiceView>,
    pub pending: Option<Map<Seq<char>, ServiceView>>,
}

/// Services by key, each by its view.
pub open spec fn service_map(map: Map<Seq<char>, Service>) -> Map<Seq<char>, ServiceView> {
    map.map_values(|service: Service| service@)
}

impl View for ServiceStore {
    type V = StoreView;

    closed spec fn view(&self) -> StoreView {
        StoreView {
            active: service_map(self.active@),
            pending: match self.pending {
                Some(pending) => Some(service_map(pending@)),
                None => None,
            },
        }
    }
}

/// `<namespace>/<name>`, in the namespace `default` where none is given.
pub open spec fn key_of(service: ServiceView) -> Seq<char> {
    k8s::text_or(service.namespace, "default"@) + "/"@ + k8s::text_or(service.name, ""@)
}

/// The list that has begun; an empty one where none has.
pub open spec fn pending_of(store: StoreView) -> Map<Seq<char>, ServiceView> {
    match store.pending {
        Some(pending) => pending,
        None => Map::empty(),
    }
}

/// The store after an event. A list builds up beside the Services that are
/// known, and takes their place when it is complete.
pub open spec fn after(store: StoreView, event: EventView) -> StoreView {
    match event {
        EventView::Init => StoreView { pending: Some(Map::empty()), ..store },
        EventView::InitApply(service) => StoreView {
            pending: Some(pending_of(store).insert(key_of(service), service)),
            ..store
        },
        EventView::InitDone => StoreView { active: pending_of(store), pending: None },
        EventView::Apply(service) => StoreView {
            active: store.active.insert(key_of(service), service),
            ..store
        },
        EventView::Delete(service) => StoreView {
            active: store.active.remove(key_of(service)),
            ..store
        },
    }
}

/// Whether the known Services are complete, and so to be published, after an
/// event.
pub open spec fn publishes(event: EventView) -> bool {
    !(event is Init) && !(event is InitApply)
}

/// Whether `services` are the Services of `map`, each once, in some order.
pub open spec fn is_snapshot(services: Seq<ServiceView>, map: Map<Seq<char>, ServiceView>) -> bool {
    exists|keys: Seq<Seq<char>>|
        {
            &&& keys.no_duplicates()
            &&& keys.len() == services.len()
            &&& #[trigger] keys.to_set() == map.dom()
            &&& forall|i: int| 0 <= i < services.len() ==> #[trigger] services[i] == map[keys[i]]
        }
}

fn service_key(service: &Service) -> (key: String)
    ensures
        key@ == key_of(service@),
{
    let mut key = match &service.metadata.namespace {
        Some(namespace) => namespace.clone(),
        None => "default".to_owned(),
    };
    key.append("/");
    key.append(
        match &service.metadata.name {
            Some(name) => name.as_str(),
            None => "",
        },
    );
    key
}

proof fn lemma_service_map_insert(map: Map<Seq<char>, Service>, key: Seq<char>, service: Service)
    ensures
        service_map(map.insert(key, service)) == service_map(map).insert(key, service@),
        service_map(map.remove(key)) == service_map(map).remove(key),
{
    assert(service_map(map.insert(key, service)) =~= service_map(map).insert(key, service@));
    assert(service_map(map.remove(key)) =~= service_map(map).remove(key));
}

impl ServiceStore {
    /// Nothing known, and no list begun.
    pub fn new() -> (store: Self)
        ensures
            store@ == (StoreView { active: Map::empty(), pending: None }),
    {
        let store = ServiceStore { active: Members::new(), pending: None };
        assert(store@.active =~= Map::empty());
        store
    }

    /// Takes an event in. Gives the known Services where they are complete,
    /// and `None` while a list is building up.
    pub fn apply(&mut self, event: ServiceEvent) -> (services: Option<Vec<Service>>)
        ensures
            final(self)@ == after(old(self)@, event@),
            services is Some == publishes(event@),
            services matches Some(s) ==> is_snapshot(
                k8s::service_views(s@),
                final(self)@.active,
            ),
    {
        match event {
            ServiceEvent::Init => {
                self.pending = Some(Members::new());
                assert(self@.pending->0 =~= Map::empty());
                None
            },
            ServiceEvent::InitApply(service) => {
                let key = service_key(&service);
                let mut pending = match self.pending.take() {
                    Some(pending) => pending,
                    None => Members::new(),
                };
                proof {
                    assert(service_map(pending@) =~= pending_of(old(self)@));
                    lemma_service_map_insert(pending@, key@, service);
                }
                pending.insert(key, service);
                self.pending = Some(pending);
                None
            },
            ServiceEvent::InitDone => {
                self.active = match self.pending.take() {
                    Some(pending) => pending,
                    None => Members::new(),
                };
                assert(service_map(self.active@) =~= pending_of(old(self)@));
                Some(self.snapshot())
            },
            ServiceEvent::Apply(service) => {
                let key = service_key(&service);
                proof {
                    lemma_service_map_insert(self.active@, key@, service);
                }
                self.active.insert(key, service);
                Some(self.snapshot())
            },
            ServiceEvent::Delete(service) => {
                let key = service_key(&service);
                proof {
                    lemma_service_map_insert(self.active@, key@, service);
                }
                self.active.remove(key.as_str());
                Some(self.snapshot())
            },
        }
    }

    fn snapshot(&self) -> (services: Vec<Service>)
        ensures
            is_snapshot(k8s::service_views(services@), self@.active),
    {
        let entries = self.active.entries();
        let mut services: Vec<Service> = Vec::new();
        for i in 0..entries.len()
            invariant
                services@.len() == i,
                forall|j: int| 0 <= j < i ==> (#[trigger] services@[j])@ == entries@[j].1@,
        {
            services.push(entries[i].1.clone());
        }
        proof {
            let keys = entries@.map_values(|entry: (String, Service)| entry.0@);
            let map = self.active@;
            members::lemma_entries(entries@);
            assert forall|i: int, j: int|
                0 <= i < keys.len() && 0 <= j < keys.len() && i != j implies keys[i] != keys[j] by {
                if i < j {
                    assert(entries@[i].0@ != entries@[j].0@);
                } else {
                    assert(entries@[j].0@ != entries@[i].0@);
                }
            }
            assert forall|key: Seq<char>| #[trigger]
                keys.to_set().contains(key) == service_map(map).dom().contains(key) by {
                if keys.contains(key) {
                    let i = choose|i: int| 0 <= i < keys.len() && keys[i] == key;
                    assert(entries@[i].0@ == key);
                }
                if map.contains_key(key) {
                    let i = choose|i: int|
                        0 <= i < entries@.len() && (#[trigger] entries@[i]).0@ == key;
                    assert(keys[i] == key);
                }
            }
            assert(keys.to_set() =~= service_map(map).dom());
            let views = k8s::service_views(services@);
            assert forall|i: int| 0 <= i < views.len() implies #[trigger] views[i] == service_map(
                map,
            )[keys[i]] by {
                assert(map[entries@[i].0@] == entries@[i].1);
            }
        }
        services
    }
}

impl Default for ServiceStore {
    fn default() -> (store: Self)
        ensures
            store@ == (StoreView { active: Map::empty(), pending: None }),
    {
        ServiceStore::new()
    }
}

/// The backends that queries go to, and when they were last brought up to
/// date. Times are nanoseconds on a clock that never goes back.
#[derive(Debug)]
pub struct BackendState {
    backends: Vec<Backend>,
    last_sync: Option<u64>,
}

pub struct StateView {
    pub backends: Seq<BackendView>,
    pub last_sync: Option<u64>,
}

impl View for BackendState {
    type V = StateView;

    closed spec fn view(&self) -> StateView {
        StateView { backends: k8s::backend_views(self.backends@), last_sync: self.last_sync }
    }
}

fn same_backends(a: &Vec<Backend>, b: &Vec<Backend>) -> (same: bool)
    ensures
        same == (k8s::backend_views(a@) == k8s::backend_views(b@)),
{
    let ghost av = k8s::backend_views(a@);
    let ghost bv = k8s::backend_views(b@);
    if a.len() != b.len() {
        assert(av.len() != bv.len());
        return false;
    }
    for i in 0..a.len()
        invariant
            a@.len() == b@.len(),
            av == k8s::backend_views(a@),
            bv == k8s::backend_views(b@),
            forall|j: int| 0 <= j < i ==> av[j] == bv[j],
    {
        assert(av[i as int] == a@[i as int]@);
        assert(bv[i as int] == b@[i as int]@);
        if !same_text(a[i].name.as_str(), b[i].name.as_str()) || !same_text(
            a[i].url.as_str(),
            b[i].url.as_str(),
        ) || a[i].priority != b[i].priority {
            return false;
        }
    }
    assert(av =~= bv);
    true
}

impl BackendState {
    /// No backends, and never brought up to date.
    pub fn new() -> (state: Self)
        ensures
            state@ == (StateView { backends: Seq::empty(), last_sync: None }),
    {
        let state = BackendState { backends: Vec::new(), last_sync: None };
        assert(state@.backends =~= Seq::empty());
        state
    }

    /// Brings the backends up to date at the time `now`, and tells whether
    /// they have changed.
    pub fn update(&mut self, new_backends: Vec<Backend>, now: u64) -> (changed: bool)
        ensures
            final(self)@ == (StateView {
                backends: k8s::backend_views(new_backends@),
                last_sync: Some(now),
            }),
            changed == (old(self)@.backends != k8s::backend_views(new_backends@)),
    {
        let changed = !same_backends(&self.backends, &new_backends);
        if changed {
            self.backends = new_backends;
        }
        self.last_sync = Some(now);
        changed
    }

    /// The backends, in order.
    pub fn get_all(&self) -> (backends: Vec<Backend>)
        ensures
            k8s::backend_views(backends@) == self@.backends,
    {
        let mut backends: Vec<Backend> = Vec::new();
        for i in 0..self.backends.len()
            invariant
                backends@.len() == i,
                forall|j: int| 0 <= j < i ==> (#[trigger] backends@[j])@ == self.backends@[j]@,
        {
            backends.push(self.backends[i].clone());
        }
        assert(k8s::backend_views(backends@) =~= self@.backends);
        backends
    }

    /// Whether the backends have been brought up to date at least once.
    /// Readiness goes by this, so that no traffic comes before.
    pub fn synced(&self) -> (yes: bool)
        ensures
            yes == (self@.last_sync is Some),
    {
        self.last_sync.is_some()
    }

    /// The time from the last update to `now`; none where there was no update,
    /// and zero where `now` is earlier.
    pub fn last_sync_age(&self, now: u64) -> (age: Option<u64>)
        ensures
            age == (match self@.last_sync {
                Some(then) => Some(
                    if then <= now {
                        (now - then) as u64
                    } else {
                        0
                    },
                ),
                None => None,
            }),
            age == age_of(self@.last_sync, now),
    {
        match self.last_sync {
            Some(then) => Some(
                if then <= now {
                    now - then
                } else {
                    0
                },
            ),
            None => None,
        }
    }
}

impl Default for BackendState {
    fn default() -> (state: Self)
        ensures
            state@ == (StateView { backends: Seq::empty(), last_sync: None }),
    {
        BackendState::new()
    }
}

/// Whether `backends` are the registry of the Services in `map`, taken in some
/// order.
pub open spec fn follows_from(
    backends: Seq<BackendView>,
    map: Map<Seq<char>, ServiceView>,
    cluster_domain: Seq<char>,
) -> bool {
    exists|services: Seq<ServiceView>|
        is_snapshot(services, map) && #[trigger] k8s::is_registry(
            backends,
            k8s::backends_of(services, cluster_domain),
        )
}

/// The event that the watch yielded; none where it failed.
pub open spec fn watched_event(watched: Watched) -> Option<EventView> {
    match watched {
        Watched::Event(event) => Some(event@),
        Watched::Failure => None,
    }
}

/// Whether store and state may come to `later` from `earlier` by one step.
pub open spec fn is_step(
    event: Option<EventView>,
    cluster_domain: Seq<char>,
    now: u64,
    earlier: (StoreView, StateView),
    later: (StoreView, StateView),
    changed: bool,
) -> bool {
    &&& changed == (later.1.backends != earlier.1.backends)
    &&& match event {
        None => later == earlier,
        Some(event) => {
            &&& later.0 == after(earlier.0, event)
            &&& !publishes(event) ==> later.1 == earlier.1
            &&& publishes(event) ==> later.1.last_sync == Some(now) && follows_from(
                later.1.backends,
                later.0.active,
                cluster_domain,
            )
        },
    }
}

/// One step of following the cluster, at the time `now`: what the watch
/// yielded goes into the store, and where the store is complete after it, the
/// backends follow. A failure changes nothing: backends that may be out of
/// date serve better than none. Tells whether the backends have changed.
pub fn reconcile(
    store: &mut ServiceStore,
    state: &mut BackendState,
    watched: Watched,
    cluster_domain: &str,
    now: u64,
) -> (changed: bool)
    ensures
        match watched {
            Watched::Failure => {
                &&& final(store)@ == old(store)@
                &&& final(state)@ == old(state)@
                &&& !changed
            },
            Watched::Event(event) => {
                &&& final(store)@ == after(old(store)@, event@)
                &&& publishes(event@) ==> {
                    &&& final(state)@.last_sync == Some(now)
                    &&& follows_from(
                        final(state)@.backends,
                        final(store)@.active,
                        cluster_domain@,
                    )
                    &&& changed == (final(state)@.backends != old(state)@.backends)
                }
                &&& !publishes(event@) ==> final(state)@ == old(state)@ && !changed
            },
        },
        old(state)@.last_sync is Some ==> final(state)@.last_sync is Some,
        is_step(
            watched_event(watched),
            cluster_domain@,
            now,
            (old(store)@, old(state)@),
            (final(store)@, final(state)@),
            changed,
        ),
{
    match watched {
        Watched::Failure => false,
        Watched::Event(event) => match store.apply(event) {
            Some(services) => {
                let backends = backends_from_services(services, cluster_domain);
                state.update(backends, now)
            },
            None => false,
        },
    }
}

/// The store after a row of events.
pub open spec fn after_all(store: StoreView, events: Seq<EventView>) -> StoreView
    decreases events.len(),
{
    if events.len() == 0 {
        store
    } else {
        after(after_all(store, events.drop_last()), events.last())
    }
}

/// The events by which a complete list of Services is reported.
pub open spec fn relist(services: Seq<ServiceView>) -> Seq<EventView> {
    seq![EventView::Init] + services.map_values(|s: ServiceView| EventView::InitApply(s)) + seq![
        EventView::InitDone,
    ]
}

/// Services by key; of two with one key the later.
pub open spec fn keyed(services: Seq<ServiceView>) -> Map<Seq<char>, ServiceView>
    decreases services.len(),
{
    if services.len() == 0 {
        Map::empty()
    } else {
        keyed(services.drop_last()).insert(key_of(services.last()), services.last())
    }
}

proof fn lemma_list_builds_up(store: StoreView, services: Seq<ServiceView>)
    ensures
        after_all(
            store,
            seq![EventView::Init] + services.map_values(|s: ServiceView| EventView::InitApply(s)),
        ) == (StoreView { active: store.active, pending: Some(keyed(services)) }),
    decreases services.len(),
{
    let f = |s: ServiceView| EventView::InitApply(s);
    let events = seq![EventView::Init] + services.map_values(f);
    if services.len() == 0 {
        assert(events =~= seq![EventView::Init]);
        assert(events.drop_last() =~= Seq::empty());
        assert(after_all(store, events.drop_last()) == store);
    } else {
        let rest = services.drop_last();
        assert(events.drop_last() =~= seq![EventView::Init] + rest.map_values(f));
        assert(events.last() == EventView::InitApply(services.last()));
        lemma_list_builds_up(store, rest);
    }
}

/// A complete list takes the place of all that was known: afterwards the
/// Services of the list are known, and no others, as they would be to a store
/// that starts with it.
pub proof fn law_relist_forgets_the_past(store: StoreView, services: Seq<ServiceView>)
    ensures
        after_all(store, relist(services)) == (StoreView {
            active: keyed(services),
            pending: None,
        }),
        after_all(store, relist(services)) == after_all(
            StoreView { active: Map::empty(), pending: None },
            relist(services),
        ),
{
    let fresh = StoreView { active: Map::empty(), pending: None };
    let events = relist(services);
    assert(events.drop_last() =~= seq![EventView::Init] + services.map_values(
        |s: ServiceView| EventView::InitApply(s),
    ));
    assert(events.last() == EventView::InitDone);
    lemma_list_builds_up(store, services);
    lemma_list_builds_up(fresh, services);
}

/// While a list builds up, the Services that are known stay as they are, and
/// nothing is published before it is complete.
pub proof fn law_list_builds_up_aside(store: StoreView, services: Seq<ServiceView>, n: int)
    requires
        0 <= n < relist(services).len(),
    ensures
        after_all(store, relist(services).take(n)).active == store.active,
        publishes(relist(services)[n]) <==> n == relist(services).len() - 1,
{
    let events = relist(services);
    let f = |s: ServiceView| EventView::InitApply(s);
    if n == 0 {
        assert(events.take(n).len() == 0);
    } else {
        let begun = services.take(n - 1);
        assert(events.take(n) =~= seq![EventView::Init] + begun.map_values(f));
        lemma_list_builds_up(store, begun);
        if n < events.len() - 1 {
            assert(events[n] == EventView::InitApply(services[n - 1]));
        }
    }
}

/// A Service that is deleted is no longer known, whatever it looked like when
/// it was last applied, and no other Service is touched; one that is applied
/// is known as it was applied last.
pub proof fn law_apply_and_delete(store: StoreView, s: ServiceView, t: ServiceView)
    requires
        key_of(s) == key_of(t),
    ensures
        after(after(store, EventView::Apply(s)), EventView::Apply(t)) == after(
            store,
            EventView::Apply(t),
        ),
        after(after(store, EventView::Apply(s)), EventView::Delete(t)) == after(
            store,
            EventView::Delete(t),
        ),
        after(store, EventView::Apply(t)).active[key_of(t)] == t,
        !after(store, EventView::Delete(t)).active.contains_key(key_of(t)),
        forall|key: Seq<char>|
            key != key_of(t) ==> {
                &&& #[trigger] after(store, EventView::Apply(t)).active.contains_key(key)
                    == store.active.contains_key(key)
                &&& after(store, EventView::Apply(t)).active[key] == store.active[key]
            },
        forall|key: Seq<char>|
            key != key_of(t) ==> {
                &&& #[trigger] after(store, EventView::Delete(t)).active.contains_key(key)
                    == store.active.contains_key(key)
                &&& store.active.contains_key(key) ==> after(
                    store,
                    EventView::Delete(t),
                ).active[key] == store.active[key]
            },
{
    let key = key_of(t);
    assert(store.active.insert(key, s).insert(key, t) =~= store.active.insert(key, t));
    assert(store.active.insert(key, s).remove(key) =~= store.active.remove(key));
}

/// The backends depend on which Services are known and on nothing else, as
/// long as no URL is registered by two different backends at one priority.
pub proof fn law_same_services_same_backends(
    a: Seq<BackendView>,
    b: Seq<BackendView>,
    map: Map<Seq<char>, ServiceView>,
    cluster_domain: Seq<char>,
)
    requires
        follows_from(a, map, cluster_domain),
        follows_from(b, map, cluster_domain),
        forall|s: ServiceView, t: ServiceView|
            map.contains_value(s) && map.contains_value(t) ==> (match (
                #[trigger] k8s::backend_of(s, cluster_domain),
                #[trigger] k8s::backend_of(t, cluster_domain),
            ) {
                (Some(x), Some(y)) => x.url == y.url && x.priority == y.priority ==> x == y,
                _ => true,
            }),
    ensures
        a == b,
{
    let sa = choose|services: Seq<ServiceView>|
        is_snapshot(services, map) && #[trigger] k8s::is_registry(
            a,
            k8s::backends_of(services, cluster_domain),
        );
    let sb = choose|services: Seq<ServiceView>|
        is_snapshot(services, map) && #[trigger] k8s::is_registry(
            b,
            k8s::backends_of(services, cluster_domain),
        );
    assert forall|s: ServiceView| #[trigger] sa.contains(s) <==> sb.contains(s) by {
        lemma_snapshot_holds(sa, map, s);
        lemma_snapshot_holds(sb, map, s);
    }
    assert forall|s: ServiceView, t: ServiceView| sa.contains(s) && sa.contains(t) implies (match (
        #[trigger] k8s::backend_of(s, cluster_domain),
        #[trigger] k8s::backend_of(t, cluster_domain),
    ) {
        (Some(x), Some(y)) => x.url == y.url && x.priority == y.priority ==> x == y,
        _ => true,
    }) by {
        lemma_snapshot_holds(sa, map, s);
        lemma_snapshot_holds(sa, map, t);
    }
    k8s::law_registry_ignores_order(a, b, sa, sb, cluster_domain);
}

proof fn lemma_keyed(services: Seq<ServiceView>)
    requires
        services.map_values(|s: ServiceView| key_of(s)).no_duplicates(),
    ensures
        forall|i: int|
            0 <= i < services.len() ==> keyed(services).contains_key(key_of(#[trigger] services[i]))
                && keyed(services)[key_of(services[i])] == services[i],
        forall|key: Seq<char>| #[trigger]
            keyed(services).contains_key(key) ==> services.map_values(
                |s: ServiceView| key_of(s),
            ).contains(key),
    decreases services.len(),
{
    let f = |s: ServiceView| key_of(s);
    let keys = services.map_values(f);
    if services.len() > 0 {
        let rest = services.drop_last();
        assert(rest.map_values(f) =~= keys.drop_last());
        lemma_keyed(rest);
        assert forall|i: int| 0 <= i < services.len() implies keyed(services).contains_key(
            key_of(#[trigger] services[i]),
        ) && keyed(services)[key_of(services[i])] == services[i] by {
            if i < rest.len() {
                assert(rest[i] == services[i]);
                assert(keys[i] != keys[services.len() - 1]);
            }
        }
        assert forall|key: Seq<char>| #[trigger] keyed(services).contains_key(key) implies keys.contains(
            key,
        ) by {
            if key == key_of(services.last()) {
                assert(keys[services.len() - 1] == key);
            } else {
                assert(keyed(rest).contains_key(key));
                let i = choose|i: int| 0 <= i < rest.len() && rest.map_values(f)[i] == key;
                assert(keys[i] == key);
            }
        }
    }
}

/// After a complete list that holds no Service twice, the URLs that are asked,
/// their order and their priorities are those of the list's own backends,
/// whatever was known before.
pub proof fn law_complete_list_is_published(
    store: StoreView,
    services: Seq<ServiceView>,
    published: Seq<BackendView>,
    listed: Seq<BackendView>,
    cluster_domain: Seq<char>,
)
    requires
        services.map_values(|s: ServiceView| key_of(s)).no_duplicates(),
        follows_from(published, after_all(store, relist(services)).active, cluster_domain),
        k8s::is_registry(listed, k8s::backends_of(services, cluster_domain)),
    ensures
        published.len() == listed.len(),
        forall|i: int|
            0 <= i < published.len() ==> (#[trigger] published[i]).url == listed[i].url
                && published[i].priority == listed[i].priority,
{
    let map = keyed(services);
    let keys = services.map_values(|s: ServiceView| key_of(s));
    law_relist_forgets_the_past(store, services);
    lemma_keyed(services);
    assert(is_snapshot(services, map)) by {
        assert forall|key: Seq<char>| #[trigger] keys.to_set().contains(key) == map.dom().contains(
            key,
        ) by {
            if keys.contains(key) {
                let i = choose|i: int| 0 <= i < keys.len() && keys[i] == key;
                assert(map.contains_key(key_of(services[i])));
            }
            if map.contains_key(key) {
                assert(keys.contains(key));
            }
        }
        assert(keys.to_set() =~= map.dom());
        assert forall|i: int| 0 <= i < services.len() implies #[trigger] services[i] == map[keys[i]] by {
            assert(map[key_of(services[i])] == services[i]);
        }
    }
    law_same_services_same_urls(published, listed, map, cluster_domain);
}

/// Whatever is registered, the URLs that are asked, their order and their
/// priorities depend on which Services are known and on nothing else.
pub proof fn law_same_services_same_urls(
    a: Seq<BackendView>,
    b: Seq<BackendView>,
    map: Map<Seq<char>, ServiceView>,
    cluster_domain: Seq<char>,
)
    requires
        follows_from(a, map, cluster_domain),
        follows_from(b, map, cluster_domain),
    ensures
        a.len() == b.len(),
        forall|i: int|
            0 <= i < a.len() ==> (#[trigger] a[i]).url == b[i].url && a[i].priority
                == b[i].priority,
{
    let sa = choose|services: Seq<ServiceView>|
        is_snapshot(services, map) && #[trigger] k8s::is_registry(
            a,
            k8s::backends_of(services, cluster_domain),
        );
    let sb = choose|services: Seq<ServiceView>|
        is_snapshot(services, map) && #[trigger] k8s::is_registry(
            b,
            k8s::backends_of(services, cluster_domain),
        );
    assert forall|s: ServiceView| #[trigger] sa.contains(s) <==> sb.contains(s) by {
        lemma_snapshot_holds(sa, map, s);
        lemma_snapshot_holds(sb, map, s);
    }
    k8s::law_registry_urls_ignore_order(a, b, sa, sb, cluster_domain);
}

proof fn lemma_snapshot_holds(
    services: Seq<ServiceView>,
    map: Map<Seq<char>, ServiceView>,
    s: ServiceView,
)
    requires
        is_snapshot(services, map),
    ensures
        services.contains(s) <==> map.contains_value(s),
{
    let keys = choose|keys: Seq<Seq<char>>|
        {
            &&& keys.no_duplicates()
            &&& keys.len() == services.len()
            &&& #[trigger] keys.to_set() == map.dom()
            &&& forall|i: int| 0 <= i < services.len() ==> #[trigger] services[i] == map[keys[i]]
        };
    if services.contains(s) {
        let i = choose|i: int| 0 <= i < services.len() && services[i] == s;
        assert(keys.contains(keys[i]));
        assert(keys.to_set().contains(keys[i]));
        assert(map.dom().contains(keys[i]) && map[keys[i]] == s);
    }
    if map.contains_value(s) {
        let key = choose|key: Seq<char>| #[trigger] map.dom().contains(key) && map[key] == s;
        assert(keys.to_set().contains(key));
        let i = choose|i: int| 0 <= i < keys.len() && keys[i] == key;
        assert(services[i] == s);
    }
}

/// The namespace that a Service is in: `default` where none is given.
pub open spec fn namespace_of(service: ServiceView) -> Seq<char> {
    if service.namespace is Some {
        service.namespace->0
    } else {
        "default"@
    }
}

/// Whether two Services are one and the same object: of one namespace and name.
pub open spec fn same_object(s: ServiceView, t: ServiceView) -> bool {
    namespace_of(s) == namespace_of(t) && s.name == t.name
}

/// Services of different namespaces or names are kept apart, and those of the
/// same are not, however else they differ.
pub proof fn law_keys_tell_services_apart(s: ServiceView, t: ServiceView)
    requires
        s.name is Some,
        t.name is Some,
        !namespace_of(s).contains('/'),
        !namespace_of(t).contains('/'),
    ensures
        key_of(s) == key_of(t) <==> same_object(s, t),
{
    reveal_strlit("/");
    let a = namespace_of(s);
    let b = namespace_of(t);
    let x = s.name->0;
    let y = t.name->0;
    let left = a + "/"@ + x;
    let right = b + "/"@ + y;
    assert(key_of(s) =~= left);
    assert(key_of(t) =~= right);
    if left == right {
        assert(left[a.len() as int] == '/');
        assert(right[b.len() as int] == '/');
        if a.len() < b.len() {
            assert(right[a.len() as int] == b[a.len() as int]);
            assert(b.contains('/'));
        } else if b.len() < a.len() {
            assert(left[b.len() as int] == a[b.len() as int]);
            assert(a.contains('/'));
        }
        assert(a =~= left.take(a.len() as int));
        assert(b =~= right.take(a.len() as int));
        assert(x =~= left.skip(a.len() as int + 1));
        assert(y =~= right.skip(a.len() as int + 1));
    }
}

/// After a complete list of different Services, each of them is known as it was
/// listed, and no other is, whatever was known before.
pub proof fn law_listed_services_are_known(
    store: StoreView,
    services: Seq<ServiceView>,
    s: ServiceView,
)
    requires
        forall|i: int|
            0 <= i < services.len() ==> (#[trigger] services[i]).name is Some && !namespace_of(
                services[i],
            ).contains('/'),
        forall|i: int, j: int|
            0 <= i < j < services.len() ==> !same_object(
                #[trigger] services[i],
                #[trigger] services[j],
            ),
    ensures
        after_all(store, relist(services)).active.contains_value(s) <==> services.contains(s),
        after_all(store, relist(services)).pending is None,
{
    let f = |s: ServiceView| key_of(s);
    let keys = services.map_values(f);
    let map = keyed(services);
    assert(keys.no_duplicates()) by {
        assert forall|i: int, j: int|
            0 <= i < keys.len() && 0 <= j < keys.len() && i != j implies keys[i] != keys[j] by {
            assert(services[i].name is Some && services[j].name is Some);
            law_keys_tell_services_apart(services[i], services[j]);
            if i < j {
                assert(!same_object(services[i], services[j]));
            } else {
                assert(!same_object(services[j], services[i]));
            }
        }
    }
    lemma_keyed(services);
    law_relist_forgets_the_past(store, services);
    if services.contains(s) {
        let i = choose|i: int| 0 <= i < services.len() && services[i] == s;
        assert(map.contains_key(key_of(services[i])) && map[key_of(services[i])] == services[i]);
        assert(map.dom().contains(key_of(s)));
    }
    if map.contains_value(s) {
        let key = choose|key: Seq<char>| #[trigger] map.dom().contains(key) && map[key] == s;
        assert(map.contains_key(key));
        assert(keys.contains(key));
        let i = choose|i: int| 0 <= i < keys.len() && keys[i] == key;
        assert(map[key_of(services[i])] == services[i]);
    }
}

/// What each event does, and does not do. A list begins empty and grows by what
/// it reports, beside what is known; when it is complete it is what is known. An
/// added or changed Service is known as it now is, a deleted one is not, and the
/// list in between is not touched by either.
pub proof fn law_events(store: StoreView, s: ServiceView, key: Seq<char>)
    ensures
        after(store, EventView::Init).active == store.active,
        after(store, EventView::Init).pending is Some,
        !after(store, EventView::Init).pending->0.contains_key(key),
        after(store, EventView::InitApply(s)).active == store.active,
        after(store, EventView::InitApply(s)).pending is Some,
        after(store, EventView::InitApply(s)).pending->0.contains_key(key_of(s)),
        after(store, EventView::InitApply(s)).pending->0[key_of(s)] == s,
        key != key_of(s) ==> after(store, EventView::InitApply(s)).pending->0.contains_key(key) == (
        store.pending is Some && store.pending->0.contains_key(key)),
        key != key_of(s) && store.pending is Some && store.pending->0.contains_key(key) ==> after(
            store,
            EventView::InitApply(s),
        ).pending->0[key] == store.pending->0[key],
        after(store, EventView::InitDone).pending is None,
        store.pending is Some ==> after(store, EventView::InitDone).active == store.pending->0,
        store.pending is None ==> !after(store, EventView::InitDone).active.contains_key(key),
        after(store, EventView::Apply(s)).pending == store.pending,
        after(store, EventView::Delete(s)).pending == store.pending,
        after(store, EventView::Apply(s)).active.contains_key(key_of(s)),
        after(store, EventView::Apply(s)).active[key_of(s)] == s,
        after(store, EventView::Delete(s)).active.contains_key(key) == (key != key_of(s)
            && store.active.contains_key(key)),
        key != key_of(s) ==> after(store, EventView::Apply(s)).active.contains_key(key)
            == store.active.contains_key(key),
        key != key_of(s) && store.active.contains_key(key) ==> after(
            store,
            EventView::Apply(s),
        ).active[key] == store.active[key] && after(store, EventView::Delete(s)).active[key]
            == store.active[key],
        publishes(EventView::InitDone),
        publishes(EventView::Apply(s)),
        publishes(EventView::Delete(s)),
        !publishes(EventView::Init),
        !publishes(EventView::InitApply(s)),
{
}

/// What is handed on to be published is every known Service, and each of them
/// once.
pub proof fn law_snapshot_is_complete(
    services: Seq<ServiceView>,
    map: Map<Seq<char>, ServiceView>,
    s: ServiceView,
)
    requires
        is_snapshot(services, map),
    ensures
        services.contains(s) <==> map.contains_value(s),
        services.len() == map.dom().len(),
{
    lemma_snapshot_holds(services, map, s);
    let keys = choose|keys: Seq<Seq<char>>|
        {
            &&& keys.no_duplicates()
            &&& keys.len() == services.len()
            &&& #[trigger] keys.to_set() == map.dom()
            &&& forall|i: int| 0 <= i < services.len() ==> #[trigger] services[i] == map[keys[i]]
        };
    keys.unique_seq_to_set();
}

/// Every known Service that is a backend is asked, itself or as another of the
/// same URL and no lower priority, and nothing is asked that is not the backend
/// of a known Service.
pub proof fn law_known_services_are_asked(
    backends: Seq<BackendView>,
    map: Map<Seq<char>, ServiceView>,
    cluster_domain: Seq<char>,
    key: Seq<char>,
)
    requires
        follows_from(backends, map, cluster_domain),
    ensures
        map.contains_key(key) && k8s::backend_of(map[key], cluster_domain) is Some ==> exists|
            j: int,
        |
            0 <= j < backends.len() && (#[trigger] backends[j]).url == k8s::backend_of(
                map[key],
                cluster_domain,
            )->0.url && backends[j].priority >= k8s::backend_of(
                map[key],
                cluster_domain,
            )->0.priority,
        forall|j: int|
            0 <= j < backends.len() ==> exists|s: ServiceView| #[trigger]
                map.contains_value(s) && k8s::backend_of(s, cluster_domain) == Some(
                    #[trigger] backends[j],
                ),
{
    let services = choose|services: Seq<ServiceView>|
        is_snapshot(services, map) && #[trigger] k8s::is_registry(
            backends,
            k8s::backends_of(services, cluster_domain),
        );
    k8s::law_registry_of_services(backends, services, cluster_domain);
    if map.contains_key(key) && k8s::backend_of(map[key], cluster_domain) is Some {
        assert(map.dom().contains(key));
        assert(map.contains_value(map[key]));
        lemma_snapshot_holds(services, map, map[key]);
        let i = choose|i: int| 0 <= i < services.len() && services[i] == map[key];
        assert(k8s::backend_of(services[i], cluster_domain) is Some);
    }
    assert forall|j: int| 0 <= j < backends.len() implies exists|s: ServiceView| #[trigger]
        map.contains_value(s) && k8s::backend_of(s, cluster_domain) == Some(
            #[trigger] backends[j],
        ) by {
        let i = choose|i: int|
            0 <= i < services.len() && #[trigger] k8s::backend_of(services[i], cluster_domain)
                == Some(backends[j]);
        assert(services.contains(services[i]));
        lemma_snapshot_holds(services, map, services[i]);
    }
}

/// The time from the last update to `now`.
pub open spec fn age_of(last_sync: Option<u64>, now: u64) -> Option<u64> {
    match last_sync {
        Some(then) => Some(
            if then <= now {
                (now - then) as u64
            } else {
                0
            },
        ),
        None => None,
    }
}

/// The age is what leads from the last update to now; it is nothing where the
/// last update is still to come, and missing exactly where there was none.
pub proof fn law_age(last_sync: Option<u64>, now: u64)
    ensures
        age_of(last_sync, now) is Some <==> last_sync is Some,
        last_sync is Some && last_sync->0 <= now ==> last_sync->0 + age_of(last_sync, now)->0 == now,
        last_sync is Some && last_sync->0 > now ==> age_of(last_sync, now)->0 == 0,
{
}

/// What one step does. A failure, the start of a list and each Service that it
/// reports leave the backends and the time of the last sync as they are. The end
/// of a list, an added or changed and a deleted Service bring the backends in
/// line with the Services that are then known, and the sync to now. Whether the
/// backends changed is told truly.
pub proof fn law_steps(
    event: Option<EventView>,
    cluster_domain: Seq<char>,
    now: u64,
    earlier: (StoreView, StateView),
    later: (StoreView, StateView),
    changed: bool,
)
    requires
        is_step(event, cluster_domain, now, earlier, later, changed),
    ensures
        event is None ==> later.0 == earlier.0 && later.1 == earlier.1,
        event is Some && (event->0 is Init || event->0 is InitApply) ==> later.1 == earlier.1
            && later.0.active == earlier.0.active,
        event is Some && (event->0 is InitDone || event->0 is Apply || event->0 is Delete)
            ==> later.1.last_sync == Some(now) && follows_from(
            later.1.backends,
            later.0.active,
            cluster_domain,
        ),
        event is Some ==> later.0 == after(earlier.0, event->0),
        changed <==> later.1.backends != earlier.1.backends,
        earlier.1.last_sync is Some ==> later.1.last_sync is Some,
{
}

/// The view of an event says what it reports.
pub proof fn law_event_view(event: ServiceEvent)
    ensures
        event is Init == event@ is Init,
        event is InitDone == event@ is InitDone,
        event matches ServiceEvent::InitApply(s) ==> event@ == EventView::InitApply(s@),
        event matches ServiceEvent::Apply(s) ==> event@ == EventView::Apply(s@),
        event matches ServiceEvent::Delete(s) ==> event@ == EventView::Delete(s@),
{
}

/// A Service is kept under its namespace, a slash and its name, the name empty
/// where it has none.
pub proof fn law_key_text(s: ServiceView)
    ensures
        s.name is Some ==> key_of(s) == namespace_of(s) + seq!['/'] + s.name->0,
        s.name is None ==> key_of(s) == namespace_of(s) + seq!['/'],
{
    reveal_strlit("/");
    reveal_strlit("");
    assert("/"@ =~= seq!['/']);
    if s.name is None {
        assert(key_of(s) =~= namespace_of(s) + seq!['/']);
    }
}

} // verus!
