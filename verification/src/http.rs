//! The HTTP side: reading a query, whom to ask, and what to answer.
use crate::backend;
use crate::backend::{request_url, Backend, BackendView, FanOut, FanOutView, OutcomeView};
use crate::error;
use crate::error::{Error, ErrorView};
use crate::k8s;
use crate::query;
use crate::rows;
use crate::text;
use crate::text::same_text;
use crate::url_text;
use crate::url_text::parse_url;
use crate::watch;
use crate::watch::{BackendState, StateView};
use crate::webfinger;
use crate::webfinger::{filter_rels, merge_jrd, JrdResource, JrdView};
use vstd::prelude::*;
use vstd::string::*;

verus! {

/// What is wrong with a query that names no resource.
pub const MISSING_RESOURCE: &'static str = "missing resource parameter";

/// Why readiness is withheld.
pub const UNREADY_REASON: &'static str = "awaiting first HTTPRoute sync";

/// A query: which resource, and which relation types of it; all where none is
/// named.
#[derive(Debug)]
pub struct WebfingerQuery {
    pub resource: String,
    pub rels: Vec<String>,
}

pub struct QueryView {
    pub resource: Seq<char>,
    pub rels: Seq<Seq<char>>,
}

impl View for WebfingerQuery {
    type V = QueryView;

    open spec fn view(&self) -> QueryView {
        QueryView { resource: self.resource@, rels: webfinger::text_views(self.rels@) }
    }
}

/// Parameters, name and value by their text.
pub open spec fn param_views(params: Seq<(String, String)>) -> Seq<(Seq<char>, Seq<char>)> {
    params.map_values(|param: (String, String)| (param.0@, param.1@))
}

/// The values of the parameters of one name, in order.
pub open spec fn values_of(params: Seq<(Seq<char>, Seq<char>)>, name: Seq<char>) -> Seq<Seq<char>>
    decreases params.len(),
{
    if params.len() == 0 {
        Seq::empty()
    } else {
        let earlier = values_of(params.drop_last(), name);
        if params.last().0 == name {
            earlier.push(params.last().1)
        } else {
            earlier
        }
    }
}

/// The resource that is asked for: the first that is named.
pub open spec fn resource_of(params: Seq<(Seq<char>, Seq<char>)>) -> Option<Seq<char>> {
    let named = values_of(params, "resource"@);
    if named.len() == 0 {
        None
    } else {
        Some(named[0])
    }
}

/// What parameters ask for while `backends` backends are known. `is_uri` says
/// whether the resource is an absolute URI.
pub open spec fn query_asked(
    params: Seq<(Seq<char>, Seq<char>)>,
    is_uri: bool,
    backends: nat,
) -> Result<QueryView, ErrorView> {
    match resource_of(params) {
        None => Err(ErrorView::InvalidResource(MISSING_RESOURCE@)),
        Some(resource) => if !is_uri {
            Err(ErrorView::InvalidResource(resource))
        } else if backends == 0 {
            Err(ErrorView::NoBackends)
        } else {
            Ok(QueryView { resource, rels: values_of(params, "rel"@) })
        },
    }
}

/// Whether the resource that is asked for is an absolute URI.
pub open spec fn asks_for_uri(params: Seq<(Seq<char>, Seq<char>)>) -> bool {
    resource_of(params) matches Some(resource) && url_text::url_parsed(resource) is Some
}

/// The outcome of reading a query, by its view.
pub open spec fn query_result(query: Result<WebfingerQuery, Error>) -> Result<
    QueryView,
    ErrorView,
> {
    match query {
        Ok(query) => Ok(query@),
        Err(error) => Err(error@),
    }
}

fn collect_values(params: &[(String, String)], name: &str) -> (values: Vec<String>)
    ensures
        webfinger::text_views(values@) == values_of(param_views(params@), name@),
{
    let ghost views = param_views(params@);
    let mut values: Vec<String> = Vec::new();
    assert(views.take(0) =~= Seq::empty());
    assert(webfinger::text_views(values@) =~= Seq::empty());
    for i in 0..params.len()
        invariant
            views == param_views(params@),
            webfinger::text_views(values@) == values_of(views.take(i as int), name@),
    {
        let ghost before = webfinger::text_views(values@);
        proof {
            assert(views.take(i + 1).drop_last() =~= views.take(i as int));
            assert(views.take(i + 1).last() == (params@[i as int].0@, params@[i as int].1@));
        }
        if same_text(params[i].0.as_str(), name) {
            values.push(params[i].1.clone());
            assert(webfinger::text_views(values@) =~= before.push(params@[i as int].1@));
        }
    }
    assert(views.take(views.len() as int) =~= views);
    values
}

/// The resource that parameters ask for: the first that is named.
pub fn find_resource(params: &[(String, String)]) -> (resource: Option<String>)
    ensures
        text::opt_text(resource) == resource_of(param_views(params@)),
{
    let named = collect_values(params, "resource");
    assert(webfinger::text_views(named@).len() == named@.len());
    if named.len() == 0 {
        None
    } else {
        Some(named[0].clone())
    }
}

/// Reads a query, told whether its resource is an absolute URI. Refused are, in
/// this order: no resource, one that is no URI, and anything while there are
/// no backends.
pub fn check_query(params: &[(String, String)], is_uri: bool, backends: usize) -> (query: Result<
    WebfingerQuery,
    Error,
>)
    ensures
        query_result(query) == query_asked(param_views(params@), is_uri, backends as nat),
{
    match find_resource(params) {
        None => Err(Error::InvalidResource(MISSING_RESOURCE.to_owned())),
        Some(resource) => {
            if !is_uri {
                Err(Error::InvalidResource(resource))
            } else if backends == 0 {
                Err(Error::NoBackends)
            } else {
                Ok(WebfingerQuery { resource, rels: collect_values(params, "rel") })
            }
        },
    }
}

/// Reads a query. Any absolute URI may be asked for: `acct:`, `https:` and
/// others.
pub fn accept_query(params: &[(String, String)], backends: usize) -> (query: Result<
    WebfingerQuery,
    Error,
>)
    ensures
        query_result(query) == query_asked(
            param_views(params@),
            asks_for_uri(param_views(params@)),
            backends as nat,
        ),
{
    let is_uri = match find_resource(params) {
        Some(resource) => parse_url(resource.as_str()).is_some(),
        None => false,
    };
    check_query(params, is_uri, backends)
}

/// Whether a request asks a backend what a query asks, and counts the answer at
/// the backend's priority.
pub open spec fn asks(
    query: QueryView,
    to: BackendView,
    priority: u16,
    url: Option<Seq<char>>,
) -> bool {
    &&& priority == to.priority
    &&& url == backend::request_of(backend::endpoint_of(to.url), query.resource, query.rels)
    &&& url matches Some(u) ==> url_text::has_query(
        u,
        backend::endpoint_of(to.url)->0,
        query::query_text(query.resource, query.rels),
    )
}

/// Whom to ask and how: for each backend, in order, its priority and the URL
/// to fetch, which ends in the whole query; none where its URL is none to ask
/// at.
pub fn requests(query: &WebfingerQuery, backends: &[Backend]) -> (requests: Vec<
    (u16, Option<String>),
>)
    ensures
        requests@.len() == backends@.len(),
        forall|i: int|
            0 <= i < backends@.len() ==> {
                &&& (#[trigger] requests@[i]).0 == backends@[i]@.priority
                &&& text::opt_text(requests@[i].1) == backend::request_of(
                    backend::endpoint_of(backends@[i]@.url),
                    query@.resource,
                    query@.rels,
                )
                &&& requests@[i].1 matches Some(url) ==> url_text::has_query(
                    url@,
                    backend::endpoint_of(backends@[i]@.url)->0,
                    query::query_text(query@.resource, query@.rels),
                )
                &&& asks(query@, backends@[i]@, requests@[i].0, text::opt_text(requests@[i].1))
            },
{
    let mut requests: Vec<(u16, Option<String>)> = Vec::new();
    for i in 0..backends.len()
        invariant
            requests@.len() == i,
            forall|j: int|
                0 <= j < i ==> {
                    &&& (#[trigger] requests@[j]).0 == backends@[j]@.priority
                    &&& text::opt_text(requests@[j].1) == backend::request_of(
                        backend::endpoint_of(backends@[j]@.url),
                        query@.resource,
                        query@.rels,
                    )
                    &&& requests@[j].1 matches Some(url) ==> url_text::has_query(
                        url@,
                        backend::endpoint_of(backends@[j]@.url)->0,
                        query::query_text(query@.resource, query@.rels),
                    )
                    &&& asks(query@, backends@[j]@, requests@[j].0, text::opt_text(requests@[j].1))
                },
    {
        let url = request_url(&backends[i], query.resource.as_str(), query.rels.as_slice());
        requests.push((backends[i].priority, url));
    }
    requests
}

/// The answer to a query, from what asking all backends came to. A failure
/// leaves open whether the resource exists, so it outweighs what says that
/// there is none.
pub open spec fn conclusion_of(out: FanOutView, rels: Seq<Seq<char>>) -> Result<
    JrdView,
    ErrorView,
> {
    if out.successes.len() > 0 {
        Ok(webfinger::filtered(webfinger::merged(out.successes), rels))
    } else if out.failed > 0 {
        Err(ErrorView::AllBackendsFailed)
    } else if out.gone > 0 {
        Err(ErrorView::ResourceGone)
    } else {
        Err(ErrorView::ResourceNotFound)
    }
}

/// An answer by its view.
pub open spec fn answer_view(answer: Result<JrdResource, Error>) -> Result<JrdView, ErrorView> {
    match answer {
        Ok(document) => Ok(document@),
        Err(error) => Err(error@),
    }
}

/// Answers a query.
pub fn conclude(out: FanOut, rels: &[String]) -> (answer: Result<JrdResource, Error>)
    ensures
        answer_view(answer) == conclusion_of(out@, webfinger::text_views(rels@)),
{
    assert(out@.successes.len() == out.successes@.len());
    if out.successes.len() == 0 {
        if out.failed > 0 {
            Err(Error::AllBackendsFailed)
        } else if out.gone > 0 {
            Err(Error::ResourceGone)
        } else {
            Err(Error::ResourceNotFound)
        }
    } else {
        let mut document = merge_jrd(out.successes);
        filter_rels(&mut document, rels);
        Ok(document)
    }
}

/// Whether the process lives: it does while it can say so.
#[derive(Debug, Clone, Copy, PartialEq, Eq, Structural)]
pub struct Health {
    /// The HTTP status.
    pub status: u16,
    pub backends: usize,
    pub last_sync_seconds: Option<u64>,
}

/// Whether the process is to get traffic.
#[derive(Debug, Clone, Copy, PartialEq, Eq, Structural)]
pub struct Readiness {
    /// The HTTP status.
    pub status: u16,
    /// The number of backends, where it is ready.
    pub backends: Option<usize>,
}

/// The status of the process: it lives.
pub open spec fn health_status_of(state: StateView, now: u64) -> u16 {
    200
}

/// The whole seconds in a time in nanoseconds.
pub open spec fn seconds_of(age: Option<u64>) -> Option<u64> {
    match age {
        Some(age) => Some((age / 1_000_000_000) as u64),
        None => None,
    }
}

/// Whether the process is to get traffic, as a status.
pub open spec fn ready_status_of(state: StateView) -> u16 {
    if state.last_sync is Some {
        200
    } else {
        503
    }
}

/// Reports on the process at the time `now`, in nanoseconds: always alive, with
/// the whole seconds since the backends were last brought up to date.
pub fn healthz(state: &BackendState, now: u64) -> (health: Health)
    ensures
        health.status == 200,
        health.status == health_status_of(state@, now),
        health.last_sync_seconds == seconds_of(watch::age_of(state@.last_sync, now)),
        health.backends == state@.backends.len(),
        health.last_sync_seconds == (match state@.last_sync {
            Some(then) => Some(
                if then <= now {
                    ((now - then) / 1_000_000_000) as u64
                } else {
                    0
                },
            ),
            None => None,
        }),
{
    let backends = state.get_all();
    assert(k8s::backend_views(backends@).len() == backends@.len());
    Health {
        status: 200,
        backends: backends.len(),
        last_sync_seconds: match state.last_sync_age(now) {
            Some(age) => Some(age / 1_000_000_000),
            None => None,
        },
    }
}

/// Reports whether the process is to get traffic: once the backends have been
/// brought up to date, be there any or none.
pub fn readyz(state: &BackendState) -> (readiness: Readiness)
    ensures
        readiness.status == ready_status_of(state@),
        state@.last_sync is Some ==> {
            &&& readiness.status == 200
            &&& readiness.backends matches Some(n) && n == state@.backends.len()
        },
        state@.last_sync is None ==> {
            &&& readiness.status == 503
            &&& readiness.backends is None
        },
{
    if state.synced() {
        let backends = state.get_all();
        assert(k8s::backend_views(backends@).len() == backends@.len());
        Readiness { status: 200, backends: Some(backends.len()) }
    } else {
        Readiness { status: 503, backends: None }
    }
}

/// Whether an outcome occurs among outcomes.
pub open spec fn occurs(outcomes: Seq<(u16, OutcomeView)>, outcome: OutcomeView) -> bool {
    exists|i: int| 0 <= i < outcomes.len() && (#[trigger] outcomes[i]).1 == outcome
}

/// Whether a document came back.
pub open spec fn succeeded(outcomes: Seq<(u16, OutcomeView)>) -> bool {
    exists|i: int| 0 <= i < outcomes.len() && (#[trigger] outcomes[i]).1 is Success
}

proof fn lemma_successes(outcomes: Seq<(u16, OutcomeView)>)
    ensures
        backend::successes_of(outcomes).len() > 0 <==> succeeded(outcomes),
{
    let kept = backend::successes_of(outcomes);
    if kept.len() > 0 {
        assert(kept.contains(kept[0]));
        backend::law_tally_keeps_successes(outcomes, kept[0].0, kept[0].1);
        let success = (kept[0].0, OutcomeView::Success(kept[0].1));
        let i = choose|i: int| 0 <= i < outcomes.len() && outcomes[i] == success;
        assert(outcomes[i].1 is Success);
    }
    if succeeded(outcomes) {
        let i = choose|i: int| 0 <= i < outcomes.len() && (#[trigger] outcomes[i]).1 is Success;
        let document = outcomes[i].1->Success_0;
        assert(outcomes[i] == (outcomes[i].0, OutcomeView::Success(document)));
        assert(outcomes.contains((outcomes[i].0, OutcomeView::Success(document))));
        backend::law_tally_keeps_successes(outcomes, outcomes[i].0, document);
        assert(kept.contains((outcomes[i].0, document)));
    }
}

/// What a query is answered, by what the backends said. A document where one
/// came back. Else "failed" where one failed. Else, with every backend having
/// answered, "gone" where one says so, and "not found" where each of them does
/// not know the resource or declines.
pub proof fn law_answer(outcomes: Seq<(u16, OutcomeView)>, rels: Seq<Seq<char>>)
    ensures
        ({
            let answer = conclusion_of(backend::tally_of(outcomes), rels);
            let failed = occurs(outcomes, OutcomeView::Failed);
            let gone = occurs(outcomes, OutcomeView::Gone);
            &&& answer is Ok <==> succeeded(outcomes)
            &&& answer == Err::<JrdView, ErrorView>(ErrorView::AllBackendsFailed) <==> !succeeded(
                outcomes,
            ) && failed
            &&& answer == Err::<JrdView, ErrorView>(ErrorView::ResourceGone) <==> !succeeded(
                outcomes,
            ) && !failed && gone
            &&& answer == Err::<JrdView, ErrorView>(ErrorView::ResourceNotFound) <==> forall|i: int|
                0 <= i < outcomes.len() ==> (#[trigger] outcomes[i]).1 is NotFound
                    || outcomes[i].1 is Declined
        }),
{
    lemma_successes(outcomes);
    backend::law_tally_counts_what_occurs(outcomes, OutcomeView::Failed);
    backend::law_tally_counts_what_occurs(outcomes, OutcomeView::Gone);
    if !succeeded(outcomes) && !occurs(outcomes, OutcomeView::Failed) && !occurs(
        outcomes,
        OutcomeView::Gone,
    ) {
        assert forall|i: int| 0 <= i < outcomes.len() implies (#[trigger] outcomes[i]).1 is NotFound
            || outcomes[i].1 is Declined by {
            assert(!(outcomes[i].1 is Success));
            assert(outcomes[i].1 != OutcomeView::Failed);
            assert(outcomes[i].1 != OutcomeView::Gone);
        }
    }
}

/// A query is refused with 400 exactly where its resource is missing or no URI,
/// and with 503 exactly where that is in order and there are no backends. No
/// other refusal comes before the backends are asked.
pub proof fn law_refusals(params: Seq<(Seq<char>, Seq<char>)>, is_uri: bool, backends: nat)
    ensures
        ({
            let query = query_asked(params, is_uri, backends);
            let valid = resource_of(params) is Some && is_uri;
            &&& !valid <==> (query matches Err(e) && error::reply_of(e).status == 400)
            &&& valid && backends == 0 <==> (query matches Err(e) && error::reply_of(e).status
                == 503)
            &&& valid && backends > 0 <==> query is Ok
        }),
{
}

/// The status of each answer: 502 where a backend failed, 410 and 404 where
/// each of them answered; all of it only where no document came back.
pub proof fn law_answer_status(outcomes: Seq<(u16, OutcomeView)>, rels: Seq<Seq<char>>)
    ensures
        conclusion_of(backend::tally_of(outcomes), rels) matches Err(e) ==> {
            let status = error::reply_of(e).status;
            &&& !succeeded(outcomes)
            &&& status == 502 <==> occurs(outcomes, OutcomeView::Failed)
            &&& status == 410 <==> !occurs(outcomes, OutcomeView::Failed) && occurs(
                outcomes,
                OutcomeView::Gone,
            )
            &&& status == 404 <==> !occurs(outcomes, OutcomeView::Failed) && !occurs(
                outcomes,
                OutcomeView::Gone,
            )
        },
{
    law_answer(outcomes, rels);
}

/// Where a document came back, the backends without one do not matter: what
/// they said is not seen in the answer.
pub proof fn law_others_do_not_matter(
    a: Seq<(u16, OutcomeView)>,
    b: Seq<(u16, OutcomeView)>,
    rels: Seq<Seq<char>>,
)
    requires
        succeeded(a),
        backend::successes_of(a) == backend::successes_of(b),
    ensures
        conclusion_of(backend::tally_of(a), rels) == conclusion_of(backend::tally_of(b), rels),
{
    lemma_successes(a);
}

/// Where relation types are named, the answer has links of those types and no
/// others.
pub proof fn law_answer_keeps_to_rels(out: FanOutView, rels: Seq<Seq<char>>)
    requires
        rels.len() > 0,
    ensures
        conclusion_of(out, rels) matches Ok(document) ==> forall|i: int|
            0 <= i < document.links.len() ==> (#[trigger] document.links[i]).rel is Some
                && rels.contains(document.links[i].rel->0),
{
    if out.successes.len() > 0 {
        webfinger::law_filter(webfinger::merged(out.successes), rels);
    }
}

/// Whether parameter `k` is the first that names a resource.
pub open spec fn names_resource(params: Seq<(Seq<char>, Seq<char>)>, k: int) -> bool {
    &&& 0 <= k < params.len()
    &&& params[k].0 == "resource"@
    &&& forall|j: int| 0 <= j < k ==> (#[trigger] params[j]).0 != "resource"@
}

/// Where the parameters of a name stand: their values are taken from exactly
/// these positions.
proof fn lemma_values_positions(params: Seq<(Seq<char>, Seq<char>)>, name: Seq<char>) -> (positions:
    Seq<int>)
    ensures
        rows::lists_exactly(positions, params.len(), |k: int| params[k].0 == name),
        values_of(params, name).len() == positions.len(),
        forall|i: int|
            0 <= i < positions.len() ==> values_of(params, name)[i]
                == params[#[trigger] positions[i]].1,
    decreases params.len(),
{
    let wanted = |k: int| params[k].0 == name;
    if params.len() == 0 {
        assert(rows::lists_exactly(Seq::empty(), params.len(), wanted));
        Seq::empty()
    } else {
        let rest = params.drop_last();
        let earlier = lemma_values_positions(rest, name);
        let before = |k: int| rest[k].0 == name;
        assert(rows::lists_exactly(earlier, rest.len(), wanted)) by {
            assert forall|k: int| 0 <= k < rest.len() && #[trigger] wanted(k) implies earlier.contains(
                k,
            ) by {
                assert(rest[k] == params[k]);
                assert(before(k));
            }
            assert forall|i: int| 0 <= i < earlier.len() implies 0 <= #[trigger] earlier[i]
                < rest.len() && wanted(earlier[i]) by {
                assert(before(earlier[i]));
                assert(rest[earlier[i]] == params[earlier[i]]);
            }
        }
        let positions = rows::lemma_positions_grow(earlier, rest.len(), wanted);
        assert forall|i: int| 0 <= i < positions.len() implies values_of(params, name)[i]
            == params[#[trigger] positions[i]].1 by {
            if i < earlier.len() {
                assert(positions[i] == earlier[i]);
                assert(values_of(rest, name)[i] == rest[earlier[i]].1);
            }
        }
        positions
    }
}

/// The relation types of an accepted query are the values of exactly the
/// parameters named `rel`, in order, whatever those values are.
pub proof fn law_rels_of_query(
    params: Seq<(Seq<char>, Seq<char>)>,
    is_uri: bool,
    backends: nat,
) -> (positions: Seq<int>)
    ensures
        rows::lists_exactly(positions, params.len(), |k: int| params[k].0 == "rel"@),
        query_asked(params, is_uri, backends) matches Ok(query) ==> query.rels.len()
            == positions.len() && forall|i: int|
            0 <= i < positions.len() ==> query.rels[i] == params[#[trigger] positions[i]].1,
{
    let name = "rel"@;
    let positions = lemma_values_positions(params, name);
    rows::lemma_same_wanted(
        positions,
        params.len(),
        |k: int| params[k].0 == name,
        |k: int| params[k].0 == "rel"@,
    );
    positions
}

proof fn lemma_resource_of(params: Seq<(Seq<char>, Seq<char>)>)
    ensures
        resource_of(params) is None <==> forall|k: int|
            0 <= k < params.len() ==> (#[trigger] params[k]).0 != "resource"@,
        forall|k: int| #[trigger]
            names_resource(params, k) ==> resource_of(params) == Some(params[k].1),
        resource_of(params) is Some ==> exists|k: int| #[trigger] names_resource(params, k),
{
    let name = "resource"@;
    let positions = lemma_values_positions(params, name);
    let wanted = |k: int| params[k].0 == name;
    let named = values_of(params, "resource"@);
    if named.len() == 0 {
        assert forall|k: int| 0 <= k < params.len() implies (#[trigger] params[k]).0
            != "resource"@ by {
            if params[k].0 == "resource"@ {
                assert(wanted(k));
                assert(positions.contains(k));
            }
        }
    } else {
        let first = positions[0];
        assert(wanted(first));
        assert(params[first].0 == "resource"@);
        assert(named[0] == params[first].1);
        assert forall|j: int| 0 <= j < first implies (#[trigger] params[j]).0 != "resource"@ by {
            if params[j].0 == "resource"@ {
                assert(wanted(j));
                let i = choose|i: int| 0 <= i < positions.len() && positions[i] == j;
                if i > 0 {
                    assert(positions[0] < positions[i]);
                }
            }
        }
        assert(names_resource(params, first));
        assert forall|k: int| #[trigger] names_resource(params, k) implies resource_of(params)
            == Some(params[k].1) by {
            if k < first {
                assert(params[k].0 != "resource"@);
            } else if first < k {
                assert(params[first].0 != "resource"@);
            }
        }
    }
}

/// How a query is read. Without a parameter named `resource` it is refused, and
/// the refusal says so. Else the first such parameter decides: where it is no
/// URI, the query is refused with it; where there are no backends, for that; and
/// else it is accepted, and asks for it.
pub proof fn law_query_is_read(
    params: Seq<(Seq<char>, Seq<char>)>,
    is_uri: bool,
    backends: nat,
    k: int,
)
    ensures
        (forall|j: int| 0 <= j < params.len() ==> (#[trigger] params[j]).0 != "resource"@)
            ==> query_asked(params, is_uri, backends) == Err::<QueryView, ErrorView>(
            ErrorView::InvalidResource("missing resource parameter"@),
        ),
        names_resource(params, k) && !is_uri ==> query_asked(params, is_uri, backends) == Err::<
            QueryView,
            ErrorView,
        >(ErrorView::InvalidResource(params[k].1)),
        names_resource(params, k) && is_uri && backends == 0 ==> query_asked(
            params,
            is_uri,
            backends,
        ) == Err::<QueryView, ErrorView>(ErrorView::NoBackends),
        names_resource(params, k) && is_uri && backends > 0 ==> query_asked(
            params,
            is_uri,
            backends,
        ) is Ok && query_asked(params, is_uri, backends)->Ok_0.resource == params[k].1,
        names_resource(params, k) ==> asks_for_uri(params) == (url_text::url_parsed(
            params[k].1,
        ) is Some),
{
    lemma_resource_of(params);
}

/// Parameters are viewed one by one, name and value letter for letter.
pub proof fn law_param_views(params: Seq<(String, String)>)
    ensures
        param_views(params).len() == params.len(),
        forall|i: int|
            0 <= i < params.len() ==> (#[trigger] param_views(params)[i]).0 == params[i].0@
                && param_views(params)[i].1 == params[i].1@,
{
}

/// A query's view says what it asks for.
pub proof fn law_query_view(query: WebfingerQuery)
    ensures
        query@.resource == query.resource@,
        query@.rels.len() == query.rels@.len(),
        forall|i: int| 0 <= i < query.rels@.len() ==> #[trigger] query@.rels[i] == query.rels@[i]@,
{
}

/// An answer that is a document has the links of the merge of all documents
/// that came back at exactly the positions where a relation is asked for, in
/// order; at all positions where none is. Everything else in it is as in that
/// merge, whatever relations are asked for.
pub proof fn law_answer_is_the_merge(out: FanOutView, rels: Seq<Seq<char>>) -> (positions: Seq<int>)
    requires
        out.successes.len() > 0,
    ensures
        conclusion_of(out, rels) is Ok,
        ({
            let answer = conclusion_of(out, rels)->Ok_0;
            let merge = webfinger::merged(out.successes);
            &&& rows::lists_exactly(
                positions,
                merge.links.len(),
                |k: int|
                    rels.len() == 0 || (merge.links[k].rel is Some && rels.contains(
                        merge.links[k].rel->0,
                    )),
            )
            &&& answer.links.len() == positions.len()
            &&& forall|i: int|
                0 <= i < positions.len() ==> answer.links[i] == merge.links[#[trigger] positions[i]]
            &&& answer.subject == merge.subject
            &&& answer.aliases == merge.aliases
            &&& answer.properties == merge.properties
            &&& answer.extra == merge.extra
        }),
{
    webfinger::law_filter_positions(webfinger::merged(out.successes), rels)
}

/// Every link of every document that came back is found in the answer by its
/// relation and target, where it has a relation and that is asked for, or none
/// is; and the answer has no links but such, each as some document has it.
pub proof fn law_answer_has_every_link(out: FanOutView, rels: Seq<Seq<char>>, i: int, p: int)
    requires
        0 <= i < out.successes.len(),
        0 <= p < out.successes[i].1.links.len(),
        out.successes[i].1.links[p].rel is Some,
        rels.len() == 0 || rels.contains(out.successes[i].1.links[p].rel->0),
    ensures
        conclusion_of(out, rels) is Ok,
        exists|m: int|
            0 <= m < conclusion_of(out, rels)->Ok_0.links.len() && (
            #[trigger] conclusion_of(out, rels)->Ok_0.links[m]).rel
                == out.successes[i].1.links[p].rel && conclusion_of(out, rels)->Ok_0.links[m].href
                == out.successes[i].1.links[p].href,
        forall|m: int|
            0 <= m < conclusion_of(out, rels)->Ok_0.links.len() ==> exists|j: int|
                0 <= j < out.successes.len() && (#[trigger] out.successes[j]).1.links.contains(
                    #[trigger] conclusion_of(out, rels)->Ok_0.links[m],
                ),
{
    let link = out.successes[i].1.links[p];
    let merge = webfinger::merged(out.successes);
    let answer = conclusion_of(out, rels)->Ok_0;
    let positions = law_answer_is_the_merge(out, rels);
    let wanted = |k: int|
        rels.len() == 0 || (merge.links[k].rel is Some && rels.contains(merge.links[k].rel->0));
    webfinger::law_every_link_is_found(out.successes, i, p);
    webfinger::law_links_are_sound(out.successes);
    let k = choose|k: int|
        0 <= k < merge.links.len() && (#[trigger] merge.links[k]).rel == link.rel
            && merge.links[k].href == link.href;
    assert(wanted(k));
    assert(positions.contains(k));
    let m = choose|m: int| 0 <= m < positions.len() && positions[m] == k;
    assert(answer.links[m] == merge.links[positions[m]]);
    assert(answer.links[m].rel == link.rel && answer.links[m].href == link.href);
    assert forall|m: int| 0 <= m < answer.links.len() implies exists|j: int|
        0 <= j < out.successes.len() && (#[trigger] out.successes[j]).1.links.contains(
            #[trigger] answer.links[m],
        ) by {
        assert(0 <= positions[m] < merge.links.len());
        assert(merge.links[positions[m]].rel is Some);
        assert(answer.links[m] == merge.links[positions[m]]);
    }
}

/// Without a document, a failure decides; then a resource that is gone; and
/// else it is not found. Backends that decline, or do not know the resource,
/// decide nothing.
pub proof fn law_answer_without_document(out: FanOutView, rels: Seq<Seq<char>>)
    requires
        out.successes.len() == 0,
    ensures
        out.failed > 0 ==> conclusion_of(out, rels) == Err::<JrdView, ErrorView>(
            ErrorView::AllBackendsFailed,
        ),
        out.failed == 0 && out.gone > 0 ==> conclusion_of(out, rels) == Err::<JrdView, ErrorView>(
            ErrorView::ResourceGone,
        ),
        out.failed == 0 && out.gone == 0 ==> conclusion_of(out, rels) == Err::<JrdView, ErrorView>(
            ErrorView::ResourceNotFound,
        ),
{
}

/// A backend is asked for exactly what the query asks: reading its query as a
/// form, it finds the resource and then the relation types, in order, each
/// letter for letter. Its answer counts at its own priority.
pub proof fn law_backend_gets_the_query(
    query: QueryView,
    to: BackendView,
    priority: u16,
    url: Option<Seq<char>>,
)
    requires
        asks(query, to, priority, url),
    ensures
        priority == to.priority,
        url is Some ==> ({
            let pairs = query::form_pairs(query::query_of(url->0));
            &&& pairs.len() == query.rels.len() + 1
            &&& pairs[0].0 == vstd::utf8::encode_utf8("resource"@)
            &&& pairs[0].1 == vstd::utf8::encode_utf8(query.resource)
            &&& forall|i: int|
                0 <= i < query.rels.len() ==> (#[trigger] pairs[i + 1]).0
                    == vstd::utf8::encode_utf8("rel"@) && pairs[i + 1].1
                    == vstd::utf8::encode_utf8(query.rels[i])
        }),
{
    if url is Some {
        query::law_backend_is_asked(
            url->0,
            backend::endpoint_of(to.url)->0,
            query.resource,
            query.rels,
        );
    }
}

/// The process is alive whatever it knows, and ready from the first sync on,
/// with backends or without.
pub proof fn law_health_and_readiness(state: StateView, now: u64, age: u64)
    ensures
        health_status_of(state, now) == 200,
        ready_status_of(state) == 200 <==> state.last_sync is Some,
        ready_status_of(state) == 503 <==> state.last_sync is None,
        seconds_of(None) is None,
        seconds_of(Some(age)) is Some,
        seconds_of(Some(age))->0 * 1_000_000_000 <= age < seconds_of(Some(age))->0 * 1_000_000_000
            + 1_000_000_000,
{
}

/// What comes of reading a query and of answering it is viewed as it is.
pub proof fn law_result_views(query: WebfingerQuery, document: JrdResource, error: Error)
    ensures
        query_result(Ok(query)) == Ok::<QueryView, ErrorView>(query@),
        query_result(Err(error)) == Err::<QueryView, ErrorView>(error@),
        answer_view(Ok(document)) == Ok::<JrdView, ErrorView>(document@),
        answer_view(Err(error)) == Err::<JrdView, ErrorView>(error@),
{
}

} // verus!
