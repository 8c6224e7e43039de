//! Backends, what they are asked, and what their answers amount to.
use crate::query;
use crate::query::build_query;
use crate::rows;
use crate::text;
use crate::url_text;
use crate::url_text::join_url;
use crate::webfinger;
use crate::webfinger::{JrdResource, JrdView};
use vstd::prelude::*;
use vstd::string::*;

verus! {

/// How many backends are asked at a time for one query.
pub const MAX_IN_FLIGHT: usize = 10;

/// The largest answer that is read: 256 KiB.
pub const MAX_BODY_BYTES: usize = 262144;

/// Where a backend answers queries, relative to its URL.
pub const WEBFINGER_PATH: &'static str = ".well-known/webfinger";

/// The media type that backends are asked for, and that the merged document
/// has.
pub const JRD_MEDIA_TYPE: &'static str = "application/jrd+json";

/// An application that answers WebFinger queries. `url` is an absolute URL as
/// the `url` crate writes it out.
#[derive(Debug)]
pub struct Backend {
    pub name: String,
    pub url: String,
    pub priority: u16,
}

pub struct BackendView {
    pub name: Seq<char>,
    pub url: Seq<char>,
    pub priority: u16,
}

impl View for Backend {
    type V = BackendView;

    open spec fn view(&self) -> BackendView {
        BackendView { name: self.name@, url: self.url@, priority: self.priority }
    }
}

impl Clone for Backend {
    fn clone(&self) -> (copy: Self)
        ensures
            copy@ == self@,
    {
        Backend { name: self.name.clone(), url: self.url.clone(), priority: self.priority }
    }
}

/// Where the backend at `base` answers queries.
pub open spec fn endpoint_of(base: Seq<char>) -> Option<Seq<char>> {
    url_text::url_joined(base, WEBFINGER_PATH@)
}

/// The URL by which a backend whose endpoint is `endpoint` is asked.
pub open spec fn request_of(
    endpoint: Option<Seq<char>>,
    resource: Seq<char>,
    rels: Seq<Seq<char>>,
) -> Option<Seq<char>> {
    match endpoint {
        Some(endpoint) => url_text::url_joined(
            endpoint,
            "?"@ + query::query_text(resource, rels),
        ),
        None => None,
    }
}

/// Where a backend answers queries; none where its URL is none to join to.
pub fn endpoint_url(backend: &Backend) -> (url: Option<String>)
    ensures
        text::opt_text(url) == endpoint_of(backend@.url),
{
    join_url(backend.url.as_str(), WEBFINGER_PATH)
}

/// The URL by which a backend is asked for a resource. It ends in the query,
/// whole.
pub fn request_url(backend: &Backend, resource: &str, rels: &[String]) -> (url: Option<String>)
    ensures
        text::opt_text(url) == request_of(
            endpoint_of(backend@.url),
            resource@,
            webfinger::text_views(rels@),
        ),
        url matches Some(u) ==> url_text::has_query(
            u@,
            endpoint_of(backend@.url)->0,
            query::query_text(resource@, webfinger::text_views(rels@)),
        ),
{
    match endpoint_url(backend) {
        Some(endpoint) => {
            let query = build_query(resource, rels);
            let mut reference = "?".to_owned();
            reference.append(query.as_str());
            proof {
                reveal_strlit("?");
                assert(reference@.drop_first() =~= query@);
                query::lemma_all_query(resource@, webfinger::text_views(rels@));
            }
            join_url(endpoint.as_str(), reference.as_str())
        },
        None => None,
    }
}

/// What the status of an answer says.
#[derive(Debug, Clone, Copy, PartialEq, Eq, Structural)]
pub enum Verdict {
    /// A document follows.
    Document,
    NotFound,
    Gone,
    /// The backend does not answer for resources of this form.
    Declined,
    /// Nothing that says whether the resource exists.
    Failed,
}

/// The verdict of an HTTP status.
pub open spec fn verdict_of(status: u16) -> Verdict {
    if 200 <= status < 300 {
        Verdict::Document
    } else if status == 404 {
        Verdict::NotFound
    } else if status == 410 {
        Verdict::Gone
    } else if 400 <= status < 500 {
        Verdict::Declined
    } else {
        Verdict::Failed
    }
}

/// Reads an HTTP status: only 2xx brings a document, 404 and 410 say that
/// there is none, any other 4xx declines to say, and the rest is a failure.
pub fn verdict(status: u16) -> (verdict: Verdict)
    ensures
        verdict == verdict_of(status),
{
    if 200 <= status && status < 300 {
        Verdict::Document
    } else if status == 404 {
        Verdict::NotFound
    } else if status == 410 {
        Verdict::Gone
    } else if 400 <= status && status < 500 {
        Verdict::Declined
    } else {
        Verdict::Failed
    }
}

/// A body with one more piece; none where it would be too large.
pub open spec fn after_chunk(body: Seq<u8>, chunk: Seq<u8>) -> Option<Seq<u8>> {
    if body.len() + chunk.len() <= MAX_BODY_BYTES {
        Some(body + chunk)
    } else {
        None
    }
}

/// The body of an answer as far as it has been read, never more than
/// `MAX_BODY_BYTES`.
#[derive(Debug)]
pub struct BodyBuffer {
    bytes: Vec<u8>,
}

impl View for BodyBuffer {
    type V = Seq<u8>;

    closed spec fn view(&self) -> Seq<u8> {
        self.bytes@
    }
}

impl BodyBuffer {
    #[verifier::type_invariant]
    spec fn wf(self) -> bool {
        self.bytes@.len() <= MAX_BODY_BYTES
    }

    /// Nothing read yet.
    pub fn new() -> (body: Self)
        ensures
            body@ == Seq::<u8>::empty(),
    {
        BodyBuffer { bytes: Vec::new() }
    }

    /// Adds the next piece of the body. Where that would make it too large,
    /// the buffer stays as it is, and the answer is `false`.
    pub fn push_chunk(&mut self, chunk: &[u8]) -> (fits: bool)
        ensures
            fits == (old(self)@.len() + chunk@.len() <= MAX_BODY_BYTES),
            final(self)@ == (if fits {
                old(self)@ + chunk@
            } else {
                old(self)@
            }),
            final(self)@.len() <= MAX_BODY_BYTES,
            fits == (after_chunk(old(self)@, chunk@) is Some),
            fits ==> final(self)@ == after_chunk(old(self)@, chunk@)->0,
    {
        proof {
            use_type_invariant(&*self);
        }
        if chunk.len() > MAX_BODY_BYTES - self.bytes.len() {
            return false;
        }
        let mut bytes: Vec<u8> = Vec::new();
        std::mem::swap(&mut bytes, &mut self.bytes);
        let ghost before = bytes@;
        for i in 0..chunk.len()
            invariant
                bytes@ == before + chunk@.take(i as int),
        {
            bytes.push(chunk[i]);
            assert(bytes@ =~= before + chunk@.take(i + 1));
        }
        assert(chunk@.take(chunk@.len() as int) =~= chunk@);
        self.bytes = bytes;
        true
    }

    /// What has been read.
    pub fn into_bytes(self) -> (bytes: Vec<u8>)
        ensures
            bytes@ == self@,
            bytes@.len() <= MAX_BODY_BYTES,
    {
        proof {
            use_type_invariant(&self);
        }
        self.bytes
    }
}

/// What asking one backend came to.
#[derive(Debug)]
pub enum Outcome {
    Success(JrdResource),
    NotFound,
    Gone,
    Declined,
    Failed,
}

pub enum OutcomeView {
    Success(JrdView),
    NotFound,
    Gone,
    Declined,
    Failed,
}

impl View for Outcome {
    type V = OutcomeView;

    open spec fn view(&self) -> OutcomeView {
        match self {
            Outcome::Success(document) => OutcomeView::Success(document@),
            Outcome::NotFound => OutcomeView::NotFound,
            Outcome::Gone => OutcomeView::Gone,
            Outcome::Declined => OutcomeView::Declined,
            Outcome::Failed => OutcomeView::Failed,
        }
    }
}

/// What an answer comes to. `status` is none where there was no answer;
/// `document` is none where the body was no document, could not be read, or
/// was too large.
pub open spec fn outcome_of(status: Option<u16>, document: Option<JrdView>) -> OutcomeView {
    match status {
        Some(status) => match verdict_of(status) {
            Verdict::Document => match document {
                Some(document) => OutcomeView::Success(document),
                None => OutcomeView::Failed,
            },
            Verdict::NotFound => OutcomeView::NotFound,
            Verdict::Gone => OutcomeView::Gone,
            Verdict::Declined => OutcomeView::Declined,
            Verdict::Failed => OutcomeView::Failed,
        },
        None => OutcomeView::Failed,
    }
}

/// A document by its view, where there is one.
pub open spec fn opt_document(document: Option<JrdResource>) -> Option<JrdView> {
    match document {
        Some(document) => Some(document@),
        None => None,
    }
}

/// Sums an answer up.
pub fn outcome(status: Option<u16>, document: Option<JrdResource>) -> (outcome: Outcome)
    ensures
        outcome@ == outcome_of(status, opt_document(document)),
{
    match status {
        Some(status) => match verdict(status) {
            Verdict::Document => match document {
                Some(document) => Outcome::Success(document),
                None => Outcome::Failed,
            },
            Verdict::NotFound => Outcome::NotFound,
            Verdict::Gone => Outcome::Gone,
            Verdict::Declined => Outcome::Declined,
            Verdict::Failed => Outcome::Failed,
        },
        None => Outcome::Failed,
    }
}

/// Only a document that arrived counts as a success, and only a 4xx status says
/// anything against the resource: whatever else happens is a failure.
pub proof fn law_what_counts_as_failure(status: Option<u16>, document: Option<JrdView>)
    ensures
        ({
            let outcome = outcome_of(status, document);
            &&& outcome is Success <==> (status matches Some(s) && 200 <= s < 300 && document is Some)
            &&& outcome is NotFound <==> status == Some(404u16)
            &&& outcome is Gone <==> status == Some(410u16)
            &&& outcome is NotFound || outcome is Gone || outcome is Declined <==> (
            status matches Some(s) && 400 <= s < 500)
        }),
{
}

/// What asking all backends came to: the documents that came back, each with
/// the priority of its backend, and how many of the others there were.
#[derive(Debug)]
pub struct FanOut {
    pub successes: Vec<(u16, JrdResource)>,
    pub not_found: usize,
    pub gone: usize,
    pub declined: usize,
    pub failed: usize,
}

pub struct FanOutView {
    pub successes: Seq<(u16, JrdView)>,
    pub not_found: nat,
    pub gone: nat,
    pub declined: nat,
    pub failed: nat,
}

impl View for FanOut {
    type V = FanOutView;

    open spec fn view(&self) -> FanOutView {
        FanOutView {
            successes: webfinger::response_views(self.successes@),
            not_found: self.not_found as nat,
            gone: self.gone as nat,
            declined: self.declined as nat,
            failed: self.failed as nat,
        }
    }
}

/// The documents among outcomes, in order.
pub open spec fn successes_of(outcomes: Seq<(u16, OutcomeView)>) -> Seq<(u16, JrdView)>
    decreases outcomes.len(),
{
    if outcomes.len() == 0 {
        Seq::empty()
    } else {
        let earlier = successes_of(outcomes.drop_last());
        match outcomes.last().1 {
            OutcomeView::Success(document) => earlier.push((outcomes.last().0, document)),
            _ => earlier,
        }
    }
}

/// How many of the outcomes are `outcome`.
pub open spec fn count_of(outcomes: Seq<(u16, OutcomeView)>, outcome: OutcomeView) -> nat
    decreases outcomes.len(),
{
    if outcomes.len() == 0 {
        0
    } else {
        count_of(outcomes.drop_last(), outcome) + if outcomes.last().1 == outcome {
            1nat
        } else {
            0nat
        }
    }
}

/// What outcomes add up to.
pub open spec fn tally_of(outcomes: Seq<(u16, OutcomeView)>) -> FanOutView {
    FanOutView {
        successes: successes_of(outcomes),
        not_found: count_of(outcomes, OutcomeView::NotFound),
        gone: count_of(outcomes, OutcomeView::Gone),
        declined: count_of(outcomes, OutcomeView::Declined),
        failed: count_of(outcomes, OutcomeView::Failed),
    }
}

/// Outcomes, each by its view.
pub open spec fn outcome_views(outcomes: Seq<(u16, Outcome)>) -> Seq<(u16, OutcomeView)> {
    outcomes.map_values(|outcome: (u16, Outcome)| (outcome.0, outcome.1@))
}

/// Adds outcomes up, each with the priority of its backend.
pub fn tally(outcomes: Vec<(u16, Outcome)>) -> (out: FanOut)
    ensures
        out@ == tally_of(outcome_views(outcomes@)),
{
    let ghost views = outcome_views(outcomes@);
    let mut out = FanOut { successes: Vec::new(), not_found: 0, gone: 0, declined: 0, failed: 0 };
    assert(views.take(0) =~= Seq::empty());
    assert(out@.successes =~= Seq::empty());
    let len: usize = outcomes.len();
    for outcome in it: outcomes
        invariant
            it.seq() == outcomes@,
            len == outcomes@.len(),
            views == outcome_views(outcomes@),
            out@ == tally_of(views.take(it.index() as int)),
            out.not_found <= it.index(),
            out.gone <= it.index(),
            out.declined <= it.index(),
            out.failed <= it.index(),
    {
        let ghost i = it.index() as int;
        let ghost before = out@.successes;
        proof {
            assert(views.take(i + 1).drop_last() =~= views.take(i));
            assert(views.take(i + 1).last() == views[i]);
            assert(views[i] == (outcome.0, outcome.1@));
        }
        let (priority, result) = outcome;
        match result {
            Outcome::Success(document) => {
                out.successes.push((priority, document));
                assert(out@.successes =~= before.push((priority, document@)));
            },
            Outcome::NotFound => {
                out.not_found = out.not_found + 1;
            },
            Outcome::Gone => {
                out.gone = out.gone + 1;
            },
            Outcome::Declined => {
                out.declined = out.declined + 1;
            },
            Outcome::Failed => {
                out.failed = out.failed + 1;
            },
        }
    }
    assert(views.take(views.len() as int) =~= views);
    out
}

/// No answer is lost and none counts twice.
pub proof fn law_tally_counts_everyone(outcomes: Seq<(u16, OutcomeView)>)
    ensures
        ({
            let out = tally_of(outcomes);
            out.successes.len() + out.not_found + out.gone + out.declined + out.failed
                == outcomes.len()
        }),
    decreases outcomes.len(),
{
    if outcomes.len() > 0 {
        law_tally_counts_everyone(outcomes.drop_last());
    }
}

/// Exactly the documents that came back are kept, each with the priority of
/// its backend.
pub proof fn law_tally_keeps_successes(
    outcomes: Seq<(u16, OutcomeView)>,
    priority: u16,
    document: JrdView,
)
    ensures
        tally_of(outcomes).successes.contains((priority, document)) <==> outcomes.contains(
            (priority, OutcomeView::Success(document)),
        ),
    decreases outcomes.len(),
{
    let success = (priority, OutcomeView::Success(document));
    let kept = successes_of(outcomes);
    if outcomes.len() > 0 {
        let rest = outcomes.drop_last();
        let earlier = successes_of(rest);
        law_tally_keeps_successes(rest, priority, document);
        assert(outcomes =~= rest.push(outcomes.last()));
        if outcomes.contains(success) {
            if outcomes.last() == success {
                assert(kept.last() == (priority, document));
            } else {
                let i = choose|i: int| 0 <= i < outcomes.len() && outcomes[i] == success;
                assert(rest[i] == success);
                let j = choose|j: int| 0 <= j < earlier.len() && earlier[j] == (priority, document);
                assert(kept[j] == (priority, document));
            }
        }
        if kept.contains((priority, document)) && outcomes.last() != success {
            let j = choose|j: int| 0 <= j < kept.len() && kept[j] == (priority, document);
            assert(earlier[j] == (priority, document));
            let i = choose|i: int| 0 <= i < rest.len() && rest[i] == success;
            assert(outcomes[i] == success);
        }
    }
}

/// An outcome is counted exactly where it occurs.
pub proof fn law_tally_counts_what_occurs(
    outcomes: Seq<(u16, OutcomeView)>,
    outcome: OutcomeView,
)
    ensures
        count_of(outcomes, outcome) > 0 <==> exists|i: int|
            0 <= i < outcomes.len() && (#[trigger] outcomes[i]).1 == outcome,
    decreases outcomes.len(),
{
    if outcomes.len() > 0 {
        let rest = outcomes.drop_last();
        law_tally_counts_what_occurs(rest, outcome);
        if count_of(outcomes, outcome) > 0 {
            if outcomes.last().1 == outcome {
                assert(outcomes[outcomes.len() - 1].1 == outcome);
            } else {
                let i = choose|i: int| 0 <= i < rest.len() && (#[trigger] rest[i]).1 == outcome;
                assert(outcomes[i].1 == outcome);
            }
        }
        if exists|i: int| 0 <= i < outcomes.len() && (#[trigger] outcomes[i]).1 == outcome {
            let i = choose|i: int| 0 <= i < outcomes.len() && (#[trigger] outcomes[i]).1 == outcome;
            if i < rest.len() {
                assert(rest[i].1 == outcome);
            }
        }
    }
}

/// A body is read whole, in whatever pieces it comes, exactly where it is no
/// larger than 256 KiB.
pub proof fn law_body_is_read_whole(body: Seq<u8>, first: Seq<u8>, second: Seq<u8>)
    ensures
        after_chunk(body, first) is Some <==> body.len() + first.len() <= 256 * 1024,
        after_chunk(body, first) matches Some(read) ==> read.len() == body.len() + first.len()
            && read.take(body.len() as int) == body && read.skip(body.len() as int) == first,
        after_chunk(body, first) matches Some(read) ==> after_chunk(read, second) == after_chunk(
            body,
            first + second,
        ),
{
    if after_chunk(body, first) is Some {
        let read = after_chunk(body, first)->0;
        assert(read.take(body.len() as int) =~= body);
        assert(read.skip(body.len() as int) =~= first);
        assert(read + second =~= body + (first + second));
    }
}

/// Where a document came with a status of 2xx, it is what comes of the answer,
/// as it is; whatever is no such success and no 4xx status is a failure, and so
/// is no answer at all.
pub proof fn law_outcome(status: u16, document: Option<JrdView>)
    ensures
        200 <= status < 300 && document is Some ==> outcome_of(Some(status), document)
            == OutcomeView::Success(document->0),
        200 <= status < 300 && document is None ==> outcome_of(Some(status), document) is Failed,
        status < 200 || 300 <= status < 400 || 500 <= status ==> outcome_of(
            Some(status),
            document,
        ) is Failed,
        400 <= status < 500 && status != 404 && status != 410 ==> outcome_of(
            Some(status),
            document,
        ) is Declined,
        status == 404 ==> outcome_of(Some(status), document) is NotFound,
        status == 410 ==> outcome_of(Some(status), document) is Gone,
        outcome_of(None, document) is Failed,
        200 <= status < 300 <==> verdict_of(status) is Document,
        status == 404 <==> verdict_of(status) is NotFound,
        status == 410 <==> verdict_of(status) is Gone,
        400 <= status < 500 && status != 404 && status != 410 <==> verdict_of(status) is Declined,
{
}

proof fn lemma_count_positions(
    outcomes: Seq<(u16, OutcomeView)>,
    outcome: OutcomeView,
) -> (positions: Seq<int>)
    ensures
        rows::lists_exactly(positions, outcomes.len(), |k: int| outcomes[k].1 == outcome),
        count_of(outcomes, outcome) == positions.len(),
    decreases outcomes.len(),
{
    let wanted = |k: int| outcomes[k].1 == outcome;
    if outcomes.len() == 0 {
        assert(rows::lists_exactly(Seq::empty(), outcomes.len(), wanted));
        Seq::empty()
    } else {
        let rest = outcomes.drop_last();
        let earlier = lemma_count_positions(rest, outcome);
        rows::lemma_same_wanted(earlier, rest.len(), |k: int| rest[k].1 == outcome, wanted);
        rows::lemma_positions_grow(earlier, rest.len(), wanted)
    }
}

/// Each count is the number of positions at which that outcome stands.
pub proof fn law_tally_counts_positions(outcomes: Seq<(u16, OutcomeView)>) -> (positions: (
    Seq<int>,
    Seq<int>,
    Seq<int>,
    Seq<int>,
))
    ensures
        rows::lists_exactly(positions.0, outcomes.len(), |k: int| outcomes[k].1 is NotFound),
        tally_of(outcomes).not_found == positions.0.len(),
        rows::lists_exactly(positions.1, outcomes.len(), |k: int| outcomes[k].1 is Gone),
        tally_of(outcomes).gone == positions.1.len(),
        rows::lists_exactly(positions.2, outcomes.len(), |k: int| outcomes[k].1 is Declined),
        tally_of(outcomes).declined == positions.2.len(),
        rows::lists_exactly(positions.3, outcomes.len(), |k: int| outcomes[k].1 is Failed),
        tally_of(outcomes).failed == positions.3.len(),
{
    let n = outcomes.len();
    let (a, b, c, d) = (
        OutcomeView::NotFound,
        OutcomeView::Gone,
        OutcomeView::Declined,
        OutcomeView::Failed,
    );
    let not_found = lemma_count_positions(outcomes, a);
    let gone = lemma_count_positions(outcomes, b);
    let declined = lemma_count_positions(outcomes, c);
    let failed = lemma_count_positions(outcomes, d);
    rows::lemma_same_wanted(
        not_found,
        n,
        |k: int| outcomes[k].1 == a,
        |k: int| outcomes[k].1 is NotFound,
    );
    rows::lemma_same_wanted(gone, n, |k: int| outcomes[k].1 == b, |k: int| outcomes[k].1 is Gone);
    rows::lemma_same_wanted(
        declined,
        n,
        |k: int| outcomes[k].1 == c,
        |k: int| outcomes[k].1 is Declined,
    );
    rows::lemma_same_wanted(
        failed,
        n,
        |k: int| outcomes[k].1 == d,
        |k: int| outcomes[k].1 is Failed,
    );
    (not_found, gone, declined, failed)
}

/// The documents are those at exactly the positions of a success, in order, each
/// with the priority of its own backend.
pub proof fn law_tally_success_positions(outcomes: Seq<(u16, OutcomeView)>) -> (positions: Seq<int>)
    ensures
        rows::lists_exactly(positions, outcomes.len(), |k: int| outcomes[k].1 is Success),
        tally_of(outcomes).successes.len() == positions.len(),
        forall|i: int|
            0 <= i < positions.len() ==> tally_of(outcomes).successes[i].0
                == outcomes[#[trigger] positions[i]].0 && OutcomeView::Success(
                tally_of(outcomes).successes[i].1,
            ) == outcomes[positions[i]].1,
    decreases outcomes.len(),
{
    let wanted = |k: int| outcomes[k].1 is Success;
    if outcomes.len() == 0 {
        assert(rows::lists_exactly(Seq::empty(), outcomes.len(), wanted));
        Seq::empty()
    } else {
        let rest = outcomes.drop_last();
        let earlier = law_tally_success_positions(rest);
        rows::lemma_same_wanted(earlier, rest.len(), |k: int| rest[k].1 is Success, wanted);
        let positions = rows::lemma_positions_grow(earlier, rest.len(), wanted);
        assert forall|i: int| 0 <= i < positions.len() implies tally_of(outcomes).successes[i].0
            == outcomes[#[trigger] positions[i]].0 && OutcomeView::Success(
            tally_of(outcomes).successes[i].1,
        ) == outcomes[positions[i]].1 by {
            if i < earlier.len() {
                assert(positions[i] == earlier[i]);
                assert(rest[earlier[i]] == outcomes[earlier[i]]);
                assert(tally_of(rest).successes[i].0 == rest[earlier[i]].0);
            }
        }
        positions
    }
}

/// A backend is asked under its own URL, at the well-known path, by the query
/// and nothing else.
pub proof fn law_where_a_backend_is_asked(
    base: Seq<char>,
    resource: Seq<char>,
    rels: Seq<Seq<char>>,
)
    ensures
        endpoint_of(base) == url_text::url_joined(base, ".well-known/webfinger"@),
        request_of(None, resource, rels) is None,
        endpoint_of(base) is None ==> request_of(endpoint_of(base), resource, rels) is None,
        endpoint_of(base) matches Some(endpoint) ==> request_of(endpoint_of(base), resource, rels)
            == url_text::url_joined(endpoint, seq!['?'] + query::query_text(resource, rels)),
{
    reveal_strlit("?");
    assert("?"@ =~= seq!['?']);
}

/// The views of a backend, an outcome and a tally say what they hold.
pub proof fn law_backend_views(backend: Backend, outcome: Outcome, out: FanOut)
    ensures
        backend@.name == backend.name@,
        backend@.url == backend.url@,
        backend@.priority == backend.priority,
        outcome is NotFound == outcome@ is NotFound,
        outcome is Gone == outcome@ is Gone,
        outcome is Declined == outcome@ is Declined,
        outcome is Failed == outcome@ is Failed,
        outcome matches Outcome::Success(document) ==> outcome@ == OutcomeView::Success(document@),
        out@.not_found == out.not_found,
        out@.gone == out.gone,
        out@.declined == out.declined,
        out@.failed == out.failed,
        out@.successes.len() == out.successes@.len(),
        forall|i: int|
            0 <= i < out.successes@.len() ==> (#[trigger] out@.successes[i]).0
                == out.successes@[i].0 && out@.successes[i].1 == out.successes@[i].1@,
{
}

/// Outcomes are viewed one by one, each with its priority.
pub proof fn law_outcome_views(outcomes: Seq<(u16, Outcome)>)
    ensures
        outcome_views(outcomes).len() == outcomes.len(),
        forall|i: int|
            0 <= i < outcomes.len() ==> (#[trigger] outcome_views(outcomes)[i]).0 == outcomes[i].0
                && outcome_views(outcomes)[i].1 == outcomes[i].1@,
{
}

/// A document, or none, is viewed as it is.
pub proof fn law_opt_document(document: JrdResource)
    ensures
        opt_document(None) is None,
        opt_document(Some(document)) == Some(document@),
{
}

} // verus!
