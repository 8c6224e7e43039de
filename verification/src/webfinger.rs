//! JRD documents (RFC 7033) and how several become one.
use crate::members::Members;
use crate::text::same_text;
use crate::{members, rows, text};
use vstd::prelude::*;
use vstd::string::*;

verus! {

/// `serde_json::Value`: a JSON value, carried through as it is.
#[verifier::external_type_specification]
#[verifier::external_body]
pub struct ExValue(serde_json::Value);

/// A single JRD link (RFC 7033, section 4.4.4).
///
/// `rel` is required there, but optional here, so that one malformed link is
/// dropped in a merge and does not fail the whole document. Members that the
/// RFC does not name, such as the `template` of a subscribe link, are kept in
/// `extra`.
#[derive(Debug, Clone)]
pub struct JrdLink {
    pub rel: Option<String>,
    pub href: Option<String>,
    pub media_type: Option<String>,
    pub titles: Option<Members<String>>,
    /// Property values are strings or null.
    pub properties: Option<Members<Option<String>>>,
    pub extra: Members<serde_json::Value>,
}

/// A JRD document.
#[derive(Debug, Clone)]
pub struct JrdResource {
    pub subject: Option<String>,
    pub aliases: Vec<String>,
    /// Property values are strings or null (RFC 7033, section 4.4.1).
    pub properties: Members<Option<String>>,
    pub links: Vec<JrdLink>,
    pub extra: Members<serde_json::Value>,
}

/// What can go wrong with the JSON form of a document. The text is the JSON
/// reader's or writer's own.
#[derive(Debug)]
pub enum Error {
    Json(String),
}

impl View for Error {
    type V = Seq<char>;

    open spec fn view(&self) -> Seq<char> {
        match self {
            Error::Json(text) => text@,
        }
    }
}

/// A JSON error in words.
pub open spec fn error_text(error: Seq<char>) -> Seq<char> {
    "JSON error: "@ + error
}

impl Error {
    /// The error in words.
    pub fn to_text(&self) -> (text: String)
        ensures
            text@ == error_text(self@),
    {
        match self {
            Error::Json(error) => {
                let mut text = "JSON error: ".to_owned();
                text.append(error.as_str());
                text
            },
        }
    }
}

pub struct LinkView {
    pub rel: Option<Seq<char>>,
    pub href: Option<Seq<char>>,
    pub media_type: Option<Seq<char>>,
    pub titles: Option<Map<Seq<char>, Seq<char>>>,
    pub properties: Option<Map<Seq<char>, Option<Seq<char>>>>,
    pub extra: Map<Seq<char>, serde_json::Value>,
}

pub struct JrdView {
    pub subject: Option<Seq<char>>,
    pub aliases: Seq<Seq<char>>,
    pub properties: Map<Seq<char>, Option<Seq<char>>>,
    pub links: Seq<LinkView>,
    pub extra: Map<Seq<char>, serde_json::Value>,
}

/// Texts or nulls by name, by their characters.
pub open spec fn opt_texts(map: Map<Seq<char>, Option<String>>) -> Map<
    Seq<char>,
    Option<Seq<char>>,
> {
    map.map_values(|value: Option<String>| text::opt_text(value))
}

/// Texts in a row, by their characters.
pub open spec fn text_views(row: Seq<String>) -> Seq<Seq<char>> {
    row.map_values(|t: String| t@)
}

/// Links in a row, each by its view.
pub open spec fn link_views(links: Seq<JrdLink>) -> Seq<LinkView> {
    links.map_values(|link: JrdLink| link@)
}

impl View for JrdLink {
    type V = LinkView;

    open spec fn view(&self) -> LinkView {
        LinkView {
            rel: text::opt_text(self.rel),
            href: text::opt_text(self.href),
            media_type: text::opt_text(self.media_type),
            titles: match self.titles {
                Some(titles) => Some(members::texts(titles@)),
                None => None,
            },
            properties: match self.properties {
                Some(properties) => Some(opt_texts(properties@)),
                None => None,
            },
            extra: self.extra@,
        }
    }
}

impl View for JrdResource {
    type V = JrdView;

    open spec fn view(&self) -> JrdView {
        JrdView {
            subject: text::opt_text(self.subject),
            aliases: text_views(self.aliases@),
            properties: opt_texts(self.properties@),
            links: link_views(self.links@),
            extra: self.extra@,
        }
    }
}

/// The document that says nothing.
pub open spec fn empty_document() -> JrdView {
    JrdView {
        subject: None,
        aliases: Seq::empty(),
        properties: Map::empty(),
        links: Seq::empty(),
        extra: Map::empty(),
    }
}

impl Default for JrdResource {
    fn default() -> (document: Self)
        ensures
            document@ == empty_document(),
    {
        let document = JrdResource {
            subject: None,
            aliases: Vec::new(),
            properties: Members::new(),
            links: Vec::new(),
            extra: Members::new(),
        };
        assert(document@.aliases =~= Seq::empty());
        assert(document@.properties =~= Map::empty());
        assert(document@.links =~= Seq::empty());
        document
    }
}

/// The responses of priority below `bound`, the highest first, and those of
/// one priority in the order in which they came.
pub open spec fn ranked_below(responses: Seq<(u16, JrdView)>, bound: nat) -> Seq<(u16, JrdView)>
    decreases bound,
{
    if bound == 0 {
        Seq::empty()
    } else {
        responses.filter(|r: (u16, JrdView)| r.0 == bound - 1) + ranked_below(
            responses,
            (bound - 1) as nat,
        )
    }
}

/// The responses in the order in which they count.
pub open spec fn ranked(responses: Seq<(u16, JrdView)>) -> Seq<(u16, JrdView)> {
    ranked_below(responses, 0x1_0000)
}

/// The documents of responses.
pub open spec fn documents(responses: Seq<(u16, JrdView)>) -> Seq<JrdView> {
    responses.map_values(|r: (u16, JrdView)| r.1)
}

/// Responses, each with its document by its view.
pub open spec fn response_views(responses: Seq<(u16, JrdResource)>) -> Seq<(u16, JrdView)> {
    responses.map_values(|r: (u16, JrdResource)| (r.0, r.1@))
}

/// Whether there is a subject, and not an empty one.
pub open spec fn says_something(subject: Option<Seq<char>>) -> bool {
    subject matches Some(text) && text.len() > 0
}

/// The subject that is kept of two: the earlier, unless it says nothing and the
/// later does.
pub open spec fn kept_subject(
    earlier: Option<Seq<char>>,
    later: Option<Seq<char>>,
) -> Option<Seq<char>> {
    if earlier is None || (!says_something(earlier) && says_something(later)) {
        later
    } else {
        earlier
    }
}

/// The first subject that is not empty; where all are, the first.
pub open spec fn first_subject(docs: Seq<JrdView>) -> Option<Seq<char>>
    decreases docs.len(),
{
    if docs.len() == 0 {
        None
    } else {
        kept_subject(first_subject(docs.drop_last()), docs.last().subject)
    }
}

/// All aliases, one document's behind the other's.
pub open spec fn all_aliases(docs: Seq<JrdView>) -> Seq<Seq<char>>
    decreases docs.len(),
{
    if docs.len() == 0 {
        Seq::empty()
    } else {
        all_aliases(docs.drop_last()) + docs.last().aliases
    }
}

/// All links, one document's behind the other's.
pub open spec fn all_links(docs: Seq<JrdView>) -> Seq<LinkView>
    decreases docs.len(),
{
    if docs.len() == 0 {
        Seq::empty()
    } else {
        all_links(docs.drop_last()) + docs.last().links
    }
}

/// A row of texts, each only where it occurs first.
pub open spec fn distinct(row: Seq<Seq<char>>) -> Seq<Seq<char>>
    decreases row.len(),
{
    if row.len() == 0 {
        Seq::empty()
    } else if row.drop_last().contains(row.last()) {
        distinct(row.drop_last())
    } else {
        distinct(row.drop_last()).push(row.last())
    }
}

/// Whether two links are one in a merge: the same relation to the same target.
pub open spec fn same_link(a: LinkView, b: LinkView) -> bool {
    a.rel == b.rel && a.href == b.href
}

/// Whether a link of that relation and target occurs.
pub open spec fn has_link(links: Seq<LinkView>, link: LinkView) -> bool {
    exists|i: int| 0 <= i < links.len() && same_link(#[trigger] links[i], link)
}

/// A row of links without those that have no relation, and each relation and
/// target only where it occurs first.
pub open spec fn distinct_links(links: Seq<LinkView>) -> Seq<LinkView>
    decreases links.len(),
{
    if links.len() == 0 {
        Seq::empty()
    } else if links.last().rel is None || has_link(links.drop_last(), links.last()) {
        distinct_links(links.drop_last())
    } else {
        distinct_links(links.drop_last()).push(links.last())
    }
}

/// All names in a row of maps, each with its first value.
pub open spec fn first_values<V>(maps: Seq<Map<Seq<char>, V>>) -> Map<Seq<char>, V>
    decreases maps.len(),
{
    if maps.len() == 0 {
        Map::empty()
    } else {
        maps.last().union_prefer_right(first_values(maps.drop_last()))
    }
}

/// The properties of each document.
pub open spec fn property_maps(docs: Seq<JrdView>) -> Seq<Map<Seq<char>, Option<Seq<char>>>> {
    docs.map_values(|doc: JrdView| doc.properties)
}

/// The other members of each document.
pub open spec fn extra_maps(docs: Seq<JrdView>) -> Seq<Map<Seq<char>, serde_json::Value>> {
    docs.map_values(|doc: JrdView| doc.extra)
}

/// Documents, the one that counts most first, as one document.
pub open spec fn merged_documents(docs: Seq<JrdView>) -> JrdView {
    JrdView {
        subject: first_subject(docs),
        aliases: distinct(all_aliases(docs)),
        properties: first_values(property_maps(docs)),
        links: distinct_links(all_links(docs)),
        extra: first_values(extra_maps(docs)),
    }
}

/// Responses as one document.
pub open spec fn merged(responses: Seq<(u16, JrdView)>) -> JrdView {
    merged_documents(documents(ranked(responses)))
}

/// The links whose relation is one of `rels`; all links where `rels` is empty.
pub open spec fn filtered_links(links: Seq<LinkView>, rels: Seq<Seq<char>>) -> Seq<LinkView> {
    if rels.len() == 0 {
        links
    } else {
        links.filter(|link: LinkView| link.rel is Some && rels.contains(link.rel->0))
    }
}

/// A document with its links filtered.
pub open spec fn filtered(document: JrdView, rels: Seq<Seq<char>>) -> JrdView {
    JrdView { links: filtered_links(document.links, rels), ..document }
}

fn replaces_subject(earlier: &Option<String>, later: &Option<String>) -> (replaces: bool)
    ensures
        kept_subject(text::opt_text(*earlier), text::opt_text(*later)) == (if replaces {
            text::opt_text(*later)
        } else {
            text::opt_text(*earlier)
        }),
{
    proof {
        reveal_strlit("");
    }
    match earlier {
        None => true,
        Some(earlier) => match later {
            Some(later) => {
                assert(earlier@.len() == 0 ==> earlier@ =~= ""@);
                assert(later@.len() == 0 ==> later@ =~= ""@);
                same_text(earlier.as_str(), "") && !same_text(later.as_str(), "")
            },
            None => false,
        },
    }
}

fn merge_members<V>(into: &mut Members<V>, from: Members<V>)
    ensures
        final(into)@ == from@.union_prefer_right(old(into)@),
{
    let ghost start = into@;
    let entries = from.into_entries();
    let ghost all = entries@;
    assert(all.take(0) =~= Seq::empty());
    assert(members::map_of(all.take(0)).union_prefer_right(start) =~= start);
    for entry in it: entries
        invariant
            it.seq() == all,
            members::distinct_names(all),
            into@ == members::map_of(all.take(it.index() as int)).union_prefer_right(start),
    {
        proof {
            let i = it.index() as int;
            assert(all.take(i + 1).drop_last() =~= all.take(i));
            assert(all.take(i + 1).last() == entry);
            members::lemma_name_is_new(all, i);
        }
        into.or_insert(entry.0, entry.1);
        assert(into@ =~= members::map_of(all.take(it.index() as int + 1)).union_prefer_right(start));
    }
    assert(all.take(all.len() as int) =~= all);
}

proof fn lemma_distinct_contains(row: Seq<Seq<char>>, x: Seq<char>)
    ensures
        distinct(row).contains(x) <==> row.contains(x),
    decreases row.len(),
{
    if row.len() > 0 {
        let rest = row.drop_last();
        lemma_distinct_contains(rest, x);
        lemma_distinct_contains(rest, row.last());
        if row.contains(x) {
            let i = choose|i: int| 0 <= i < row.len() && row[i] == x;
            if i < rest.len() {
                assert(rest[i] == x);
                let k = choose|k: int| 0 <= k < distinct(rest).len() && distinct(rest)[k] == x;
                assert(distinct(row)[k] == x);
            } else if !rest.contains(x) {
                assert(distinct(row)[distinct(row).len() - 1] == x);
            }
        }
        if distinct(row).contains(x) {
            let k = choose|k: int| 0 <= k < distinct(row).len() && distinct(row)[k] == x;
            if k < distinct(rest).len() {
                assert(distinct(rest)[k] == x);
                let i = choose|i: int| 0 <= i < rest.len() && rest[i] == x;
                assert(row[i] == x);
            } else {
                assert(row[row.len() - 1] == x);
            }
        }
    }
}

fn contains_text(row: &[String], t: &str) -> (found: bool)
    ensures
        found == text_views(row@).contains(t@),
{
    for i in 0..row.len()
        invariant
            forall|j: int| 0 <= j < i ==> text_views(row@)[j] != t@,
    {
        if same_text(row[i].as_str(), t) {
            assert(text_views(row@)[i as int] == t@);
            return true;
        }
    }
    false
}

fn merge_aliases(into: &mut Vec<String>, aliases: Vec<String>)
    ensures
        forall|earlier: Seq<Seq<char>>|
            text_views(old(into)@) == distinct(earlier) ==> text_views(final(into)@)
                == #[trigger] distinct(earlier + text_views(aliases@)),
{
    let ghost start = text_views(into@);
    let ghost all = text_views(aliases@);
    let ghost raw = aliases@;
    assert forall|earlier: Seq<Seq<char>>| start == distinct(earlier) implies text_views(into@)
        == #[trigger] distinct(earlier + all.take(0)) by {
        assert(earlier + all.take(0) =~= earlier);
    }
    for alias in it: aliases
        invariant
            it.seq() == raw,
            all == text_views(raw),
            forall|earlier: Seq<Seq<char>>|
                start == distinct(earlier) ==> text_views(into@) == #[trigger] distinct(
                    earlier + all.take(it.index() as int),
                ),
    {
        let ghost i = it.index() as int;
        let ghost before = into@;
        let ghost new = alias@;
        assert(all[i] == new);
        let known = contains_text(into.as_slice(), alias.as_str());
        if !known {
            into.push(alias);
            assert(text_views(into@) =~= text_views(before).push(new));
        }
        proof {
            assert forall|earlier: Seq<Seq<char>>| start == distinct(earlier) implies text_views(
                into@,
            ) == #[trigger] distinct(earlier + all.take(i + 1)) by {
                let row = earlier + all.take(i);
                assert(text_views(before) == distinct(row));
                lemma_distinct_contains(row, new);
                assert(earlier + all.take(i + 1) =~= row.push(new));
                assert(row.push(new).drop_last() =~= row);
            }
        }
    }
    assert(all.take(raw.len() as int) =~= all);
}

proof fn lemma_distinct_links_has(links: Seq<LinkView>, link: LinkView)
    requires
        link.rel is Some,
    ensures
        has_link(distinct_links(links), link) <==> has_link(links, link),
    decreases links.len(),
{
    if links.len() > 0 {
        let rest = links.drop_last();
        let last = links.last();
        lemma_distinct_links_has(rest, link);
        if has_link(links, link) {
            let i = choose|i: int| 0 <= i < links.len() && same_link(#[trigger] links[i], link);
            if i < rest.len() {
                assert(same_link(rest[i], link));
            } else if last.rel is Some && has_link(rest, last) {
                let j = choose|j: int| 0 <= j < rest.len() && same_link(#[trigger] rest[j], last);
                assert(same_link(rest[j], link));
            }
            if has_link(rest, link) {
                let k = choose|k: int|
                    0 <= k < distinct_links(rest).len() && same_link(
                        #[trigger] distinct_links(rest)[k],
                        link,
                    );
                assert(same_link(distinct_links(links)[k], link));
            } else {
                assert(same_link(distinct_links(links)[distinct_links(links).len() - 1], link));
            }
        }
        if has_link(distinct_links(links), link) {
            let k = choose|k: int|
                0 <= k < distinct_links(links).len() && same_link(
                    #[trigger] distinct_links(links)[k],
                    link,
                );
            if k < distinct_links(rest).len() {
                assert(same_link(distinct_links(rest)[k], link));
                let i = choose|i: int| 0 <= i < rest.len() && same_link(#[trigger] rest[i], link);
                assert(same_link(links[i], link));
            } else {
                assert(same_link(links[links.len() - 1], link));
            }
        }
    }
}

fn same_opt_text(a: &Option<String>, b: &Option<String>) -> (same: bool)
    ensures
        same == (text::opt_text(*a) == text::opt_text(*b)),
{
    match (a, b) {
        (Some(x), Some(y)) => same_text(x.as_str(), y.as_str()),
        (None, None) => true,
        _ => false,
    }
}

fn contains_link(links: &Vec<JrdLink>, link: &JrdLink) -> (found: bool)
    ensures
        found == has_link(link_views(links@), link@),
{
    for i in 0..links.len()
        invariant
            forall|j: int| 0 <= j < i ==> !same_link(#[trigger] link_views(links@)[j], link@),
    {
        assert(link_views(links@)[i as int] == links@[i as int]@);
        if same_opt_text(&links[i].rel, &link.rel) && same_opt_text(&links[i].href, &link.href) {
            return true;
        }
    }
    false
}

fn merge_links(into: &mut Vec<JrdLink>, links: Vec<JrdLink>)
    ensures
        forall|earlier: Seq<LinkView>|
            link_views(old(into)@) == distinct_links(earlier) ==> link_views(final(into)@)
                == #[trigger] distinct_links(earlier + link_views(links@)),
{
    let ghost start = link_views(into@);
    let ghost all = link_views(links@);
    let ghost raw = links@;
    assert forall|earlier: Seq<LinkView>| start == distinct_links(earlier) implies link_views(into@)
        == #[trigger] distinct_links(earlier + all.take(0)) by {
        assert(earlier + all.take(0) =~= earlier);
    }
    for link in it: links
        invariant
            it.seq() == raw,
            all == link_views(raw),
            forall|earlier: Seq<LinkView>|
                start == distinct_links(earlier) ==> link_views(into@)
                    == #[trigger] distinct_links(earlier + all.take(it.index() as int)),
    {
        let ghost i = it.index() as int;
        let ghost before = into@;
        let ghost new = link@;
        assert(all[i] == new);
        if link.rel.is_some() && !contains_link(into, &link) {
            into.push(link);
            assert(link_views(into@) =~= link_views(before).push(new));
        }
        proof {
            assert forall|earlier: Seq<LinkView>| start == distinct_links(
                earlier,
            ) implies link_views(into@) == #[trigger] distinct_links(earlier + all.take(i + 1)) by {
                let row = earlier + all.take(i);
                assert(link_views(before) == distinct_links(row));
                if new.rel is Some {
                    lemma_distinct_links_has(row, new);
                }
                assert(earlier + all.take(i + 1) =~= row.push(new));
                assert(row.push(new).drop_last() =~= row);
            }
        }
    }
    assert(all.take(raw.len() as int) =~= all);
}

proof fn lemma_ranked_bounds(responses: Seq<(u16, JrdView)>, bound: nat)
    ensures
        forall|i: int|
            0 <= i < ranked_below(responses, bound).len() ==> (
            #[trigger] ranked_below(responses, bound)[i]).0 < bound,
        forall|i: int, j: int|
            0 <= i < j < ranked_below(responses, bound).len() ==> (
            #[trigger] ranked_below(responses, bound)[i]).0 >= (
            #[trigger] ranked_below(responses, bound)[j]).0,
    decreases bound,
{
    if bound > 0 {
        let keep = |r: (u16, JrdView)| r.0 == bound - 1;
        let top = responses.filter(keep);
        let rest = ranked_below(responses, (bound - 1) as nat);
        let all = ranked_below(responses, bound);
        lemma_ranked_bounds(responses, (bound - 1) as nat);
        assert forall|i: int| 0 <= i < top.len() implies (#[trigger] top[i]).0 == bound - 1 by {
            responses.lemma_filter_pred(keep, i);
        }
        assert forall|i: int| 0 <= i < all.len() implies (#[trigger] all[i]).0 < bound by {
            if i >= top.len() {
                assert(all[i] == rest[i - top.len()]);
            }
        }
        assert forall|i: int, j: int| 0 <= i < j < all.len() implies (#[trigger] all[i]).0 >= (
        #[trigger] all[j]).0 by {
            if i >= top.len() {
                assert(all[i] == rest[i - top.len()]);
                assert(all[j] == rest[j - top.len()]);
            } else if j >= top.len() {
                assert(all[j] == rest[j - top.len()]);
            }
        }
    }
}

/// One more response goes behind those of its own priority and above.
proof fn lemma_ranked_push(
    responses: Seq<(u16, JrdView)>,
    new: (u16, JrdView),
    bound: nat,
    at: int,
)
    requires
        0 <= at <= ranked_below(responses, bound).len(),
        forall|i: int| 0 <= i < at ==> (#[trigger] ranked_below(responses, bound)[i]).0 >= new.0,
        forall|i: int|
            at <= i < ranked_below(responses, bound).len() ==> (
            #[trigger] ranked_below(responses, bound)[i]).0 < new.0,
    ensures
        ranked_below(responses.push(new), bound) == (if new.0 < bound {
            ranked_below(responses, bound).insert(at, new)
        } else {
            ranked_below(responses, bound)
        }),
    decreases bound,
{
    if bound > 0 {
        let keep = |r: (u16, JrdView)| r.0 == bound - 1;
        let top = responses.filter(keep);
        let lower = (bound - 1) as nat;
        let rest = ranked_below(responses, lower);
        let all = ranked_below(responses, bound);
        lemma_ranked_bounds(responses, lower);
        assert forall|i: int| 0 <= i < top.len() implies (#[trigger] top[i]).0 == bound - 1 by {
            responses.lemma_filter_pred(keep, i);
        }
        assert(responses.push(new).filter(keep) == if keep(new) {
            top.push(new)
        } else {
            top
        }) by {
            reveal(Seq::filter);
            assert(responses.push(new).drop_last() =~= responses);
        }
        assert forall|i: int| 0 <= i < rest.len() implies all[i + top.len()] == #[trigger] rest[i] by {}
        if new.0 >= lower {
            assert forall|i: int| 0 <= i < rest.len() implies (#[trigger] rest[i]).0 < new.0 by {}
            lemma_ranked_push(responses, new, lower, 0);
            if new.0 == lower {
                if at < top.len() {
                    assert(all[at] == top[at]);
                }
                if at > top.len() {
                    assert(all[top.len() as int] == rest[0]);
                }
                assert(at == top.len());
                assert(top.push(new) + rest =~= (top + rest).insert(at, new));
            }
        } else {
            if at < top.len() {
                assert(all[at] == top[at]);
            }
            let below = at - top.len();
            assert forall|i: int| 0 <= i < below implies (#[trigger] rest[i]).0 >= new.0 by {
                assert(all[i + top.len()] == rest[i]);
            }
            assert forall|i: int| below <= i < rest.len() implies (#[trigger] rest[i]).0 < new.0 by {
                assert(all[i + top.len()] == rest[i]);
            }
            lemma_ranked_push(responses, new, lower, below);
            assert(top + rest.insert(below, new) =~= (top + rest).insert(at, new));
        }
    }
}

fn rank(responses: Vec<(u16, JrdResource)>) -> (sorted: Vec<(u16, JrdResource)>)
    ensures
        response_views(sorted@) == ranked(response_views(responses@)),
{
    let mut sorted: Vec<(u16, JrdResource)> = Vec::new();
    let ghost raw = responses@;
    let ghost all = response_views(raw);
    proof {
        assert(all.take(0) =~= Seq::empty());
        lemma_ranked_empty(0x1_0000);
        assert(response_views(sorted@) =~= Seq::empty());
    }
    for response in it: responses
        invariant
            it.seq() == raw,
            all == response_views(raw),
            response_views(sorted@) == ranked(all.take(it.index() as int)),
    {
        let ghost i = it.index() as int;
        let ghost new = (response.0, response.1@);
        let ghost before = response_views(sorted@);
        assert(all[i] == new);
        proof {
            lemma_ranked_bounds(all.take(i), 0x1_0000);
        }
        let mut at: usize = 0;
        while at < sorted.len() && sorted[at].0 >= response.0
            invariant
                at <= sorted.len(),
                before == response_views(sorted@),
                new.0 == response.0,
                forall|k: int| 0 <= k < at ==> (#[trigger] before[k]).0 >= new.0,
            decreases sorted.len() - at,
        {
            assert(before[at as int].0 == sorted@[at as int].0);
            at = at + 1;
        }
        proof {
            assert forall|k: int| at <= k < before.len() implies (#[trigger] before[k]).0
                < new.0 by {
                assert(before[at as int].0 == sorted@[at as int].0);
                if k > at {
                    assert(before[at as int].0 >= before[k].0);
                }
            }
            lemma_ranked_push(all.take(i), new, 0x1_0000, at as int);
            assert(all.take(i + 1) =~= all.take(i).push(new));
        }
        sorted.insert(at, response);
        assert(response_views(sorted@) =~= before.insert(at as int, new));
    }
    assert(all.take(raw.len() as int) =~= all);
    sorted
}

proof fn lemma_ranked_empty(bound: nat)
    ensures
        ranked_below(Seq::empty(), bound) == Seq::<(u16, JrdView)>::empty(),
    decreases bound,
{
    if bound > 0 {
        lemma_ranked_empty((bound - 1) as nat);
        let keep = |r: (u16, JrdView)| r.0 == bound - 1;
        reveal(Seq::filter);
        assert(Seq::<(u16, JrdView)>::empty().filter(keep) =~= Seq::empty());
        assert(ranked_below(Seq::empty(), bound) =~= Seq::<(u16, JrdView)>::empty());
    }
}

/// Merges the responses of several backends, each with its priority, into one
/// document.
///
/// A response of higher priority counts before one of lower; of one priority,
/// they count as they came. The first subject that is not empty is kept, each
/// property and each other member keeps its first value, aliases are put
/// together without repeats, and so are links, by `rel` and `href`. Links
/// without a `rel` are dropped.
pub fn merge_jrd(responses: Vec<(u16, JrdResource)>) -> (document: JrdResource)
    ensures
        document@ == merged(response_views(responses@)),
{
    let sorted = rank(responses);
    let ghost raw = sorted@;
    let ghost docs = documents(response_views(raw));
    let mut result = JrdResource::default();
    assert(docs.take(0) =~= Seq::empty());
    for response in it: sorted
        invariant
            it.seq() == raw,
            docs == documents(response_views(raw)),
            result@ == merged_documents(docs.take(it.index() as int)),
    {
        let ghost i = it.index() as int;
        let ghost doc = response.1@;
        proof {
            assert(docs[i] == doc);
            assert(docs.take(i + 1).drop_last() =~= docs.take(i));
            assert(docs.take(i + 1).last() == doc);
            assert(property_maps(docs.take(i + 1)).drop_last() =~= property_maps(docs.take(i)));
            assert(extra_maps(docs.take(i + 1)).drop_last() =~= extra_maps(docs.take(i)));
        }
        let response = response.1;
        if replaces_subject(&result.subject, &response.subject) {
            result.subject = response.subject;
        }
        merge_aliases(&mut result.aliases, response.aliases);
        let ghost properties = result.properties@;
        let ghost more = response.properties@;
        merge_members(&mut result.properties, response.properties);
        assert(opt_texts(result.properties@) =~= opt_texts(more).union_prefer_right(
            opt_texts(properties),
        ));
        merge_links(&mut result.links, response.links);
        merge_members(&mut result.extra, response.extra);
    }
    assert(docs.take(raw.len() as int) =~= docs);
    result
}

/// Leaves only the links whose `rel` was asked for (RFC 7033, section 4.3):
/// backends may or may not have done so themselves. Where no `rel` was asked
/// for, every link stays.
pub fn filter_rels(resource: &mut JrdResource, rels: &[String])
    ensures
        final(resource)@ == filtered(old(resource)@, text_views(rels@)),
{
    if rels.len() == 0 {
        return;
    }
    let ghost wanted = text_views(rels@);
    let ghost keep = |link: LinkView| link.rel is Some && wanted.contains(link.rel->0);
    let ghost all = link_views(resource.links@);
    let mut links: Vec<JrdLink> = Vec::new();
    std::mem::swap(&mut links, &mut resource.links);
    let ghost raw = links@;
    proof {
        reveal(Seq::filter);
        assert(all.take(0) =~= Seq::empty());
        assert(link_views(resource.links@) =~= Seq::empty());
    }
    for link in it: links
        invariant
            it.seq() == raw,
            all == link_views(raw),
            wanted == text_views(rels@),
            keep == (|link: LinkView| link.rel is Some && wanted.contains(link.rel->0)),
            link_views(resource.links@) == all.take(it.index() as int).filter(keep),
            resource.subject == old(resource).subject,
            resource.aliases == old(resource).aliases,
            resource.properties == old(resource).properties,
            resource.extra == old(resource).extra,
    {
        let ghost i = it.index() as int;
        let ghost new = link@;
        let ghost before = resource.links@;
        assert(all[i] == new);
        let asked = match &link.rel {
            Some(rel) => contains_text(rels, rel.as_str()),
            None => false,
        };
        if asked {
            resource.links.push(link);
            assert(link_views(resource.links@) =~= link_views(before).push(new));
        }
        proof {
            reveal(Seq::filter);
            assert(all.take(i + 1).drop_last() =~= all.take(i));
            assert(all.take(i + 1).last() == new);
        }
    }
    assert(all.take(raw.len() as int) =~= all);
}

proof fn lemma_ranked_contains(responses: Seq<(u16, JrdView)>, bound: nat, x: (u16, JrdView))
    ensures
        ranked_below(responses, bound).contains(x) <==> responses.contains(x) && x.0 < bound,
    decreases bound,
{
    if bound > 0 {
        let keep = |r: (u16, JrdView)| r.0 == bound - 1;
        let top = responses.filter(keep);
        let rest = ranked_below(responses, (bound - 1) as nat);
        let all = ranked_below(responses, bound);
        lemma_ranked_contains(responses, (bound - 1) as nat, x);
        if all.contains(x) {
            let i = choose|i: int| 0 <= i < all.len() && all[i] == x;
            if i < top.len() {
                assert(top[i] == x);
                responses.lemma_filter_contains_rev(keep, x);
                responses.lemma_filter_pred(keep, i);
            } else {
                assert(rest[i - top.len()] == x);
            }
        }
        if responses.contains(x) && x.0 < bound {
            if x.0 == bound - 1 {
                let i = choose|i: int| 0 <= i < responses.len() && responses[i] == x;
                responses.lemma_filter_contains(keep, i);
                let k = choose|k: int| 0 <= k < top.len() && top[k] == x;
                assert(all[k] == x);
            } else {
                let k = choose|k: int| 0 <= k < rest.len() && rest[k] == x;
                assert(all[k + top.len()] == x);
            }
        }
    }
}

proof fn lemma_all_parts(docs: Seq<JrdView>, i: int)
    requires
        0 <= i < docs.len(),
    ensures
        forall|alias: Seq<char>| #[trigger]
            docs[i].aliases.contains(alias) ==> all_aliases(docs).contains(alias),
        forall|k: int|
            0 <= k < docs[i].links.len() ==> has_link(all_links(docs), #[trigger] docs[i].links[k]),
    decreases docs.len(),
{
    let rest = docs.drop_last();
    let last = docs.last();
    if i < rest.len() {
        lemma_all_parts(rest, i);
        assert(rest[i] == docs[i]);
    }
    assert forall|alias: Seq<char>| #[trigger]
        docs[i].aliases.contains(alias) implies all_aliases(docs).contains(alias) by {
        if i < rest.len() {
            let k = choose|k: int|
                0 <= k < all_aliases(rest).len() && all_aliases(rest)[k] == alias;
            assert(all_aliases(docs)[k] == alias);
        } else {
            let k = choose|k: int| 0 <= k < last.aliases.len() && last.aliases[k] == alias;
            assert(all_aliases(docs)[k + all_aliases(rest).len()] == alias);
        }
    }
    assert forall|k: int| 0 <= k < docs[i].links.len() implies has_link(
        all_links(docs),
        #[trigger] docs[i].links[k],
    ) by {
        let link = docs[i].links[k];
        if i < rest.len() {
            assert(has_link(all_links(rest), rest[i].links[k]));
            let m = choose|m: int|
                0 <= m < all_links(rest).len() && same_link(#[trigger] all_links(rest)[m], link);
            assert(same_link(all_links(docs)[m], link));
        } else {
            assert(same_link(all_links(docs)[k + all_links(rest).len()], link));
        }
    }
}

proof fn lemma_distinct_no_duplicates(row: Seq<Seq<char>>)
    ensures
        distinct(row).no_duplicates(),
    decreases row.len(),
{
    if row.len() > 0 {
        let rest = row.drop_last();
        lemma_distinct_no_duplicates(rest);
        lemma_distinct_contains(rest, row.last());
        if !rest.contains(row.last()) {
            assert forall|i: int, j: int|
                0 <= i < distinct(row).len() && 0 <= j < distinct(row).len() && i != j implies distinct(
                row,
            )[i] != distinct(row)[j] by {
                if i == distinct(rest).len() {
                    assert(distinct(rest).contains(distinct(rest)[j]));
                } else if j == distinct(rest).len() {
                    assert(distinct(rest).contains(distinct(rest)[i]));
                }
            }
        }
    }
}

proof fn lemma_distinct_links(links: Seq<LinkView>)
    ensures
        forall|i: int|
            0 <= i < distinct_links(links).len() ==> (#[trigger] distinct_links(links)[i]).rel
                is Some && links.contains(distinct_links(links)[i]),
        forall|i: int, j: int|
            0 <= i < j < distinct_links(links).len() ==> !same_link(
                #[trigger] distinct_links(links)[i],
                #[trigger] distinct_links(links)[j],
            ),
    decreases links.len(),
{
    if links.len() > 0 {
        let rest = links.drop_last();
        let last = links.last();
        let all = distinct_links(links);
        let few = distinct_links(rest);
        lemma_distinct_links(rest);
        assert forall|i: int| 0 <= i < all.len() implies (#[trigger] all[i]).rel is Some
            && links.contains(all[i]) by {
            if i < few.len() {
                assert(few[i] == all[i]);
                let k = choose|k: int| 0 <= k < rest.len() && rest[k] == few[i];
                assert(links[k] == all[i]);
            } else {
                assert(links[links.len() - 1] == all[i]);
            }
        }
        assert forall|i: int, j: int| 0 <= i < j < all.len() implies !same_link(
            #[trigger] all[i],
            #[trigger] all[j],
        ) by {
            if j < few.len() {
                assert(!same_link(few[i], few[j]));
            } else {
                lemma_distinct_links_has(rest, last);
                if same_link(all[i], last) {
                    assert(same_link(few[i], last));
                }
            }
        }
    }
}

proof fn lemma_all_links_from(docs: Seq<JrdView>, link: LinkView)
    requires
        all_links(docs).contains(link),
    ensures
        exists|i: int| 0 <= i < docs.len() && (#[trigger] docs[i]).links.contains(link),
    decreases docs.len(),
{
    let rest = docs.drop_last();
    let k = choose|k: int| 0 <= k < all_links(docs).len() && all_links(docs)[k] == link;
    if k < all_links(rest).len() {
        assert(all_links(rest)[k] == link);
        lemma_all_links_from(rest, link);
        let i = choose|i: int| 0 <= i < rest.len() && (#[trigger] rest[i]).links.contains(link);
        assert(docs[i].links.contains(link));
    } else {
        assert(docs.last().links[k - all_links(rest).len()] == link);
        assert(docs[docs.len() - 1].links.contains(link));
    }
}

/// A merged document names no alias twice.
pub proof fn law_merged_aliases_are_distinct(responses: Seq<(u16, JrdView)>)
    ensures
        merged(responses).aliases.no_duplicates(),
{
    lemma_distinct_no_duplicates(all_aliases(documents(ranked(responses))));
}

/// Whether some response has that link.
pub open spec fn comes_from(responses: Seq<(u16, JrdView)>, link: LinkView) -> bool {
    exists|r: (u16, JrdView)| #[trigger] responses.contains(r) && r.1.links.contains(link)
}

/// Every link of a merged document has a `rel`, no two have the same `rel` and
/// `href`, and each is the link of some response, unchanged.
pub proof fn law_merged_links_are_distinct(responses: Seq<(u16, JrdView)>)
    ensures
        forall|i: int|
            0 <= i < merged(responses).links.len() ==> (#[trigger] merged(responses).links[i]).rel
                is Some,
        forall|i: int, j: int|
            0 <= i < j < merged(responses).links.len() ==> !same_link(
                #[trigger] merged(responses).links[i],
                #[trigger] merged(responses).links[j],
            ),
        forall|i: int|
            0 <= i < merged(responses).links.len() ==> comes_from(
                responses,
                #[trigger] merged(responses).links[i],
            ),
{
    let order = ranked(responses);
    let docs = documents(order);
    let links = all_links(docs);
    lemma_distinct_links(links);
    assert forall|i: int| 0 <= i < merged(responses).links.len() implies comes_from(
        responses,
        #[trigger] merged(responses).links[i],
    ) by {
        let link = merged(responses).links[i];
        assert(links.contains(link));
        lemma_all_links_from(docs, link);
        let k = choose|k: int| 0 <= k < docs.len() && (#[trigger] docs[k]).links.contains(link);
        assert(order.contains(order[k]));
        lemma_ranked_contains(responses, 0x1_0000, order[k]);
        assert(responses.contains(order[k]) && order[k].1.links.contains(link));
    }
}

/// A merge loses nothing but repeats and links without a `rel`: every alias,
/// every property name, every other member's name, and every link, up to its
/// `rel` and `href`, of every response is there.
pub proof fn law_merge_keeps_everything(responses: Seq<(u16, JrdView)>, r: (u16, JrdView))
    requires
        responses.contains(r),
    ensures
        forall|alias: Seq<char>| #[trigger]
            r.1.aliases.contains(alias) ==> merged(responses).aliases.contains(alias),
        forall|i: int|
            0 <= i < r.1.links.len() && (#[trigger] r.1.links[i]).rel is Some ==> has_link(
                merged(responses).links,
                r.1.links[i],
            ),
        forall|name: Seq<char>| #[trigger]
            r.1.properties.contains_key(name) ==> merged(responses).properties.contains_key(name),
        forall|name: Seq<char>| #[trigger]
            r.1.extra.contains_key(name) ==> merged(responses).extra.contains_key(name),
        r.1.subject is Some ==> merged(responses).subject is Some,
        says_something(r.1.subject) ==> says_something(merged(responses).subject),
{
    let order = ranked(responses);
    let docs = documents(order);
    lemma_ranked_contains(responses, 0x1_0000, r);
    let k = choose|k: int| 0 <= k < order.len() && order[k] == r;
    assert(docs[k] == r.1);
    lemma_all_parts(docs, k);
    assert forall|alias: Seq<char>| #[trigger]
        r.1.aliases.contains(alias) implies merged(responses).aliases.contains(alias) by {
        assert(docs[k].aliases.contains(alias));
        lemma_distinct_contains(all_aliases(docs), alias);
    }
    assert forall|i: int|
        0 <= i < r.1.links.len() && (#[trigger] r.1.links[i]).rel is Some implies has_link(
        merged(responses).links,
        r.1.links[i],
    ) by {
        assert(has_link(all_links(docs), docs[k].links[i]));
        lemma_distinct_links_has(all_links(docs), r.1.links[i]);
    }
    if r.1.subject is Some {
        lemma_some_subject(docs, k);
    }
    assert forall|name: Seq<char>| #[trigger]
        r.1.properties.contains_key(name) implies merged(responses).properties.contains_key(name) by {
        assert(property_maps(docs)[k] == r.1.properties);
        lemma_present(property_maps(docs), k, name);
    }
    assert forall|name: Seq<char>| #[trigger]
        r.1.extra.contains_key(name) implies merged(responses).extra.contains_key(name) by {
        assert(extra_maps(docs)[k] == r.1.extra);
        lemma_present(extra_maps(docs), k, name);
    }
}

proof fn lemma_no_subject(docs: Seq<JrdView>)
    requires
        forall|j: int| 0 <= j < docs.len() ==> !says_something((#[trigger] docs[j]).subject),
    ensures
        !says_something(first_subject(docs)),
    decreases docs.len(),
{
    if docs.len() > 0 {
        let rest = docs.drop_last();
        assert forall|j: int| 0 <= j < rest.len() implies !says_something(
            (#[trigger] rest[j]).subject,
        ) by {
            assert(rest[j] == docs[j]);
        }
        lemma_no_subject(rest);
        assert(!says_something(docs[docs.len() - 1].subject));
    }
}

proof fn lemma_some_subject(docs: Seq<JrdView>, i: int)
    requires
        0 <= i < docs.len(),
        docs[i].subject is Some,
    ensures
        first_subject(docs) is Some,
        says_something(docs[i].subject) ==> says_something(first_subject(docs)),
    decreases docs.len(),
{
    if i < docs.len() - 1 {
        assert(docs.drop_last()[i] == docs[i]);
        lemma_some_subject(docs.drop_last(), i);
    }
}

proof fn lemma_first_subject(docs: Seq<JrdView>, i: int)
    requires
        0 <= i < docs.len(),
        says_something(docs[i].subject),
        forall|j: int| 0 <= j < i ==> !says_something((#[trigger] docs[j]).subject),
    ensures
        first_subject(docs) == docs[i].subject,
    decreases docs.len(),
{
    let rest = docs.drop_last();
    assert forall|j: int| 0 <= j < i implies !says_something((#[trigger] rest[j]).subject) by {
        assert(rest[j] == docs[j]);
    }
    if i < rest.len() {
        assert(rest[i] == docs[i]);
        lemma_first_subject(rest, i);
    } else {
        lemma_no_subject(rest);
    }
}

proof fn lemma_absent<V>(maps: Seq<Map<Seq<char>, V>>, name: Seq<char>)
    requires
        forall|j: int| 0 <= j < maps.len() ==> !(#[trigger] maps[j]).contains_key(name),
    ensures
        !first_values(maps).contains_key(name),
    decreases maps.len(),
{
    if maps.len() > 0 {
        let rest = maps.drop_last();
        assert forall|j: int| 0 <= j < rest.len() implies !(#[trigger] rest[j]).contains_key(name) by {
            assert(!maps[j].contains_key(name));
        }
        lemma_absent(rest, name);
        assert(!maps[maps.len() - 1].contains_key(name));
    }
}

proof fn lemma_present<V>(maps: Seq<Map<Seq<char>, V>>, i: int, name: Seq<char>)
    requires
        0 <= i < maps.len(),
        maps[i].contains_key(name),
    ensures
        first_values(maps).contains_key(name),
    decreases maps.len(),
{
    if i < maps.len() - 1 {
        assert(maps.drop_last()[i] == maps[i]);
        lemma_present(maps.drop_last(), i, name);
    }
}

proof fn lemma_first_value<V>(maps: Seq<Map<Seq<char>, V>>, i: int, name: Seq<char>)
    requires
        0 <= i < maps.len(),
        maps[i].contains_key(name),
        forall|j: int| 0 <= j < i ==> !(#[trigger] maps[j]).contains_key(name),
    ensures
        first_values(maps)[name] == maps[i][name],
    decreases maps.len(),
{
    let rest = maps.drop_last();
    assert forall|j: int| 0 <= j < i implies !(#[trigger] rest[j]).contains_key(name) by {
        assert(!maps[j].contains_key(name));
    }
    if i < rest.len() {
        assert(rest[i] == maps[i]);
        lemma_first_value(rest, i, name);
        lemma_present(rest, i, name);
    } else {
        lemma_absent(rest, name);
    }
}

/// On a conflict the response of the highest priority wins: the subject, a
/// property and any other member that only responses of lower priority also
/// have come from it, whatever the order in which the responses came.
pub proof fn law_higher_priority_wins(
    responses: Seq<(u16, JrdView)>,
    r: (u16, JrdView),
    name: Seq<char>,
)
    requires
        responses.contains(r),
    ensures
        says_something(r.1.subject) && (forall|q: (u16, JrdView)| #[trigger]
            responses.contains(q) && says_something(q.1.subject) ==> q == r || q.0 < r.0)
            ==> merged(responses).subject == r.1.subject,
        r.1.properties.contains_key(name) && (forall|q: (u16, JrdView)| #[trigger]
            responses.contains(q) && q.1.properties.contains_key(name) ==> q == r || q.0 < r.0)
            ==> merged(responses).properties[name] == r.1.properties[name],
        r.1.extra.contains_key(name) && (forall|q: (u16, JrdView)| #[trigger]
            responses.contains(q) && q.1.extra.contains_key(name) ==> q == r || q.0 < r.0)
            ==> merged(responses).extra[name] == r.1.extra[name],
{
    let order = ranked(responses);
    let docs = documents(order);
    lemma_ranked_contains(responses, 0x1_0000, r);
    lemma_ranked_bounds(responses, 0x1_0000);
    assert forall|i: int| 0 <= i < order.len() implies responses.contains(#[trigger] order[i]) by {
        assert(order.contains(order[i]));
        lemma_ranked_contains(responses, 0x1_0000, order[i]);
    }
    let k = lemma_first_index(order, r);
    assert(docs[k] == r.1);
    if says_something(r.1.subject) && (forall|q: (u16, JrdView)| #[trigger]
        responses.contains(q) && says_something(q.1.subject) ==> q == r || q.0 < r.0) {
        assert forall|j: int| 0 <= j < k implies !says_something((#[trigger] docs[j]).subject) by {
            assert(order[j].0 >= order[k].0);
            assert(responses.contains(order[j]));
        }
        lemma_first_subject(docs, k);
    }
    if r.1.properties.contains_key(name) && (forall|q: (u16, JrdView)| #[trigger]
        responses.contains(q) && q.1.properties.contains_key(name) ==> q == r || q.0 < r.0) {
        assert forall|j: int| 0 <= j < k implies !(#[trigger] property_maps(docs)[j]).contains_key(
            name,
        ) by {
            assert(order[j].0 >= order[k].0);
            assert(responses.contains(order[j]));
        }
        lemma_first_value(property_maps(docs), k, name);
    }
    if r.1.extra.contains_key(name) && (forall|q: (u16, JrdView)| #[trigger]
        responses.contains(q) && q.1.extra.contains_key(name) ==> q == r || q.0 < r.0) {
        assert forall|j: int| 0 <= j < k implies !(#[trigger] extra_maps(docs)[j]).contains_key(name) by {
            assert(order[j].0 >= order[k].0);
            assert(responses.contains(order[j]));
        }
        lemma_first_value(extra_maps(docs), k, name);
    }
}

proof fn lemma_first_index(s: Seq<(u16, JrdView)>, x: (u16, JrdView)) -> (k: int)
    requires
        s.contains(x),
    ensures
        0 <= k < s.len(),
        s[k] == x,
        forall|j: int| 0 <= j < k ==> s[j] != x,
    decreases s.len(),
{
    if s.drop_last().contains(x) {
        let k = lemma_first_index(s.drop_last(), x);
        assert(s.drop_last()[k] == s[k]);
        assert forall|j: int| 0 <= j < k implies s[j] != x by {
            assert(s.drop_last()[j] == s[j]);
        }
        k
    } else {
        let i = choose|i: int| 0 <= i < s.len() && s[i] == x;
        if i < s.len() - 1 {
            assert(s.drop_last()[i] == x);
        }
        assert forall|j: int| 0 <= j < s.len() - 1 implies s[j] != x by {
            assert(s.drop_last()[j] == s[j]);
        }
        s.len() - 1
    }
}

proof fn lemma_first_link_kept(links: Seq<LinkView>, m: int)
    requires
        0 <= m < links.len(),
        links[m].rel is Some,
        forall|j: int| 0 <= j < m ==> !same_link(#[trigger] links[j], links[m]),
    ensures
        distinct_links(links).contains(links[m]),
    decreases links.len(),
{
    let rest = links.drop_last();
    if m < rest.len() {
        assert(rest[m] == links[m]);
        assert forall|j: int| 0 <= j < m implies !same_link(#[trigger] rest[j], rest[m]) by {
            assert(!same_link(links[j], links[m]));
        }
        lemma_first_link_kept(rest, m);
        let k = choose|k: int|
            0 <= k < distinct_links(rest).len() && distinct_links(rest)[k] == links[m];
        assert(distinct_links(links)[k] == links[m]);
    } else {
        if has_link(rest, links[m]) {
            let j = choose|j: int| 0 <= j < rest.len() && same_link(#[trigger] rest[j], links[m]);
            assert(same_link(links[j], links[m]));
        }
        assert(distinct_links(links)[distinct_links(links).len() - 1] == links[m]);
    }
}

proof fn lemma_link_position(docs: Seq<JrdView>, k: int, i: int)
    requires
        0 <= k < docs.len(),
        0 <= i < docs[k].links.len(),
    ensures
        all_links(docs.take(k)).len() + docs[k].links.len() <= all_links(docs).len(),
        all_links(docs)[all_links(docs.take(k)).len() + i] == docs[k].links[i],
        forall|j: int|
            0 <= j < all_links(docs.take(k)).len() ==> #[trigger] all_links(docs)[j] == all_links(
                docs.take(k),
            )[j],
    decreases docs.len(),
{
    let rest = docs.drop_last();
    if k < rest.len() {
        assert(rest[k] == docs[k]);
        assert(rest.take(k) =~= docs.take(k));
        lemma_link_position(rest, k, i);
        assert forall|j: int| 0 <= j < all_links(docs.take(k)).len() implies #[trigger] all_links(docs)[j] == all_links(
            docs.take(k),
        )[j] by {
            assert(all_links(rest)[j] == all_links(rest.take(k))[j]);
        }
    } else {
        assert(docs.take(k) =~= rest);
    }
}

/// On a conflict over a link, the response of the highest priority wins: a
/// link that only responses of lower priority also have, by its `rel` and
/// `href`, comes from it as it is.
pub proof fn law_higher_priority_link_wins(
    responses: Seq<(u16, JrdView)>,
    r: (u16, JrdView),
    i: int,
)
    requires
        responses.contains(r),
        0 <= i < r.1.links.len(),
        r.1.links[i].rel is Some,
        forall|j: int| 0 <= j < i ==> !same_link(#[trigger] r.1.links[j], r.1.links[i]),
        forall|q: (u16, JrdView)| #[trigger]
            responses.contains(q) && has_link(q.1.links, r.1.links[i]) ==> q == r || q.0 < r.0,
    ensures
        merged(responses).links.contains(r.1.links[i]),
{
    let link = r.1.links[i];
    let order = ranked(responses);
    let docs = documents(order);
    lemma_ranked_contains(responses, 0x1_0000, r);
    lemma_ranked_bounds(responses, 0x1_0000);
    let k = lemma_first_index(order, r);
    assert(docs[k] == r.1);
    lemma_link_position(docs, k, i);
    let before = all_links(docs.take(k));
    let m = before.len() + i;
    assert forall|j: int| 0 <= j < m implies !same_link(
        #[trigger] all_links(docs)[j],
        all_links(docs)[m],
    ) by {
        if j < before.len() {
            let other = all_links(docs)[j];
            assert(other == before[j]);
            assert(before.contains(other));
            lemma_all_links_from(docs.take(k), other);
            let d = choose|d: int|
                0 <= d < docs.take(k).len() && (#[trigger] docs.take(k)[d]).links.contains(other);
            assert(docs.take(k)[d] == order[d].1);
            assert(order[d].0 >= order[k].0);
            assert(order.contains(order[d]));
            lemma_ranked_contains(responses, 0x1_0000, order[d]);
            if same_link(other, link) {
                let n = choose|n: int|
                    0 <= n < order[d].1.links.len() && order[d].1.links[n] == other;
                assert(same_link(order[d].1.links[n], link));
                assert(has_link(order[d].1.links, link));
            }
        } else {
            lemma_link_position(docs, k, j - before.len());
            assert(all_links(docs)[j] == r.1.links[j - before.len()]);
        }
    }
    lemma_first_link_kept(all_links(docs), m);
}

proof fn lemma_alias_from(docs: Seq<JrdView>, alias: Seq<char>) -> (i: int)
    requires
        all_aliases(docs).contains(alias),
    ensures
        0 <= i < docs.len(),
        docs[i].aliases.contains(alias),
    decreases docs.len(),
{
    let rest = docs.drop_last();
    let k = choose|k: int| 0 <= k < all_aliases(docs).len() && all_aliases(docs)[k] == alias;
    if k < all_aliases(rest).len() {
        assert(all_aliases(rest)[k] == alias);
        let i = lemma_alias_from(rest, alias);
        assert(rest[i] == docs[i]);
        i
    } else {
        assert(docs.last().aliases[k - all_aliases(rest).len()] == alias);
        docs.len() - 1
    }
}

proof fn lemma_subject_from(docs: Seq<JrdView>) -> (i: int)
    requires
        first_subject(docs) is Some,
    ensures
        0 <= i < docs.len(),
        docs[i].subject == first_subject(docs),
    decreases docs.len(),
{
    let rest = docs.drop_last();
    if first_subject(docs) == docs.last().subject {
        docs.len() - 1
    } else {
        let i = lemma_subject_from(rest);
        assert(rest[i] == docs[i]);
        i
    }
}

proof fn lemma_value_from<V>(maps: Seq<Map<Seq<char>, V>>, name: Seq<char>) -> (i: int)
    requires
        first_values(maps).contains_key(name),
    ensures
        0 <= i < maps.len(),
        maps[i].contains_key(name),
        maps[i][name] == first_values(maps)[name],
    decreases maps.len(),
{
    let rest = maps.drop_last();
    if first_values(rest).contains_key(name) {
        let i = lemma_value_from(rest, name);
        assert(rest[i] == maps[i]);
        i
    } else {
        maps.len() - 1
    }
}

/// A merge makes nothing up: the subject, each alias, each property and each
/// other member is, as it stands, one of some response.
pub proof fn law_merge_invents_nothing(
    responses: Seq<(u16, JrdView)>,
    alias: Seq<char>,
    name: Seq<char>,
)
    ensures
        merged(responses).subject is Some ==> exists|r: (u16, JrdView)| #[trigger]
            responses.contains(r) && r.1.subject == merged(responses).subject,
        merged(responses).aliases.contains(alias) ==> exists|r: (u16, JrdView)| #[trigger]
            responses.contains(r) && r.1.aliases.contains(alias),
        merged(responses).properties.contains_key(name) ==> exists|r: (u16, JrdView)| #[trigger]
            responses.contains(r) && r.1.properties.contains_key(name) && r.1.properties[name]
                == merged(responses).properties[name],
        merged(responses).extra.contains_key(name) ==> exists|r: (u16, JrdView)| #[trigger]
            responses.contains(r) && r.1.extra.contains_key(name) && r.1.extra[name] == merged(
                responses,
            ).extra[name],
{
    let order = ranked(responses);
    let docs = documents(order);
    assert forall|i: int| 0 <= i < order.len() implies responses.contains(#[trigger] order[i])
        && order[i].1 == docs[i] by {
        assert(order.contains(order[i]));
        lemma_ranked_contains(responses, 0x1_0000, order[i]);
    }
    if merged(responses).subject is Some {
        let i = lemma_subject_from(docs);
        assert(responses.contains(order[i]));
    }
    if merged(responses).aliases.contains(alias) {
        lemma_distinct_contains(all_aliases(docs), alias);
        let i = lemma_alias_from(docs, alias);
        assert(responses.contains(order[i]));
    }
    if merged(responses).properties.contains_key(name) {
        let i = lemma_value_from(property_maps(docs), name);
        assert(responses.contains(order[i]));
    }
    if merged(responses).extra.contains_key(name) {
        let i = lemma_value_from(extra_maps(docs), name);
        assert(responses.contains(order[i]));
    }
}

/// Whether no two responses have the same priority.
pub open spec fn distinct_priorities(responses: Seq<(u16, JrdView)>) -> bool {
    forall|i: int, j: int|
        0 <= i < j < responses.len() ==> (#[trigger] responses[i]).0 != (#[trigger] responses[j]).0
}

proof fn lemma_filter_one(responses: Seq<(u16, JrdView)>, p: int)
    requires
        distinct_priorities(responses),
    ensures
        responses.filter(|r: (u16, JrdView)| r.0 == p).len() <= 1,
    decreases responses.len(),
{
    reveal(Seq::filter);
    let keep = |r: (u16, JrdView)| r.0 == p;
    if responses.len() > 0 {
        let rest = responses.drop_last();
        assert forall|i: int, j: int| 0 <= i < j < rest.len() implies (#[trigger] rest[i]).0 != (
        #[trigger] rest[j]).0 by {
            assert(responses[i].0 != responses[j].0);
        }
        lemma_filter_one(rest, p);
        if keep(responses.last()) && rest.filter(keep).len() == 1 {
            let x = rest.filter(keep)[0];
            assert(rest.filter(keep).contains(x));
            rest.lemma_filter_contains_rev(keep, x);
            rest.lemma_filter_pred(keep, 0);
            let i = choose|i: int| 0 <= i < rest.len() && rest[i] == x;
            assert(responses[i].0 != responses[responses.len() - 1].0);
        }
    }
}

proof fn lemma_same_filter(a: Seq<(u16, JrdView)>, b: Seq<(u16, JrdView)>, p: int)
    requires
        distinct_priorities(a),
        distinct_priorities(b),
        forall|x: (u16, JrdView)| #[trigger] a.contains(x) <==> b.contains(x),
    ensures
        a.filter(|r: (u16, JrdView)| r.0 == p) == b.filter(|r: (u16, JrdView)| r.0 == p),
{
    let keep = |r: (u16, JrdView)| r.0 == p;
    let fa = a.filter(keep);
    let fb = b.filter(keep);
    lemma_filter_one(a, p);
    lemma_filter_one(b, p);
    if fa.len() > 0 {
        assert(fa.contains(fa[0]));
        a.lemma_filter_contains_rev(keep, fa[0]);
        a.lemma_filter_pred(keep, 0);
        assert(b.contains(fa[0]));
        let i = choose|i: int| 0 <= i < b.len() && b[i] == fa[0];
        b.lemma_filter_contains(keep, i);
        assert(fb.contains(fa[0]));
    }
    if fb.len() > 0 {
        assert(fb.contains(fb[0]));
        b.lemma_filter_contains_rev(keep, fb[0]);
        b.lemma_filter_pred(keep, 0);
        assert(a.contains(fb[0]));
        let i = choose|i: int| 0 <= i < a.len() && a[i] == fb[0];
        a.lemma_filter_contains(keep, i);
        assert(fa.contains(fb[0]));
    }
    assert(fa =~= fb);
}

proof fn lemma_same_ranking(a: Seq<(u16, JrdView)>, b: Seq<(u16, JrdView)>, bound: nat)
    requires
        distinct_priorities(a),
        distinct_priorities(b),
        forall|x: (u16, JrdView)| #[trigger] a.contains(x) <==> b.contains(x),
    ensures
        ranked_below(a, bound) == ranked_below(b, bound),
    decreases bound,
{
    if bound > 0 {
        lemma_same_filter(a, b, bound - 1);
        lemma_same_ranking(a, b, (bound - 1) as nat);
    }
}

/// The order in which responses come does not matter where their priorities
/// differ.
pub proof fn law_merge_ignores_order(a: Seq<(u16, JrdView)>, b: Seq<(u16, JrdView)>)
    requires
        distinct_priorities(a),
        distinct_priorities(b),
        forall|x: (u16, JrdView)| #[trigger] a.contains(x) <==> b.contains(x),
    ensures
        merged(a) == merged(b),
{
    lemma_same_ranking(a, b, 0x1_0000);
}

/// Filtering leaves only links that were asked for, all of them, and
/// everything but the links as it is; filtering again changes nothing, and
/// neither does filtering by nothing.
pub proof fn law_filter(document: JrdView, rels: Seq<Seq<char>>)
    ensures
        rels.len() > 0 ==> forall|i: int|
            0 <= i < filtered(document, rels).links.len() ==> (
            #[trigger] filtered(document, rels).links[i]).rel is Some && rels.contains(
                filtered(document, rels).links[i].rel->0,
            ),
        forall|i: int|
            0 <= i < document.links.len() && (rels.len() == 0 || ((
            #[trigger] document.links[i]).rel is Some && rels.contains(document.links[i].rel->0)))
                ==> filtered(document, rels).links.contains(document.links[i]),
        filtered(filtered(document, rels), rels) == filtered(document, rels),
        filtered(document, Seq::empty()) == document,
        filtered(document, rels).subject == document.subject,
        filtered(document, rels).aliases == document.aliases,
        filtered(document, rels).properties == document.properties,
        filtered(document, rels).extra == document.extra,
{
    if rels.len() > 0 {
        let keep = |link: LinkView| link.rel is Some && rels.contains(link.rel->0);
        let links = document.links.filter(keep);
        assert forall|i: int| 0 <= i < links.len() implies keep(#[trigger] links[i]) by {
            document.links.lemma_filter_pred(keep, i);
        }
        assert forall|i: int|
            0 <= i < document.links.len() && keep(#[trigger] document.links[i]) implies links.contains(
            document.links[i],
        ) by {
            document.links.lemma_filter_contains(keep, i);
        }
        lemma_filter_all(links, keep);
    }
}

proof fn lemma_filter_all(links: Seq<LinkView>, keep: spec_fn(LinkView) -> bool)
    requires
        forall|i: int| 0 <= i < links.len() ==> keep(#[trigger] links[i]),
    ensures
        links.filter(keep) == links,
    decreases links.len(),
{
    reveal(Seq::filter);
    if links.len() > 0 {
        let rest = links.drop_last();
        assert forall|i: int| 0 <= i < rest.len() implies keep(#[trigger] rest[i]) by {
            assert(rest[i] == links[i]);
        }
        lemma_filter_all(rest, keep);
        assert(keep(links[links.len() - 1]));
        assert(rest.push(links.last()) =~= links);
    }
}

/// Responses with the links of each filtered.
pub open spec fn filtered_responses(
    responses: Seq<(u16, JrdView)>,
    rels: Seq<Seq<char>>,
) -> Seq<(u16, JrdView)> {
    responses.map_values(|r: (u16, JrdView)| (r.0, filtered(r.1, rels)))
}

proof fn lemma_filtered_push(links: Seq<LinkView>, link: LinkView, rels: Seq<Seq<char>>)
    requires
        rels.len() > 0,
    ensures
        filtered_links(links.push(link), rels) == (if link.rel is Some && rels.contains(
            link.rel->0,
        ) {
            filtered_links(links, rels).push(link)
        } else {
            filtered_links(links, rels)
        }),
{
    reveal(Seq::filter);
    assert(links.push(link).drop_last() =~= links);
}

proof fn lemma_filtered_has(links: Seq<LinkView>, link: LinkView, rels: Seq<Seq<char>>)
    requires
        rels.len() > 0,
        link.rel is Some,
        rels.contains(link.rel->0),
    ensures
        has_link(filtered_links(links, rels), link) <==> has_link(links, link),
{
    let keep = |link: LinkView| link.rel is Some && rels.contains(link.rel->0);
    let kept = links.filter(keep);
    if has_link(kept, link) {
        let i = choose|i: int| 0 <= i < kept.len() && same_link(#[trigger] kept[i], link);
        assert(kept.contains(kept[i]));
        links.lemma_filter_contains_rev(keep, kept[i]);
        let j = choose|j: int| 0 <= j < links.len() && links[j] == kept[i];
        assert(same_link(links[j], link));
    }
    if has_link(links, link) {
        let j = choose|j: int| 0 <= j < links.len() && same_link(#[trigger] links[j], link);
        assert(keep(links[j]));
        links.lemma_filter_contains(keep, j);
        let i = choose|i: int| 0 <= i < kept.len() && kept[i] == links[j];
        assert(same_link(kept[i], link));
    }
}

/// It makes no difference whether links are filtered before repeats are dropped
/// or after.
proof fn lemma_distinct_filtered(links: Seq<LinkView>, rels: Seq<Seq<char>>)
    requires
        rels.len() > 0,
    ensures
        distinct_links(filtered_links(links, rels)) == filtered_links(distinct_links(links), rels),
    decreases links.len(),
{
    if links.len() == 0 {
        reveal(Seq::filter);
        assert(filtered_links(links, rels) =~= Seq::empty());
        assert(filtered_links(distinct_links(links), rels) =~= Seq::empty());
    } else {
        let rest = links.drop_last();
        let last = links.last();
        let kept = filtered_links(rest, rels);
        assert(links =~= rest.push(last));
        lemma_distinct_filtered(rest, rels);
        lemma_filtered_push(rest, last, rels);
        lemma_filtered_push(distinct_links(rest), last, rels);
        if last.rel is Some && rels.contains(last.rel->0) {
            lemma_filtered_has(rest, last, rels);
            assert(kept.push(last).drop_last() =~= kept);
        }
    }
}

proof fn lemma_filtered_documents(docs: Seq<JrdView>, rels: Seq<Seq<char>>)
    requires
        rels.len() > 0,
    ensures
        ({
            let thin = docs.map_values(|doc: JrdView| filtered(doc, rels));
            &&& first_subject(thin) == first_subject(docs)
            &&& all_aliases(thin) == all_aliases(docs)
            &&& all_links(thin) == filtered_links(all_links(docs), rels)
        }),
    decreases docs.len(),
{
    let f = |doc: JrdView| filtered(doc, rels);
    let thin = docs.map_values(f);
    if docs.len() == 0 {
        reveal(Seq::filter);
        assert(filtered_links(all_links(docs), rels) =~= Seq::empty());
    } else {
        let rest = docs.drop_last();
        let keep = |link: LinkView| link.rel is Some && rels.contains(link.rel->0);
        assert(thin.drop_last() =~= rest.map_values(f));
        lemma_filtered_documents(rest, rels);
        Seq::filter_distributes_over_add(all_links(rest), docs.last().links, keep);
    }
}

proof fn lemma_filtered_rank(responses: Seq<(u16, JrdView)>, rels: Seq<Seq<char>>, p: int)
    ensures
        filtered_responses(responses, rels).filter(|r: (u16, JrdView)| r.0 == p)
            == filtered_responses(responses.filter(|r: (u16, JrdView)| r.0 == p), rels),
    decreases responses.len(),
{
    let keep = |r: (u16, JrdView)| r.0 == p;
    let thin = filtered_responses(responses, rels);
    reveal(Seq::filter);
    if responses.len() == 0 {
        assert(thin.filter(keep) =~= filtered_responses(responses.filter(keep), rels));
    } else {
        let rest = responses.drop_last();
        assert(thin.drop_last() =~= filtered_responses(rest, rels));
        lemma_filtered_rank(rest, rels, p);
        assert(thin.filter(keep) =~= filtered_responses(responses.filter(keep), rels));
    }
}

proof fn lemma_filtered_ranking(responses: Seq<(u16, JrdView)>, rels: Seq<Seq<char>>, bound: nat)
    ensures
        ranked_below(filtered_responses(responses, rels), bound) == filtered_responses(
            ranked_below(responses, bound),
            rels,
        ),
    decreases bound,
{
    if bound == 0 {
        assert(filtered_responses(ranked_below(responses, bound), rels) =~= Seq::empty());
    } else {
        lemma_filtered_rank(responses, rels, bound - 1);
        lemma_filtered_ranking(responses, rels, (bound - 1) as nat);
        assert(ranked_below(filtered_responses(responses, rels), bound) =~= filtered_responses(
            ranked_below(responses, bound),
            rels,
        ));
    }
}

proof fn lemma_filter_first(responses: Seq<(u16, JrdView)>, rels: Seq<Seq<char>>)
    ensures
        filtered(merged(filtered_responses(responses, rels)), rels) == filtered(
            merged(responses),
            rels,
        ),
{
    let thin = filtered_responses(responses, rels);
    if rels.len() == 0 {
        assert(thin =~= responses);
    } else {
        let order = ranked(responses);
        let docs = documents(order);
        let f = |doc: JrdView| filtered(doc, rels);
        lemma_filtered_ranking(responses, rels, 0x1_0000);
        assert(documents(ranked(thin)) =~= docs.map_values(f));
        lemma_filtered_documents(docs, rels);
        assert(property_maps(docs.map_values(f)) =~= property_maps(docs));
        assert(extra_maps(docs.map_values(f)) =~= extra_maps(docs));
        lemma_distinct_filtered(all_links(docs), rels);
        law_filter(merged(responses), rels);
    }
}

/// The answer does not depend on which backends filter by themselves: with the
/// links of any of the responses filtered beforehand, the filtered merge is the
/// same.
pub proof fn law_backends_may_filter(
    responses: Seq<(u16, JrdView)>,
    others: Seq<(u16, JrdView)>,
    rels: Seq<Seq<char>>,
)
    requires
        responses.len() == others.len(),
        forall|i: int|
            0 <= i < responses.len() ==> {
                &&& (#[trigger] others[i]).0 == responses[i].0
                &&& others[i].1 == responses[i].1 || others[i].1 == filtered(responses[i].1, rels)
            },
    ensures
        filtered(merged(others), rels) == filtered(merged(responses), rels),
{
    assert forall|i: int| 0 <= i < responses.len() implies #[trigger] filtered_responses(
        others,
        rels,
    )[i] == filtered_responses(responses, rels)[i] by {
        assert(others[i].0 == responses[i].0);
        law_filter(responses[i].1, rels);
    }
    assert(filtered_responses(others, rels) =~= filtered_responses(responses, rels));
    lemma_filter_first(responses, rels);
    lemma_filter_first(others, rels);
}

proof fn lemma_distinct_stays(row: Seq<Seq<char>>)
    requires
        row.no_duplicates(),
    ensures
        distinct(row) == row,
    decreases row.len(),
{
    if row.len() > 0 {
        let rest = row.drop_last();
        lemma_distinct_stays(rest);
        if rest.contains(row.last()) {
            let i = choose|i: int| 0 <= i < rest.len() && rest[i] == row.last();
            assert(row[i] == row[row.len() - 1]);
        }
        assert(rest.push(row.last()) =~= row);
    }
}

proof fn lemma_distinct_links_stay(links: Seq<LinkView>)
    requires
        forall|i: int| 0 <= i < links.len() ==> (#[trigger] links[i]).rel is Some,
        forall|i: int, j: int|
            0 <= i < j < links.len() ==> !same_link(#[trigger] links[i], #[trigger] links[j]),
    ensures
        distinct_links(links) == links,
    decreases links.len(),
{
    if links.len() > 0 {
        let rest = links.drop_last();
        assert forall|i: int| 0 <= i < rest.len() implies (#[trigger] rest[i]).rel is Some by {
            assert(rest[i] == links[i]);
        }
        assert forall|i: int, j: int| 0 <= i < j < rest.len() implies !same_link(
            #[trigger] rest[i],
            #[trigger] rest[j],
        ) by {
            assert(!same_link(links[i], links[j]));
        }
        lemma_distinct_links_stay(rest);
        assert(links[links.len() - 1].rel is Some);
        if has_link(rest, links.last()) {
            let i = choose|i: int| 0 <= i < rest.len() && same_link(#[trigger] rest[i], links.last());
            assert(!same_link(links[i], links[links.len() - 1]));
        }
        assert(rest.push(links.last()) =~= links);
    }
}

/// A document merged alone is itself without repeats.
proof fn lemma_one_document(document: JrdView)
    ensures
        merged_documents(seq![document]) == (JrdView {
            aliases: distinct(document.aliases),
            links: distinct_links(document.links),
            ..document
        }),
{
    let docs = seq![document];
    reveal_with_fuel(first_subject, 2);
    reveal_with_fuel(all_aliases, 2);
    reveal_with_fuel(all_links, 2);
    reveal_with_fuel(first_values, 2);
    assert(docs.drop_last() =~= Seq::empty());
    assert(all_aliases(docs) =~= document.aliases);
    assert(all_links(docs) =~= document.links);
    assert(property_maps(docs).drop_last() =~= Seq::empty());
    assert(extra_maps(docs).drop_last() =~= Seq::empty());
    assert(first_values(property_maps(docs)) =~= document.properties);
    assert(first_values(extra_maps(docs)) =~= document.extra);
}

/// Merging a merged document again, at whatever priority, changes nothing.
pub proof fn law_merging_again_changes_nothing(responses: Seq<(u16, JrdView)>, priority: u16)
    ensures
        merged(seq![(priority, merged(responses))]) == merged(responses),
{
    let document = merged(responses);
    let one = seq![(priority, document)];
    let none = Seq::<(u16, JrdView)>::empty();
    lemma_ranked_empty(0x1_0000);
    lemma_ranked_push(none, (priority, document), 0x1_0000, 0);
    assert(none.push((priority, document)) =~= one);
    assert(ranked(one) =~= one);
    assert(documents(one) =~= seq![document]);
    lemma_one_document(document);
    let sources = documents(ranked(responses));
    lemma_distinct_no_duplicates(all_aliases(sources));
    lemma_distinct_stays(document.aliases);
    lemma_distinct_links(all_links(sources));
    lemma_distinct_links_stay(document.links);
}

/// Whether response `i` counts before response `j`: it has the higher priority,
/// or the same and came first.
pub open spec fn counts_before(responses: Seq<(u16, JrdView)>, i: int, j: int) -> bool {
    responses[i].0 > responses[j].0 || (responses[i].0 == responses[j].0 && i < j)
}

/// Where each of the ranked responses came from.
proof fn lemma_ranked_order(responses: Seq<(u16, JrdView)>, bound: nat) -> (order: Seq<int>)
    ensures
        order.len() == ranked_below(responses, bound).len(),
        forall|k: int|
            0 <= k < order.len() ==> 0 <= #[trigger] order[k] < responses.len()
                && responses[order[k]].0 < bound && ranked_below(responses, bound)[k]
                == responses[order[k]],
        forall|k: int, l: int|
            0 <= k < l < order.len() ==> counts_before(
                responses,
                #[trigger] order[k],
                #[trigger] order[l],
            ),
        forall|i: int|
            0 <= i < responses.len() && (#[trigger] responses[i]).0 < bound ==> order.contains(i),
    decreases bound,
{
    if bound == 0 {
        Seq::empty()
    } else {
        let keep = |r: (u16, JrdView)| r.0 == bound - 1;
        let top = rows::lemma_filter_positions(responses, keep);
        let wanted = |k: int| keep(responses[k]);
        let below = lemma_ranked_order(responses, (bound - 1) as nat);
        let order = top + below;
        assert forall|k: int| 0 <= k < order.len() implies 0 <= #[trigger] order[k]
            < responses.len() && responses[order[k]].0 < bound && ranked_below(responses, bound)[k]
            == responses[order[k]] by {
            if k < top.len() {
                assert(order[k] == top[k]);
                assert(wanted(top[k]));
            } else {
                assert(order[k] == below[k - top.len()]);
            }
        }
        assert forall|k: int, l: int| 0 <= k < l < order.len() implies counts_before(
            responses,
            #[trigger] order[k],
            #[trigger] order[l],
        ) by {
            if l < top.len() {
                assert(top[k] < top[l]);
                assert(wanted(top[k]) && wanted(top[l]));
            } else if k < top.len() {
                assert(wanted(top[k]));
                assert(responses[below[l - top.len()]].0 < bound - 1);
            } else {
                assert(counts_before(responses, below[k - top.len()], below[l - top.len()]));
            }
        }
        assert forall|i: int|
            0 <= i < responses.len() && (
            #[trigger] responses[i]).0 < bound implies order.contains(i) by {
            if responses[i].0 == bound - 1 {
                assert(wanted(i));
                let k = choose|k: int| 0 <= k < top.len() && top[k] == i;
                assert(order[k] == i);
            } else {
                assert(below.contains(i));
                let k = choose|k: int| 0 <= k < below.len() && below[k] == i;
                assert(order[top.len() + k] == i);
            }
        }
        order
    }
}

/// Whether `order` says of each ranked document which response it is of.
spec fn is_order(responses: Seq<(u16, JrdView)>, order: Seq<int>) -> bool {
    let docs = documents(ranked(responses));
    &&& order.len() == docs.len()
    &&& forall|l: int|
        0 <= l < docs.len() ==> 0 <= #[trigger] order[l] < responses.len() && docs[l]
            == responses[order[l]].1
    &&& forall|l: int, m: int|
        0 <= l < m < docs.len() ==> counts_before(
            responses,
            #[trigger] order[l],
            #[trigger] order[m],
        )
    &&& forall|j: int| 0 <= j < responses.len() ==> #[trigger] order.contains(j)
}

proof fn lemma_order(responses: Seq<(u16, JrdView)>) -> (order: Seq<int>)
    ensures
        is_order(responses, order),
{
    let order = lemma_ranked_order(responses, 0x1_0000);
    assert forall|j: int| 0 <= j < responses.len() implies #[trigger] order.contains(j) by {
        assert(responses[j].0 < 0x1_0000);
    }
    order
}

/// The place of response `i` among the ranked documents.
proof fn lemma_place(responses: Seq<(u16, JrdView)>, order: Seq<int>, i: int) -> (k: int)
    requires
        is_order(responses, order),
        0 <= i < responses.len(),
    ensures
        0 <= k < order.len(),
        order[k] == i,
        documents(ranked(responses))[k] == responses[i].1,
{
    assert(order.contains(i));
    let k = choose|k: int| 0 <= k < order.len() && order[k] == i;
    k
}

/// The subject of a merge is the subject, of at least one character, of the
/// response that counts before every other with such a subject.
pub proof fn law_subject_by_rank(responses: Seq<(u16, JrdView)>, i: int)
    requires
        0 <= i < responses.len(),
        responses[i].1.subject is Some,
        responses[i].1.subject->0.len() > 0,
        forall|j: int|
            0 <= j < responses.len() && j != i && (#[trigger] responses[j]).1.subject is Some
                && responses[j].1.subject->0.len() > 0 ==> responses[j].0 < responses[i].0 || (
            responses[j].0 == responses[i].0 && i < j),
    ensures
        merged(responses).subject == responses[i].1.subject,
{
    let docs = documents(ranked(responses));
    let order = lemma_order(responses);
    let k = lemma_place(responses, order, i);
    assert forall|l: int| 0 <= l < k implies !says_something((#[trigger] docs[l]).subject) by {
        assert(counts_before(responses, order[l], order[k]));
        assert(docs[l] == responses[order[l]].1);
    }
    assert(docs[k] == responses[order[k]].1);
    lemma_first_subject(docs, k);
}

/// Where no response has a subject of at least one character, the merge has
/// none either: its subject is empty where some response has one, and missing
/// where none has.
pub proof fn law_no_subject(responses: Seq<(u16, JrdView)>)
    requires
        forall|j: int|
            0 <= j < responses.len() && (#[trigger] responses[j]).1.subject is Some
                ==> responses[j].1.subject->0.len() == 0,
    ensures
        merged(responses).subject is Some <==> exists|j: int|
            0 <= j < responses.len() && (#[trigger] responses[j]).1.subject is Some,
        merged(responses).subject is Some ==> merged(responses).subject->0.len() == 0,
{
    let none: Seq<char> = Seq::empty();
    law_merge_invents_nothing(responses, none, none);
    if merged(responses).subject is Some {
        let r = choose|r: (u16, JrdView)| #[trigger]
            responses.contains(r) && r.1.subject == merged(responses).subject;
        let j = choose|j: int| 0 <= j < responses.len() && responses[j] == r;
        assert(responses[j].1.subject is Some);
    }
    if exists|j: int| 0 <= j < responses.len() && (#[trigger] responses[j]).1.subject is Some {
        let j = choose|j: int|
            0 <= j < responses.len() && (#[trigger] responses[j]).1.subject is Some;
        assert(responses.contains(responses[j]));
        law_merge_keeps_everything(responses, responses[j]);
    }
}

/// A property of a merge has the value of the response that counts before every
/// other with that property.
pub proof fn law_property_by_rank(responses: Seq<(u16, JrdView)>, i: int, name: Seq<char>)
    requires
        0 <= i < responses.len(),
        responses[i].1.properties.contains_key(name),
        forall|j: int|
            0 <= j < responses.len() && j != i && (
            #[trigger] responses[j]).1.properties.contains_key(name) ==> responses[j].0
                < responses[i].0 || (responses[j].0 == responses[i].0 && i < j),
    ensures
        merged(responses).properties.contains_key(name),
        merged(responses).properties[name] == responses[i].1.properties[name],
{
    let docs = documents(ranked(responses));
    let order = lemma_order(responses);
    let k = lemma_place(responses, order, i);
    let maps = property_maps(docs);
    assert forall|l: int| 0 <= l < k implies !(#[trigger] maps[l]).contains_key(name) by {
        assert(counts_before(responses, order[l], order[k]));
        assert(docs[l] == responses[order[l]].1);
    }
    assert(docs[k] == responses[order[k]].1);
    lemma_first_value(maps, k, name);
    lemma_present(maps, k, name);
}

/// Any other member of a merge has the value of the response that counts before
/// every other with that member.
pub proof fn law_extra_by_rank(responses: Seq<(u16, JrdView)>, i: int, name: Seq<char>)
    requires
        0 <= i < responses.len(),
        responses[i].1.extra.contains_key(name),
        forall|j: int|
            0 <= j < responses.len() && j != i && (
            #[trigger] responses[j]).1.extra.contains_key(name) ==> responses[j].0
                < responses[i].0 || (responses[j].0 == responses[i].0 && i < j),
    ensures
        merged(responses).extra.contains_key(name),
        merged(responses).extra[name] == responses[i].1.extra[name],
{
    let docs = documents(ranked(responses));
    let order = lemma_order(responses);
    let k = lemma_place(responses, order, i);
    let maps = extra_maps(docs);
    assert forall|l: int| 0 <= l < k implies !(#[trigger] maps[l]).contains_key(name) by {
        assert(counts_before(responses, order[l], order[k]));
        assert(docs[l] == responses[order[l]].1);
    }
    assert(docs[k] == responses[order[k]].1);
    lemma_first_value(maps, k, name);
    lemma_present(maps, k, name);
}

/// Whether the `p`-th entry of response `i` comes before the `q`-th of response
/// `j`.
pub open spec fn entry_before(
    responses: Seq<(u16, JrdView)>,
    i: int,
    p: int,
    j: int,
    q: int,
) -> bool {
    if i == j {
        p < q
    } else {
        counts_before(responses, i, j)
    }
}

spec fn alias_rows(docs: Seq<JrdView>) -> Seq<Seq<Seq<char>>> {
    docs.map_values(|doc: JrdView| doc.aliases)
}

spec fn link_rows(docs: Seq<JrdView>) -> Seq<Seq<LinkView>> {
    docs.map_values(|doc: JrdView| doc.links)
}

proof fn lemma_flat_documents(docs: Seq<JrdView>)
    ensures
        all_aliases(docs) == rows::flat(alias_rows(docs)),
        all_links(docs) == rows::flat(link_rows(docs)),
    decreases docs.len(),
{
    if docs.len() > 0 {
        assert(alias_rows(docs).drop_last() =~= alias_rows(docs.drop_last()));
        assert(link_rows(docs).drop_last() =~= link_rows(docs.drop_last()));
        lemma_flat_documents(docs.drop_last());
    }
}

/// Entries of ranked documents stand in the order of their ranks.
proof fn lemma_entry_order<A>(rows: Seq<Seq<A>>, k: int, p: int, l: int, q: int)
    requires
        0 <= k < rows.len(),
        0 <= p < rows[k].len(),
        0 <= l < rows.len(),
        0 <= q < rows[l].len(),
    ensures
        rows::start(rows, k) + p < rows::start(rows, l) + q <==> k < l || (k == l && p < q),
{
    if k < l {
        rows::lemma_start_grows(rows, k, l);
    } else if l < k {
        rows::lemma_start_grows(rows, l, k);
    }
}

/// What occurs first stays in order.
proof fn lemma_distinct_order(row: Seq<Seq<char>>, m: int, n: int) -> (at: (int, int))
    requires
        0 <= m < n < row.len(),
        forall|x: int| 0 <= x < m ==> #[trigger] row[x] != row[m],
        forall|x: int| 0 <= x < n ==> #[trigger] row[x] != row[n],
    ensures
        0 <= at.0 < at.1 < distinct(row).len(),
        distinct(row)[at.0] == row[m],
        distinct(row)[at.1] == row[n],
    decreases row.len(),
{
    let rest = row.drop_last();
    let earlier = distinct(rest);
    if n < row.len() - 1 {
        assert(rest[m] == row[m] && rest[n] == row[n]);
        assert forall|x: int| 0 <= x < m implies #[trigger] rest[x] != rest[m] by {
            assert(row[x] != row[m]);
        }
        assert forall|x: int| 0 <= x < n implies #[trigger] rest[x] != rest[n] by {
            assert(row[x] != row[n]);
        }
        lemma_distinct_order(rest, m, n)
    } else {
        if rest.contains(row.last()) {
            let x = choose|x: int| 0 <= x < rest.len() && rest[x] == row.last();
            assert(row[x] != row[n]);
        }
        lemma_distinct_contains(rest, row[m]);
        assert(rest[m] == row[m]);
        assert(rest.contains(row[m]));
        let u = choose|u: int| 0 <= u < earlier.len() && earlier[u] == row[m];
        assert(distinct(row)[u] == row[m]);
        (u, earlier.len() as int)
    }
}

proof fn lemma_distinct_links_order(row: Seq<LinkView>, m: int, n: int) -> (at: (int, int))
    requires
        0 <= m < n < row.len(),
        row[m].rel is Some,
        row[n].rel is Some,
        forall|x: int|
            0 <= x < m ==> (#[trigger] row[x]).rel != row[m].rel || row[x].href != row[m].href,
        forall|x: int|
            0 <= x < n ==> (#[trigger] row[x]).rel != row[n].rel || row[x].href != row[n].href,
    ensures
        0 <= at.0 < at.1 < distinct_links(row).len(),
        distinct_links(row)[at.0] == row[m],
        distinct_links(row)[at.1] == row[n],
    decreases row.len(),
{
    let rest = row.drop_last();
    let earlier = distinct_links(rest);
    assert(rest[m] == row[m]);
    if n < row.len() - 1 {
        assert(rest[n] == row[n]);
        assert forall|x: int| 0 <= x < m implies (#[trigger] rest[x]).rel != rest[m].rel
            || rest[x].href != rest[m].href by {
            assert(rest[x] == row[x]);
        }
        assert forall|x: int| 0 <= x < n implies (#[trigger] rest[x]).rel != rest[n].rel
            || rest[x].href != rest[n].href by {
            assert(rest[x] == row[x]);
        }
        lemma_distinct_links_order(rest, m, n)
    } else {
        if has_link(rest, row.last()) {
            let x = choose|x: int| 0 <= x < rest.len() && same_link(#[trigger] rest[x], row.last());
            assert(rest[x] == row[x]);
        }
        assert forall|x: int| 0 <= x < m implies !same_link(#[trigger] rest[x], rest[m]) by {
            assert(rest[x] == row[x]);
        }
        lemma_first_link_kept(rest, m);
        let u = choose|u: int| 0 <= u < earlier.len() && earlier[u] == row[m];
        assert(distinct_links(row)[u] == row[m]);
        (u, earlier.len() as int)
    }
}

/// Aliases stand in the order in which they first occur, the responses taken by
/// rank.
pub proof fn law_alias_order(
    responses: Seq<(u16, JrdView)>,
    i: int,
    p: int,
    j: int,
    q: int,
)
    requires
        0 <= i < responses.len(),
        0 <= p < responses[i].1.aliases.len(),
        0 <= j < responses.len(),
        0 <= q < responses[j].1.aliases.len(),
        entry_before(responses, i, p, j, q),
        forall|l: int, x: int|
            0 <= l < responses.len() && 0 <= x < responses[l].1.aliases.len()
                && #[trigger] responses[l].1.aliases[x] == responses[i].1.aliases[p] ==> (l == i && x
                == p) || entry_before(responses, i, p, l, x),
        forall|l: int, x: int|
            0 <= l < responses.len() && 0 <= x < responses[l].1.aliases.len()
                && #[trigger] responses[l].1.aliases[x] == responses[j].1.aliases[q] ==> (l == j && x
                == q) || entry_before(responses, j, q, l, x),
    ensures
        exists|u: int, v: int|
            0 <= u < v < merged(responses).aliases.len() && #[trigger] merged(responses).aliases[u]
                == responses[i].1.aliases[p] && #[trigger] merged(responses).aliases[v]
                == responses[j].1.aliases[q],
{
    let docs = documents(ranked(responses));
    let rows = alias_rows(docs);
    let order = lemma_order(responses);
    let k = lemma_place(responses, order, i);
    let l = lemma_place(responses, order, j);
    lemma_flat_documents(docs);
    let whole = rows::flat(rows);
    assert(docs[k] == responses[order[k]].1 && docs[l] == responses[order[l]].1);
    rows::lemma_flat_at(rows, k, p);
    rows::lemma_flat_at(rows, l, q);
    let m = rows::start(rows, k) + p;
    let n = rows::start(rows, l) + q;
    lemma_entry_order(rows, k, p, l, q);
    if k > l {
        assert(counts_before(responses, order[l], order[k]));
    } else if k < l {
        assert(counts_before(responses, order[k], order[l]));
    }
    assert forall|x: int| 0 <= x < m implies #[trigger] whole[x] != whole[m] by {
        let at = rows::lemma_flat_from(rows, x);
        lemma_entry_order(rows, at.0, at.1, k, p);
        assert(docs[at.0] == responses[order[at.0]].1);
        if at.0 < k {
            assert(counts_before(responses, order[at.0], order[k]));
        }
        assert(responses[order[at.0]].1.aliases[at.1] == whole[x]);
    }
    assert forall|x: int| 0 <= x < n implies #[trigger] whole[x] != whole[n] by {
        let at = rows::lemma_flat_from(rows, x);
        lemma_entry_order(rows, at.0, at.1, l, q);
        assert(docs[at.0] == responses[order[at.0]].1);
        if at.0 < l {
            assert(counts_before(responses, order[at.0], order[l]));
        }
        assert(responses[order[at.0]].1.aliases[at.1] == whole[x]);
    }
    let (u, v) = lemma_distinct_order(whole, m, n);
    assert(merged(responses).aliases[u] == responses[i].1.aliases[p]);
    assert(merged(responses).aliases[v] == responses[j].1.aliases[q]);
}

/// Whether the `p`-th link of response `i` comes before any other link of the
/// same relation and target.
pub open spec fn first_of_its_kind(responses: Seq<(u16, JrdView)>, i: int, p: int) -> bool {
    &&& 0 <= i < responses.len()
    &&& 0 <= p < responses[i].1.links.len()
    &&& responses[i].1.links[p].rel is Some
    &&& forall|l: int, x: int|
        0 <= l < responses.len() && 0 <= x < responses[l].1.links.len() && (
        #[trigger] responses[l].1.links[x]).rel == responses[i].1.links[p].rel
            && responses[l].1.links[x].href == responses[i].1.links[p].href ==> (l == i && x == p)
            || entry_before(responses, i, p, l, x)
}

/// The place of such a link among the links of the ranked documents: none of its
/// kind stands before it.
proof fn lemma_link_place(
    responses: Seq<(u16, JrdView)>,
    order: Seq<int>,
    k: int,
    p: int,
) -> (m: int)
    requires
        is_order(responses, order),
        0 <= k < order.len(),
        first_of_its_kind(responses, order[k], p),
    ensures
        ({
            let docs = documents(ranked(responses));
            let whole = all_links(docs);
            &&& 0 <= m < whole.len()
            &&& m == rows::start(link_rows(docs), k) + p
            &&& whole[m] == responses[order[k]].1.links[p]
            &&& forall|x: int|
                0 <= x < m ==> (#[trigger] whole[x]).rel != whole[m].rel || whole[x].href
                    != whole[m].href
        }),
{
    let docs = documents(ranked(responses));
    let rows = link_rows(docs);
    let whole = all_links(docs);
    lemma_flat_documents(docs);
    assert(docs[k] == responses[order[k]].1);
    rows::lemma_flat_at(rows, k, p);
    let m = rows::start(rows, k) + p;
    assert forall|x: int| 0 <= x < m implies (#[trigger] whole[x]).rel != whole[m].rel
        || whole[x].href != whole[m].href by {
        let at = rows::lemma_flat_from(rows, x);
        lemma_entry_order(rows, at.0, at.1, k, p);
        assert(docs[at.0] == responses[order[at.0]].1);
        if at.0 < k {
            assert(counts_before(responses, order[at.0], order[k]));
        }
        assert(responses[order[at.0]].1.links[at.1] == whole[x]);
    }
    m
}

/// Of the links of one relation and target a merge keeps the one that comes
/// first, as it stands.
pub proof fn law_link_by_rank(responses: Seq<(u16, JrdView)>, i: int, p: int)
    requires
        first_of_its_kind(responses, i, p),
    ensures
        merged(responses).links.contains(responses[i].1.links[p]),
{
    let whole = all_links(documents(ranked(responses)));
    let order = lemma_order(responses);
    let k = lemma_place(responses, order, i);
    let m = lemma_link_place(responses, order, k, p);
    assert forall|j: int| 0 <= j < m implies !same_link(#[trigger] whole[j], whole[m]) by {
        assert(whole[j].rel != whole[m].rel || whole[j].href != whole[m].href);
    }
    lemma_first_link_kept(whole, m);
}

/// Links stand in the order in which they first occur, the responses taken by
/// rank.
pub proof fn law_link_order(responses: Seq<(u16, JrdView)>, i: int, p: int, j: int, q: int)
    requires
        first_of_its_kind(responses, i, p),
        first_of_its_kind(responses, j, q),
        entry_before(responses, i, p, j, q),
    ensures
        exists|u: int, v: int|
            0 <= u < v < merged(responses).links.len() && #[trigger] merged(responses).links[u]
                == responses[i].1.links[p] && #[trigger] merged(responses).links[v]
                == responses[j].1.links[q],
{
    let docs = documents(ranked(responses));
    let rows = link_rows(docs);
    let whole = all_links(docs);
    let order = lemma_order(responses);
    let k = lemma_place(responses, order, i);
    let l = lemma_place(responses, order, j);
    let m = lemma_link_place(responses, order, k, p);
    let n = lemma_link_place(responses, order, l, q);
    if k > l {
        assert(counts_before(responses, order[l], order[k]));
    } else if k < l {
        assert(counts_before(responses, order[k], order[l]));
    }
    lemma_entry_order(rows, k, p, l, q);
    let (u, v) = lemma_distinct_links_order(whole, m, n);
    assert(merged(responses).links[u] == responses[i].1.links[p]);
    assert(merged(responses).links[v] == responses[j].1.links[q]);
}

/// Every link that has a relation is found in a merge by its relation and
/// target, both letter for letter.
pub proof fn law_every_link_is_found(responses: Seq<(u16, JrdView)>, i: int, p: int)
    requires
        0 <= i < responses.len(),
        0 <= p < responses[i].1.links.len(),
        responses[i].1.links[p].rel is Some,
    ensures
        exists|m: int|
            0 <= m < merged(responses).links.len() && (#[trigger] merged(responses).links[m]).rel
                == responses[i].1.links[p].rel && merged(responses).links[m].href
                == responses[i].1.links[p].href,
{
    let link = responses[i].1.links[p];
    let links = merged(responses).links;
    assert(responses.contains(responses[i]));
    law_merge_keeps_everything(responses, responses[i]);
    assert(has_link(links, link));
    let m = choose|m: int| 0 <= m < links.len() && same_link(#[trigger] links[m], link);
    assert(merged(responses).links[m].rel == link.rel && merged(responses).links[m].href
        == link.href);
}

/// A merge has no link without a relation, none that no response has as it
/// stands, and no two of the same relation and target.
pub proof fn law_links_are_sound(responses: Seq<(u16, JrdView)>)
    ensures
        forall|m: int|
            0 <= m < merged(responses).links.len() ==> (#[trigger] merged(responses).links[m]).rel
                is Some && exists|i: int|
                0 <= i < responses.len() && (#[trigger] responses[i]).1.links.contains(
                    merged(responses).links[m],
                ),
        forall|m: int, n: int|
            0 <= m < n < merged(responses).links.len() ==> (
            #[trigger] merged(responses).links[m]).rel != (
            #[trigger] merged(responses).links[n]).rel || merged(responses).links[m].href != merged(
                responses,
            ).links[n].href,
{
    let docs = documents(ranked(responses));
    let rows = link_rows(docs);
    let whole = all_links(docs);
    let links = merged(responses).links;
    let order = lemma_order(responses);
    lemma_flat_documents(docs);
    lemma_distinct_links(whole);
    assert forall|m: int| 0 <= m < links.len() implies (#[trigger] links[m]).rel is Some && exists|
        i: int,
    |
        0 <= i < responses.len() && (#[trigger] responses[i]).1.links.contains(links[m]) by {
        assert(whole.contains(links[m]));
        let x = choose|x: int| 0 <= x < whole.len() && whole[x] == links[m];
        let at = rows::lemma_flat_from(rows, x);
        assert(docs[at.0] == responses[order[at.0]].1);
        assert(responses[order[at.0]].1.links[at.1] == links[m]);
        assert(responses[order[at.0]].1.links.contains(links[m]));
    }
    assert forall|m: int, n: int| 0 <= m < n < links.len() implies (#[trigger] links[m]).rel != (
    #[trigger] links[n]).rel || links[m].href != links[n].href by {
        assert(!same_link(links[m], links[n]));
    }
}

/// A filtered document has the links that stand at exactly those positions
/// where a relation is asked for, in order and as they are; at all positions
/// where none is asked for. Nothing else of it changes.
pub proof fn law_filter_positions(document: JrdView, rels: Seq<Seq<char>>) -> (positions: Seq<int>)
    ensures
        rows::lists_exactly(
            positions,
            document.links.len(),
            |k: int|
                rels.len() == 0 || (document.links[k].rel is Some && rels.contains(
                    document.links[k].rel->0,
                )),
        ),
        filtered(document, rels).links.len() == positions.len(),
        forall|i: int|
            0 <= i < positions.len() ==> filtered(document, rels).links[i]
                == document.links[#[trigger] positions[i]],
        filtered(document, rels).subject == document.subject,
        filtered(document, rels).aliases == document.aliases,
        filtered(document, rels).properties == document.properties,
        filtered(document, rels).extra == document.extra,
{
    let links = document.links;
    let wanted = |k: int|
        rels.len() == 0 || (document.links[k].rel is Some && rels.contains(
            document.links[k].rel->0,
        ));
    if rels.len() == 0 {
        let positions = Seq::new(links.len(), |k: int| k);
        assert forall|k: int| 0 <= k < links.len() && #[trigger] wanted(k) implies positions.contains(
            k,
        ) by {
            assert(positions[k] == k);
        }
        assert(rows::lists_exactly(positions, links.len(), wanted));
        positions
    } else {
        let keep = |link: LinkView| link.rel is Some && rels.contains(link.rel->0);
        let positions = rows::lemma_filter_positions(links, keep);
        let kept = |k: int| keep(links[k]);
        assert forall|k: int| 0 <= k < links.len() && #[trigger] wanted(k) implies positions.contains(
            k,
        ) by {
            assert(kept(k));
        }
        assert forall|i: int| 0 <= i < positions.len() implies 0 <= #[trigger] positions[i]
            < links.len() && wanted(positions[i]) by {
            assert(kept(positions[i]));
        }
        assert(rows::lists_exactly(positions, links.len(), wanted));
        positions
    }
}

/// A document's view says what the document holds, part by part.
pub proof fn law_document_view(document: JrdResource, name: Seq<char>)
    ensures
        document.subject is None ==> document@.subject is None,
        document.subject matches Some(subject) ==> document@.subject == Some(subject@),
        document@.aliases.len() == document.aliases@.len(),
        forall|i: int|
            0 <= i < document.aliases@.len() ==> #[trigger] document@.aliases[i]
                == document.aliases@[i]@,
        document@.links.len() == document.links@.len(),
        forall|i: int|
            0 <= i < document.links@.len() ==> #[trigger] document@.links[i] == document.links@[i]@,
        document@.properties.contains_key(name) == document.properties@.contains_key(name),
        document.properties@.contains_key(name) ==> document@.properties[name] == (
        match document.properties@[name] {
            Some(value) => Some(value@),
            None => None,
        }),
        document@.extra == document.extra@,
{
}

/// A link's view says what the link holds, part by part.
pub proof fn law_link_view(link: JrdLink, name: Seq<char>)
    ensures
        link.rel is None ==> link@.rel is None,
        link.rel matches Some(rel) ==> link@.rel == Some(rel@),
        link.href is None ==> link@.href is None,
        link.href matches Some(href) ==> link@.href == Some(href@),
        link.media_type is None ==> link@.media_type is None,
        link.media_type matches Some(media_type) ==> link@.media_type == Some(media_type@),
        link.titles is None ==> link@.titles is None,
        link.titles matches Some(titles) ==> link@.titles is Some && (
        link@.titles->0.contains_key(name) == titles@.contains_key(name)) && (titles@.contains_key(
            name,
        ) ==> link@.titles->0[name] == titles@[name]@),
        link.properties is None ==> link@.properties is None,
        link.properties matches Some(properties) ==> link@.properties is Some && (
        link@.properties->0.contains_key(name) == properties@.contains_key(name)) && (
        properties@.contains_key(name) ==> link@.properties->0[name] == (
        match properties@[name] {
            Some(value) => Some(value@),
            None => None,
        })),
        link@.extra == link.extra@,
{
}

/// Rows of texts and of responses are viewed entry by entry.
pub proof fn law_row_views(texts: Seq<String>, responses: Seq<(u16, JrdResource)>)
    ensures
        text_views(texts).len() == texts.len(),
        forall|i: int| 0 <= i < texts.len() ==> #[trigger] text_views(texts)[i] == texts[i]@,
        response_views(responses).len() == responses.len(),
        forall|i: int|
            0 <= i < responses.len() ==> (#[trigger] response_views(responses)[i]).0
                == responses[i].0 && response_views(responses)[i].1 == responses[i].1@,
{
}

/// A JSON error in words: what it is, then the words of the JSON reader or
/// writer.
pub proof fn law_json_error_text(error: Seq<char>)
    ensures
        error_text(error).len() == 12 + error.len(),
        error_text(error).take(12) == "JSON error: "@,
        error_text(error).skip(12) == error,
{
    reveal_strlit("JSON error: ");
    assert(error_text(error).take(12) =~= "JSON error: "@);
    assert(error_text(error).skip(12) =~= error);
}

} // verus!
