//! The answers to the requests of the protocol.
//!
//! A request without the right token is refused before anything else is looked at. A
//! malformed query is refused, a query whose records disagree is a conflict, and a query
//! about an unknown actor is a success without attributes.
use vstd::prelude::*;

use crate::actor::text_items;
use crate::attr_server::store::{
    attrs_of, derived, disagree, entry_seen, in_order, is_union, law_answer_means_agreement,
    read_texts, schema_body, text_array, texts_in, AttrData, AttrMap, DataView, EntryView,
    StoredEntry,
};
use crate::json::{
    find_member, json_parsed, member, members_view, parse_json, Json, JsonView,
};
use crate::sorted::{
    ascending, by_name, lemma_by_name_at, lemma_order_is_of_names, name_at, names_of, seen_as,
};
use crate::text::{cat, contains_text, text_eq, text_lt, texts};
use crate::trusted_services::pair_views;

verus! {

/// What a server answers from: its data, and the token that may ask.
#[derive(Debug)]
pub struct AppState {
    pub data: AttrData,
    pub token: String,
}

/// The authorization header carries the token, and there is a token.
pub open spec fn authorized(header: Option<Seq<char>>, token: Seq<char>) -> bool {
    token.len() > 0 && header == Some("Bearer "@ + token)
}

/// The text of an optional header.
pub open spec fn header_text(header: Option<&str>) -> Option<Seq<char>> {
    match header {
        Some(h) => Some(h@),
        None => None,
    }
}

/// Whether the authorization header carries the token.
pub fn require_bearer(header: Option<&str>, token: &str) -> (r: bool)
    ensures
        r == authorized(header_text(header), token@),
{
    match header {
        Some(h) => {
            let expected = cat("Bearer ", token);
            !token.is_empty() && text_eq(h, expected.as_str())
        },
        None => false,
    }
}

/// A query: the identities of the actor, and the attributes that are wanted.
#[derive(Debug)]
pub struct QueryRequest {
    pub identities: Vec<(String, String)>,
    pub attributes: Vec<String>,
}

/// A query as mathematical data.
pub struct RequestView {
    pub identities: Seq<(Seq<char>, Seq<char>)>,
    pub attributes: Seq<Seq<char>>,
}

impl View for QueryRequest {
    type V = RequestView;

    open spec fn view(&self) -> RequestView {
        RequestView {
            identities: pair_views(self.identities@),
            attributes: texts(self.attributes@),
        }
    }
}

/// The pairs of names and texts of an object, where all its values are texts.
pub open spec fn pairs_in(v: JsonView) -> Option<Seq<(Seq<char>, Seq<char>)>> {
    match v {
        JsonView::Object(m) => if forall|i: int|
            0 <= i < m.len() ==> (#[trigger] m[i]).1 is Text {
            Some(m.map_values(|e: (Seq<char>, JsonView)| (e.0, e.1->Text_0)))
        } else {
            None
        },
        _ => None,
    }
}

/// The query that a body describes: an object with the identities and the attributes, and
/// nothing else.
pub open spec fn request_in(v: JsonView) -> Option<RequestView> {
    match v {
        JsonView::Object(m) => {
            let identities = match member(m, "identities"@) {
                Some(i) => pairs_in(i),
                None => None,
            };
            let attributes = match member(m, "attributes"@) {
                Some(a) => texts_in(a),
                None => None,
            };
            if identities is Some && attributes is Some && forall|i: int|
                0 <= i < m.len() ==> (#[trigger] m[i]).0 == "identities"@ || m[i].0
                    == "attributes"@ {
                Some(RequestView { identities: identities->0, attributes: attributes->0 })
            } else {
                None
            }
        },
        _ => None,
    }
}

/// The query that the bytes of a body describe, as far as they are a text.
pub open spec fn request_of(body: Option<Seq<char>>) -> Option<RequestView> {
    match body {
        Some(text) => match json_parsed(text) {
            Ok(v) => request_in(v),
            Err(_) => None,
        },
        None => None,
    }
}

fn read_pairs(v: &Json) -> (r: Option<Vec<(String, String)>>)
    ensures
        match r {
            Some(list) => pairs_in(v@) == Some(pair_views(list@)),
            None => pairs_in(v@) is None,
        },
{
    let members = match v {
        Json::Object(members) => members,
        _ => {
            return None;
        },
    };
    let ghost all = v@->Object_0;
    assert(all =~= members_view(members@));
    let mut out: Vec<(String, String)> = Vec::new();
    let mut i: usize = 0;
    while i < members.len()
        invariant
            i <= members@.len(),
            v@ == JsonView::Object(all),
            all == members_view(members@),
            out@.len() == i,
            forall|j: int|
                0 <= j < i ==> (#[trigger] all[j]) == (out@[j].0@, JsonView::Text(out@[j].1@)),
        decreases members@.len() - i,
    {
        assert(all[i as int] == (members@[i as int].0@, members@[i as int].1@));
        match &members[i].1 {
            Json::Text(s) => out.push((members[i].0.clone(), s.clone())),
            _ => {
                assert(!(all[i as int].1 is Text));
                return None;
            },
        }
        i = i + 1;
    }
    assert(pairs_in(v@)->0 =~= pair_views(out@));
    Some(out)
}

/// Reads the body of a query.
pub fn read_request(body: Option<&str>) -> (r: Option<QueryRequest>)
    ensures
        match r {
            Some(q) => request_of(header_text(body)) == Some(q@),
            None => request_of(header_text(body)) is None,
        },
{
    let text = match body {
        Some(text) => text,
        None => {
            return None;
        },
    };
    let parsed = match parse_json(text) {
        Ok(v) => v,
        Err(_) => {
            return None;
        },
    };
    let members = match &parsed {
        Json::Object(members) => members,
        _ => {
            return None;
        },
    };
    let ghost all = parsed@->Object_0;
    assert(all =~= members_view(members@));
    let mut i: usize = 0;
    while i < members.len()
        invariant
            i <= members@.len(),
            all == members_view(members@),
            parsed@ == JsonView::Object(all),
            request_of(header_text(body)) == request_in(parsed@),
            forall|j: int|
                0 <= j < i ==> (#[trigger] all[j]).0 == "identities"@ || all[j].0 == "attributes"@,
        decreases members@.len() - i,
    {
        assert(all[i as int].0 == members@[i as int].0@);
        if !text_eq(members[i].0.as_str(), "identities") && !text_eq(
            members[i].0.as_str(),
            "attributes",
        ) {
            return None;
        }
        i = i + 1;
    }
    let identities = match find_member(members, "identities") {
        Some(v) => match read_pairs(v) {
            Some(list) => list,
            None => {
                return None;
            },
        },
        None => {
            return None;
        },
    };
    let attributes = match find_member(members, "attributes") {
        Some(v) => match read_texts(v) {
            Some(list) => list,
            None => {
                return None;
            },
        },
        None => {
            return None;
        },
    };
    Some(QueryRequest { identities, attributes })
}

/// An answer: its status, its body, and the methods that are allowed where the one of the
/// request is not.
#[derive(Debug)]
pub struct Answer {
    pub status: u16,
    pub body: Option<Json>,
    pub allow: Option<String>,
}

impl Answer {
    /// An answer that is its status alone.
    pub open spec fn is_bare(self, status: u16) -> bool {
        self.status == status && self.body is None && self.allow is None
    }

    fn bare(status: u16) -> (r: Answer)
        ensures
            r.is_bare(status),
    {
        Answer { status, body: None, allow: None }
    }
}

/// An attribute as it is given out.
pub open spec fn entry_json(e: EntryView) -> JsonView {
    let values = ("values"@, JsonView::Array(text_items(e.values)));
    JsonView::Object(
        match e.expires_at {
            Some(s) => seq![("expires_at"@, JsonView::Text(s)), values],
            None => seq![values],
        },
    )
}

/// The attributes that are given out: those that are wanted, in the order of their
/// names.
pub open spec fn gives(
    m: Map<Seq<char>, EntryView>,
    wanted: Seq<Seq<char>>,
    list: Seq<(Seq<char>, JsonView)>,
) -> bool {
    &&& ascending(list)
    &&& forall|n: Seq<char>| #[trigger]
        by_name(list).contains_key(n) <==> m.contains_key(n) && wanted.contains(n)
    &&& forall|n: Seq<char>| #[trigger]
        by_name(list).contains_key(n) ==> by_name(list)[n] == entry_json(m[n])
}

/// The body of the answer to a query.
pub open spec fn query_body(list: Seq<(Seq<char>, JsonView)>) -> JsonView {
    JsonView::Object(seq![("attributes"@, JsonView::Object(list))])
}

fn entry_answer(e: &StoredEntry) -> (r: Json)
    ensures
        r@ == entry_json(e@),
{
    let mut members: Vec<(String, Json)> = Vec::new();
    if let Some(s) = e.expires_at() {
        members.push(("expires_at".to_owned(), Json::Text(s.to_owned())));
        assert(members@[0].1@ == JsonView::Text(s@));
    }
    let ghost before = members@;
    let values = text_array(e.values());
    members.push(("values".to_owned(), values));
    assert(members@[before.len() as int].1@ == JsonView::Array(text_items(e@.values)));
    let r = Json::Object(members);
    assert(r@->Object_0 =~= entry_json(e@)->Object_0);
    r
}

/// Picks the wanted attributes.
fn pick(merged: &AttrMap, wanted: &Vec<String>) -> (r: Vec<(String, Json)>)
    requires
        ascending(names_of(merged@)),
    ensures
        gives(attrs_of(merged@), texts(wanted@), members_view(r@)),
{
    let ghost m = attrs_of(merged@);
    let ghost w = texts(wanted@);
    let ghost view = seen_as(merged@, entry_seen());
    let mut out: Vec<(String, Json)> = Vec::new();
    let mut i: usize = 0;
    proof {
        lemma_order_is_of_names(merged@, entry_seen());
        assert(members_view(out@) =~= Seq::empty());
    }
    while i < merged.len()
        invariant
            i <= merged@.len(),
            m == attrs_of(merged@),
            w == texts(wanted@),
            view == seen_as(merged@, entry_seen()),
            ascending(view),
            m == by_name(view),
            ascending(members_view(out@)),
            forall|j: int|
                0 <= j < out@.len() ==> picked(
                    #[trigger] members_view(out@)[j],
                    view,
                    w,
                    i as int,
                ),
            forall|k: int|
                0 <= k < i && w.contains((#[trigger] view[k]).0) ==> exists|j: int|
                    0 <= j < out@.len() && (#[trigger] members_view(out@)[j]).0 == view[k].0,
        decreases merged@.len() - i,
    {
        let ghost before = out@;
        assert(view[i as int] == (merged@[i as int].0@, merged@[i as int].1@));
        if contains_text(wanted, merged[i].0.as_str()) {
            let answer = entry_answer(&merged[i].1);
            out.push((merged[i].0.clone(), answer));
        }
        proof {
            lemma_pick_step(members_view(before), members_view(out@), view, w, i as int);
        }
        i = i + 1;
    }
    proof {
        lemma_picked(m, w, view, members_view(out@));
    }
    out
}

/// The member given out for this attribute, which is wanted.
pub open spec fn picked_from(
    e: (Seq<char>, JsonView),
    from: (Seq<char>, EntryView),
    wanted: Seq<Seq<char>>,
) -> bool {
    e == (from.0, entry_json(from.1)) && wanted.contains(from.0)
}

/// The member is given out for one of the first attributes.
pub open spec fn picked(
    e: (Seq<char>, JsonView),
    view: Seq<(Seq<char>, EntryView)>,
    wanted: Seq<Seq<char>>,
    upto: int,
) -> bool {
    exists|k: int| 0 <= k < upto && #[trigger] picked_from(e, view[k], wanted)
}

proof fn lemma_pick_step(
    before: Seq<(Seq<char>, JsonView)>,
    after: Seq<(Seq<char>, JsonView)>,
    view: Seq<(Seq<char>, EntryView)>,
    w: Seq<Seq<char>>,
    i: int,
)
    requires
        0 <= i < view.len(),
        ascending(view),
        ascending(before),
        w.contains(view[i].0) ==> after =~= before.push((view[i].0, entry_json(view[i].1))),
        !w.contains(view[i].0) ==> after =~= before,
        forall|j: int|
            0 <= j < before.len() ==> picked(#[trigger] before[j], view, w, i),
        forall|k: int|
            0 <= k < i && w.contains((#[trigger] view[k]).0) ==> exists|j: int|
                0 <= j < before.len() && (#[trigger] before[j]).0 == view[k].0,
    ensures
        ascending(after),
        forall|j: int|
            0 <= j < after.len() ==> picked(#[trigger] after[j], view, w, i + 1),
        forall|k: int|
            0 <= k < i + 1 && w.contains((#[trigger] view[k]).0) ==> exists|j: int|
                0 <= j < after.len() && (#[trigger] after[j]).0 == view[k].0,
{
    assert forall|j: int| 0 <= j < after.len() implies picked(
        #[trigger] after[j],
        view,
        w,
        i + 1,
    ) by {
        if j < before.len() {
            assert(picked(before[j], view, w, i));
            let k = choose|k: int| 0 <= k < i && #[trigger] picked_from(before[j], view[k], w);
            assert(picked_from(after[j], view[k], w));
        } else {
            assert(picked_from(after[j], view[i], w));
        }
    }
    assert forall|k: int| 0 <= k < i + 1 && w.contains((#[trigger] view[k]).0) implies exists|
        j: int,
    |
        0 <= j < after.len() && (#[trigger] after[j]).0 == view[k].0 by {
        if k < i {
            let j = choose|j: int| 0 <= j < before.len() && (#[trigger] before[j]).0 == view[k].0;
            assert(after[j] == before[j]);
        } else {
            assert(after[before.len() as int].0 == view[i].0);
        }
    }
    assert forall|a: int, b: int| 0 <= a < b < after.len() implies text_lt(
        (#[trigger] after[a]).0,
        (#[trigger] after[b]).0,
    ) by {
        assert(after[a] == before[a]);
        if b < before.len() {
            assert(after[b] == before[b]);
        } else {
            assert(picked(before[a], view, w, i));
            let k = choose|k: int| 0 <= k < i && #[trigger] picked_from(before[a], view[k], w);
            assert(text_lt(view[k].0, view[i].0));
        }
    }
}

proof fn lemma_picked(
    m: Map<Seq<char>, EntryView>,
    w: Seq<Seq<char>>,
    view: Seq<(Seq<char>, EntryView)>,
    list: Seq<(Seq<char>, JsonView)>,
)
    requires
        m == by_name(view),
        ascending(view),
        ascending(list),
        forall|j: int|
            0 <= j < list.len() ==> picked(#[trigger] list[j], view, w, view.len() as int),
        forall|k: int|
            0 <= k < view.len() && w.contains((#[trigger] view[k]).0) ==> exists|j: int|
                0 <= j < list.len() && (#[trigger] list[j]).0 == view[k].0,
    ensures
        gives(m, w, list),
{
    let given = by_name(list);
    assert forall|n: Seq<char>| #[trigger] given.contains_key(n) implies m.contains_key(n)
        && w.contains(n) && given[n] == entry_json(m[n]) by {
        let j = choose|j: int| name_at(list, n, j);
        lemma_by_name_at(list, j);
        assert(picked(list[j], view, w, view.len() as int));
        let k = choose|k: int|
            0 <= k < view.len() && #[trigger] picked_from(list[j], view[k], w);
        lemma_by_name_at(view, k);
    }
    assert forall|n: Seq<char>| m.contains_key(n) && w.contains(
        n,
    ) implies #[trigger] given.contains_key(n) by {
        let k = choose|k: int| name_at(view, n, k);
        assert(w.contains(view[k].0));
        let j = choose|j: int| 0 <= j < list.len() && (#[trigger] list[j]).0 == view[k].0;
        lemma_by_name_at(list, j);
    }
}

/// The answer to a query, given the text of its body, or `None` where the body is no text.
///
/// A malformed body and one without identities are refused. Records that disagree are a
/// conflict. Otherwise the wanted attributes of the union of the records are given out.
pub fn query(data: &AttrData, body: Option<&str>) -> (r: Answer)
    ensures
        match request_of(header_text(body)) {
            None => r.is_bare(400),
            Some(q) => if q.identities.len() == 0 {
                r.is_bare(400)
            } else if exists|n: Seq<char>| #[trigger] disagree(data@.entries, q.identities, n) {
                r.is_bare(409)
            } else {
                &&& r.status == 200
                &&& r.allow is None
                &&& r.body is Some
                &&& exists|m: Map<Seq<char>, EntryView>, list: Seq<(Seq<char>, JsonView)>|
                    {
                        &&& #[trigger] is_union(data@.entries, q.identities, m)
                        &&& #[trigger] gives(m, q.attributes, list)
                        &&& r.body->0@ == query_body(list)
                    }
            },
        },
{
    let request = match read_request(body) {
        Some(q) => q,
        None => {
            return Answer::bare(400);
        },
    };
    if request.identities.len() == 0 {
        return Answer::bare(400);
    }
    match data.lookup(&request.identities) {
        Err(_) => Answer::bare(409),
        Ok(merged) => {
            let list = pick(&merged, &request.attributes);
            let ghost given = members_view(list@);
            let ghost m = attrs_of(merged@);
            let attributes = Json::Object(list);
            assert(attributes@->Object_0 =~= given);
            let mut members: Vec<(String, Json)> = Vec::new();
            members.push(("attributes".to_owned(), attributes));
            assert(members@[0].1@ == JsonView::Object(given));
            let out = Json::Object(members);
            proof {
                assert(out@->Object_0 =~= query_body(given)->Object_0);
                let ids = request@.identities;
                assert forall|n: Seq<char>| !#[trigger] disagree(data@.entries, ids, n) by {
                    law_answer_means_agreement(data@.entries, ids, m, n);
                }
                assert(is_union(data@.entries, ids, m));
                assert(gives(m, request@.attributes, given));
            }
            Answer { status: 200, body: Some(out), allow: None }
        },
    }
}

/// The body tells the vocabulary of the data.
pub open spec fn tells_schema(data: DataView, body: JsonView) -> bool {
    exists|defs: Seq<JsonView>, keys: Seq<Seq<char>>|
        {
            &&& #[trigger] schema_body(defs, keys) == body
            &&& in_order(keys)
            &&& forall|n: Seq<char>| #[trigger]
                keys.contains(n) <==> data.entries.contains_key(n)
            &&& match data.schema {
                Some(given) => defs == given,
                None => exists|names: Seq<Seq<char>>| #[trigger]
                    derived(data.entries, names, defs),
            }
        }
}

/// The answer to a question for the vocabulary.
pub fn schema(data: &AttrData) -> (r: Answer)
    ensures
        r.status == 200,
        r.allow is None,
        r.body matches Some(b) && tells_schema(data@, b@),
{
    let body = data.schema_response();
    Answer { status: 200, body: Some(body), allow: None }
}

/// The method of a request.
#[derive(Debug, Clone, Copy, PartialEq, Eq, Structural)]
pub enum Method {
    Get,
    Head,
    Post,
    Other,
}

impl Method {
    /// The method reads.
    pub open spec fn reads(self) -> bool {
        self == Method::Get || self == Method::Head
    }
}

/// The answer to a request.
///
/// Without the token every request is refused. Two paths are reserved and implemented by
/// nobody; other paths are unknown.
pub fn respond(
    state: &AppState,
    method: Method,
    path: &str,
    authorization: Option<&str>,
    body: Option<&str>,
) -> (r: Answer)
    ensures
        !authorized(header_text(authorization), state.token@) ==> r.is_bare(401),
        authorized(header_text(authorization), state.token@) ==> {
            let posts = path@ == "/query"@ || path@ == "/satisfies"@;
            let reads = path@ == "/schema"@ || path@ == "/stream"@;
            &&& !posts && !reads ==> r.is_bare(404)
            &&& posts && method != Method::Post ==> r.status == 405 && r.body is None && (
            r.allow matches Some(a) && a@ == "POST"@)
            &&& reads && !method.reads() ==> r.status == 405 && r.body is None && (
            r.allow matches Some(a) && a@ == "GET,HEAD"@)
            &&& path@ == "/satisfies"@ && method == Method::Post ==> r.is_bare(501)
            &&& path@ == "/stream"@ && method.reads() ==> r.is_bare(501)
            &&& path@ == "/schema"@ && method.reads() ==> r.status == 200 && (r.body matches Some(
                b,
            ) && tells_schema(state.data@, b@))
            &&& path@ == "/query"@ && method == Method::Post ==> match request_of(
                header_text(body),
            ) {
                None => r.is_bare(400),
                Some(q) => if q.identities.len() == 0 {
                    r.is_bare(400)
                } else if exists|n: Seq<char>| #[trigger]
                    disagree(state.data@.entries, q.identities, n) {
                    r.is_bare(409)
                } else {
                    r.status == 200 && r.body is Some && exists|
                        m: Map<Seq<char>, EntryView>,
                        list: Seq<(Seq<char>, JsonView)>,
                    |
                        {
                            &&& #[trigger] is_union(state.data@.entries, q.identities, m)
                            &&& #[trigger] gives(m, q.attributes, list)
                            &&& r.body->0@ == query_body(list)
                        }
                },
            }
        },
{
    if !require_bearer(authorization, state.token.as_str()) {
        return Answer::bare(401);
    }
    proof {
        reveal_strlit("/query");
        reveal_strlit("/satisfies");
        reveal_strlit("/schema");
        reveal_strlit("/stream");
        assert("/query"@.len() != "/satisfies"@.len());
        assert("/query"@.len() != "/schema"@.len());
        assert("/query"@.len() != "/stream"@.len());
        assert("/satisfies"@.len() != "/schema"@.len());
        assert("/satisfies"@.len() != "/stream"@.len());
        assert("/schema"@[2] != "/stream"@[2]);
    }
    let is_query = text_eq(path, "/query");
    let is_schema = text_eq(path, "/schema");
    if is_query || text_eq(path, "/satisfies") {
        match method {
            Method::Post => if is_query {
                query(&state.data, body)
            } else {
                Answer::bare(501)
            },
            _ => Answer { status: 405, body: None, allow: Some("POST".to_owned()) },
        }
    } else if is_schema || text_eq(path, "/stream") {
        match method {
            Method::Get | Method::Head => if is_schema {
                schema(&state.data)
            } else {
                Answer::bare(501)
            },
            _ => Answer { status: 405, body: None, allow: Some("GET,HEAD".to_owned()) },
        }
    } else {
        Answer::bare(404)
    }
}

/// The answer to a query about an actor that no record is about is a success without
/// attributes.
pub proof fn law_unknown_actor_is_no_error(
    m: Map<Seq<char>, EntryView>,
    wanted: Seq<Seq<char>>,
    list: Seq<(Seq<char>, JsonView)>,
)
    requires
        m == Map::<Seq<char>, EntryView>::empty(),
        gives(m, wanted, list),
    ensures
        list.len() == 0,
{
    if list.len() > 0 {
        lemma_by_name_at(list, 0);
    }
}

/// Nothing is given out that was not asked for.
pub proof fn law_only_wanted_attributes_are_given(
    m: Map<Seq<char>, EntryView>,
    wanted: Seq<Seq<char>>,
    list: Seq<(Seq<char>, JsonView)>,
    i: int,
)
    requires
        gives(m, wanted, list),
        0 <= i < list.len(),
    ensures
        wanted.contains(list[i].0),
        m.contains_key(list[i].0),
        list[i].1 == entry_json(m[list[i].0]),
{
    lemma_by_name_at(list, i);
}

/// Only a request with the server's own token is let in: its header is `Bearer`, a blank and the
/// token, whole. A server without a token lets nobody in, and so does a request without a header.
pub proof fn law_only_the_bearer_of_the_token_is_let_in(header: Seq<char>, token: Seq<char>)
    ensures
        authorized(Some("Bearer "@ + token), token) == (token.len() > 0),
        header != "Bearer "@ + token ==> !authorized(Some(header), token),
        !authorized(None, token),
        !authorized(Some(header), Seq::empty()),
{
}

/// A query is read where it is an object of just two members: the identities, all texts, and
/// the list of the wanted names, all texts. It is read as these, each at its place.
pub proof fn law_query_is_identities_and_wanted_names(
    members: Seq<(Seq<char>, JsonView)>,
    identities: Seq<(Seq<char>, JsonView)>,
    wanted: Seq<JsonView>,
)
    requires
        forall|i: int, j: int|
            0 <= i < j < members.len() ==> (#[trigger] members[i]).0 != (#[trigger] members[j]).0,
        members.contains(("identities"@, JsonView::Object(identities))),
        members.contains(("attributes"@, JsonView::Array(wanted))),
        forall|i: int| 0 <= i < identities.len() ==> (#[trigger] identities[i]).1 is Text,
        forall|i: int| 0 <= i < wanted.len() ==> (#[trigger] wanted[i]) is Text,
        forall|i: int|
            0 <= i < members.len() ==> (#[trigger] members[i]).0 == "identities"@ || members[i].0
                == "attributes"@,
    ensures
        request_in(JsonView::Object(members)) is Some,
        request_in(JsonView::Object(members))->0.identities.len() == identities.len(),
        forall|i: int|
            0 <= i < identities.len() ==> (
            #[trigger] request_in(JsonView::Object(members))->0.identities[i]).0 == identities[i].0
                && JsonView::Text(request_in(JsonView::Object(members))->0.identities[i].1)
                == identities[i].1,
        request_in(JsonView::Object(members))->0.attributes.len() == wanted.len(),
        forall|i: int|
            0 <= i < wanted.len() ==> JsonView::Text(
                #[trigger] request_in(JsonView::Object(members))->0.attributes[i],
            ) == wanted[i],
{
    crate::json::law_member_is_found_under_its_name(members, "identities"@);
    crate::json::law_member_is_found_under_its_name(members, "attributes"@);
    assert forall|i: int| 0 <= i < identities.len() implies (
    #[trigger] request_in(JsonView::Object(members))->0.identities[i]).0 == identities[i].0
        && JsonView::Text(request_in(JsonView::Object(members))->0.identities[i].1)
        == identities[i].1 by {
        assert(identities[i].1 is Text);
    }
    assert forall|i: int| 0 <= i < wanted.len() implies JsonView::Text(
        #[trigger] request_in(JsonView::Object(members))->0.attributes[i],
    ) == wanted[i] by {
        assert(wanted[i] is Text);
    }
}

/// What is no such object is no query: one that lacks the identities or the wanted names, has a
/// third member, or has something else than texts in them.
pub proof fn law_malformed_queries_are_not_read(v: JsonView, members: Seq<(Seq<char>, JsonView)>)
    requires
        forall|i: int, j: int|
            0 <= i < j < members.len() ==> (#[trigger] members[i]).0 != (#[trigger] members[j]).0,
    ensures
        !(v is Object) ==> request_in(v) is None,
        (exists|i: int|
            0 <= i < members.len() && (#[trigger] members[i]).0 != "identities"@ && members[i].0
                != "attributes"@) ==> request_in(JsonView::Object(members)) is None,
        (forall|i: int| 0 <= i < members.len() ==> (#[trigger] members[i]).0 != "identities"@)
            ==> request_in(JsonView::Object(members)) is None,
        (forall|i: int| 0 <= i < members.len() ==> (#[trigger] members[i]).0 != "attributes"@)
            ==> request_in(JsonView::Object(members)) is None,
        forall|ids: Seq<(Seq<char>, JsonView)>, i: int|
            #![trigger members.contains(("identities"@, JsonView::Object(ids))), ids[i]]
            members.contains(("identities"@, JsonView::Object(ids))) && 0 <= i < ids.len() && !(
            ids[i].1 is Text) ==> request_in(JsonView::Object(members)) is None,
        forall|names: Seq<JsonView>, i: int|
            #![trigger members.contains(("attributes"@, JsonView::Array(names))), names[i]]
            members.contains(("attributes"@, JsonView::Array(names))) && 0 <= i < names.len() && !(
            names[i] is Text) ==> request_in(JsonView::Object(members)) is None,
{
    crate::json::law_member_is_found_under_its_name(members, "identities"@);
    crate::json::law_member_is_found_under_its_name(members, "attributes"@);
}

/// Every wanted attribute that was found is given, once, under its name: its values, each at its
/// place, and its expiry where it has one.
pub proof fn law_wanted_attributes_are_given_whole(
    m: Map<Seq<char>, EntryView>,
    wanted: Seq<Seq<char>>,
    list: Seq<(Seq<char>, JsonView)>,
    name: Seq<char>,
)
    requires
        gives(m, wanted, list),
        m.contains_key(name),
        wanted.contains(name),
    ensures
        exists|i: int|
            {
                &&& 0 <= i < list.len()
                &&& (#[trigger] list[i]).0 == name
                &&& list[i].1 is Object
                &&& exists|values: Seq<JsonView>| #[trigger]
                    list[i].1->Object_0.contains(("values"@, JsonView::Array(values)))
                        && values.len() == m[name].values.len() && forall|j: int|
                        0 <= j < values.len() ==> #[trigger] values[j] == JsonView::Text(
                            m[name].values[j],
                        )
                &&& m[name].expires_at matches Some(s) ==> list[i].1->Object_0.contains(
                    ("expires_at"@, JsonView::Text(s)),
                )
                &&& m[name].expires_at is None ==> list[i].1->Object_0.len() == 1
            },
        query_body(list) == JsonView::Object(seq![("attributes"@, JsonView::Object(list))]),
{
    assert(by_name(list).contains_key(name));
    let i = choose|i: int| name_at(list, name, i);
    assert(name_at(list, name, i));
    lemma_by_name_at(list, i);
    assert(list[i].1 == entry_json(m[name]));
    let values = text_items(m[name].values);
    let o = list[i].1->Object_0;
    if m[name].expires_at is Some {
        assert(o[0] == ("expires_at"@, JsonView::Text(m[name].expires_at->0)));
        assert(o[1] == ("values"@, JsonView::Array(values)));
    } else {
        assert(o[0] == ("values"@, JsonView::Array(values)));
    }
    assert(o.contains(("values"@, JsonView::Array(values))));
    assert(list[i].0 == name);
}

} // verus!
