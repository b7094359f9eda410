//! What the two ends of the attribute protocol owe each other: a server understands what
//! a client asks, and a client reads what a server gives.
use vstd::prelude::*;

use crate::actor::text_items;
use crate::attr_server::router::{entry_json, gives, query_body, request_in};
use crate::attr_server::store::{texts_in, EntryView};
use crate::attribute::MappingView;
use crate::json::{
    distinct_names, lemma_member_at, nests_within, object_map, writable, JsonView,
};
use crate::sorted::{by_name, lemma_by_name_at, name_at};
use crate::text::text_lt;
use crate::trusted_services::attr_query_store::{
    asks_for, lemma_pairs_are_texts, mapped_names, pairs_map,
};
use crate::trusted_services::wire::{answer_entry, answer_in, answer_map};

verus! {

/// The outside names that a mapping asks for.
pub open spec fn asked_names(mapper: Seq<MappingView>) -> Seq<Seq<char>> {
    mapper.map_values(|m: MappingView| m.service_attr_key)
}

/// A server understands the body of every query of a client: it reads the identities,
/// each key with the last value that was given for it, and the names that the client's
/// policy maps.
pub proof fn law_server_understands_the_client(
    body: JsonView,
    mapper: Seq<MappingView>,
    identities: Seq<(Seq<char>, Seq<char>)>,
)
    requires
        asks_for(body, mapper, identities),
    ensures
        request_in(body) matches Some(q) && q.attributes == asked_names(mapper) && (forall|
            key: Seq<char>,
            value: Seq<char>,
        | #[trigger]
            q.identities.contains((key, value)) <==> pairs_map(identities).contains_key(key)
                && pairs_map(identities)[key] == JsonView::Text(value)),
{
    let members = body->Object_0;
    let pairs = members[1].1->Object_0;
    let names = JsonView::Array(mapped_names(mapper));
    reveal_strlit("attributes");
    reveal_strlit("identities");
    assert("attributes"@[0] == 'a' && "identities"@[0] == 'i');
    assert(distinct_names(members));
    lemma_member_at(members, "attributes"@);
    lemma_member_at(members, "identities"@);
    assert(members[0].0 == "attributes"@ && members[1].0 == "identities"@);
    lemma_pairs_are_texts(pairs, identities);
    assert(texts_in(names)->0 =~= asked_names(mapper));
    let q = request_in(body)->0;
    let read = q.identities;
    assert forall|key: Seq<char>, value: Seq<char>| #[trigger] read.contains((key, value)) <==>
        pairs_map(identities).contains_key(key) && pairs_map(identities)[key] == JsonView::Text(
        value,
    ) by {
        assert(distinct_names(pairs));
        lemma_member_at(pairs, key);
        if read.contains((key, value)) {
            let i = choose|i: int| 0 <= i < read.len() && read[i] == (key, value);
            assert(pairs[i].0 == key && pairs[i].1 == JsonView::Text(value));
            assert(object_map(pairs).contains_key(key));
        }
        if pairs_map(identities).contains_key(key) && pairs_map(identities)[key]
            == JsonView::Text(value) {
            assert(object_map(pairs).contains_key(key));
            let i = choose|i: int| 0 <= i < pairs.len() && (#[trigger] pairs[i]).0 == key;
            assert(read[i] == (key, value));
        }
    }
}

/// An attribute as a server gives it out is read by a client as it was stored: with its
/// values in their order, and with its expiry.
pub proof fn law_entry_is_read_as_it_was_stored(e: EntryView)
    ensures
        answer_entry(entry_json(e)) matches Some(read) && read.values == e.values
            && read.expires_at == e.expires_at,
{
    let m = entry_json(e)->Object_0;
    reveal_strlit("values");
    reveal_strlit("expires_at");
    assert("values"@.len() != "expires_at"@.len());
    assert(distinct_names(m));
    lemma_member_at(m, "values"@);
    lemma_member_at(m, "expires_at"@);
    let at = m.len() - 1;
    assert(m[at] == ("values"@, JsonView::Array(text_items(e.values))));
    if e.expires_at is Some {
        assert(m[0] == ("expires_at"@, JsonView::Text(e.expires_at->0)));
    } else {
        assert(m.len() == 1);
    }
    assert(texts_in(JsonView::Array(text_items(e.values)))->0 =~= e.values);
}

/// A client reads from the body of an answer exactly the attributes that the server's
/// records hold and that were wanted, each as it was stored.
pub proof fn law_client_reads_what_the_server_gives(
    m: Map<Seq<char>, EntryView>,
    wanted: Seq<Seq<char>>,
    list: Seq<(Seq<char>, JsonView)>,
)
    requires
        gives(m, wanted, list),
    ensures
        answer_in(query_body(list)) matches Some(read) && (forall|n: Seq<char>| #[trigger]
            read.contains_key(n) <==> m.contains_key(n) && wanted.contains(n)) && (forall|
            n: Seq<char>,
        | #[trigger]
            read.contains_key(n) ==> read[n].values == m[n].values && read[n].expires_at
                == m[n].expires_at),
{
    let outer = query_body(list)->Object_0;
    assert(outer[0] == ("attributes"@, JsonView::Object(list)));
    assert(distinct_names(outer));
    lemma_member_at(outer, "attributes"@);
    assert(distinct_names(list)) by {
        assert forall|i: int, j: int| 0 <= i < j < list.len() implies list[i].0 != list[j].0 by {
            assert(text_lt(list[i].0, list[j].0));
        }
    }
    assert forall|i: int| 0 <= i < list.len() implies answer_entry((#[trigger] list[i]).1)
        is Some by {
        lemma_by_name_at(list, i);
        law_entry_is_read_as_it_was_stored(m[list[i].0]);
    }
    let read = answer_map(list);
    assert forall|n: Seq<char>|
        (#[trigger] read.contains_key(n) <==> m.contains_key(n) && wanted.contains(n)) && (
        read.contains_key(n) ==> read[n].values == m[n].values && read[n].expires_at
            == m[n].expires_at) by {
        lemma_member_at(list, n);
        if by_name(list).contains_key(n) {
            let i = choose|i: int| name_at(list, n, i);
            lemma_by_name_at(list, i);
            assert(list[i].0 == n);
            law_entry_is_read_as_it_was_stored(m[n]);
        } else {
            assert forall|i: int| 0 <= i < list.len() implies (#[trigger] list[i]).0 != n by {
                lemma_by_name_at(list, i);
            }
        }
    }
}

/// The body of an answer can be printed, and is read back from the text as it was.
pub proof fn law_answer_survives_the_wire(
    m: Map<Seq<char>, EntryView>,
    wanted: Seq<Seq<char>>,
    list: Seq<(Seq<char>, JsonView)>,
)
    requires
        gives(m, wanted, list),
    ensures
        writable(query_body(list)),
        nests_within(query_body(list), 4),
{
    reveal_strlit("values");
    reveal_strlit("expires_at");
    assert("expires_at"@[0] == 'e' && "values"@[0] == 'v');
    assert forall|i: int| 0 <= i < list.len() implies writable((#[trigger] list[i]).1)
        && nests_within(list[i].1, 2) by {
        lemma_by_name_at(list, i);
        let e = m[list[i].0];
        let v = JsonView::Array(text_items(e.values));
        assert(writable(v) && nests_within(v, 1)) by {
            assert forall|k: int| 0 <= k < text_items(e.values).len() implies writable(
                #[trigger] text_items(e.values)[k],
            ) && nests_within(text_items(e.values)[k], 0) by {}
        }
        let inner = entry_json(e)->Object_0;
        assert forall|k: int| 0 <= k < inner.len() implies writable((#[trigger] inner[k]).1)
            && nests_within(inner[k].1, 1) by {}
        assert(text_lt("expires_at"@, "values"@));
    }
    assert(writable(JsonView::Object(list)));
    assert(nests_within(JsonView::Object(list), 3));
    let outer = query_body(list)->Object_0;
    assert forall|k: int| 0 <= k < outer.len() implies writable((#[trigger] outer[k]).1)
        && nests_within(outer[k].1, 3) by {}
}

} // verus!
