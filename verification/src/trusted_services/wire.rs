//! The bodies that an attribute service sends: answers to queries, and its vocabulary.
use vstd::prelude::*;

use crate::attr_server::store::{read_texts, texts_in};
use crate::json::{
    distinct_names, find_member, items_view, json_parsed, lemma_member_at, member, members_view,
    parse_json, well_named, Json, JsonView,
};
use crate::sorted::{ascending, by_name, lemma_order_is_of_names, lemma_put, names_of, put, seen_as};
use crate::text::texts;
use crate::trusted_services::attr_query_store::{
    def_views, default_scim_type, DefView, EntryView, QueryAttrEntry, QueryBody, SchemaAttrDef,
    SchemaResponse,
};

verus! {

/// The attribute that an object describes: a list of texts, and, if it is not null, a text
/// that says when it expires. Other members are not read.
pub open spec fn answer_entry(v: JsonView) -> Option<EntryView> {
    match v {
        JsonView::Object(m) => match member(m, "values"@) {
            Some(list) => match texts_in(list) {
                Some(values) => match member(m, "expires_at"@) {
                    None => Some(EntryView { values, expires_at: None }),
                    Some(JsonView::Null) => Some(EntryView { values, expires_at: None }),
                    Some(JsonView::Text(s)) => Some(EntryView { values, expires_at: Some(s) }),
                    Some(_) => None,
                },
                None => None,
            },
            None => None,
        },
        _ => None,
    }
}

/// The attributes that an answer describes, by their names.
pub open spec fn answer_in(v: JsonView) -> Option<Map<Seq<char>, EntryView>> {
    match v {
        JsonView::Object(m) => match member(m, "attributes"@) {
            Some(JsonView::Object(list)) => if forall|i: int|
                0 <= i < list.len() ==> answer_entry((#[trigger] list[i]).1) is Some {
                Some(answer_map(list))
            } else {
                None
            },
            _ => None,
        },
        _ => None,
    }
}

/// The attributes of a list of members, by their names.
pub open spec fn answer_map(list: Seq<(Seq<char>, JsonView)>) -> Map<Seq<char>, EntryView> {
    Map::new(
        |n: Seq<char>| member(list, n) is Some,
        |n: Seq<char>| answer_entry(member(list, n)->0)->0,
    )
}

/// How an attribute of an answer is seen.
pub open spec fn answer_seen() -> spec_fn(QueryAttrEntry) -> EntryView {
    |e: QueryAttrEntry| e@
}

fn read_answer_entry(v: &Json) -> (r: Option<QueryAttrEntry>)
    ensures
        match r {
            Some(e) => answer_entry(v@) == Some(e@),
            None => answer_entry(v@) is None,
        },
{
    let m = match v {
        Json::Object(m) => m,
        _ => {
            return None;
        },
    };
    assert(v@->Object_0 =~= members_view(m@));
    let values = match find_member(m, "values") {
        Some(list) => match read_texts(list) {
            Some(values) => values,
            None => {
                return None;
            },
        },
        None => {
            return None;
        },
    };
    let expires_at = match find_member(m, "expires_at") {
        None => None,
        Some(Json::Null) => None,
        Some(Json::Text(s)) => Some(s.clone()),
        Some(_) => {
            return None;
        },
    };
    Some(QueryAttrEntry { values, expires_at })
}

proof fn lemma_answer_step(list: Seq<(Seq<char>, JsonView)>, i: int)
    requires
        distinct_names(list),
        0 <= i < list.len(),
    ensures
        answer_map(list.take(i + 1)) == answer_map(list.take(i)).insert(
            list[i].0,
            answer_entry(list[i].1)->0,
        ),
{
    let a = list.take(i);
    let b = list.take(i + 1);
    assert forall|n: Seq<char>| #[trigger] member(b, n) == (if n == list[i].0 {
        Some(list[i].1)
    } else {
        member(a, n)
    }) by {
        lemma_member_at(a, n);
        lemma_member_at(b, n);
        if n == list[i].0 {
            assert(b[i] == list[i]);
        } else if exists|j: int| 0 <= j < a.len() && (#[trigger] a[j]).0 == n {
            let j = choose|j: int| 0 <= j < a.len() && (#[trigger] a[j]).0 == n;
            assert(b[j] == a[j]);
        } else {
            assert forall|j: int| 0 <= j < b.len() implies (#[trigger] b[j]).0 != n by {
                if j < i {
                    assert(a[j] == b[j]);
                }
            }
        }
    }
    assert(answer_map(b) =~= answer_map(a).insert(list[i].0, answer_entry(list[i].1)->0));
}

/// What the text of an answer's body says, `None` standing for bytes that are no text.
pub open spec fn answer_of(body: Option<Seq<char>>) -> Option<Map<Seq<char>, EntryView>> {
    match body {
        Some(text) => match json_parsed(text) {
            Ok(v) => answer_in(v),
            Err(_) => None,
        },
        None => None,
    }
}

/// The text of an optional body.
pub open spec fn body_text(body: Option<&str>) -> Option<Seq<char>> {
    match body {
        Some(b) => Some(b@),
        None => None,
    }
}

/// Reads the body of an answer to a query: the attributes in the order of their names, or
/// that it is malformed.
pub fn read_query_body(body: Option<&str>) -> (r: QueryBody)
    ensures
        match answer_of(body_text(body)) {
            Some(m) => r matches QueryBody::Attributes(list) && ascending(
                seen_as(list@, answer_seen()),
            ) && by_name(seen_as(list@, answer_seen())) == m,
            None => r matches QueryBody::Malformed,
        },
{
    let text = match body {
        Some(text) => text,
        None => {
            return QueryBody::Malformed;
        },
    };
    let parsed = match parse_json(text) {
        Ok(v) => v,
        Err(_) => {
            return QueryBody::Malformed;
        },
    };
    let members = match &parsed {
        Json::Object(members) => members,
        _ => {
            return QueryBody::Malformed;
        },
    };
    assert(parsed@->Object_0 =~= members_view(members@));
    let list = match find_member(members, "attributes") {
        Some(Json::Object(list)) => list,
        _ => {
            return QueryBody::Malformed;
        },
    };
    let ghost all = members_view(list@);
    proof {
        let found = member(members_view(members@), "attributes"@)->0;
        assert(found->Object_0 =~= all);
        lemma_member_at(members_view(members@), "attributes"@);
        assert(well_named(found));
    }
    let mut out: Vec<(String, QueryAttrEntry)> = Vec::new();
    let mut i: usize = 0;
    assert(by_name(seen_as(out@, answer_seen())) =~= answer_map(all.take(0)));
    while i < list.len()
        invariant
            i <= list@.len(),
            all == members_view(list@),
            distinct_names(all),
            answer_of(body_text(body)) == answer_in(parsed@),
            parsed@ matches JsonView::Object(d) && member(d, "attributes"@) == Some(
                JsonView::Object(all),
            ),
            ascending(names_of(out@)),
            by_name(seen_as(out@, answer_seen())) == answer_map(all.take(i as int)),
            forall|j: int| 0 <= j < i ==> answer_entry((#[trigger] all[j]).1) is Some,
        decreases list@.len() - i,
    {
        assert(all[i as int] == (list@[i as int].0@, list@[i as int].1@));
        let entry = match read_answer_entry(&list[i].1) {
            Some(e) => e,
            None => {
                assert(answer_entry(all[i as int].1) is None);
                return QueryBody::Malformed;
            },
        };
        let name = list[i].0.clone();
        let ghost before = out@;
        let ghost n = name;
        let ghost e = entry;
        let (pos, found) = put(&mut out, name, entry);
        proof {
            lemma_put(before, out@, n, e, pos as int, found, answer_seen());
            lemma_answer_step(all, i as int);
        }
        i = i + 1;
    }
    proof {
        assert(all.take(i as int) =~= all);
        lemma_order_is_of_names(out@, answer_seen());
    }
    QueryBody::Attributes(out)
}

/// The definition that an object describes: its name, its type, `string` where none is
/// given, and whether it has several values, not where nothing is said.
pub open spec fn definition_in(v: JsonView) -> Option<DefView> {
    match v {
        JsonView::Object(m) => {
            let scim_type = match member(m, "type"@) {
                None => Some("string"@),
                Some(JsonView::Text(t)) => Some(t),
                Some(_) => None,
            };
            let multi_valued = match member(m, "multiValued"@) {
                None => Some(false),
                Some(JsonView::Bool(b)) => Some(b),
                Some(_) => None,
            };
            match (member(m, "name"@), scim_type, multi_valued) {
                (Some(JsonView::Text(name)), Some(scim_type), Some(multi_valued)) => Some(
                    DefView { name, scim_type, multi_valued },
                ),
                _ => None,
            }
        },
        _ => None,
    }
}

/// The definitions that a list describes.
pub open spec fn definitions_in(v: JsonView) -> Option<Seq<DefView>> {
    match v {
        JsonView::Array(items) => if forall|i: int|
            0 <= i < items.len() ==> definition_in(#[trigger] items[i]) is Some {
            Some(items.map_values(|i: JsonView| definition_in(i)->0))
        } else {
            None
        },
        _ => None,
    }
}

/// The vocabulary that an object describes: the identity keys and the definitions, none
/// where nothing is said.
pub open spec fn schema_in(v: JsonView) -> Option<(Seq<Seq<char>>, Seq<DefView>)> {
    match v {
        JsonView::Object(m) => {
            let keys = match member(m, "identityKeys"@) {
                None => Some(Seq::empty()),
                Some(list) => texts_in(list),
            };
            let defs = match member(m, "attributes"@) {
                None => Some(Seq::empty()),
                Some(list) => definitions_in(list),
            };
            match (keys, defs) {
                (Some(k), Some(d)) => Some((k, d)),
                _ => None,
            }
        },
        _ => None,
    }
}

fn read_definition(v: &Json) -> (r: Option<SchemaAttrDef>)
    ensures
        match r {
            Some(d) => definition_in(v@) == Some(d@),
            None => definition_in(v@) is None,
        },
{
    let m = match v {
        Json::Object(m) => m,
        _ => {
            return None;
        },
    };
    assert(v@->Object_0 =~= members_view(m@));
    let scim_type = match find_member(m, "type") {
        None => default_scim_type(),
        Some(Json::Text(t)) => t.clone(),
        Some(_) => {
            return None;
        },
    };
    let multi_valued = match find_member(m, "multiValued") {
        None => false,
        Some(Json::Bool(b)) => *b,
        Some(_) => {
            return None;
        },
    };
    match find_member(m, "name") {
        Some(Json::Text(name)) => Some(
            SchemaAttrDef { name: name.clone(), scim_type, multi_valued },
        ),
        _ => None,
    }
}

fn read_definitions(v: &Json) -> (r: Option<Vec<SchemaAttrDef>>)
    ensures
        match r {
            Some(list) => definitions_in(v@) == Some(def_views(list@)),
            None => definitions_in(v@) is None,
        },
{
    let items = match v {
        Json::Array(items) => items,
        _ => {
            return None;
        },
    };
    let ghost all = v@->Array_0;
    assert(all =~= items_view(items@));
    let mut out: Vec<SchemaAttrDef> = Vec::new();
    let mut i: usize = 0;
    while i < items.len()
        invariant
            i <= items@.len(),
            v@ == JsonView::Array(all),
            all == items_view(items@),
            out@.len() == i,
            forall|j: int| 0 <= j < i ==> definition_in(#[trigger] all[j]) == Some(out@[j]@),
        decreases items@.len() - i,
    {
        assert(all[i as int] == items@[i as int]@);
        match read_definition(&items[i]) {
            Some(d) => out.push(d),
            None => {
                assert(definition_in(all[i as int]) is None);
                return None;
            },
        }
        i = i + 1;
    }
    assert(definitions_in(v@)->0 =~= def_views(out@));
    Some(out)
}

/// What the text of a vocabulary says.
pub open spec fn schema_of(body: Option<Seq<char>>) -> Option<(Seq<Seq<char>>, Seq<DefView>)> {
    match body {
        Some(text) => match json_parsed(text) {
            Ok(v) => schema_in(v),
            Err(_) => None,
        },
        None => None,
    }
}

/// Reads the vocabulary of a service.
pub fn read_schema(body: Option<&str>) -> (r: Result<SchemaResponse, String>)
    ensures
        match schema_of(body_text(body)) {
            Some((keys, defs)) => r matches Ok(s) && texts(s.identity_keys@) == keys && def_views(
                s.attributes@,
            ) == defs,
            None => r matches Err(e) && e@ == "schema response does not parse"@,
        },
{
    match parse_schema(body) {
        Some(s) => Ok(s),
        None => Err("schema response does not parse".to_owned()),
    }
}

fn parse_schema(body: Option<&str>) -> (r: Option<SchemaResponse>)
    ensures
        match schema_of(body_text(body)) {
            Some((keys, defs)) => r matches Some(s) && texts(s.identity_keys@) == keys
                && def_views(s.attributes@) == defs,
            None => r is None,
        },
{
    let text = match body {
        Some(text) => text,
        None => {
            return None;
        },
    };
    let parsed = match parse_json(text) {
        Ok(v) => v,
        Err(_) => {
            return None;
        },
    };
    let m = match &parsed {
        Json::Object(m) => m,
        _ => {
            return None;
        },
    };
    assert(parsed@->Object_0 =~= members_view(m@));
    let identity_keys = match find_member(m, "identityKeys") {
        None => {
            let none: Vec<String> = Vec::new();
            assert(texts(none@) =~= Seq::empty());
            none
        },
        Some(list) => match read_texts(list) {
            Some(keys) => keys,
            None => {
                return None;
            },
        },
    };
    let attributes = match find_member(m, "attributes") {
        None => {
            let none: Vec<SchemaAttrDef> = Vec::new();
            assert(def_views(none@) =~= Seq::empty());
            none
        },
        Some(list) => match read_definitions(list) {
            Some(defs) => defs,
            None => {
                return None;
            },
        },
    };
    Some(SchemaResponse { identity_keys, attributes })
}

/// An attribute of an answer is an object with its list of values, all texts, and, where it has
/// one that is not null, a text for its expiry. It is read as these, each value at its place;
/// without values, or with an expiry that is no text, it is not read.
pub proof fn law_answered_attribute_is_values_and_expiry(
    m: Seq<(Seq<char>, JsonView)>,
    values: Seq<JsonView>,
)
    requires
        forall|i: int, j: int|
            0 <= i < j < m.len() ==> (#[trigger] m[i]).0 != (#[trigger] m[j]).0,
    ensures
        m.contains(("values"@, JsonView::Array(values))) && (forall|i: int|
            0 <= i < values.len() ==> (#[trigger] values[i]) is Text) ==> {
            &&& forall|s: Seq<char>| #[trigger]
                m.contains(("expires_at"@, JsonView::Text(s))) ==> (answer_entry(
                    JsonView::Object(m),
                ) matches Some(e) && e.expires_at == Some(s))
            &&& m.contains(("expires_at"@, JsonView::Null)) || (forall|i: int|
                0 <= i < m.len() ==> (#[trigger] m[i]).0 != "expires_at"@) ==> (answer_entry(
                JsonView::Object(m),
            ) matches Some(e) && e.expires_at is None)
            &&& answer_entry(JsonView::Object(m)) matches Some(e) ==> e.values.len()
                == values.len() && forall|i: int|
                0 <= i < values.len() ==> JsonView::Text(#[trigger] e.values[i]) == values[i]
        },
        (forall|i: int| 0 <= i < m.len() ==> (#[trigger] m[i]).0 != "values"@) ==> answer_entry(
            JsonView::Object(m),
        ) is None,
        forall|x: JsonView| #[trigger]
            m.contains(("expires_at"@, x)) && !(x is Text) && !(x is Null) ==> answer_entry(
                JsonView::Object(m),
            ) is None,
        forall|i: int|
            m.contains(("values"@, JsonView::Array(values))) && 0 <= i < values.len() && !((
            #[trigger] values[i]) is Text) ==> answer_entry(JsonView::Object(m)) is None,
{
    crate::json::law_member_is_found_under_its_name(m, "values"@);
    crate::json::law_member_is_found_under_its_name(m, "expires_at"@);
    crate::attr_server::store::law_texts_are_read_one_by_one(JsonView::Array(values));
}

/// An answer is an object whose attributes are an object; it is read as all of these, each under
/// its name, and only where each can be read.
pub proof fn law_answer_is_all_its_attributes(
    m: Seq<(Seq<char>, JsonView)>,
    list: Seq<(Seq<char>, JsonView)>,
    name: Seq<char>,
)
    requires
        forall|i: int, j: int|
            0 <= i < j < m.len() ==> (#[trigger] m[i]).0 != (#[trigger] m[j]).0,
        forall|i: int, j: int|
            0 <= i < j < list.len() ==> (#[trigger] list[i]).0 != (#[trigger] list[j]).0,
        m.contains(("attributes"@, JsonView::Object(list))),
    ensures
        answer_in(JsonView::Object(m)) is Some <==> forall|i: int|
            0 <= i < list.len() ==> answer_entry((#[trigger] list[i]).1) is Some,
        answer_in(JsonView::Object(m)) matches Some(read) ==> (read.contains_key(name) <==> exists|
            i: int,
        |
            0 <= i < list.len() && (#[trigger] list[i]).0 == name),
        answer_in(JsonView::Object(m)) matches Some(read) ==> forall|i: int|
            0 <= i < list.len() ==> read.contains_key((#[trigger] list[i]).0) && answer_entry(
                list[i].1,
            ) == Some(read[list[i].0]),
{
    crate::json::law_member_is_found_under_its_name(m, "attributes"@);
    crate::json::law_member_is_found_under_its_name(list, name);
    if answer_in(JsonView::Object(m)) is Some {
        assert forall|i: int| 0 <= i < list.len() implies answer_map(list).contains_key(
            (#[trigger] list[i]).0,
        ) && answer_entry(list[i].1) == Some(answer_map(list)[list[i].0]) by {
            crate::json::law_member_is_found_under_its_name(list, list[i].0);
            assert(list.contains((list[i].0, list[i].1))) by {
                assert(list[i] == (list[i].0, list[i].1));
            }
            assert(answer_entry(list[i].1) is Some);
        }
    }
}

/// A body without attributes, or whose attributes are no object, is no answer.
pub proof fn law_malformed_answers_are_not_read(v: JsonView, m: Seq<(Seq<char>, JsonView)>)
    requires
        forall|i: int, j: int|
            0 <= i < j < m.len() ==> (#[trigger] m[i]).0 != (#[trigger] m[j]).0,
    ensures
        !(v is Object) ==> answer_in(v) is None,
        (forall|i: int| 0 <= i < m.len() ==> (#[trigger] m[i]).0 != "attributes"@) ==> answer_in(
            JsonView::Object(m),
        ) is None,
        forall|x: JsonView| #[trigger]
            m.contains(("attributes"@, x)) && !(x is Object) ==> answer_in(JsonView::Object(m))
                is None,
        answer_of(None) is None,
        forall|text: Seq<char>|
            (#[trigger] json_parsed(text)) is Err ==> answer_of(Some(text)) is None,
        forall|text: Seq<char>|
            (#[trigger] json_parsed(text)) matches Ok(read) ==> answer_of(Some(text)) == answer_in(
                read,
            ),
{
    crate::json::law_member_is_found_under_its_name(m, "attributes"@);
}

/// A definition needs a name. Its type is a text, `string` where none is given, and it has one
/// value unless it says that it has several.
pub proof fn law_definition_is_name_type_and_number(
    m: Seq<(Seq<char>, JsonView)>,
    name: Seq<char>,
)
    requires
        forall|i: int, j: int|
            0 <= i < j < m.len() ==> (#[trigger] m[i]).0 != (#[trigger] m[j]).0,
    ensures
        (forall|s: Seq<char>| !#[trigger] m.contains(("name"@, JsonView::Text(s))))
            ==> definition_in(JsonView::Object(m)) is None,
        definition_in(JsonView::Object(m)) matches Some(d) ==> m.contains(
            ("name"@, JsonView::Text(d.name)),
        ) && (m.contains(("type"@, JsonView::Text(d.scim_type))) || d.scim_type == "string"@ && (
        forall|i: int| 0 <= i < m.len() ==> (#[trigger] m[i]).0 != "type"@)) && (m.contains(
            ("multiValued"@, JsonView::Bool(d.multi_valued)),
        ) || !d.multi_valued && (forall|i: int|
            0 <= i < m.len() ==> (#[trigger] m[i]).0 != "multiValued"@)),
        m.contains(("name"@, JsonView::Text(name))) && ((forall|i: int|
            0 <= i < m.len() ==> (#[trigger] m[i]).0 != "type"@) || exists|t: Seq<char>| #[trigger]
            m.contains(("type"@, JsonView::Text(t)))) && ((forall|i: int|
            0 <= i < m.len() ==> (#[trigger] m[i]).0 != "multiValued"@) || exists|b: bool|
            #[trigger]
            m.contains(("multiValued"@, JsonView::Bool(b)))) ==> (definition_in(
            JsonView::Object(m),
        ) matches Some(d) && d.name == name),
{
    crate::json::law_member_is_found_under_its_name(m, "name"@);
    crate::json::law_member_is_found_under_its_name(m, "type"@);
    crate::json::law_member_is_found_under_its_name(m, "multiValued"@);
    if let Some(JsonView::Text(s)) = member(m, "name"@) {
        assert(m.contains(("name"@, JsonView::Text(s))));
    }
    if let Some(d) = definition_in(JsonView::Object(m)) {
        if let Some(x) = member(m, "type"@) {
            assert(m.contains(("type"@, x)));
        }
        if let Some(x) = member(m, "multiValued"@) {
            assert(m.contains(("multiValued"@, x)));
        }
    }
}

/// A schema is read as its identity keys and its definitions, each at its place; either may be
/// absent and is then empty.
pub proof fn law_schema_is_keys_and_definitions(
    m: Seq<(Seq<char>, JsonView)>,
    keys: JsonView,
    defs: Seq<JsonView>,
)
    requires
        forall|i: int, j: int|
            0 <= i < j < m.len() ==> (#[trigger] m[i]).0 != (#[trigger] m[j]).0,
    ensures
        m.contains(("identityKeys"@, keys)) && texts_in(keys) is Some && m.contains(
            ("attributes"@, JsonView::Array(defs)),
        ) && (forall|i: int|
            0 <= i < defs.len() ==> definition_in(#[trigger] defs[i]) is Some) ==> (schema_in(
            JsonView::Object(m),
        ) matches Some(s) && s.0 == texts_in(keys)->0 && s.1.len() == defs.len() && forall|i: int|
            0 <= i < defs.len() ==> definition_in(defs[i]) == Some(#[trigger] s.1[i])),
        m.contains(("identityKeys"@, keys)) && texts_in(keys) is None ==> schema_in(
            JsonView::Object(m),
        ) is None,
        m.contains(("attributes"@, JsonView::Array(defs))) && (exists|i: int|
            0 <= i < defs.len() && definition_in(#[trigger] defs[i]) is None) ==> schema_in(
            JsonView::Object(m),
        ) is None,
        (forall|i: int| 0 <= i < m.len() ==> (#[trigger] m[i]).0 != "identityKeys"@) ==> (schema_in(
            JsonView::Object(m),
        ) matches Some(s) ==> s.0.len() == 0),
        (forall|i: int| 0 <= i < m.len() ==> (#[trigger] m[i]).0 != "attributes"@) ==> (schema_in(
            JsonView::Object(m),
        ) matches Some(s) ==> s.1.len() == 0),
{
    crate::json::law_member_is_found_under_its_name(m, "identityKeys"@);
    crate::json::law_member_is_found_under_its_name(m, "attributes"@);
}

} // verus!
