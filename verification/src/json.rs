//! JSON values as plain data, with the `serde_json` reader and writer behind
//! two trusted functions.
use vstd::prelude::*;

use crate::text::{
    decimal, decimal_text, lemma_text_le_antisymmetric, lemma_text_le_total,
    lemma_text_le_transitive, not_after, text_eq, text_lt,
};

verus! {

/// A JSON number: its printed form, and its value where it is a whole number
/// that fits in 64 unsigned bits.
#[derive(Debug)]
pub struct JsonNumber {
    pub text: String,
    pub unsigned: Option<u64>,
}

/// A JSON value.
#[derive(Debug)]
pub enum Json {
    Null,
    Bool(bool),
    Number(JsonNumber),
    Text(String),
    Array(Vec<Json>),
    Object(Vec<(String, Json)>),
}

/// What a JSON value is, as mathematical data.
pub enum JsonView {
    Null,
    Bool(bool),
    Number(Seq<char>, Option<u64>),
    Text(Seq<char>),
    Array(Seq<JsonView>),
    Object(Seq<(Seq<char>, JsonView)>),
}

impl Json {
    /// The mathematical value of a JSON value.
    pub open spec fn model(self) -> JsonView
        decreases self,
    {
        match self {
            Json::Null => JsonView::Null,
            Json::Bool(b) => JsonView::Bool(b),
            Json::Number(n) => JsonView::Number(n.text@, n.unsigned),
            Json::Text(s) => JsonView::Text(s@),
            Json::Array(items) => JsonView::Array(
                Seq::new(
                    items@.len(),
                    |i: int|
                        if 0 <= i < items@.len() {
                            items@[i].model()
                        } else {
                            JsonView::Null
                        },
                ),
            ),
            Json::Object(members) => JsonView::Object(
                Seq::new(
                    members@.len(),
                    |i: int|
                        if 0 <= i < members@.len() {
                            (members@[i].0@, members@[i].1.model())
                        } else {
                            (Seq::empty(), JsonView::Null)
                        },
                ),
            ),
        }
    }
}

impl View for Json {
    type V = JsonView;

    open spec fn view(&self) -> JsonView {
        self.model()
    }
}

impl Json {
    /// A copy.
    pub fn copy(&self) -> (r: Json)
        ensures
            r@ == self@,
        decreases self,
    {
        match self {
            Json::Null => Json::Null,
            Json::Bool(b) => Json::Bool(*b),
            Json::Number(n) => Json::Number(
                JsonNumber { text: n.text.clone(), unsigned: n.unsigned },
            ),
            Json::Text(s) => Json::Text(s.clone()),
            Json::Array(items) => {
                let mut out: Vec<Json> = Vec::new();
                let mut i: usize = 0;
                while i < items.len()
                    invariant
                        i <= items@.len(),
                        *self == Json::Array(*items),
                        out@.len() == i,
                        forall|j: int| 0 <= j < i ==> (#[trigger] out@[j])@ == items@[j]@,
                    decreases items@.len() - i,
                {
                    assert(decreases_to!(*self => self->Array_0));
                    assert(decreases_to!(self->Array_0 => self->Array_0@));
                    assert(decreases_to!(items@ => items@[i as int]));
                    out.push(items[i].copy());
                    i = i + 1;
                }
                let r = Json::Array(out);
                assert(r@->Array_0 =~= self@->Array_0);
                r
            },
            Json::Object(members) => {
                let mut out: Vec<(String, Json)> = Vec::new();
                let mut i: usize = 0;
                while i < members.len()
                    invariant
                        i <= members@.len(),
                        *self == Json::Object(*members),
                        out@.len() == i,
                        forall|j: int|
                            0 <= j < i ==> (#[trigger] out@[j]).0@ == members@[j].0@ && out@[j].1@
                                == members@[j].1@,
                    decreases members@.len() - i,
                {
                    assert(decreases_to!(*self => self->Object_0));
                    assert(decreases_to!(self->Object_0 => self->Object_0@));
                    assert(decreases_to!(members@ => members@[i as int]));
                    assert(decreases_to!(members@[i as int] => members@[i as int].1));
                    out.push((members[i].0.clone(), members[i].1.copy()));
                    i = i + 1;
                }
                let r = Json::Object(out);
                assert(r@->Object_0 =~= self@->Object_0);
                r
            },
        }
    }
}

/// The members of an object as mathematical data.
pub open spec fn members_view(members: Seq<(String, Json)>) -> Seq<(Seq<char>, JsonView)> {
    Seq::new(members.len(), |i: int| (members[i].0@, members[i].1@))
}

/// The values of an array as mathematical data.
pub open spec fn items_view(items: Seq<Json>) -> Seq<JsonView> {
    Seq::new(items.len(), |i: int| items[i]@)
}

/// No member name occurs twice.
pub open spec fn distinct_names(members: Seq<(Seq<char>, JsonView)>) -> bool {
    forall|i: int, j: int|
        0 <= i < j < members.len() ==> (#[trigger] members[i]).0 != (#[trigger] members[j]).0
}

/// No object in the tree has two members of one name.
pub open spec fn well_named(v: JsonView) -> bool
    decreases v,
{
    match v {
        JsonView::Array(items) => forall|i: int|
            0 <= i < items.len() ==> well_named(#[trigger] items[i]),
        JsonView::Object(members) => distinct_names(members) && forall|i: int|
            0 <= i < members.len() ==> well_named((#[trigger] members[i]).1),
        _ => true,
    }
}

/// The value of the first member called `name`.
pub open spec fn member(members: Seq<(Seq<char>, JsonView)>, name: Seq<char>) -> Option<JsonView>
    decreases members.len(),
{
    if members.len() == 0 {
        None
    } else if members[0].0 == name {
        Some(members[0].1)
    } else {
        member(members.drop_first(), name)
    }
}

/// Member names in strictly increasing order.
pub open spec fn sorted_names(members: Seq<(Seq<char>, JsonView)>) -> bool {
    forall|i: int, j: int|
        0 <= i < j < members.len() ==> text_lt(
            (#[trigger] members[i]).0,
            (#[trigger] members[j]).0,
        )
}

/// What an object says of every name.
pub open spec fn object_map(members: Seq<(Seq<char>, JsonView)>) -> Map<Seq<char>, JsonView> {
    Map::new(
        |name: Seq<char>| member(members, name) is Some,
        |name: Seq<char>| member(members, name)->0,
    )
}

/// Where names are distinct, a member is found under its name, and only there.
pub proof fn lemma_member_at(members: Seq<(Seq<char>, JsonView)>, name: Seq<char>)
    requires
        distinct_names(members),
    ensures
        forall|i: int|
            0 <= i < members.len() && (#[trigger] members[i]).0 == name ==> member(members, name)
                == Some(members[i].1),
        (forall|i: int| 0 <= i < members.len() ==> (#[trigger] members[i]).0 != name) ==> member(
            members,
            name,
        ) is None,
    decreases members.len(),
{
    if members.len() > 0 {
        let rest = members.drop_first();
        assert forall|i: int, j: int| 0 <= i < j < rest.len() implies (#[trigger] rest[i]).0 != (
        #[trigger] rest[j]).0 by {
            assert(rest[i] == members[i + 1] && rest[j] == members[j + 1]);
        }
        lemma_member_at(rest, name);
        assert forall|i: int|
            0 <= i < members.len() && (#[trigger] members[i]).0 == name implies member(
            members,
            name,
        ) == Some(members[i].1) by {
            if i > 0 {
                assert(rest[i - 1] == members[i]);
                assert(members[0].0 != name);
            }
        }
        if forall|i: int| 0 <= i < members.len() ==> (#[trigger] members[i]).0 != name {
            assert forall|i: int| 0 <= i < rest.len() implies (#[trigger] rest[i]).0 != name by {
                assert(rest[i] == members[i + 1]);
            }
            assert(members[0].0 != name);
        }
    }
}

/// Puts a text under a name, in place of any value that was there, and keeps the
/// names in order.
pub fn put_text(members: &mut Vec<(String, Json)>, name: &str, value: &str)
    requires
        sorted_names(members_view(old(members)@)),
    ensures
        sorted_names(members_view(final(members)@)),
        object_map(members_view(final(members)@)) == object_map(
            members_view(old(members)@),
        ).insert(name@, JsonView::Text(value@)),
{
    let ghost before = members_view(members@);
    let ghost entry = (name@, JsonView::Text(value@));
    let mut pos: usize = 0;
    let mut found = false;
    while pos < members.len()
        invariant_except_break
            !found,
        invariant
            *members == *old(members),
            before == members_view(members@),
            sorted_names(before),
            pos <= members@.len(),
            forall|i: int| 0 <= i < pos ==> text_lt((#[trigger] before[i]).0, name@),
        ensures
            *members == *old(members),
            pos <= members@.len(),
            forall|i: int| 0 <= i < pos ==> text_lt((#[trigger] before[i]).0, name@),
            found ==> pos < members@.len() && before[pos as int].0 == name@,
            !found ==> forall|i: int|
                pos <= i < before.len() ==> text_lt(name@, (#[trigger] before[i]).0),
        decreases members@.len() - pos,
    {
        assert(before[pos as int].0 == members@[pos as int].0@);
        if text_eq(members[pos].0.as_str(), name) {
            found = true;
            break;
        }
        if not_after(name, members[pos].0.as_str()) {
            assert forall|i: int| pos <= i < before.len() implies text_lt(
                name@,
                (#[trigger] before[i]).0,
            ) by {
                if i > pos {
                    assert(text_lt(before[pos as int].0, before[i].0));
                    lemma_text_le_transitive(name@, before[pos as int].0, before[i].0);
                    if name@ == before[i].0 {
                        lemma_text_le_antisymmetric(before[pos as int].0, before[i].0);
                    }
                }
            }
            break;
        }
        proof {
            lemma_text_le_total(name@, before[pos as int].0);
        }
        pos = pos + 1;
    }
    if found {
        members.set(pos, (name.to_owned(), Json::Text(value.to_owned())));
    } else {
        members.insert(pos, (name.to_owned(), Json::Text(value.to_owned())));
    }
    proof {
        let after = members_view(members@);
        if found {
            assert(after =~= before.update(pos as int, entry));
        } else {
            assert(after =~= before.insert(pos as int, entry));
        }
        lemma_put(before, after, pos as int, entry, found);
    }
}

proof fn lemma_put(
    before: Seq<(Seq<char>, JsonView)>,
    after: Seq<(Seq<char>, JsonView)>,
    pos: int,
    entry: (Seq<char>, JsonView),
    found: bool,
)
    requires
        sorted_names(before),
        0 <= pos <= before.len(),
        forall|i: int| 0 <= i < pos ==> text_lt((#[trigger] before[i]).0, entry.0),
        found ==> pos < before.len() && before[pos].0 == entry.0 && after == before.update(
            pos,
            entry,
        ),
        !found ==> after == before.insert(pos, entry) && forall|i: int|
            pos <= i < before.len() ==> text_lt(entry.0, (#[trigger] before[i]).0),
    ensures
        sorted_names(after),
        object_map(after) == object_map(before).insert(entry.0, entry.1),
{
    assert forall|i: int, j: int| 0 <= i < j < after.len() implies text_lt(
        (#[trigger] after[i]).0,
        (#[trigger] after[j]).0,
    ) by {
        let a = if found || i < pos {
            i
        } else {
            i - 1
        };
        let b = if found || j < pos {
            j
        } else {
            j - 1
        };
        if i != pos {
            assert(after[i] == before[a]);
        }
        if j != pos {
            assert(after[j] == before[b]);
        }
        if found {
            assert(text_lt(before[i].0, before[j].0));
        }
    }
    assert(distinct_names(before));
    assert(distinct_names(after));
    assert forall|name: Seq<char>| #[trigger] member(after, name) == (if name == entry.0 {
        Some(entry.1)
    } else {
        member(before, name)
    }) by {
        lemma_member_at(before, name);
        lemma_member_at(after, name);
        if name == entry.0 {
            assert(after[pos] == entry);
        } else if exists|i: int| 0 <= i < before.len() && (#[trigger] before[i]).0 == name {
            let i = choose|i: int| 0 <= i < before.len() && (#[trigger] before[i]).0 == name;
            let k = if found || i < pos {
                i
            } else {
                i + 1
            };
            assert(after[k] == before[i]);
        } else {
            assert forall|k: int| 0 <= k < after.len() implies (#[trigger] after[k]).0 != name by {
                let i = if found || k < pos {
                    k
                } else {
                    k - 1
                };
                if k != pos {
                    assert(after[k] == before[i]);
                }
            }
        }
    }
    assert(object_map(after) =~= object_map(before).insert(entry.0, entry.1));
}

/// Finds the first member called `name`.
pub fn find_member<'a>(members: &'a Vec<(String, Json)>, name: &str) -> (r: Option<&'a Json>)
    ensures
        match r {
            Some(v) => member(members_view(members@), name@) == Some(v@),
            None => member(members_view(members@), name@) is None,
        },
{
    let ghost all = members_view(members@);
    let mut i: usize = 0;
    assert(all.skip(0) == all);
    while i < members.len()
        invariant
            i <= members@.len(),
            all == members_view(members@),
            member(all, name@) == member(all.skip(i as int), name@),
        decreases members@.len() - i,
    {
        assert(all.skip(i as int)[0] == all[i as int]);
        if text_eq(members[i].0.as_str(), name) {
            return Some(&members[i].1);
        }
        assert(all.skip(i as int).drop_first() == all.skip(i + 1));
        i = i + 1;
    }
    assert(all.skip(i as int).len() == 0);
    None
}

/// The tree type of `serde_json`.
#[verifier::external_type_specification]
#[verifier::external_body]
pub struct ExValue(serde_json::Value);

/// What a `serde_json::Value` holds: the tree of its members and items.
pub uninterp spec fn value_contents(value: serde_json::Value) -> JsonView;

/// What `serde_json::from_str` makes of a text: the tree it reads, or the words
/// of its complaint.
pub uninterp spec fn json_parsed(text: Seq<char>) -> Result<JsonView, Seq<char>>;

/// Reads a text with `serde_json::from_str`. The outcome depends on the text
/// alone: the tree that the text denotes, or the error's printed form. Where an object
/// repeats a name, its last member of that name is kept. The whole text is read, also
/// what nobody asks for later.
#[verifier::external_body]
fn read_value(text: &str) -> (r: Result<serde_json::Value, String>)
    ensures
        match r {
            Ok(value) => json_parsed(text@) == Ok::<JsonView, Seq<char>>(value_contents(value)),
            Err(e) => json_parsed(text@) == Err::<JsonView, Seq<char>>(e@),
        },
{
    serde_json::from_str::<serde_json::Value>(text).map_err(|e| e.to_string())
}

/// Takes a `serde_json::Value` apart, variant by variant. A number is kept as
/// `Number::to_string` prints it, beside what `Number::as_u64` says of it. An
/// object's member names are pairwise different, at every depth, as they are the
/// keys of a map.
#[verifier::external_body]
pub(crate) fn json_of_value(value: serde_json::Value) -> (r: Json)
    ensures
        r@ == value_contents(value),
        well_named(r@),
{
    match value {
        serde_json::Value::Null => Json::Null,
        serde_json::Value::Bool(b) => Json::Bool(b),
        serde_json::Value::Number(n) => Json::Number(
            JsonNumber { text: n.to_string(), unsigned: n.as_u64() },
        ),
        serde_json::Value::String(s) => Json::Text(s),
        serde_json::Value::Array(items) => Json::Array(items.into_iter().map(json_of_value).collect()),
        serde_json::Value::Object(map) => Json::Object(
            map.into_iter().map(|(name, v)| (name, json_of_value(v))).collect(),
        ),
    }
}

/// Reads a JSON text.
pub fn parse_json(text: &str) -> (r: Result<Json, String>)
    ensures
        match r {
            Ok(j) => json_parsed(text@) == Ok::<JsonView, Seq<char>>(j@),
            Err(e) => json_parsed(text@) == Err::<JsonView, Seq<char>>(e@),
        },
        r matches Ok(j) ==> well_named(j@),
{
    match read_value(text) {
        Ok(value) => Ok(json_of_value(value)),
        Err(e) => Err(e),
    }
}

/// A tree that can be written out and read back unchanged: member names in
/// strictly increasing order, and whole numbers only, in plain decimal.
pub open spec fn writable(v: JsonView) -> bool
    decreases v,
{
    match v {
        JsonView::Null => true,
        JsonView::Bool(_) => true,
        JsonView::Text(_) => true,
        JsonView::Number(text, unsigned) => unsigned matches Some(n) && text == decimal_text(
            n as nat,
        ),
        JsonView::Array(items) => forall|i: int|
            0 <= i < items.len() ==> writable(#[trigger] items[i]),
        JsonView::Object(members) => {
            &&& forall|i: int|
                0 <= i < members.len() ==> writable((#[trigger] members[i]).1)
            &&& forall|i: int, j: int|
                0 <= i < j < members.len() ==> text_lt(
                    (#[trigger] members[i]).0,
                    (#[trigger] members[j]).0,
                )
        },
    }
}

/// Builds the `serde_json::Value` of a tree, variant by variant; an object
/// becomes a `serde_json::Map`, which keeps its members in the order of their
/// names.
#[verifier::external_body]
fn value_of_json(json: &Json) -> (r: serde_json::Value)
    requires
        writable(json@),
    ensures
        value_contents(r) == json@,
{
    match json {
        Json::Null => serde_json::Value::Null,
        Json::Bool(b) => serde_json::Value::Bool(*b),
        Json::Number(n) => serde_json::Value::from(n.unsigned),
        Json::Text(s) => serde_json::Value::String(s.clone()),
        Json::Array(items) => serde_json::Value::Array(items.iter().map(value_of_json).collect()),
        Json::Object(members) => serde_json::Value::Object(
            members.iter().map(|(name, v)| (name.clone(), value_of_json(v))).collect(),
        ),
    }
}

/// The outcome of reading a text that denotes `v`.
pub open spec fn reads_as(v: JsonView) -> Result<JsonView, Seq<char>> {
    Ok(v)
}

/// The compact text that `serde_json` prints for a tree.
pub uninterp spec fn json_printed(v: JsonView) -> Seq<char>;

/// Arrays and objects stand inside one another at most `levels` deep.
pub open spec fn nests_within(v: JsonView, levels: nat) -> bool
    decreases v,
{
    match v {
        JsonView::Array(items) => levels > 0 && forall|i: int|
            0 <= i < items.len() ==> nests_within(#[trigger] items[i], (levels - 1) as nat),
        JsonView::Object(members) => levels > 0 && forall|i: int|
            0 <= i < members.len() ==> nests_within(
                (#[trigger] members[i]).1,
                (levels - 1) as nat,
            ),
        _ => true,
    }
}

/// Writes a tree with `Value::to_string`, the compact printer. Reading the
/// text again gives the same tree, as long as its numbers are whole and the tree
/// stays within the depth that the reader follows.
#[verifier::external_body]
fn write_value(value: &serde_json::Value) -> (r: String)
    requires
        writable(value_contents(*value)),
    ensures
        r@ == json_printed(value_contents(*value)) && (nests_within(value_contents(*value), 100)
            ==> json_parsed(r@) == reads_as(value_contents(*value))),
{
    value.to_string()
}

/// Writes a JSON value as compact text, from which the same value is read
/// back.
pub fn print_json(json: &Json) -> (r: String)
    requires
        writable(json@),
    ensures
        r@ == json_printed(json@),
        nests_within(json@, 100) ==> json_parsed(r@) == reads_as(json@),
{
    let value = value_of_json(json);
    write_value(&value)
}

/// The JSON number of an unsigned integer.
pub fn json_u64(n: u64) -> (r: Json)
    ensures
        r@ == JsonView::Number(decimal_text(n as nat), Some(n)),
        writable(r@),
{
    Json::Number(JsonNumber { text: decimal(n), unsigned: Some(n) })
}

/// A member of an object is found under its name: where no name is given twice, a value is found
/// just where the object has it under that name, and nothing where it has the name nowhere.
pub proof fn law_member_is_found_under_its_name(members: Seq<(Seq<char>, JsonView)>, name: Seq<char>)
    requires
        forall|i: int, j: int|
            0 <= i < j < members.len() ==> (#[trigger] members[i]).0 != (#[trigger] members[j]).0,
    ensures
        forall|v: JsonView| #[trigger]
            members.contains((name, v)) <==> member(members, name) == Some(v),
        member(members, name) is None <==> forall|i: int|
            0 <= i < members.len() ==> (#[trigger] members[i]).0 != name,
{
    lemma_member_at(members, name);
    assert forall|v: JsonView| #[trigger] members.contains((name, v)) <==> member(members, name)
        == Some(v) by {
        if members.contains((name, v)) {
            let i = choose|i: int| 0 <= i < members.len() && members[i] == (name, v);
            assert(members[i].0 == name);
        }
        if member(members, name) == Some(v) {
            let i = choose|i: int| 0 <= i < members.len() && (#[trigger] members[i]).0 == name;
            assert(members[i] == (name, v));
        }
    }
    if member(members, name) is None {
        assert forall|i: int| 0 <= i < members.len() implies (#[trigger] members[i]).0 != name by {
            if members[i].0 == name {
                assert(member(members, name) == Some(members[i].1));
            }
        }
    }
}

} // verus!
