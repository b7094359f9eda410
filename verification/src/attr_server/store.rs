//! The data that an attribute server answers from.
//!
//! The file is a JSON object: identity key, identity value, attribute name, values. The
//! values are a list of texts, or an object `{"values": [..], "expires_at": ".."}`. The key
//! `_schema`, where it is there, holds the definitions that the server gives out.
use vstd::prelude::*;

use crate::actor::text_items;
use crate::attribute::{clone_texts, same_texts};
use crate::json::{
    distinct_names, find_member, items_view, json_parsed, lemma_member_at, member, members_view,
    parse_json, well_named, Json, JsonView,
};
use crate::policy::clone_opt;
use crate::sorted::{
    ascending, by_name, get, lemma_by_name_at, lemma_get, lemma_not_named,
    lemma_order_is_of_names, lemma_put, lemma_put_new, name_at, names_of, put, seen_as,
};
use crate::text::{cat, opt_text, text_eq, text_lt, texts};
use crate::trusted_services::pair_views;

verus! {

/// The key of the definitions.
pub const SCHEMA_KEY: &'static str = "_schema";

/// Why a file gives no data.
#[derive(Debug)]
pub enum DataError {
    /// It could not be read.
    Io(String),
    /// It is no JSON, or not of the shape described above.
    Parse(String),
    /// It holds something else than an object.
    NotAnObject,
    /// Its definitions are something else than a list.
    SchemaNotAnArray,
}

/// A data error as mathematical data.
pub enum DataErrorView {
    Io(Seq<char>),
    Parse(Seq<char>),
    NotAnObject,
    SchemaNotAnArray,
}

impl View for DataError {
    type V = DataErrorView;

    open spec fn view(&self) -> DataErrorView {
        match *self {
            DataError::Io(s) => DataErrorView::Io(s@),
            DataError::Parse(s) => DataErrorView::Parse(s@),
            DataError::NotAnObject => DataErrorView::NotAnObject,
            DataError::SchemaNotAnArray => DataErrorView::SchemaNotAnArray,
        }
    }
}

impl DataError {
    /// The sentence that tells the failure to a person.
    pub fn message(&self) -> (r: String)
        ensures
            r@ == (match self@ {
                DataErrorView::Io(s) => "failed to read data file: "@ + s,
                DataErrorView::Parse(s) => "data file does not parse as file-store JSON: "@ + s,
                DataErrorView::NotAnObject =>
                "data file must be a JSON object keyed by identity attribute key"@,
                DataErrorView::SchemaNotAnArray =>
                "'_schema' must be an array of SCIM attribute definitions"@,
            }),
    {
        match self {
            DataError::Io(s) => cat("failed to read data file: ", s.as_str()),
            DataError::Parse(s) => cat(
                "data file does not parse as file-store JSON: ",
                s.as_str(),
            ),
            DataError::NotAnObject =>
            "data file must be a JSON object keyed by identity attribute key".to_owned(),
            DataError::SchemaNotAnArray =>
            "'_schema' must be an array of SCIM attribute definitions".to_owned(),
        }
    }
}

/// Two matched records disagree on an attribute. The server must not pick a winner.
#[derive(Debug)]
pub struct Conflict {
    /// The attribute that they disagree on.
    pub name: String,
}

/// One stored attribute, in either spelling.
#[derive(Debug)]
pub enum StoredEntry {
    /// The values alone.
    Bare(Vec<String>),
    /// The values, and when they expire.
    WithExpiry { values: Vec<String>, expires_at: Option<String> },
}

/// A stored attribute as mathematical data.
#[verifier::ext_equal]
pub struct EntryView {
    pub values: Seq<Seq<char>>,
    pub expires_at: Option<Seq<char>>,
}

impl View for StoredEntry {
    type V = EntryView;

    open spec fn view(&self) -> EntryView {
        match *self {
            StoredEntry::Bare(values) => EntryView { values: texts(values@), expires_at: None },
            StoredEntry::WithExpiry { values, expires_at } => EntryView {
                values: texts(values@),
                expires_at: opt_text(expires_at),
            },
        }
    }
}

impl StoredEntry {
    /// The values, whichever the spelling.
    pub fn values(&self) -> (r: &Vec<String>)
        ensures
            texts(r@) == self@.values,
    {
        match self {
            StoredEntry::Bare(values) => values,
            StoredEntry::WithExpiry { values, .. } => values,
        }
    }

    /// When the values expire, where the entry says so.
    pub fn expires_at(&self) -> (r: Option<&str>)
        ensures
            match r {
                Some(s) => self@.expires_at == Some(s@),
                None => self@.expires_at is None,
            },
    {
        match self {
            StoredEntry::Bare(_) => None,
            StoredEntry::WithExpiry { expires_at, .. } => match expires_at {
                Some(s) => Some(s.as_str()),
                None => None,
            },
        }
    }

    /// A copy.
    pub fn copy(&self) -> (r: StoredEntry)
        ensures
            r@ == self@,
    {
        match self {
            StoredEntry::Bare(values) => StoredEntry::Bare(clone_texts(values)),
            StoredEntry::WithExpiry { values, expires_at } => StoredEntry::WithExpiry {
                values: clone_texts(values),
                expires_at: clone_opt(expires_at),
            },
        }
    }

    /// Whether the two entries have the same values and the same expiry.
    pub fn agrees(&self, other: &StoredEntry) -> (r: bool)
        ensures
            r == (self@ == other@),
    {
        let expiry = match (self.expires_at(), other.expires_at()) {
            (Some(a), Some(b)) => text_eq(a, b),
            (None, None) => true,
            _ => false,
        };
        same_texts(self.values(), other.values()) && expiry
    }
}

/// The attributes of one record, in the order of their names.
pub type AttrMap = Vec<(String, StoredEntry)>;

/// How an entry is seen.
pub open spec fn entry_seen() -> spec_fn(StoredEntry) -> EntryView {
    |e: StoredEntry| e@
}

/// The attributes of a record by their names.
pub open spec fn attrs_of(list: Seq<(String, StoredEntry)>) -> Map<Seq<char>, EntryView> {
    by_name(seen_as(list, entry_seen()))
}

/// How a record is seen.
pub open spec fn attrs_seen() -> spec_fn(AttrMap) -> Map<Seq<char>, EntryView> {
    |a: AttrMap| attrs_of(a@)
}

/// The records of one identity key by their identity values.
pub open spec fn records_of(list: Seq<(String, AttrMap)>) -> Map<
    Seq<char>,
    Map<Seq<char>, EntryView>,
> {
    by_name(seen_as(list, attrs_seen()))
}

/// How the records of an identity key are seen.
pub open spec fn records_seen() -> spec_fn(Vec<(String, AttrMap)>) -> Map<
    Seq<char>,
    Map<Seq<char>, EntryView>,
> {
    |r: Vec<(String, AttrMap)>| records_of(r@)
}

/// All records, by identity key and identity value.
pub open spec fn all_of(list: Seq<(String, Vec<(String, AttrMap)>)>) -> Map<
    Seq<char>,
    Map<Seq<char>, Map<Seq<char>, EntryView>>,
> {
    by_name(seen_as(list, records_seen()))
}

/// Every list of the records of an identity key is in order.
pub open spec fn records_in_order(list: Seq<(String, AttrMap)>) -> bool {
    ascending(names_of(list)) && forall|i: int|
        0 <= i < list.len() ==> ascending(names_of((#[trigger] list[i]).1@))
}

/// Every list of the records is in order.
pub open spec fn all_in_order(list: Seq<(String, Vec<(String, AttrMap)>)>) -> bool {
    ascending(names_of(list)) && forall|i: int|
        0 <= i < list.len() ==> records_in_order((#[trigger] list[i]).1@)
}

/// The data of a file.
#[derive(Debug)]
pub struct AttrData {
    entries: Vec<(String, Vec<(String, AttrMap)>)>,
    schema: Option<Vec<Json>>,
}

/// The data of a file as mathematical data.
pub struct DataView {
    pub entries: Map<Seq<char>, Map<Seq<char>, Map<Seq<char>, EntryView>>>,
    pub schema: Option<Seq<JsonView>>,
}

impl View for AttrData {
    type V = DataView;

    closed spec fn view(&self) -> DataView {
        DataView {
            entries: all_of(self.entries@),
            schema: match self.schema {
                Some(defs) => Some(items_view(defs@)),
                None => None,
            },
        }
    }
}

/// The texts in a list of values, where all of them are texts.
pub open spec fn texts_in(v: JsonView) -> Option<Seq<Seq<char>>> {
    match v {
        JsonView::Array(items) => if forall|i: int|
            0 <= i < items.len() ==> (#[trigger] items[i]) is Text {
            Some(items.map_values(|i: JsonView| i->Text_0))
        } else {
            None
        },
        _ => None,
    }
}

/// The entry that a value of the file describes: a list of texts, or an object with such
/// a list and, if it is not null, a text that says when it expires. Other members of the
/// object are not read.
pub open spec fn entry_in(v: JsonView) -> Option<EntryView> {
    match v {
        JsonView::Array(_) => match texts_in(v) {
            Some(values) => Some(EntryView { values, expires_at: None }),
            None => None,
        },
        JsonView::Object(m) => match member(m, "values"@) {
            Some(list) => match texts_in(list) {
                Some(values) => match member(m, "expires_at"@) {
                    None => Some(EntryView { values, expires_at: None }),
                    Some(JsonView::Null) => Some(EntryView { values, expires_at: None }),
                    Some(JsonView::Text(s)) => Some(EntryView { values, expires_at: Some(s) }),
                    Some(_) => None,
                },
                None => None,
            },
            None => None,
        },
        _ => None,
    }
}

/// What `f` makes of every member of an object, by name.
pub open spec fn decoded<T>(
    members: Seq<(Seq<char>, JsonView)>,
    f: spec_fn(JsonView) -> Option<T>,
) -> Map<Seq<char>, T> {
    Map::new(
        |n: Seq<char>| member(members, n) is Some,
        |n: Seq<char>| f(member(members, n)->0)->0,
    )
}

/// What `f` makes of an object, where it makes something of every member.
pub open spec fn object_in<T>(v: JsonView, f: spec_fn(JsonView) -> Option<T>) -> Option<
    Map<Seq<char>, T>,
> {
    match v {
        JsonView::Object(m) => if forall|i: int|
            0 <= i < m.len() ==> f((#[trigger] m[i]).1) is Some {
            Some(decoded(m, f))
        } else {
            None
        },
        _ => None,
    }
}

/// How an entry is read.
pub open spec fn entry_reader() -> spec_fn(JsonView) -> Option<EntryView> {
    |v: JsonView| entry_in(v)
}

/// How a record is read.
pub open spec fn attrs_reader() -> spec_fn(JsonView) -> Option<Map<Seq<char>, EntryView>> {
    |v: JsonView| object_in(v, entry_reader())
}

/// How the records of an identity key are read.
pub open spec fn records_reader() -> spec_fn(JsonView) -> Option<
    Map<Seq<char>, Map<Seq<char>, EntryView>>,
> {
    |v: JsonView| object_in(v, attrs_reader())
}

/// The members of an object but for one.
pub open spec fn but_for(members: Seq<(Seq<char>, JsonView)>, name: Seq<char>) -> Seq<
    (Seq<char>, JsonView),
>
    decreases members.len(),
{
    if members.len() == 0 {
        Seq::empty()
    } else if members.last().0 == name {
        but_for(members.drop_last(), name)
    } else {
        but_for(members.drop_last(), name).push(members.last())
    }
}

/// The data that the members of the file's object describe.
pub open spec fn data_in(members: Seq<(Seq<char>, JsonView)>) -> Result<DataView, DataErrorView> {
    match member(members, SCHEMA_KEY@) {
        Some(JsonView::Array(defs)) => entries_in(members, Some(defs)),
        Some(_) => Err(DataErrorView::SchemaNotAnArray),
        None => entries_in(members, None),
    }
}

/// The data that the members of the file's object describe, given its definitions.
pub open spec fn entries_in(
    members: Seq<(Seq<char>, JsonView)>,
    schema: Option<Seq<JsonView>>,
) -> Result<DataView, DataErrorView> {
    match object_in(JsonView::Object(but_for(members, SCHEMA_KEY@)), records_reader()) {
        Some(entries) => Ok(DataView { entries, schema }),
        None => Err(DataErrorView::Parse(shape_text())),
    }
}

/// What is said of a file of another shape.
pub open spec fn shape_text() -> Seq<char> {
    "expected identity keys, identity values, attribute names and values"@
}

proof fn lemma_decoded_step<T>(
    members: Seq<(Seq<char>, JsonView)>,
    f: spec_fn(JsonView) -> Option<T>,
    i: int,
)
    requires
        distinct_names(members),
        0 <= i < members.len(),
    ensures
        decoded(members.take(i + 1), f) == decoded(members.take(i), f).insert(
            members[i].0,
            f(members[i].1)->0,
        ),
{
    let a = members.take(i);
    let b = members.take(i + 1);
    assert forall|n: Seq<char>| #[trigger] member(b, n) == (if n == members[i].0 {
        Some(members[i].1)
    } else {
        member(a, n)
    }) by {
        lemma_member_at(a, n);
        lemma_member_at(b, n);
        if n == members[i].0 {
            assert(b[i] == members[i]);
        } else if exists|j: int| 0 <= j < a.len() && (#[trigger] a[j]).0 == n {
            let j = choose|j: int| 0 <= j < a.len() && (#[trigger] a[j]).0 == n;
            assert(b[j] == a[j]);
        } else {
            assert forall|j: int| 0 <= j < b.len() implies (#[trigger] b[j]).0 != n by {
                if j < i {
                    assert(a[j] == b[j]);
                }
            }
        }
    }
    assert(decoded(b, f) =~= decoded(a, f).insert(members[i].0, f(members[i].1)->0));
}

/// Reads a list of texts.
pub fn read_texts(v: &Json) -> (r: Option<Vec<String>>)
    ensures
        match r {
            Some(list) => texts_in(v@) == Some(texts(list@)),
            None => texts_in(v@) is None,
        },
{
    let items = match v {
        Json::Array(items) => items,
        _ => {
            return None;
        },
    };
    let ghost all = v@->Array_0;
    assert(all =~= items_view(items@));
    let mut out: Vec<String> = Vec::new();
    let mut i: usize = 0;
    while i < items.len()
        invariant
            i <= items@.len(),
            v@ == JsonView::Array(all),
            all == items_view(items@),
            out@.len() == i,
            forall|j: int| 0 <= j < i ==> (#[trigger] all[j]) == JsonView::Text(out@[j]@),
        decreases items@.len() - i,
    {
        assert(all[i as int] == items@[i as int]@);
        match &items[i] {
            Json::Text(s) => out.push(s.clone()),
            _ => {
                assert(!(all[i as int] is Text));
                return None;
            },
        }
        i = i + 1;
    }
    assert(texts_in(v@)->0 =~= texts(out@));
    Some(out)
}

fn read_entry(v: &Json) -> (r: Option<StoredEntry>)
    ensures
        match r {
            Some(e) => entry_in(v@) == Some(e@),
            None => entry_in(v@) is None,
        },
{
    match v {
        Json::Array(_) => match read_texts(v) {
            Some(values) => Some(StoredEntry::Bare(values)),
            None => None,
        },
        Json::Object(m) => {
            assert(v@->Object_0 =~= members_view(m@));
            let values = match find_member(m, "values") {
                Some(list) => match read_texts(list) {
                    Some(values) => values,
                    None => {
                        return None;
                    },
                },
                None => {
                    return None;
                },
            };
            let expires_at = match find_member(m, "expires_at") {
                None => None,
                Some(Json::Null) => None,
                Some(Json::Text(s)) => Some(s.clone()),
                Some(_) => {
                    return None;
                },
            };
            Some(StoredEntry::WithExpiry { values, expires_at })
        },
        _ => None,
    }
}

fn read_attrs(v: &Json) -> (r: Option<AttrMap>)
    requires
        well_named(v@),
    ensures
        match r {
            Some(list) => ascending(names_of(list@)) && object_in(v@, entry_reader()) == Some(
                attrs_of(list@),
            ),
            None => object_in(v@, entry_reader()) is None,
        },
{
    let members = match v {
        Json::Object(members) => members,
        _ => {
            return None;
        },
    };
    let ghost all = v@->Object_0;
    let ghost f = entry_reader();
    assert(all =~= members_view(members@));
    let mut out: AttrMap = Vec::new();
    let mut i: usize = 0;
    assert(attrs_of(out@) =~= decoded(all.take(0), f));
    while i < members.len()
        invariant
            i <= members@.len(),
            v@ == JsonView::Object(all),
            all == members_view(members@),
            distinct_names(all),
            f == entry_reader(),
            ascending(names_of(out@)),
            attrs_of(out@) == decoded(all.take(i as int), f),
            forall|j: int| 0 <= j < i ==> f((#[trigger] all[j]).1) is Some,
        decreases members@.len() - i,
    {
        assert(all[i as int] == (members@[i as int].0@, members@[i as int].1@));
        let entry = match read_entry(&members[i].1) {
            Some(e) => e,
            None => {
                assert(f(all[i as int].1) is None);
                return None;
            },
        };
        let name = members[i].0.clone();
        let ghost before = out@;
        let ghost n = name;
        let ghost e = entry;
        let (pos, found) = put(&mut out, name, entry);
        proof {
            lemma_put(before, out@, n, e, pos as int, found, entry_seen());
            lemma_decoded_step(all, f, i as int);
        }
        i = i + 1;
    }
    assert(all.take(i as int) =~= all);
    Some(out)
}

fn read_records(v: &Json) -> (r: Option<Vec<(String, AttrMap)>>)
    requires
        well_named(v@),
    ensures
        match r {
            Some(list) => records_in_order(list@) && object_in(v@, attrs_reader()) == Some(
                records_of(list@),
            ),
            None => object_in(v@, attrs_reader()) is None,
        },
{
    let members = match v {
        Json::Object(members) => members,
        _ => {
            return None;
        },
    };
    let ghost all = v@->Object_0;
    let ghost f = attrs_reader();
    assert(all =~= members_view(members@));
    let mut out: Vec<(String, AttrMap)> = Vec::new();
    let mut i: usize = 0;
    assert(records_of(out@) =~= decoded(all.take(0), f));
    while i < members.len()
        invariant
            i <= members@.len(),
            v@ == JsonView::Object(all),
            all == members_view(members@),
            well_named(v@),
            f == attrs_reader(),
            records_in_order(out@),
            records_of(out@) == decoded(all.take(i as int), f),
            forall|j: int| 0 <= j < i ==> f((#[trigger] all[j]).1) is Some,
        decreases members@.len() - i,
    {
        assert(all[i as int] == (members@[i as int].0@, members@[i as int].1@));
        assert(well_named(all[i as int].1));
        let attrs = match read_attrs(&members[i].1) {
            Some(a) => a,
            None => {
                assert(f(all[i as int].1) is None);
                return None;
            },
        };
        let name = members[i].0.clone();
        let ghost before = out@;
        let ghost n = name;
        let ghost a = attrs;
        let (pos, found) = put(&mut out, name, attrs);
        proof {
            lemma_put(before, out@, n, a, pos as int, found, attrs_seen());
            lemma_decoded_step(all, f, i as int);
            assert forall|j: int| 0 <= j < out@.len() implies ascending(
                names_of((#[trigger] out@[j]).1@),
            ) by {
                if j != pos {
                    let k = if found || j < pos {
                        j
                    } else {
                        j - 1
                    };
                    assert(out@[j] == before[k]);
                }
            }
        }
        i = i + 1;
    }
    assert(all.take(i as int) =~= all);
    Some(out)
}

proof fn lemma_but_for(members: Seq<(Seq<char>, JsonView)>, name: Seq<char>)
    requires
        distinct_names(members),
    ensures
        distinct_names(but_for(members, name)),
        forall|i: int|
            0 <= i < but_for(members, name).len() ==> exists|j: int|
                0 <= j < members.len() && #[trigger] members[j] == #[trigger] but_for(
                    members,
                    name,
                )[i],
    decreases members.len(),
{
    if members.len() > 0 {
        let rest = members.drop_last();
        assert forall|i: int, j: int| 0 <= i < j < rest.len() implies (#[trigger] rest[i]).0 != (
        #[trigger] rest[j]).0 by {
            assert(rest[i] == members[i] && rest[j] == members[j]);
        }
        lemma_but_for(rest, name);
        let kept = but_for(rest, name);
        let now = but_for(members, name);
        assert forall|i: int| 0 <= i < now.len() implies exists|j: int|
            0 <= j < members.len() && #[trigger] members[j] == #[trigger] now[i] by {
            if i < kept.len() {
                assert(now[i] == kept[i]);
                let j = choose|j: int| 0 <= j < rest.len() && #[trigger] rest[j] == kept[i];
                assert(members[j] == now[i]);
            } else {
                assert(members[members.len() - 1] == now[i]);
            }
        }
        assert forall|i: int, j: int| 0 <= i < j < now.len() implies (#[trigger] now[i]).0 != (
        #[trigger] now[j]).0 by {
            assert(now[i] == kept[i]);
            let a = choose|a: int| 0 <= a < rest.len() && #[trigger] rest[a] == kept[i];
            assert(members[a] == now[i]);
            if j < kept.len() {
                assert(now[j] == kept[j]);
            } else {
                assert(now[j] == members[members.len() - 1]);
            }
        }
    }
}

proof fn lemma_but_for_prefix(members: Seq<(Seq<char>, JsonView)>, name: Seq<char>, i: int)
    requires
        0 <= i <= members.len(),
    ensures
        but_for(members.take(i), name).len() <= but_for(members, name).len(),
        forall|j: int|
            0 <= j < but_for(members.take(i), name).len() ==> #[trigger] but_for(
                members,
                name,
            )[j] == but_for(members.take(i), name)[j],
    decreases members.len(),
{
    if i == members.len() {
        assert(members.take(i) =~= members);
    } else {
        let rest = members.drop_last();
        assert(rest.take(i) =~= members.take(i));
        lemma_but_for_prefix(rest, name, i);
        assert forall|j: int| 0 <= j < but_for(members.take(i), name).len() implies #[trigger] but_for(
            members,
            name,
        )[j] == but_for(members.take(i), name)[j] by {
            assert(but_for(rest, name)[j] == but_for(members.take(i), name)[j]);
        }
    }
}

fn read_entries(members: &Vec<(String, Json)>) -> (r: Option<
    Vec<(String, Vec<(String, AttrMap)>)>,
>)
    requires
        well_named(JsonView::Object(members_view(members@))),
    ensures
        match r {
            Some(list) => all_in_order(list@) && object_in(
                JsonView::Object(but_for(members_view(members@), SCHEMA_KEY@)),
                records_reader(),
            ) == Some(all_of(list@)),
            None => object_in(
                JsonView::Object(but_for(members_view(members@), SCHEMA_KEY@)),
                records_reader(),
            ) is None,
        },
{
    let ghost all = members_view(members@);
    let ghost f = records_reader();
    let ghost kept = but_for(all, SCHEMA_KEY@);
    let mut out: Vec<(String, Vec<(String, AttrMap)>)> = Vec::new();
    let mut i: usize = 0;
    proof {
        lemma_but_for(all, SCHEMA_KEY@);
        assert(all.take(0) =~= Seq::empty());
        assert(all_of(out@) =~= decoded(but_for(all.take(0), SCHEMA_KEY@), f));
    }
    while i < members.len()
        invariant
            i <= members@.len(),
            all == members_view(members@),
            well_named(JsonView::Object(all)),
            f == records_reader(),
            kept == but_for(all, SCHEMA_KEY@),
            distinct_names(kept),
            all_in_order(out@),
            all_of(out@) == decoded(but_for(all.take(i as int), SCHEMA_KEY@), f),
            forall|j: int|
                0 <= j < but_for(all.take(i as int), SCHEMA_KEY@).len() ==> f(
                    (#[trigger] kept[j]).1,
                ) is Some,
        decreases members@.len() - i,
    {
        let ghost upto = all.take(i + 1);
        let ghost sofar = but_for(all.take(i as int), SCHEMA_KEY@);
        proof {
            assert(all[i as int] == (members@[i as int].0@, members@[i as int].1@));
            assert(well_named(all[i as int].1));
            assert(upto.drop_last() =~= all.take(i as int));
            assert(upto.last() == all[i as int]);
            lemma_but_for_prefix(all, SCHEMA_KEY@, i + 1);
        }
        if !text_eq(members[i].0.as_str(), SCHEMA_KEY) {
            let ghost more = but_for(upto, SCHEMA_KEY@);
            proof {
                assert(more == sofar.push(all[i as int]));
                assert(kept[sofar.len() as int] == all[i as int]);
            }
            let records = match read_records(&members[i].1) {
                Some(r) => r,
                None => {
                    assert(f(kept[sofar.len() as int].1) is None);
                    return None;
                },
            };
            let name = members[i].0.clone();
            let ghost before = out@;
            let ghost n = name;
            let ghost rec = records;
            let (pos, found) = put(&mut out, name, records);
            proof {
                lemma_put(before, out@, n, rec, pos as int, found, records_seen());
                assert forall|a: int, b: int| 0 <= a < b < more.len() implies (
                #[trigger] more[a]).0 != (#[trigger] more[b]).0 by {
                    assert(kept[a] == more[a] && kept[b] == more[b]);
                }
                lemma_decoded_step(more, f, sofar.len() as int);
                assert(more.take(sofar.len() as int) =~= sofar);
                assert(more.take(sofar.len() as int + 1) =~= more);
                assert forall|j: int| 0 <= j < out@.len() implies records_in_order(
                    (#[trigger] out@[j]).1@,
                ) by {
                    if j != pos {
                        let k = if found || j < pos {
                            j
                        } else {
                            j - 1
                        };
                        assert(out@[j] == before[k]);
                    }
                }
            }
        }
        i = i + 1;
    }
    assert(all.take(i as int) =~= all);
    Some(out)
}

fn copy_items(items: &Vec<Json>) -> (r: Vec<Json>)
    ensures
        items_view(r@) == items_view(items@),
{
    let mut out: Vec<Json> = Vec::new();
    let mut i: usize = 0;
    while i < items.len()
        invariant
            i <= items@.len(),
            out@.len() == i,
            forall|j: int| 0 <= j < i ==> (#[trigger] out@[j])@ == items@[j]@,
        decreases items@.len() - i,
    {
        out.push(items[i].copy());
        i = i + 1;
    }
    assert(items_view(out@) =~= items_view(items@));
    out
}

/// The record that an identity names: without attributes where there is none.
pub open spec fn record_at(
    entries: Map<Seq<char>, Map<Seq<char>, Map<Seq<char>, EntryView>>>,
    key: Seq<char>,
    value: Seq<char>,
) -> Map<Seq<char>, EntryView> {
    if entries.contains_key(key) && entries[key].contains_key(value) {
        entries[key][value]
    } else {
        Map::empty()
    }
}

/// The attributes are the union of the records that the identities name, which agree
/// wherever they share an attribute.
pub open spec fn is_union(
    entries: Map<Seq<char>, Map<Seq<char>, Map<Seq<char>, EntryView>>>,
    ids: Seq<(Seq<char>, Seq<char>)>,
    m: Map<Seq<char>, EntryView>,
) -> bool {
    &&& forall|n: Seq<char>| #[trigger]
        m.contains_key(n) <==> exists|i: int|
            0 <= i < ids.len() && record_at(
                entries,
                (#[trigger] ids[i]).0,
                ids[i].1,
            ).contains_key(n)
    &&& forall|i: int, n: Seq<char>|
        0 <= i < ids.len() && #[trigger] record_at(entries, ids[i].0, ids[i].1).contains_key(n)
            ==> m[n] == record_at(entries, ids[i].0, ids[i].1)[n]
}

/// Two of the records that the identities name disagree on an attribute.
pub open spec fn disagree(
    entries: Map<Seq<char>, Map<Seq<char>, Map<Seq<char>, EntryView>>>,
    ids: Seq<(Seq<char>, Seq<char>)>,
    n: Seq<char>,
) -> bool {
    exists|i: int, j: int| #[trigger] disagree_at(entries, ids, n, i, j)
}

/// These two records disagree on an attribute.
pub open spec fn disagree_at(
    entries: Map<Seq<char>, Map<Seq<char>, Map<Seq<char>, EntryView>>>,
    ids: Seq<(Seq<char>, Seq<char>)>,
    n: Seq<char>,
    i: int,
    j: int,
) -> bool {
    let a = record_at(entries, ids[i].0, ids[i].1);
    let b = record_at(entries, ids[j].0, ids[j].1);
    0 <= i < ids.len() && 0 <= j < ids.len() && a.contains_key(n) && b.contains_key(n) && a[n]
        != b[n]
}

/// Takes the attributes of one more record into the union.
fn merge(merged: &mut AttrMap, attrs: &AttrMap) -> (r: Result<(), Conflict>)
    requires
        ascending(names_of(old(merged)@)),
        ascending(names_of(attrs@)),
    ensures
        ascending(names_of(final(merged)@)),
        match r {
            Ok(()) => {
                &&& attrs_of(final(merged)@) == attrs_of(old(merged)@).union_prefer_right(
                    attrs_of(attrs@),
                )
                &&& forall|n: Seq<char>| #[trigger]
                    attrs_of(old(merged)@).contains_key(n) && attrs_of(attrs@).contains_key(n)
                        ==> attrs_of(old(merged)@)[n] == attrs_of(attrs@)[n]
            },
            Err(c) => attrs_of(old(merged)@).contains_key(c.name@) && attrs_of(
                attrs@,
            ).contains_key(c.name@) && attrs_of(old(merged)@)[c.name@] != attrs_of(
                attrs@,
            )[c.name@],
        },
{
    let ghost start = attrs_of(merged@);
    let ghost whole = attrs_of(attrs@);
    let ghost view = seen_as(attrs@, entry_seen());
    let mut i: usize = 0;
    proof {
        assert(view.take(0) =~= Seq::empty());
        assert(start =~= start.union_prefer_right(by_name(view.take(0))));
        lemma_order_is_of_names(attrs@, entry_seen());
    }
    while i < attrs.len()
        invariant
            i <= attrs@.len(),
            view == seen_as(attrs@, entry_seen()),
            ascending(view),
            whole == by_name(view),
            start == attrs_of(old(merged)@),
            ascending(names_of(merged@)),
            attrs_of(merged@) == start.union_prefer_right(by_name(view.take(i as int))),
            forall|j: int|
                0 <= j < i && start.contains_key((#[trigger] view[j]).0) ==> start[view[j].0]
                    == view[j].1,
        decreases attrs@.len() - i,
    {
        let ghost name = view[i as int].0;
        let ghost sofar = by_name(view.take(i as int));
        proof {
            lemma_by_name_at(view, i as int);
            lemma_take(view, i as int);
            lemma_get(merged@, name, entry_seen());
        }
        match get(merged, attrs[i].0.as_str()) {
            Some(first) => {
                if !first.agrees(&attrs[i].1) {
                    return Err(Conflict { name: attrs[i].0.clone() });
                }
                proof {
                    assert(attrs_of(merged@) =~= start.union_prefer_right(
                        by_name(view.take(i + 1)),
                    ));
                }
            },
            None => {
                let copied = attrs[i].1.copy();
                let key = attrs[i].0.clone();
                let ghost before = merged@;
                let ghost k = key;
                let ghost c = copied;
                let (pos, found) = put(merged, key, copied);
                proof {
                    lemma_put(before, merged@, k, c, pos as int, found, entry_seen());
                    assert(attrs_of(merged@) =~= start.union_prefer_right(
                        by_name(view.take(i + 1)),
                    ));
                }
            },
        }
        i = i + 1;
    }
    proof {
        assert(view.take(i as int) =~= view);
        assert forall|n: Seq<char>| #[trigger] start.contains_key(n) && whole.contains_key(
            n,
        ) implies start[n] == whole[n] by {
            let j = choose|j: int| name_at(view, n, j);
            lemma_by_name_at(view, j);
        }
    }
    Ok(())
}

proof fn lemma_take<T>(view: Seq<(Seq<char>, T)>, i: int)
    requires
        ascending(view),
        0 <= i < view.len(),
    ensures
        by_name(view.take(i + 1)) == by_name(view.take(i)).insert(view[i].0, view[i].1),
        !by_name(view.take(i)).contains_key(view[i].0),
{
    let a = view.take(i);
    assert(view.take(i + 1) =~= a.insert(i, view[i]));
    assert forall|x: int, y: int| 0 <= x < y < a.len() implies text_lt(
        (#[trigger] a[x]).0,
        (#[trigger] a[y]).0,
    ) by {
        assert(a[x] == view[x] && a[y] == view[y]);
    }
    assert forall|x: int| 0 <= x < i implies text_lt((#[trigger] a[x]).0, view[i].0) by {
        assert(a[x] == view[x]);
    }
    lemma_put_new(a, i, view[i].0, view[i].1);
    assert forall|x: int| 0 <= x < a.len() implies (#[trigger] a[x]).0 != view[i].0 by {
        assert(text_lt(a[x].0, view[i].0));
    }
    lemma_not_named(a, view[i].0);
}

impl AttrData {
    #[verifier::type_invariant]
    spec fn in_order(self) -> bool {
        all_in_order(self.entries@)
    }

    /// Reads the text of a data file: the definitions under `_schema`, and the records
    /// under all other keys.
    pub fn from_json_str(contents: &str) -> (r: Result<AttrData, DataError>)
        ensures
            match json_parsed(contents@) {
                Err(m) => r matches Err(e) && e@ == DataErrorView::Parse(m),
                Ok(JsonView::Object(members)) => match data_in(members) {
                    Ok(d) => r matches Ok(data) && data@ == d,
                    Err(m) => r matches Err(e) && e@ == m,
                },
                Ok(_) => r matches Err(e) && e@ == DataErrorView::NotAnObject,
            },
    {
        let parsed = match parse_json(contents) {
            Ok(parsed) => parsed,
            Err(m) => {
                return Err(DataError::Parse(m));
            },
        };
        let members = match &parsed {
            Json::Object(members) => members,
            _ => {
                return Err(DataError::NotAnObject);
            },
        };
        assert(parsed@->Object_0 =~= members_view(members@));
        let schema = match find_member(members, SCHEMA_KEY) {
            None => None,
            Some(Json::Array(defs)) => {
                let ghost found = member(members_view(members@), SCHEMA_KEY@)->0;
                assert(found->Array_0 =~= items_view(defs@));
                Some(copy_items(defs))
            },
            Some(_) => {
                return Err(DataError::SchemaNotAnArray);
            },
        };
        match read_entries(members) {
            Some(entries) => Ok(AttrData { entries, schema }),
            None => Err(
                DataError::Parse(
                    "expected identity keys, identity values, attribute names and values".to_owned(),
                ),
            ),
        }
    }

    /// Reads a data file, given what reading its text gave.
    pub fn load(contents: Result<String, String>) -> (r: Result<AttrData, DataError>)
        ensures
            match contents {
                Err(m) => r matches Err(e) && e@ == DataErrorView::Io(m@),
                Ok(text) => match json_parsed(text@) {
                    Err(m) => r matches Err(e) && e@ == DataErrorView::Parse(m),
                    Ok(JsonView::Object(members)) => match data_in(members) {
                        Ok(d) => r matches Ok(data) && data@ == d,
                        Err(m) => r matches Err(e) && e@ == m,
                    },
                    Ok(_) => r matches Err(e) && e@ == DataErrorView::NotAnObject,
                },
            },
    {
        match contents {
            Ok(text) => Self::from_json_str(text.as_str()),
            Err(m) => Err(DataError::Io(m)),
        }
    }

    fn record(&self, key: &str, value: &str) -> (r: Option<&AttrMap>)
        ensures
            match r {
                Some(attrs) => ascending(names_of(attrs@)) && attrs_of(attrs@) == record_at(
                    self@.entries,
                    key@,
                    value@,
                ),
                None => record_at(self@.entries, key@, value@) == Map::<
                    Seq<char>,
                    EntryView,
                >::empty(),
            },
    {
        proof {
            use_type_invariant(self);
            lemma_get(self.entries@, key@, records_seen());
        }
        match get(&self.entries, key) {
            Some(records) => {
                proof {
                    lemma_get(records@, value@, attrs_seen());
                }
                get(records, value)
            },
            None => None,
        }
    }

    /// The union of the records that the identities name, each pair a key and a value. An
    /// identity that names no record is passed over. Where two records disagree on an
    /// attribute, on its values or on when they expire, there is no answer.
    pub fn lookup(&self, identities: &Vec<(String, String)>) -> (r: Result<AttrMap, Conflict>)
        ensures
            match r {
                Ok(m) => ascending(names_of(m@)) && is_union(
                    self@.entries,
                    pair_views(identities@),
                    attrs_of(m@),
                ),
                Err(c) => disagree(self@.entries, pair_views(identities@), c.name@),
            },
    {
        let ghost entries = self@.entries;
        let ghost ids = pair_views(identities@);
        let mut merged: AttrMap = Vec::new();
        let mut i: usize = 0;
        assert(attrs_of(merged@) =~= Map::empty());
        while i < identities.len()
            invariant
                i <= identities@.len(),
                entries == self@.entries,
                ids == pair_views(identities@),
                ascending(names_of(merged@)),
                is_union(entries, ids.take(i as int), attrs_of(merged@)),
            decreases identities@.len() - i,
        {
            let ghost before = attrs_of(merged@);
            let ghost rec = record_at(entries, ids[i as int].0, ids[i as int].1);
            let ghost sofar = ids.take(i as int);
            let ghost upto = ids.take(i + 1);
            assert(ids[i as int] == (identities@[i as int].0@, identities@[i as int].1@));
            match self.record(identities[i].0.as_str(), identities[i].1.as_str()) {
                Some(attrs) => match merge(&mut merged, attrs) {
                    Ok(()) => {},
                    Err(c) => {
                        proof {
                            let n = c.name@;
                            let j = choose|j: int|
                                0 <= j < sofar.len() && record_at(
                                    entries,
                                    (#[trigger] sofar[j]).0,
                                    sofar[j].1,
                                ).contains_key(n);
                            assert(sofar[j] == ids[j]);
                            assert(record_at(entries, sofar[j].0, sofar[j].1).contains_key(n));
                            assert(disagree_at(entries, ids, n, j, i as int));
                        }
                        return Err(c);
                    },
                },
                None => {
                    assert(before =~= before.union_prefer_right(rec));
                },
            }
            proof {
                assert(attrs_of(merged@) == before.union_prefer_right(rec));
                lemma_union_step(entries, sofar, upto, before, rec);
            }
            i = i + 1;
        }
        assert(ids.take(i as int) =~= ids);
        Ok(merged)
    }
}

proof fn lemma_union_step(
    entries: Map<Seq<char>, Map<Seq<char>, Map<Seq<char>, EntryView>>>,
    sofar: Seq<(Seq<char>, Seq<char>)>,
    upto: Seq<(Seq<char>, Seq<char>)>,
    before: Map<Seq<char>, EntryView>,
    rec: Map<Seq<char>, EntryView>,
)
    requires
        is_union(entries, sofar, before),
        upto.len() == sofar.len() + 1,
        forall|i: int| 0 <= i < sofar.len() ==> sofar[i] == #[trigger] upto[i],
        rec == record_at(entries, upto.last().0, upto.last().1),
        forall|n: Seq<char>| #[trigger]
            before.contains_key(n) && rec.contains_key(n) ==> before[n] == rec[n],
    ensures
        is_union(entries, upto, before.union_prefer_right(rec)),
{
    let after = before.union_prefer_right(rec);
    let last = sofar.len() as int;
    assert forall|n: Seq<char>| #[trigger] after.contains_key(n) <==> exists|i: int|
        0 <= i < upto.len() && record_at(entries, (#[trigger] upto[i]).0, upto[i].1).contains_key(
            n,
        ) by {
        if before.contains_key(n) {
            let i = choose|i: int|
                0 <= i < sofar.len() && record_at(
                    entries,
                    (#[trigger] sofar[i]).0,
                    sofar[i].1,
                ).contains_key(n);
            assert(upto[i] == sofar[i]);
        }
        if rec.contains_key(n) {
            assert(record_at(entries, upto[last].0, upto[last].1).contains_key(n));
        }
        if exists|i: int|
            0 <= i < upto.len() && record_at(
                entries,
                (#[trigger] upto[i]).0,
                upto[i].1,
            ).contains_key(n) {
            let i = choose|i: int|
                0 <= i < upto.len() && record_at(
                    entries,
                    (#[trigger] upto[i]).0,
                    upto[i].1,
                ).contains_key(n);
            if i < last {
                assert(sofar[i] == upto[i]);
                assert(before.contains_key(n));
            }
        }
    }
    assert forall|i: int, n: Seq<char>|
        0 <= i < upto.len() && #[trigger] record_at(
            entries,
            upto[i].0,
            upto[i].1,
        ).contains_key(n) implies after[n] == record_at(entries, upto[i].0, upto[i].1)[n] by {
        if i < last {
            assert(sofar[i] == upto[i]);
            assert(record_at(entries, sofar[i].0, sofar[i].1).contains_key(n));
            assert(before.contains_key(n));
        }
    }
}

/// A lookup fails exactly where two of the records disagree: where it succeeds, none do.
pub proof fn law_answer_means_agreement(
    entries: Map<Seq<char>, Map<Seq<char>, Map<Seq<char>, EntryView>>>,
    ids: Seq<(Seq<char>, Seq<char>)>,
    m: Map<Seq<char>, EntryView>,
    n: Seq<char>,
)
    requires
        is_union(entries, ids, m),
    ensures
        !disagree(entries, ids, n),
{
    if disagree(entries, ids, n) {
        let (i, j) = choose|i: int, j: int| #[trigger] disagree_at(entries, ids, n, i, j);
        assert(record_at(entries, ids[i].0, ids[i].1).contains_key(n));
        assert(record_at(entries, ids[j].0, ids[j].1).contains_key(n));
    }
}

/// An actor that no record is about has no attributes, and is no error.
pub proof fn law_unknown_actor_is_an_empty_answer(
    entries: Map<Seq<char>, Map<Seq<char>, Map<Seq<char>, EntryView>>>,
    ids: Seq<(Seq<char>, Seq<char>)>,
    m: Map<Seq<char>, EntryView>,
    n: Seq<char>,
)
    requires
        forall|i: int|
            0 <= i < ids.len() ==> record_at(entries, (#[trigger] ids[i]).0, ids[i].1) == Map::<
                Seq<char>,
                EntryView,
            >::empty(),
    ensures
        is_union(entries, ids, m) ==> !m.contains_key(n),
        !disagree(entries, ids, n),
{
    assert forall|i: int, j: int| !#[trigger] disagree_at(entries, ids, n, i, j) by {
        if 0 <= i < ids.len() {
            assert(record_at(entries, ids[i].0, ids[i].1) == Map::<Seq<char>, EntryView>::empty());
        }
    }
}

/// The texts are in strictly increasing order.
pub open spec fn in_order(names: Seq<Seq<char>>) -> bool {
    forall|i: int, j: int|
        0 <= i < j < names.len() ==> text_lt(#[trigger] names[i], #[trigger] names[j])
}

/// Some record has this attribute.
pub open spec fn seen(
    entries: Map<Seq<char>, Map<Seq<char>, Map<Seq<char>, EntryView>>>,
    n: Seq<char>,
) -> bool {
    exists|k: Seq<char>, v: Seq<char>| #[trigger] record_at(entries, k, v).contains_key(n)
}

/// Some record has several values for this attribute.
pub open spec fn several(
    entries: Map<Seq<char>, Map<Seq<char>, Map<Seq<char>, EntryView>>>,
    n: Seq<char>,
) -> bool {
    exists|k: Seq<char>, v: Seq<char>| #[trigger]
        record_at(entries, k, v).contains_key(n) && record_at(entries, k, v)[n].values.len() > 1
}

/// The definition of an attribute that is known from the records alone.
pub open spec fn definition(n: Seq<char>, multi: bool) -> JsonView {
    JsonView::Object(
        seq![
            ("multiValued"@, JsonView::Bool(multi)),
            ("name"@, JsonView::Text(n)),
            ("type"@, JsonView::Text("string"@)),
        ],
    )
}

/// The definitions of the attributes that the records have, in the order of their
/// names.
pub open spec fn derived(
    entries: Map<Seq<char>, Map<Seq<char>, Map<Seq<char>, EntryView>>>,
    names: Seq<Seq<char>>,
    defs: Seq<JsonView>,
) -> bool {
    &&& in_order(names)
    &&& forall|n: Seq<char>| #[trigger] names.contains(n) <==> seen(entries, n)
    &&& defs == Seq::new(
        names.len(),
        |i: int| definition(names[i], several(entries, names[i])),
    )
}

/// How a flag is seen.
pub open spec fn flag_seen() -> spec_fn(bool) -> bool {
    |b: bool| b
}

/// The flags by their names.
pub open spec fn flags_of(list: Seq<(String, bool)>) -> Map<Seq<char>, bool> {
    by_name(seen_as(list, flag_seen()))
}

/// The name is on the list, with its flag set.
pub open spec fn flagged(m: Map<Seq<char>, bool>, n: Seq<char>) -> bool {
    m.contains_key(n) && m[n]
}

/// The attribute has several values here.
pub open spec fn several_in(attrs: Map<Seq<char>, EntryView>, n: Seq<char>) -> bool {
    attrs.contains_key(n) && attrs[n].values.len() > 1
}

/// Notes the attributes of a record, and which of them have several values.
fn note_attrs(acc: &mut Vec<(String, bool)>, attrs: &AttrMap)
    requires
        ascending(names_of(old(acc)@)),
        ascending(names_of(attrs@)),
    ensures
        ascending(names_of(final(acc)@)),
        forall|n: Seq<char>| #[trigger]
            flags_of(final(acc)@).contains_key(n) <==> flags_of(old(acc)@).contains_key(n)
                || attrs_of(attrs@).contains_key(n),
        forall|n: Seq<char>| #[trigger]
            flagged(flags_of(final(acc)@), n) <==> flagged(flags_of(old(acc)@), n) || several_in(
                attrs_of(attrs@),
                n,
            ),
{
    let ghost start = flags_of(acc@);
    let ghost view = seen_as(attrs@, entry_seen());
    let mut i: usize = 0;
    proof {
        lemma_order_is_of_names(attrs@, entry_seen());
        assert(view.take(0) =~= Seq::empty());
        assert(by_name(view.take(0)) =~= Map::empty());
    }
    while i < attrs.len()
        invariant
            i <= attrs@.len(),
            view == seen_as(attrs@, entry_seen()),
            ascending(view),
            start == flags_of(old(acc)@),
            ascending(names_of(acc@)),
            forall|n: Seq<char>| #[trigger]
                flags_of(acc@).contains_key(n) <==> start.contains_key(n) || by_name(
                    view.take(i as int),
                ).contains_key(n),
            forall|n: Seq<char>| #[trigger]
                flagged(flags_of(acc@), n) <==> flagged(start, n) || several_in(
                    by_name(view.take(i as int)),
                    n,
                ),
        decreases attrs@.len() - i,
    {
        let ghost name = view[i as int].0;
        let ghost before = acc@;
        let ghost old_flags = flags_of(acc@);
        proof {
            lemma_take(view, i as int);
            lemma_get(acc@, name, flag_seen());
        }
        let many = attrs[i].1.values().len() > 1;
        let had = match get(acc, attrs[i].0.as_str()) {
            Some(flag) => *flag,
            None => false,
        };
        assert(had == flagged(old_flags, name));
        assert(many == (view[i as int].1.values.len() > 1));
        let key = attrs[i].0.clone();
        let ghost k = key;
        let (pos, found) = put(acc, key, had || many);
        proof {
            lemma_put(before, acc@, k, had || many, pos as int, found, flag_seen());
            let sofar = by_name(view.take(i as int));
            let now = by_name(view.take(i + 1));
            assert forall|n: Seq<char>| #[trigger] flagged(flags_of(acc@), n) <==> flagged(start, n)
                || several_in(now, n) by {
                assert(flagged(old_flags, n) <==> flagged(start, n) || several_in(sofar, n));
            }
            assert forall|n: Seq<char>| #[trigger] flags_of(acc@).contains_key(n)
                <==> start.contains_key(n) || now.contains_key(n) by {
                assert(old_flags.contains_key(n) <==> start.contains_key(n) || sofar.contains_key(
                    n,
                ));
            }
        }
        i = i + 1;
    }
    assert(view.take(i as int) =~= view);
}

/// Some record of the list has the attribute.
pub open spec fn seen_among(list: Seq<(String, AttrMap)>, n: Seq<char>) -> bool {
    exists|i: int| 0 <= i < list.len() && attrs_of((#[trigger] list[i]).1@).contains_key(n)
}

/// Some record of the list has several values for the attribute.
pub open spec fn several_among(list: Seq<(String, AttrMap)>, n: Seq<char>) -> bool {
    exists|i: int| 0 <= i < list.len() && several_in(attrs_of((#[trigger] list[i]).1@), n)
}

/// Notes the attributes of the records of an identity key.
fn note_records(acc: &mut Vec<(String, bool)>, records: &Vec<(String, AttrMap)>)
    requires
        ascending(names_of(old(acc)@)),
        records_in_order(records@),
    ensures
        ascending(names_of(final(acc)@)),
        forall|n: Seq<char>| #[trigger]
            flags_of(final(acc)@).contains_key(n) <==> flags_of(old(acc)@).contains_key(n)
                || seen_among(records@, n),
        forall|n: Seq<char>| #[trigger]
            flagged(flags_of(final(acc)@), n) <==> flagged(flags_of(old(acc)@), n)
                || several_among(records@, n),
{
    let ghost start = flags_of(acc@);
    let mut i: usize = 0;
    while i < records.len()
        invariant
            i <= records@.len(),
            records_in_order(records@),
            start == flags_of(old(acc)@),
            ascending(names_of(acc@)),
            forall|n: Seq<char>| #[trigger]
                flags_of(acc@).contains_key(n) <==> start.contains_key(n) || seen_among(
                    records@.take(i as int),
                    n,
                ),
            forall|n: Seq<char>| #[trigger]
                flagged(flags_of(acc@), n) <==> flagged(start, n) || several_among(
                    records@.take(i as int),
                    n,
                ),
        decreases records@.len() - i,
    {
        let ghost before = flags_of(acc@);
        let ghost attrs = attrs_of(records@[i as int].1@);
        note_attrs(acc, &records[i].1);
        proof {
            let a = records@.take(i as int);
            let b = records@.take(i + 1);
            assert forall|n: Seq<char>| seen_among(b, n) <==> #[trigger] seen_among(a, n)
                || attrs.contains_key(n) by {
                if seen_among(b, n) {
                    let j = choose|j: int|
                        0 <= j < b.len() && attrs_of((#[trigger] b[j]).1@).contains_key(n);
                    if j < i {
                        assert(a[j] == b[j]);
                    }
                }
                if seen_among(a, n) {
                    let j = choose|j: int|
                        0 <= j < a.len() && attrs_of((#[trigger] a[j]).1@).contains_key(n);
                    assert(b[j] == a[j]);
                }
                assert(b[i as int] == records@[i as int]);
            }
            assert forall|n: Seq<char>| several_among(b, n) <==> #[trigger] several_among(a, n)
                || several_in(attrs, n) by {
                if several_among(b, n) {
                    let j = choose|j: int|
                        0 <= j < b.len() && several_in(attrs_of((#[trigger] b[j]).1@), n);
                    if j < i {
                        assert(a[j] == b[j]);
                    }
                }
                if several_among(a, n) {
                    let j = choose|j: int|
                        0 <= j < a.len() && several_in(attrs_of((#[trigger] a[j]).1@), n);
                    assert(b[j] == a[j]);
                }
                assert(b[i as int] == records@[i as int]);
            }
            assert forall|n: Seq<char>| #[trigger] flags_of(acc@).contains_key(n)
                <==> start.contains_key(n) || seen_among(b, n) by {
                assert(before.contains_key(n) <==> start.contains_key(n) || seen_among(a, n));
            }
            assert forall|n: Seq<char>| #[trigger] flagged(flags_of(acc@), n) <==> flagged(start, n)
                || several_among(b, n) by {
                assert(flagged(before, n) <==> flagged(start, n) || several_among(a, n));
            }
        }
        i = i + 1;
    }
    assert(records@.take(i as int) =~= records@);
}

/// The record at a place is the one that its key and its value name.
proof fn lemma_record_here(list: Seq<(String, Vec<(String, AttrMap)>)>, i: int, j: int)
    requires
        all_in_order(list),
        0 <= i < list.len(),
        0 <= j < list[i].1@.len(),
    ensures
        record_at(all_of(list), list[i].0@, list[i].1@[j].0@) == attrs_of(list[i].1@[j].1@),
{
    let records = list[i].1@;
    lemma_get(list, list[i].0@, records_seen());
    lemma_get(records, records[j].0@, attrs_seen());
    assert(all_of(list)[list[i].0@] == records_of(records));
    assert(records_of(records)[records[j].0@] == attrs_of(records[j].1@));
}

/// Where a record has attributes, it stands at some place.
proof fn lemma_record_somewhere(
    list: Seq<(String, Vec<(String, AttrMap)>)>,
    k: Seq<char>,
    v: Seq<char>,
    n: Seq<char>,
) -> (r: (int, int))
    requires
        all_in_order(list),
        record_at(all_of(list), k, v).contains_key(n),
    ensures
        0 <= r.0 < list.len(),
        0 <= r.1 < list[r.0].1@.len(),
        attrs_of(list[r.0].1@[r.1].1@) == record_at(all_of(list), k, v),
{
    lemma_get(list, k, records_seen());
    let i = choose|i: int| 0 <= i < list.len() && (#[trigger] list[i]).0@ == k;
    let records = list[i].1@;
    assert(all_of(list)[k] == records_of(records));
    lemma_get(records, v, attrs_seen());
    let j = choose|j: int| 0 <= j < records.len() && (#[trigger] records[j]).0@ == v;
    assert(records_of(records)[v] == attrs_of(records[j].1@));
    (i, j)
}

proof fn lemma_seen(list: Seq<(String, Vec<(String, AttrMap)>)>, n: Seq<char>)
    requires
        all_in_order(list),
    ensures
        seen(all_of(list), n) <==> exists|i: int|
            0 <= i < list.len() && seen_among((#[trigger] list[i]).1@, n),
{
    let entries = all_of(list);
    if seen(entries, n) {
        let (k, v) = choose|k: Seq<char>, v: Seq<char>| #[trigger]
            record_at(entries, k, v).contains_key(n);
        let (i, j) = lemma_record_somewhere(list, k, v, n);
        let records = list[i].1@;
        assert(attrs_of(records[j].1@).contains_key(n));
        assert(seen_among(list[i].1@, n));
    }
    if exists|i: int| 0 <= i < list.len() && seen_among((#[trigger] list[i]).1@, n) {
        let i = choose|i: int| 0 <= i < list.len() && seen_among((#[trigger] list[i]).1@, n);
        let records = list[i].1@;
        let j = choose|j: int|
            0 <= j < records.len() && attrs_of((#[trigger] records[j]).1@).contains_key(n);
        lemma_record_here(list, i, j);
        assert(record_at(entries, list[i].0@, records[j].0@).contains_key(n));
    }
}

proof fn lemma_several(list: Seq<(String, Vec<(String, AttrMap)>)>, n: Seq<char>)
    requires
        all_in_order(list),
    ensures
        several(all_of(list), n) <==> exists|i: int|
            0 <= i < list.len() && several_among((#[trigger] list[i]).1@, n),
{
    let entries = all_of(list);
    if several(entries, n) {
        let (k, v) = choose|k: Seq<char>, v: Seq<char>| #[trigger]
            record_at(entries, k, v).contains_key(n) && record_at(entries, k, v)[n].values.len()
                > 1;
        let (i, j) = lemma_record_somewhere(list, k, v, n);
        let records = list[i].1@;
        assert(several_in(attrs_of(records[j].1@), n));
        assert(several_among(list[i].1@, n));
    }
    if exists|i: int| 0 <= i < list.len() && several_among((#[trigger] list[i]).1@, n) {
        let i = choose|i: int| 0 <= i < list.len() && several_among((#[trigger] list[i]).1@, n);
        let records = list[i].1@;
        let j = choose|j: int|
            0 <= j < records.len() && several_in(attrs_of((#[trigger] records[j]).1@), n);
        lemma_record_here(list, i, j);
        assert(record_at(entries, list[i].0@, records[j].0@).contains_key(n));
    }
}

/// The texts of a list of strings, as JSON values.
pub fn text_array(list: &Vec<String>) -> (r: Json)
    ensures
        r@ == JsonView::Array(text_items(texts(list@))),
{
    let mut out: Vec<Json> = Vec::new();
    let mut i: usize = 0;
    while i < list.len()
        invariant
            i <= list@.len(),
            out@.len() == i,
            forall|j: int| 0 <= j < i ==> (#[trigger] out@[j])@ == JsonView::Text(list@[j]@),
        decreases list@.len() - i,
    {
        out.push(Json::Text(list[i].clone()));
        i = i + 1;
    }
    let r = Json::Array(out);
    assert(r@->Array_0 =~= text_items(texts(list@)));
    r
}

fn definition_of(name: &str, multi: bool) -> (r: Json)
    ensures
        r@ == definition(name@, multi),
{
    let mut members: Vec<(String, Json)> = Vec::new();
    members.push(("multiValued".to_owned(), Json::Bool(multi)));
    members.push(("name".to_owned(), Json::Text(name.to_owned())));
    members.push(("type".to_owned(), Json::Text("string".to_owned())));
    proof {
        assert(members@[0].1@ == JsonView::Bool(multi));
        assert(members@[1].1@ == JsonView::Text(name@));
        assert(members@[2].1@ == JsonView::Text("string"@));
    }
    let r = Json::Object(members);
    assert(r@->Object_0 =~= definition(name@, multi)->Object_0);
    r
}

impl AttrData {
    /// The definitions of the attributes that the records have, in the order of their
    /// names: texts, with several values where some record has several.
    pub fn derived_definitions(&self) -> (r: Vec<Json>)
        ensures
            exists|names: Seq<Seq<char>>| #[trigger]
                derived(self@.entries, names, items_view(r@)),
    {
        proof {
            use_type_invariant(self);
        }
        let mut acc: Vec<(String, bool)> = Vec::new();
        let mut i: usize = 0;
        assert(flags_of(acc@) =~= Map::empty());
        while i < self.entries.len()
            invariant
                i <= self.entries@.len(),
                all_in_order(self.entries@),
                ascending(names_of(acc@)),
                forall|n: Seq<char>| #[trigger]
                    flags_of(acc@).contains_key(n) <==> exists|j: int|
                        0 <= j < i && seen_among((#[trigger] self.entries@[j]).1@, n),
                forall|n: Seq<char>| #[trigger]
                    flagged(flags_of(acc@), n) <==> exists|j: int|
                        0 <= j < i && several_among((#[trigger] self.entries@[j]).1@, n),
            decreases self.entries@.len() - i,
        {
            let ghost before = flags_of(acc@);
            note_records(&mut acc, &self.entries[i].1);
            proof {
                let now = flags_of(acc@);
                assert forall|n: Seq<char>| #[trigger] now.contains_key(n) <==> exists|j: int|
                    0 <= j < i + 1 && seen_among((#[trigger] self.entries@[j]).1@, n) by {
                    assert(before.contains_key(n) <==> exists|j: int|
                        0 <= j < i && seen_among((#[trigger] self.entries@[j]).1@, n));
                    assert(now.contains_key(n) <==> before.contains_key(n) || seen_among(
                        self.entries@[i as int].1@,
                        n,
                    ));
                }
                assert forall|n: Seq<char>| #[trigger] flagged(now, n) <==> exists|j: int|
                    0 <= j < i + 1 && several_among((#[trigger] self.entries@[j]).1@, n) by {
                    assert(flagged(before, n) <==> exists|j: int|
                        0 <= j < i && several_among((#[trigger] self.entries@[j]).1@, n));
                    assert(flagged(now, n) <==> flagged(before, n) || several_among(
                        self.entries@[i as int].1@,
                        n,
                    ));
                }
            }
            i = i + 1;
        }
        let ghost names = Seq::new(acc@.len(), |j: int| acc@[j].0@);
        let ghost entries = self@.entries;
        proof {
            assert forall|n: Seq<char>| #[trigger] flags_of(acc@).contains_key(n) == seen(
                entries,
                n,
            ) && flagged(flags_of(acc@), n) == several(entries, n) by {
                lemma_seen(self.entries@, n);
                lemma_several(self.entries@, n);
                assert(flagged(flags_of(acc@), n) <==> exists|j: int|
                    0 <= j < i && several_among((#[trigger] self.entries@[j]).1@, n));
            }
        }
        let mut out: Vec<Json> = Vec::new();
        let mut k: usize = 0;
        while k < acc.len()
            invariant
                k <= acc@.len(),
                names == Seq::new(acc@.len(), |j: int| acc@[j].0@),
                entries == self@.entries,
                ascending(names_of(acc@)),
                forall|n: Seq<char>| #[trigger]
                    flags_of(acc@).contains_key(n) == seen(entries, n) && flagged(
                        flags_of(acc@),
                        n,
                    ) == several(entries, n),
                out@.len() == k,
                forall|j: int|
                    0 <= j < k ==> (#[trigger] out@[j])@ == definition(
                        names[j],
                        several(entries, names[j]),
                    ),
            decreases acc@.len() - k,
        {
            proof {
                lemma_get(acc@, names[k as int], flag_seen());
                assert(acc@[k as int].0@ == names[k as int]);
                assert(flags_of(acc@).contains_key(names[k as int]));
            }
            out.push(definition_of(acc[k].0.as_str(), acc[k].1));
            k = k + 1;
        }
        proof {
            assert forall|a: int, b: int| 0 <= a < b < names.len() implies text_lt(
                #[trigger] names[a],
                #[trigger] names[b],
            ) by {
                assert(names_of(acc@)[a].0 == names[a] && names_of(acc@)[b].0 == names[b]);
            }
            assert forall|n: Seq<char>| #[trigger] names.contains(n) <==> seen(entries, n) by {
                lemma_get(acc@, n, flag_seen());
                if names.contains(n) {
                    let j = choose|j: int| 0 <= j < names.len() && names[j] == n;
                    assert(acc@[j].0@ == n);
                    assert(flags_of(acc@).contains_key(n));
                }
                assert(flags_of(acc@).contains_key(n) == seen(entries, n));
                if seen(entries, n) {
                    assert(flags_of(acc@).contains_key(n));
                    let j = choose|j: int| 0 <= j < acc@.len() && (#[trigger] acc@[j]).0@ == n;
                    assert(names[j] == n);
                }
            }
            assert(items_view(out@) =~= Seq::new(
                names.len(),
                |j: int| definition(names[j], several(entries, names[j])),
            ));
            assert(derived(entries, names, items_view(out@)));
        }
        out
    }

    /// The identity keys of the data, in order.
    pub fn identity_keys(&self) -> (r: Vec<String>)
        ensures
            in_order(texts(r@)),
            forall|n: Seq<char>| #[trigger]
                texts(r@).contains(n) <==> self@.entries.contains_key(n),
    {
        proof {
            use_type_invariant(self);
        }
        let mut out: Vec<String> = Vec::new();
        let mut i: usize = 0;
        while i < self.entries.len()
            invariant
                i <= self.entries@.len(),
                out@.len() == i,
                forall|j: int| 0 <= j < i ==> (#[trigger] out@[j])@ == self.entries@[j].0@,
            decreases self.entries@.len() - i,
        {
            out.push(self.entries[i].0.clone());
            i = i + 1;
        }
        proof {
            let names = texts(out@);
            let order = names_of(self.entries@);
            assert forall|a: int, b: int| 0 <= a < b < names.len() implies text_lt(
                #[trigger] names[a],
                #[trigger] names[b],
            ) by {
                assert(order[a].0 == out@[a]@ && order[b].0 == out@[b]@);
            }
            assert forall|n: Seq<char>| #[trigger] names.contains(n)
                <==> self@.entries.contains_key(n) by {
                lemma_get(self.entries@, n, records_seen());
                if names.contains(n) {
                    let j = choose|j: int| 0 <= j < names.len() && names[j] == n;
                    assert(names[j] == out@[j]@);
                    assert(self.entries@[j].0@ == n);
                }
                if self@.entries.contains_key(n) {
                    let j = choose|j: int|
                        0 <= j < self.entries@.len() && (#[trigger] self.entries@[j]).0@ == n;
                    assert(names[j] == out@[j]@);
                }
            }
        }
        out
    }

    /// What the server says of its vocabulary: the definitions of the file, or those that
    /// the records give, and the identity keys.
    pub fn schema_response(&self) -> (r: Json)
        ensures
            exists|defs: Seq<JsonView>, keys: Seq<Seq<char>>|
                {
                    &&& #[trigger] schema_body(defs, keys) == r@
                    &&& in_order(keys)
                    &&& forall|n: Seq<char>| #[trigger]
                        keys.contains(n) <==> self@.entries.contains_key(n)
                    &&& match self@.schema {
                        Some(given) => defs == given,
                        None => exists|names: Seq<Seq<char>>| #[trigger]
                            derived(self@.entries, names, defs),
                    }
                },
    {
        let keys = self.identity_keys();
        let defs = match &self.schema {
            Some(given) => copy_items(given),
            None => self.derived_definitions(),
        };
        let ghost d = items_view(defs@);
        let ghost k = texts(keys@);
        let array = Json::Array(defs);
        assert(array@->Array_0 =~= d);
        let mut members: Vec<(String, Json)> = Vec::new();
        members.push(("attributes".to_owned(), array));
        members.push(("identityKeys".to_owned(), text_array(&keys)));
        proof {
            assert(members@[0].1@ == JsonView::Array(d));
            assert(members@[1].1@ == JsonView::Array(text_items(k)));
        }
        let r = Json::Object(members);
        proof {
            assert(r@->Object_0 =~= schema_body(d, k)->Object_0);
            assert(schema_body(d, k) == r@);
        }
        r
    }
}

/// The vocabulary as it is given out.
pub open spec fn schema_body(defs: Seq<JsonView>, keys: Seq<Seq<char>>) -> JsonView {
    JsonView::Object(
        seq![
            ("attributes"@, JsonView::Array(defs)),
            ("identityKeys"@, JsonView::Array(text_items(keys))),
        ],
    )
}

/// The reserved key is never an identity key.
pub proof fn law_schema_key_is_no_identity_key(members: Seq<(Seq<char>, JsonView)>)
    requires
        distinct_names(members),
    ensures
        data_in(members) matches Ok(d) ==> !d.entries.contains_key(SCHEMA_KEY@),
{
    lemma_no_schema_key(members);
    lemma_but_for(members, SCHEMA_KEY@);
    lemma_member_at(but_for(members, SCHEMA_KEY@), SCHEMA_KEY@);
}

proof fn lemma_no_schema_key(members: Seq<(Seq<char>, JsonView)>)
    ensures
        forall|i: int|
            0 <= i < but_for(members, SCHEMA_KEY@).len() ==> (#[trigger] but_for(
                members,
                SCHEMA_KEY@,
            )[i]).0 != SCHEMA_KEY@,
    decreases members.len(),
{
    if members.len() > 0 {
        let rest = but_for(members.drop_last(), SCHEMA_KEY@);
        let now = but_for(members, SCHEMA_KEY@);
        lemma_no_schema_key(members.drop_last());
        assert forall|i: int| 0 <= i < now.len() implies (#[trigger] now[i]).0 != SCHEMA_KEY@ by {
            if i < rest.len() {
                assert(now[i] == rest[i]);
            }
        }
    }
}

/// A list of texts is read as these texts, each at its place; what is no list, or has something
/// else in it, is not read as texts.
pub proof fn law_texts_are_read_one_by_one(v: JsonView)
    ensures
        texts_in(v) is Some <==> (v matches JsonView::Array(items) && forall|i: int|
            0 <= i < items.len() ==> (#[trigger] items[i]) is Text),
        texts_in(v) matches Some(list) ==> list.len() == v->Array_0.len() && forall|i: int|
            0 <= i < list.len() ==> JsonView::Text(#[trigger] list[i]) == v->Array_0[i],
{
}

/// A stored entry is a list of values, or an object with its list of values and, if it says so,
/// a text for when it expires. It is read as these, and nothing else is read as an entry.
pub proof fn law_entry_is_values_with_or_without_expiry(v: JsonView)
    requires
        v matches JsonView::Object(m) ==> forall|i: int, j: int|
            0 <= i < j < m.len() ==> (#[trigger] m[i]).0 != (#[trigger] m[j]).0,
    ensures
        v is Array ==> (entry_in(v) is Some <==> texts_in(v) is Some) && (entry_in(v) matches Some(e)
            ==> e.values == texts_in(v)->0 && e.expires_at is None),
        v matches JsonView::Object(m) ==> forall|list: JsonView| #[trigger]
            m.contains(("values"@, list)) && texts_in(list) is Some ==> {
                &&& (forall|i: int| 0 <= i < m.len() ==> (#[trigger] m[i]).0 != "expires_at"@)
                    || m.contains(("expires_at"@, JsonView::Null)) ==> (entry_in(v) matches Some(e)
                    && e.values == texts_in(list)->0 && e.expires_at is None)
                &&& forall|s: Seq<char>| #[trigger]
                    m.contains(("expires_at"@, JsonView::Text(s))) ==> (entry_in(v) matches Some(e)
                        && e.values == texts_in(list)->0 && e.expires_at == Some(s))
            },
        v is Object && entry_in(v) is Some ==> exists|list: JsonView| #[trigger]
            v->Object_0.contains(("values"@, list)) && texts_in(list) is Some,
        !(v is Array) && !(v is Object) ==> entry_in(v) is None,
{
    if let JsonView::Object(m) = v {
        crate::json::law_member_is_found_under_its_name(m, "values"@);
        crate::json::law_member_is_found_under_its_name(m, "expires_at"@);
        if entry_in(v) is Some {
            assert(m.contains(("values"@, member(m, "values"@)->0)));
        }
    }
}

proof fn lemma_but_for_contains(
    members: Seq<(Seq<char>, JsonView)>,
    name: Seq<char>,
    c: (Seq<char>, JsonView),
)
    ensures
        but_for(members, name).contains(c) <==> members.contains(c) && c.0 != name,
    decreases members.len(),
{
    if members.len() > 0 {
        let init = members.drop_last();
        let last = members.len() - 1;
        lemma_but_for_contains(init, name, c);
        let before = but_for(init, name);
        let all = but_for(members, name);
        assert(members.last() == members[last]);
        if all.contains(c) {
            let i = choose|i: int| 0 <= i < all.len() && all[i] == c;
            if i < before.len() {
                assert(before[i] == c);
                let k = choose|k: int| 0 <= k < init.len() && init[k] == c;
                assert(members[k] == c);
            } else {
                assert(members[last] == c);
            }
        }
        if members.contains(c) && c.0 != name {
            let k = choose|k: int| 0 <= k < members.len() && members[k] == c;
            if k < last {
                assert(init[k] == c);
                let i = choose|i: int| 0 <= i < before.len() && before[i] == c;
                assert(all[i] == c);
            } else {
                assert(all[before.len() as int] == c);
            }
        }
    }
}

proof fn lemma_object_read<T>(
    v: JsonView,
    f: spec_fn(JsonView) -> Option<T>,
    name: Seq<char>,
    inner: JsonView,
)
    requires
        v matches JsonView::Object(m) && distinct_names(m),
        object_in(v, f) is Some,
    ensures
        v->Object_0.contains((name, inner)) ==> object_in(v, f)->0.contains_key(name) && object_in(
            v,
            f,
        )->0[name] == f(inner)->0 && f(inner) is Some,
        object_in(v, f)->0.contains_key(name) <==> exists|i: int|
            0 <= i < v->Object_0.len() && (#[trigger] v->Object_0[i]).0 == name,
{
    let m = v->Object_0;
    crate::json::law_member_is_found_under_its_name(m, name);
    if m.contains((name, inner)) {
        let i = choose|i: int| 0 <= i < m.len() && m[i] == (name, inner);
        assert(f(m[i].1) is Some);
    }
}

/// The data are what the file says: under an identity key, an identity value and an attribute
/// name stands the entry that the file has there, for every key but the reserved one; and there
/// are no other keys.
pub proof fn law_data_are_what_the_file_says(
    members: Seq<(Seq<char>, JsonView)>,
    key: Seq<char>,
    records: Seq<(Seq<char>, JsonView)>,
    value: Seq<char>,
    attrs: Seq<(Seq<char>, JsonView)>,
    name: Seq<char>,
    entry: JsonView,
)
    requires
        data_in(members) is Ok,
        well_named(JsonView::Object(members)),
        members.contains((key, JsonView::Object(records))),
        key != "_schema"@,
        records.contains((value, JsonView::Object(attrs))),
        attrs.contains((name, entry)),
    ensures
        data_in(members)->Ok_0.entries.contains_key(key),
        data_in(members)->Ok_0.entries[key].contains_key(value),
        data_in(members)->Ok_0.entries[key][value].contains_key(name),
        entry_in(entry) == Some(data_in(members)->Ok_0.entries[key][value][name]),
{
    let kept = but_for(members, SCHEMA_KEY@);
    lemma_but_for(members, SCHEMA_KEY@);
    lemma_but_for_contains(members, SCHEMA_KEY@, (key, JsonView::Object(records)));
    lemma_object_read(JsonView::Object(kept), records_reader(), key, JsonView::Object(records));
    let i = choose|i: int|
        0 <= i < members.len() && members[i] == (key, JsonView::Object(records));
    assert(well_named(members[i].1));
    lemma_object_read(JsonView::Object(records), attrs_reader(), value, JsonView::Object(attrs));
    let j = choose|j: int|
        0 <= j < records.len() && records[j] == (value, JsonView::Object(attrs));
    assert(well_named(records[j].1));
    lemma_object_read(JsonView::Object(attrs), entry_reader(), name, entry);
}

/// The identity keys are the keys of the file but for the reserved one, whose definitions are
/// the schema; without it there is no schema.
pub proof fn law_keys_and_schema_are_those_of_the_file(
    members: Seq<(Seq<char>, JsonView)>,
    key: Seq<char>,
)
    requires
        distinct_names(members),
    ensures
        data_in(members) matches Ok(d) ==> (d.entries.contains_key(key) <==> key != "_schema"@
            && exists|i: int| 0 <= i < members.len() && (#[trigger] members[i]).0 == key),
        data_in(members) matches Ok(d) ==> forall|defs: Seq<JsonView>| #[trigger]
            members.contains(("_schema"@, JsonView::Array(defs))) ==> d.schema == Some(defs),
        data_in(members) matches Ok(d) ==> ((forall|i: int|
            0 <= i < members.len() ==> (#[trigger] members[i]).0 != "_schema"@) ==> d.schema
            is None),
        forall|v: JsonView| #[trigger]
            members.contains(("_schema"@, v)) && !(v is Array) ==> data_in(members) == Err::<
                DataView,
                DataErrorView,
            >(DataErrorView::SchemaNotAnArray),
{
    let kept = but_for(members, SCHEMA_KEY@);
    lemma_but_for(members, SCHEMA_KEY@);
    crate::json::law_member_is_found_under_its_name(members, "_schema"@);
    if data_in(members) is Ok {
        lemma_object_read(JsonView::Object(kept), records_reader(), key, JsonView::Null);
        if exists|i: int| 0 <= i < kept.len() && (#[trigger] kept[i]).0 == key {
            let i = choose|i: int| 0 <= i < kept.len() && (#[trigger] kept[i]).0 == key;
            lemma_but_for_contains(members, SCHEMA_KEY@, kept[i]);
            let j = choose|j: int| 0 <= j < members.len() && members[j] == kept[i];
            assert(members[j].0 == key);
        }
        if key != "_schema"@ && exists|i: int| 0 <= i < members.len() && (#[trigger] members[i]).0 == key {
            let i = choose|i: int| 0 <= i < members.len() && (#[trigger] members[i]).0 == key;
            lemma_but_for_contains(members, SCHEMA_KEY@, members[i]);
            assert(members.contains(members[i]));
            let j = choose|j: int| 0 <= j < kept.len() && kept[j] == members[i];
            assert(kept[j].0 == key);
        }
    }
}

/// What a lookup gives is what the records of all its identities have: every attribute of each,
/// as it is stored, and nothing that none of them has.
pub proof fn law_lookup_gives_all_records(
    entries: Map<Seq<char>, Map<Seq<char>, Map<Seq<char>, EntryView>>>,
    ids: Seq<(Seq<char>, Seq<char>)>,
    m: Map<Seq<char>, EntryView>,
    i: int,
    name: Seq<char>,
)
    requires
        is_union(entries, ids, m),
    ensures
        0 <= i < ids.len() && entries.contains_key(ids[i].0) && entries[ids[i].0].contains_key(
            ids[i].1,
        ) && entries[ids[i].0][ids[i].1].contains_key(name) ==> m.contains_key(name) && m[name]
            == entries[ids[i].0][ids[i].1][name],
        m.contains_key(name) ==> exists|j: int|
            0 <= j < ids.len() && entries.contains_key((#[trigger] ids[j]).0)
                && entries[ids[j].0].contains_key(ids[j].1)
                && entries[ids[j].0][ids[j].1].contains_key(name) && m[name]
                == entries[ids[j].0][ids[j].1][name],
{
    if 0 <= i < ids.len() && entries.contains_key(ids[i].0) && entries[ids[i].0].contains_key(
        ids[i].1,
    ) && entries[ids[i].0][ids[i].1].contains_key(name) {
        assert(record_at(entries, ids[i].0, ids[i].1).contains_key(name));
    }
    if m.contains_key(name) {
        let j = choose|j: int|
            0 <= j < ids.len() && record_at(
                entries,
                (#[trigger] ids[j]).0,
                ids[j].1,
            ).contains_key(name);
        assert(record_at(entries, ids[j].0, ids[j].1).contains_key(name));
    }
}

/// Identities disagree on an attribute just where the records of two of them have it with other
/// values or another expiry.
pub proof fn law_disagreement_is_of_values_or_expiry(
    entries: Map<Seq<char>, Map<Seq<char>, Map<Seq<char>, EntryView>>>,
    ids: Seq<(Seq<char>, Seq<char>)>,
    name: Seq<char>,
)
    ensures
        disagree(entries, ids, name) <==> exists|i: int, j: int|
            {
                &&& 0 <= i < ids.len()
                &&& 0 <= j < ids.len()
                &&& entries.contains_key((#[trigger] ids[i]).0)
                &&& entries[ids[i].0].contains_key(ids[i].1)
                &&& entries[ids[i].0][ids[i].1].contains_key(name)
                &&& entries.contains_key((#[trigger] ids[j]).0)
                &&& entries[ids[j].0].contains_key(ids[j].1)
                &&& entries[ids[j].0][ids[j].1].contains_key(name)
                &&& entries[ids[i].0][ids[i].1][name].values
                    != entries[ids[j].0][ids[j].1][name].values
                    || entries[ids[i].0][ids[i].1][name].expires_at
                    != entries[ids[j].0][ids[j].1][name].expires_at
            },
{
    if disagree(entries, ids, name) {
        let (i, j) = choose|i: int, j: int| #[trigger] disagree_at(entries, ids, name, i, j);
        assert(ids[i] == ids[i] && ids[j] == ids[j]);
    }
    if exists|i: int, j: int|
        {
            &&& 0 <= i < ids.len()
            &&& 0 <= j < ids.len()
            &&& entries.contains_key((#[trigger] ids[i]).0)
            &&& entries[ids[i].0].contains_key(ids[i].1)
            &&& entries[ids[i].0][ids[i].1].contains_key(name)
            &&& entries.contains_key((#[trigger] ids[j]).0)
            &&& entries[ids[j].0].contains_key(ids[j].1)
            &&& entries[ids[j].0][ids[j].1].contains_key(name)
            &&& entries[ids[i].0][ids[i].1][name].values
                != entries[ids[j].0][ids[j].1][name].values
                || entries[ids[i].0][ids[i].1][name].expires_at
                != entries[ids[j].0][ids[j].1][name].expires_at
        } {
        let (i, j) = choose|i: int, j: int|
            {
                &&& 0 <= i < ids.len()
                &&& 0 <= j < ids.len()
                &&& entries.contains_key((#[trigger] ids[i]).0)
                &&& entries[ids[i].0].contains_key(ids[i].1)
                &&& entries[ids[i].0][ids[i].1].contains_key(name)
                &&& entries.contains_key((#[trigger] ids[j]).0)
                &&& entries[ids[j].0].contains_key(ids[j].1)
                &&& entries[ids[j].0][ids[j].1].contains_key(name)
                &&& entries[ids[i].0][ids[i].1][name].values
                    != entries[ids[j].0][ids[j].1][name].values
                    || entries[ids[i].0][ids[i].1][name].expires_at
                    != entries[ids[j].0][ids[j].1][name].expires_at
            };
        assert(disagree_at(entries, ids, name, i, j));
    }
}

/// Definitions that are made from the data define every attribute name that any record has, once
/// and in the order of the names, as texts, and as multi-valued just where some record has more
/// than one value of it.
pub proof fn law_derived_definitions_cover_the_data(
    entries: Map<Seq<char>, Map<Seq<char>, Map<Seq<char>, EntryView>>>,
    names: Seq<Seq<char>>,
    defs: Seq<JsonView>,
    key: Seq<char>,
    value: Seq<char>,
    name: Seq<char>,
)
    requires
        derived(entries, names, defs),
    ensures
        entries.contains_key(key) && entries[key].contains_key(value)
            && entries[key][value].contains_key(name) ==> names.contains(name),
        defs.len() == names.len(),
        forall|i: int, j: int| 0 <= i < j < names.len() ==> #[trigger] names[i] != #[trigger] names[j],
        forall|i: int|
            0 <= i < names.len() ==> {
                &&& #[trigger] defs[i] is Object
                &&& defs[i]->Object_0.contains(("name"@, JsonView::Text(names[i])))
                &&& defs[i]->Object_0.contains(("type"@, JsonView::Text("string"@)))
                &&& entries.contains_key(key) && entries[key].contains_key(value)
                    && entries[key][value].contains_key(names[i])
                    && entries[key][value][names[i]].values.len() > 1
                    ==> defs[i]->Object_0.contains(("multiValued"@, JsonView::Bool(true)))
                &&& (forall|k: Seq<char>, v: Seq<char>|
                    entries.contains_key(k) && entries[k].contains_key(v)
                        && #[trigger] entries[k][v].contains_key(names[i])
                        ==> entries[k][v][names[i]].values.len() <= 1)
                    ==> defs[i]->Object_0.contains(("multiValued"@, JsonView::Bool(false)))
            },
{
    if entries.contains_key(key) && entries[key].contains_key(value)
        && entries[key][value].contains_key(name) {
        assert(record_at(entries, key, value).contains_key(name));
    }
    assert forall|i: int, j: int| 0 <= i < j < names.len() implies #[trigger] names[i]
        != #[trigger] names[j] by {
        assert(text_lt(names[i], names[j]));
    }
    assert forall|i: int| 0 <= i < names.len() implies {
        &&& #[trigger] defs[i] is Object
        &&& defs[i]->Object_0.contains(("name"@, JsonView::Text(names[i])))
        &&& defs[i]->Object_0.contains(("type"@, JsonView::Text("string"@)))
        &&& entries.contains_key(key) && entries[key].contains_key(value)
            && entries[key][value].contains_key(names[i])
            && entries[key][value][names[i]].values.len() > 1
            ==> defs[i]->Object_0.contains(("multiValued"@, JsonView::Bool(true)))
        &&& (forall|k: Seq<char>, v: Seq<char>|
            entries.contains_key(k) && entries[k].contains_key(v)
                && #[trigger] entries[k][v].contains_key(names[i])
                ==> entries[k][v][names[i]].values.len() <= 1)
            ==> defs[i]->Object_0.contains(("multiValued"@, JsonView::Bool(false)))
    } by {
        let n = names[i];
        let multi = several(entries, n);
        assert(defs[i] == definition(n, multi));
        let m = defs[i]->Object_0;
        assert(m[0] == ("multiValued"@, JsonView::Bool(multi)));
        assert(m[1] == ("name"@, JsonView::Text(n)));
        assert(m[2] == ("type"@, JsonView::Text("string"@)));
        if entries.contains_key(key) && entries[key].contains_key(value)
            && entries[key][value].contains_key(n) && entries[key][value][n].values.len() > 1 {
            assert(record_at(entries, key, value).contains_key(n));
        }
        if multi {
            let (k, v) = choose|k: Seq<char>, v: Seq<char>| #[trigger]
                record_at(entries, k, v).contains_key(n) && record_at(entries, k, v)[n].values.len()
                    > 1;
            assert(entries[k][v].contains_key(n));
        }
    }
}

} // verus!
