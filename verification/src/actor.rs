//! Actors and the form in which their attributes are stored.
use vstd::prelude::*;

use crate::attribute::{
    attr_views, clone_texts, single_value, AttrView, Attribute,
};
use crate::db::addr::{address_in, is_address, ZprAddr};
use crate::json::{
    find_member, items_view, json_parsed, json_printed, json_u64, member, members_view,
    nests_within, parse_json, print_json, writable, Json, JsonView,
};
use crate::text::{decimal_text, text_eq, text_lt, texts};
use crate::time::{Timestamp, MAX_TIMESTAMP, NANOS_PER_SEC};

verus! {

/// Key of the attribute that holds an actor's address.
pub const ZPR_ADDR: &'static str = "zpr.addr";

/// Key of the attribute that holds an actor's role.
pub const ROLE: &'static str = "zpr.role";

/// Key of the attribute that lists the services an actor offers.
pub const SERVICES: &'static str = "zpr.services";

/// Key of the attribute that holds an adapter's common name.
pub const CN: &'static str = "device.zpr.adapter.cn";

/// Key of the attribute that lists the host names a device claims.
pub const DEVICE_HOSTNAME: &'static str = "device.hostname";

/// The role of nodes.
pub const ROLE_NODE: &'static str = "node";

/// The role of adapters.
pub const ROLE_ADAPTER: &'static str = "adapter";

/// A connected actor.
#[derive(Debug)]
pub struct Actor {
    pub attrs: Vec<Attribute>,
    /// Keys of the attributes that identify the actor.
    pub identity_keys: Vec<String>,
}

/// An actor as mathematical data.
pub struct ActorView {
    pub attrs: Seq<AttrView>,
    pub identity_keys: Seq<Seq<char>>,
}

impl View for Actor {
    type V = ActorView;

    open spec fn view(&self) -> ActorView {
        ActorView { attrs: attr_views(self.attrs@), identity_keys: texts(self.identity_keys@) }
    }
}

/// The first attribute of a key.
pub open spec fn attr_of(attrs: Seq<AttrView>, key: Seq<char>) -> Option<AttrView>
    decreases attrs.len(),
{
    if attrs.len() == 0 {
        None
    } else if attrs[0].key == key {
        Some(attrs[0])
    } else {
        attr_of(attrs.drop_first(), key)
    }
}

/// The values of the first attribute of a key.
pub open spec fn values_of(attrs: Seq<AttrView>, key: Seq<char>) -> Seq<Seq<char>> {
    match attr_of(attrs, key) {
        Some(a) => a.values,
        None => Seq::empty(),
    }
}

impl ActorView {
    /// The single value of the attribute of a key.
    pub open spec fn value(self, key: Seq<char>) -> Option<Seq<char>> {
        match attr_of(self.attrs, key) {
            Some(a) => single_value(a),
            None => None,
        }
    }

    /// The actor's address.
    pub open spec fn addr(self) -> Option<Seq<char>> {
        match self.value(ZPR_ADDR@) {
            Some(s) => address_in(s),
            None => None,
        }
    }

    /// Whether the actor is a node.
    pub open spec fn is_node(self) -> bool {
        self.value(ROLE@) == Some(ROLE_NODE@)
    }

    /// The services that the actor offers.
    pub open spec fn services(self) -> Seq<Seq<char>> {
        values_of(self.attrs, SERVICES@)
    }

    /// The host names that the actor claims.
    pub open spec fn hostnames(self) -> Seq<Seq<char>> {
        values_of(self.attrs, DEVICE_HOSTNAME@)
    }
}

/// No key occurs twice.
pub open spec fn distinct_keys(attrs: Seq<AttrView>) -> bool {
    forall|a: int, b: int|
        0 <= a < b < attrs.len() ==> (#[trigger] attrs[a]).key != (#[trigger] attrs[b]).key
}

impl Actor {
    /// The actor has one attribute of a key at most.
    pub open spec fn wf(self) -> bool {
        distinct_keys(self@.attrs)
    }

    /// An actor without attributes.
    pub fn new() -> (r: Actor)
        ensures
            r.wf(),
            r@.attrs == Seq::<AttrView>::empty(),
            r@.identity_keys == Seq::<Seq<char>>::empty(),
    {
        let r = Actor { attrs: Vec::new(), identity_keys: Vec::new() };
        assert(r@.attrs =~= Seq::<AttrView>::empty());
        assert(r@.identity_keys =~= Seq::<Seq<char>>::empty());
        r
    }

    /// The first attribute of a key.
    pub fn get_attribute(&self, key: &str) -> (r: Option<&Attribute>)
        ensures
            match r {
                Some(a) => attr_of(self@.attrs, key@) == Some(a@),
                None => attr_of(self@.attrs, key@) is None,
            },
    {
        let ghost all = self@.attrs;
        let mut i: usize = 0;
        assert(all.skip(0) == all);
        while i < self.attrs.len()
            invariant
                all == self@.attrs,
                i <= self.attrs@.len(),
                attr_of(all, key@) == attr_of(all.skip(i as int), key@),
            decreases self.attrs@.len() - i,
        {
            assert(all.skip(i as int)[0] == all[i as int]);
            if text_eq(self.attrs[i].key.as_str(), key) {
                return Some(&self.attrs[i]);
            }
            assert(all.skip(i as int).drop_first() == all.skip(i + 1));
            i = i + 1;
        }
        assert(all.skip(i as int).len() == 0);
        None
    }

    /// The single value of the attribute of a key.
    pub fn get_value(&self, key: &str) -> (r: Option<&String>)
        ensures
            match r {
                Some(v) => self@.value(key@) == Some(v@),
                None => self@.value(key@) is None,
            },
    {
        match self.get_attribute(key) {
            Some(a) => a.get_single_value(),
            None => None,
        }
    }

    /// The actor's address.
    pub fn get_zpr_addr(&self) -> (r: Option<ZprAddr>)
        ensures
            match r {
                Some(a) => self@.addr() == Some(a@) && is_address(a@),
                None => self@.addr() is None,
            },
    {
        match self.get_value(ZPR_ADDR) {
            Some(v) => ZprAddr::parse(v.as_str()),
            None => None,
        }
    }

    /// Whether the actor is a node.
    pub fn is_node(&self) -> (r: bool)
        ensures
            r == self@.is_node(),
    {
        match self.get_value(ROLE) {
            Some(v) => text_eq(v.as_str(), ROLE_NODE),
            None => false,
        }
    }

    /// The adapter's common name.
    pub fn get_cn(&self) -> (r: Option<&String>)
        ensures
            match r {
                Some(v) => self@.value(CN@) == Some(v@),
                None => self@.value(CN@) is None,
            },
    {
        self.get_value(CN)
    }

    /// The values of the attribute of a key.
    pub fn get_values(&self, key: &str) -> (r: Vec<String>)
        ensures
            texts(r@) == values_of(self@.attrs, key@),
    {
        match self.get_attribute(key) {
            Some(a) => clone_texts(&a.values),
            None => {
                let none: Vec<String> = Vec::new();
                assert(texts(none@) =~= Seq::empty());
                none
            },
        }
    }

    /// The services that the actor offers.
    pub fn services(&self) -> (r: Vec<String>)
        ensures
            texts(r@) == self@.services(),
    {
        self.get_values(SERVICES)
    }

    /// The host names that the actor claims.
    pub fn hostnames(&self) -> (r: Vec<String>)
        ensures
            texts(r@) == self@.hostnames(),
    {
        self.get_values(DEVICE_HOSTNAME)
    }

    /// Whether the actor offers a service.
    pub fn provides(&self, name: &str) -> (r: bool)
        ensures
            r == self@.services().contains(name@),
    {
        crate::text::contains_text(&self.services(), name)
    }

    /// Adds an attribute at the end, or puts it in the place of the first one of its
    /// key.
    pub fn add_attribute(&mut self, attr: Attribute)
        ensures
            old(self).wf() ==> final(self).wf(),
            final(self)@.attrs == with_attr(old(self)@.attrs, attr@),
            final(self)@.identity_keys == old(self)@.identity_keys,
    {
        let ghost all = self@.attrs;
        let ghost given = attr@;
        proof {
            if distinct_keys(all) {
                lemma_with_attr_distinct(all, given);
            }
        }
        let mut i: usize = 0;
        assert(all.skip(0) == all);
        assert(all.take(0) + with_attr(all.skip(0), given) =~= with_attr(all, given));
        while i < self.attrs.len()
            invariant
                *self == *old(self),
                all == self@.attrs,
                given == attr@,
                i <= self.attrs@.len(),
                distinct_keys(all) ==> distinct_keys(with_attr(all, given)),
                with_attr(all, given) == all.take(i as int) + with_attr(all.skip(i as int), given),
            decreases self.attrs@.len() - i,
        {
            assert(all.skip(i as int)[0] == all[i as int]);
            if text_eq(self.attrs[i].key.as_str(), attr.key.as_str()) {
                self.attrs.set(i, attr);
                proof {
                    assert(all.skip(i as int).drop_first() =~= all.skip(i + 1));
                    assert(self@.attrs =~= all.take(i as int) + (seq![given] + all.skip(i + 1)));
                    assert(self@.identity_keys =~= old(self)@.identity_keys);
                }
                return;
            }
            proof {
                assert(all.skip(i as int).drop_first() =~= all.skip(i + 1));
                assert(all.take(i + 1) =~= all.take(i as int).push(all[i as int]));
                assert(all.take(i as int) + (seq![all[i as int]] + with_attr(
                    all.skip(i + 1),
                    given,
                )) =~= all.take(i + 1) + with_attr(all.skip(i + 1), given));
            }
            i = i + 1;
        }
        self.attrs.push(attr);
        proof {
            assert(all.skip(i as int) =~= Seq::empty());
            assert(self@.attrs =~= all.take(i as int) + seq![given]);
            assert(self@.identity_keys =~= old(self)@.identity_keys);
        }
    }

    /// Adds a key to those that identify the actor.
    pub fn add_identity_key(&mut self, key: &str)
        ensures
            old(self).wf() ==> final(self).wf(),
            final(self)@.attrs == old(self)@.attrs,
            final(self)@.identity_keys == old(self)@.identity_keys.push(key@),
    {
        self.identity_keys.push(key.to_owned());
        assert(self@.identity_keys =~= old(self)@.identity_keys.push(key@));
        assert(self@.attrs =~= old(self)@.attrs);
    }
}

/// The attributes with one more, in the place of the first one of its key, or at
/// the end.
pub open spec fn with_attr(attrs: Seq<AttrView>, a: AttrView) -> Seq<AttrView>
    decreases attrs.len(),
{
    if attrs.len() == 0 {
        seq![a]
    } else if attrs[0].key == a.key {
        seq![a] + attrs.drop_first()
    } else {
        seq![attrs[0]] + with_attr(attrs.drop_first(), a)
    }
}

/// With one more attribute no key occurs twice, if none did before.
pub proof fn lemma_with_attr_distinct(attrs: Seq<AttrView>, a: AttrView)
    requires
        distinct_keys(attrs),
    ensures
        distinct_keys(with_attr(attrs, a)),
        forall|i: int|
            0 <= i < with_attr(attrs, a).len() ==> (#[trigger] with_attr(attrs, a)[i]).key == a.key
                || exists|j: int|
                0 <= j < attrs.len() && (#[trigger] attrs[j]).key == with_attr(attrs, a)[i].key,
    decreases attrs.len(),
{
    let after = with_attr(attrs, a);
    if attrs.len() > 0 {
        let rest = attrs.drop_first();
        if attrs[0].key == a.key {
            assert forall|i: int| 0 < i < after.len() implies after[i] == attrs[i] by {}
            assert forall|i: int, j: int| 0 <= i < j < after.len() implies (#[trigger] after[i]).key
                != (#[trigger] after[j]).key by {
                assert(after[i].key == attrs[i].key && after[j] == attrs[j]);
            }
            assert forall|i: int| 0 <= i < after.len() implies (#[trigger] after[i]).key == a.key
                || exists|j: int| 0 <= j < attrs.len() && (#[trigger] attrs[j]).key
                == after[i].key by {
                if i > 0 {
                    assert(attrs[i].key == after[i].key);
                }
            }
        } else {
            assert forall|i: int, j: int| 0 <= i < j < rest.len() implies (#[trigger] rest[i]).key
                != (#[trigger] rest[j]).key by {
                assert(rest[i] == attrs[i + 1] && rest[j] == attrs[j + 1]);
            }
            lemma_with_attr_distinct(rest, a);
            let tail = with_attr(rest, a);
            assert forall|i: int| 0 <= i < after.len() implies (#[trigger] after[i]).key == a.key
                || exists|j: int| 0 <= j < attrs.len() && (#[trigger] attrs[j]).key
                == after[i].key by {
                if i == 0 {
                    assert(attrs[0].key == after[0].key);
                } else {
                    assert(after[i] == tail[i - 1]);
                    if tail[i - 1].key != a.key {
                        let j = choose|j: int|
                            0 <= j < rest.len() && (#[trigger] rest[j]).key == tail[i - 1].key;
                        assert(attrs[j + 1] == rest[j]);
                    }
                }
            }
            assert forall|i: int, j: int| 0 <= i < j < after.len() implies (#[trigger] after[i]).key
                != (#[trigger] after[j]).key by {
                assert(after[j] == tail[j - 1]);
                if i > 0 {
                    assert(after[i] == tail[i - 1]);
                } else if tail[j - 1].key != a.key {
                    let k = choose|k: int|
                        0 <= k < rest.len() && (#[trigger] rest[k]).key == tail[j - 1].key;
                    assert(rest[k] == attrs[k + 1]);
                }
            }
        }
    }
}

/// The expiry can be stored: it is not before the epoch.
pub open spec fn storable(a: AttrView) -> bool {
    0 <= a.expires <= MAX_TIMESTAMP
}

/// Texts as JSON values.
pub open spec fn text_items(list: Seq<Seq<char>>) -> Seq<JsonView> {
    list.map_values(|s: Seq<char>| JsonView::Text(s))
}

/// A whole number as a JSON value.
pub open spec fn number(n: int) -> JsonView {
    JsonView::Number(decimal_text(n as nat), Some(n as u64))
}

/// An attribute as a JSON value: the form in which the database holds it. Its members carry
/// the names of an attribute's parts, and the expiry is in seconds and nanoseconds since the
/// epoch. No other program is assumed to write the form.
pub open spec fn attr_json(a: AttrView) -> JsonView {
    JsonView::Object(
        seq![
            (
                "expires"@,
                JsonView::Object(
                    seq![
                        ("nanos_since_epoch"@, number(a.expires % NANOS_PER_SEC as int)),
                        ("secs_since_epoch"@, number(a.expires / NANOS_PER_SEC as int)),
                    ],
                ),
            ),
            ("key"@, JsonView::Text(a.key)),
            ("source"@, JsonView::Text(a.source)),
            ("values"@, JsonView::Array(text_items(a.values))),
        ],
    )
}

/// The texts of an array, where it holds nothing else.
pub open spec fn texts_of(items: Seq<JsonView>) -> Option<Seq<Seq<char>>> {
    if forall|i: int| 0 <= i < items.len() ==> (#[trigger] items[i]) is Text {
        Some(items.map_values(|v: JsonView| v->Text_0))
    } else {
        None
    }
}

/// The expiry that a JSON value stands for.
pub open spec fn expiry_of_json(v: JsonView) -> Option<int> {
    match v {
        JsonView::Object(m) => match (
            member(m, "secs_since_epoch"@),
            member(m, "nanos_since_epoch"@),
        ) {
            (Some(JsonView::Number(_, Some(s))), Some(JsonView::Number(_, Some(n)))) => if s
                <= i64::MAX && n < NANOS_PER_SEC {
                Some(s * NANOS_PER_SEC + n)
            } else {
                None
            },
            _ => None,
        },
        _ => None,
    }
}

/// The attribute that a JSON value stands for.
pub open spec fn attr_of_json(v: JsonView) -> Option<AttrView> {
    match v {
        JsonView::Object(m) => match (
            member(m, "key"@),
            member(m, "source"@),
            member(m, "values"@),
            member(m, "expires"@),
        ) {
            (
                Some(JsonView::Text(key)),
                Some(JsonView::Text(source)),
                Some(JsonView::Array(items)),
                Some(e),
            ) => match (texts_of(items), expiry_of_json(e)) {
                (Some(values), Some(expires)) => Some(AttrView { key, values, expires, source }),
                _ => None,
            },
            _ => None,
        },
        _ => None,
    }
}

/// The attribute that a stored text stands for.
pub open spec fn stored_attr(text: Seq<char>) -> Option<AttrView> {
    match json_parsed(text) {
        Ok(v) => attr_of_json(v),
        Err(_) => None,
    }
}

/// The text that stores an attribute.
pub open spec fn attr_text(a: AttrView) -> Seq<char> {
    json_printed(attr_json(a))
}

/// Reading an attribute's JSON value gives the attribute back.
pub proof fn law_attribute_survives_its_json(a: AttrView)
    requires
        storable(a),
    ensures
        attr_of_json(attr_json(a)) == Some(a),
{
    reveal_strlit("expires");
    reveal_strlit("key");
    reveal_strlit("source");
    reveal_strlit("values");
    reveal_strlit("nanos_since_epoch");
    reveal_strlit("secs_since_epoch");
    let m = attr_json(a)->Object_0;
    assert("source"@[0] != "values"@[0]);
    assert("nanos_since_epoch"@.len() != "secs_since_epoch"@.len());
    let e = m[0].1;
    let em = e->Object_0;
    assert(member(em.drop_first(), "secs_since_epoch"@) == Some(em[1].1)) by {
        assert(em.drop_first()[0] == em[1]);
    }
    assert(member(em, "nanos_since_epoch"@) == Some(em[0].1));
    assert(member(em, "secs_since_epoch"@) == Some(em[1].1));
    let s = a.expires / NANOS_PER_SEC as int;
    let n = a.expires % NANOS_PER_SEC as int;
    assert(0 <= s <= i64::MAX);
    assert(0 <= n < NANOS_PER_SEC);
    assert((s as u64) as int == s && (n as u64) as int == n);
    assert(s * NANOS_PER_SEC + n == a.expires);
    assert(expiry_of_json(e) == Some(a.expires));
    let m1 = m.drop_first();
    let m2 = m1.drop_first();
    let m3 = m2.drop_first();
    assert(m1[0] == m[1] && m2[0] == m[2] && m3[0] == m[3]);
    assert(member(m1, "key"@) == Some(m[1].1));
    assert(member(m2, "source"@) == Some(m[2].1));
    assert(member(m1, "source"@) == Some(m[2].1));
    assert(member(m3, "values"@) == Some(m[3].1));
    assert(member(m2, "values"@) == Some(m[3].1));
    assert(member(m1, "values"@) == Some(m[3].1));
    assert(member(m, "expires"@) == Some(e));
    let items = text_items(a.values);
    assert(texts_of(items)->0 =~= a.values);
    assert("expires"@.len() != "key"@.len());
    assert("expires"@.len() != "source"@.len());
    assert("expires"@.len() != "values"@.len());
    assert(member(m, "key"@) == Some(m[1].1));
    assert(member(m, "source"@) == Some(m[2].1));
    assert(member(m, "values"@) == Some(m[3].1));
}

/// The JSON values of a list of texts.
pub fn texts_json(list: &Vec<String>) -> (r: Json)
    ensures
        r@ == JsonView::Array(text_items(texts(list@))),
        writable(r@),
        nests_within(r@, 1),
{
    let mut items: Vec<Json> = Vec::new();
    let mut i: usize = 0;
    while i < list.len()
        invariant
            i <= list@.len(),
            items@.len() == i,
            forall|j: int| 0 <= j < i ==> (#[trigger] items@[j])@ == JsonView::Text(list@[j]@),
        decreases list@.len() - i,
    {
        items.push(Json::Text(list[i].clone()));
        i = i + 1;
    }
    let r = Json::Array(items);
    proof {
        assert(r@->Array_0 =~= text_items(texts(list@)));
        reveal_with_fuel(writable, 2);
        reveal_with_fuel(nests_within, 2);
    }
    r
}

/// The text that stores an attribute, unless its expiry cannot be stored.
pub fn encode_attr(a: &Attribute) -> (r: Option<String>)
    ensures
        match r {
            Some(t) => storable(a@) && t@ == attr_text(a@) && stored_attr(t@) == Some(a@),
            None => !storable(a@),
        },
{
    if a.expires < 0 || a.expires > MAX_TIMESTAMP {
        return None;
    }
    let secs: u64 = (a.expires / 1_000_000_000) as u64;
    let nanos: u64 = (a.expires % 1_000_000_000) as u64;
    let nanos_json = json_u64(nanos);
    let secs_json = json_u64(secs);
    let values_json = texts_json(&a.values);
    let ghost nv = nanos_json@;
    let ghost sv = secs_json@;
    let ghost vv = values_json@;
    let mut when: Vec<(String, Json)> = Vec::new();
    when.push(("nanos_since_epoch".to_owned(), nanos_json));
    when.push(("secs_since_epoch".to_owned(), secs_json));
    let ghost em = seq![("nanos_since_epoch"@, nv), ("secs_since_epoch"@, sv)];
    let when_json = Json::Object(when);
    assert(when_json@->Object_0 =~= em);
    let mut members: Vec<(String, Json)> = Vec::new();
    members.push(("expires".to_owned(), when_json));
    let key_json = Json::Text(a.key.clone());
    let source_json = Json::Text(a.source.clone());
    assert(key_json@ == JsonView::Text(a.key@));
    assert(source_json@ == JsonView::Text(a.source@));
    members.push(("key".to_owned(), key_json));
    members.push(("source".to_owned(), source_json));
    members.push(("values".to_owned(), values_json));
    let all = Json::Object(members);
    proof {
        let got = all@->Object_0;
        let want = attr_json(a@)->Object_0;
        assert(nv == number(a@.expires % NANOS_PER_SEC as int));
        assert(sv == number(a@.expires / NANOS_PER_SEC as int));
        assert(want[0].1->Object_0 =~= em);
        assert(got[0] == want[0]);
        assert(got[1] == want[1]);
        assert(got[2] == want[2]);
        assert(got[3] == want[3]);
        assert(got =~= want);
        lemma_attr_json_writable(a@);
        law_attribute_survives_its_json(a@);
    }
    Some(print_json(&all))
}

proof fn lemma_attr_json_writable(a: AttrView)
    requires
        storable(a),
    ensures
        writable(attr_json(a)),
        nests_within(attr_json(a), 100),
{
    reveal_strlit("expires");
    reveal_strlit("key");
    reveal_strlit("source");
    reveal_strlit("values");
    reveal_strlit("nanos_since_epoch");
    reveal_strlit("secs_since_epoch");
    reveal_with_fuel(writable, 4);
    reveal_with_fuel(nests_within, 4);
    assert(text_lt("nanos_since_epoch"@, "secs_since_epoch"@));
    assert(text_lt("expires"@, "key"@));
    assert(text_lt("expires"@, "source"@));
    assert(text_lt("expires"@, "values"@));
    assert(text_lt("key"@, "source"@));
    assert(text_lt("key"@, "values"@));
    assert(text_lt("source"@, "values"@));
    let m = attr_json(a)->Object_0;
    let e = m[0].1;
    assert(a.expires / 1_000_000_000 <= i64::MAX);
    assert(writable(e)) by {
        let em = e->Object_0;
        assert(writable(em[0].1));
        assert(writable(em[1].1));
    }
    let items = text_items(a.values);
    assert(writable(JsonView::Array(items)));
    assert(nests_within(e, 99));
    assert(nests_within(JsonView::Array(items), 99));
    assert forall|i: int| 0 <= i < m.len() implies writable((#[trigger] m[i]).1) by {}
    assert forall|i: int| 0 <= i < m.len() implies nests_within((#[trigger] m[i]).1, 99) by {}
}

/// The texts of an array, where it holds nothing else.
fn read_texts(items: &Vec<Json>) -> (r: Option<Vec<String>>)
    ensures
        match r {
            Some(list) => texts_of(items_view(items@)) == Some(texts(list@)),
            None => texts_of(items_view(items@)) is None,
        },
{
    let ghost all = items_view(items@);
    let mut out: Vec<String> = Vec::new();
    let mut i: usize = 0;
    while i < items.len()
        invariant
            all == items_view(items@),
            i <= items@.len(),
            out@.len() == i,
            forall|j: int| 0 <= j < i ==> (#[trigger] all[j]) == JsonView::Text(out@[j]@),
        decreases items@.len() - i,
    {
        assert(all[i as int] == items@[i as int]@);
        match &items[i] {
            Json::Text(s) => {
                out.push(s.clone());
            },
            _ => {
                return None;
            },
        }
        i = i + 1;
    }
    assert(texts_of(all)->0 =~= texts(out@));
    Some(out)
}

fn read_expiry(v: &Json) -> (r: Option<Timestamp>)
    ensures
        match r {
            Some(t) => expiry_of_json(v@) == Some(t as int),
            None => expiry_of_json(v@) is None,
        },
{
    match v {
        Json::Object(m) => {
            assert(v@->Object_0 =~= members_view(m@));
            let s: u64 = match find_member(m, "secs_since_epoch") {
                Some(Json::Number(n)) => match n.unsigned {
                    Some(x) => x,
                    None => {
                        return None;
                    },
                },
                _ => {
                    return None;
                },
            };
            let n: u64 = match find_member(m, "nanos_since_epoch") {
                Some(Json::Number(n)) => match n.unsigned {
                    Some(x) => x,
                    None => {
                        return None;
                    },
                },
                _ => {
                    return None;
                },
            };
            if s <= 9_223_372_036_854_775_807 && n < 1_000_000_000 {
                Some(s as i128 * 1_000_000_000 + n as i128)
            } else {
                None
            }
        },
        _ => None,
    }
}

/// The attribute that a JSON value stands for.
fn attr_from_json(v: &Json) -> (r: Option<Attribute>)
    ensures
        match r {
            Some(a) => attr_of_json(v@) == Some(a@),
            None => attr_of_json(v@) is None,
        },
{
    match v {
        Json::Object(m) => {
            assert(v@->Object_0 =~= members_view(m@));
            let key = match find_member(m, "key") {
                Some(Json::Text(s)) => s.clone(),
                _ => {
                    return None;
                },
            };
            let source = match find_member(m, "source") {
                Some(Json::Text(s)) => s.clone(),
                _ => {
                    return None;
                },
            };
            let values = match find_member(m, "values") {
                Some(Json::Array(items)) => {
                    assert(Json::Array(*items)@->Array_0 =~= items_view(items@));
                    read_texts(items)
                },
                _ => {
                    return None;
                },
            };
            let expires = match find_member(m, "expires") {
                Some(e) => read_expiry(e),
                None => {
                    return None;
                },
            };
            match (values, expires) {
                (Some(values), Some(expires)) => Some(Attribute { key, values, expires, source }),
                _ => None,
            }
        },
        _ => None,
    }
}

/// The attribute that a stored text stands for.
pub fn decode_attr(text: &str) -> (r: Option<Attribute>)
    ensures
        match r {
            Some(a) => stored_attr(text@) == Some(a@),
            None => stored_attr(text@) is None,
        },
{
    match parse_json(text) {
        Ok(v) => attr_from_json(&v),
        Err(_) => None,
    }
}

/// The text that stores a list of texts.
pub open spec fn list_text(list: Seq<Seq<char>>) -> Seq<char> {
    json_printed(JsonView::Array(text_items(list)))
}

/// The list of texts that a stored text stands for.
pub open spec fn stored_list(text: Seq<char>) -> Option<Seq<Seq<char>>> {
    match json_parsed(text) {
        Ok(JsonView::Array(items)) => texts_of(items),
        _ => None,
    }
}

/// The text that stores a list of texts.
pub fn encode_list(list: &Vec<String>) -> (r: String)
    ensures
        r@ == list_text(texts(list@)),
        stored_list(r@) == Some(texts(list@)),
{
    let json = texts_json(list);
    proof {
        reveal_with_fuel(nests_within, 2);
        assert(texts_of(text_items(texts(list@)))->0 =~= texts(list@));
    }
    print_json(&json)
}

/// The list of texts that a stored text stands for.
pub fn decode_list(text: &str) -> (r: Option<Vec<String>>)
    ensures
        match r {
            Some(list) => stored_list(text@) == Some(texts(list@)),
            None => stored_list(text@) is None,
        },
{
    match parse_json(text) {
        Ok(Json::Array(items)) => {
            assert(Json::Array(items)@->Array_0 =~= items_view(items@));
            read_texts(&items)
        },
        _ => None,
    }
}

/// What an actor shows under a key is what its attribute of that key has: its services and host
/// names are all the values of these attributes, in order, its address is the one that the
/// single value of that attribute stands for, and it is a node where its role says so. Without
/// such an attribute it shows nothing.
pub proof fn law_actor_shows_its_attributes(actor: ActorView, i: int)
    requires
        forall|a: int, b: int|
            0 <= a < b < actor.attrs.len() ==> (#[trigger] actor.attrs[a]).key != (
            #[trigger] actor.attrs[b]).key,
    ensures
        0 <= i < actor.attrs.len() && actor.attrs[i].key == "zpr.services"@ ==> actor.services()
            == actor.attrs[i].values,
        0 <= i < actor.attrs.len() && actor.attrs[i].key == "device.hostname"@ ==> actor.hostnames()
            == actor.attrs[i].values,
        0 <= i < actor.attrs.len() && actor.attrs[i].key == "zpr.role"@ ==> actor.is_node() == (
        actor.attrs[i].values.len() == 1 && actor.attrs[i].values[0] == "node"@),
        0 <= i < actor.attrs.len() && actor.attrs[i].key == "zpr.addr"@ && actor.attrs[i].values.len()
            == 1 ==> actor.addr() == address_in(actor.attrs[i].values[0]),
        0 <= i < actor.attrs.len() && actor.attrs[i].key == "zpr.addr"@ && actor.attrs[i].values.len()
            != 1 ==> actor.addr() is None,
        0 <= i < actor.attrs.len() ==> attr_of(actor.attrs, actor.attrs[i].key) == Some(
            actor.attrs[i],
        ),
        forall|key: Seq<char>|
            (forall|a: int| 0 <= a < actor.attrs.len() ==> (#[trigger] actor.attrs[a]).key != key)
                ==> #[trigger] attr_of(actor.attrs, key) is None,
        (forall|a: int|
            0 <= a < actor.attrs.len() ==> (#[trigger] actor.attrs[a]).key != "zpr.services"@)
            ==> actor.services().len() == 0,
        (forall|a: int|
            0 <= a < actor.attrs.len() ==> (#[trigger] actor.attrs[a]).key != "device.hostname"@)
            ==> actor.hostnames().len() == 0,
        (forall|a: int|
            0 <= a < actor.attrs.len() ==> (#[trigger] actor.attrs[a]).key != "zpr.role"@)
            ==> !actor.is_node(),
{
    if 0 <= i < actor.attrs.len() {
        lemma_attr_at(actor.attrs, i);
    }
    assert forall|key: Seq<char>|
        (forall|a: int| 0 <= a < actor.attrs.len() ==> (#[trigger] actor.attrs[a]).key
            != key) implies #[trigger] attr_of(actor.attrs, key) is None by {
        lemma_attr_nowhere(actor.attrs, key);
    }
}

proof fn lemma_attr_at(attrs: Seq<AttrView>, i: int)
    requires
        distinct_keys(attrs),
        0 <= i < attrs.len(),
    ensures
        attr_of(attrs, attrs[i].key) == Some(attrs[i]),
    decreases i,
{
    if i > 0 {
        let rest = attrs.drop_first();
        assert forall|a: int, b: int| 0 <= a < b < rest.len() implies (#[trigger] rest[a]).key != (
        #[trigger] rest[b]).key by {
            assert(rest[a] == attrs[a + 1] && rest[b] == attrs[b + 1]);
        }
        assert(attrs[0].key != attrs[i].key);
        assert(rest[i - 1] == attrs[i]);
        lemma_attr_at(rest, i - 1);
    }
}

proof fn lemma_attr_nowhere(attrs: Seq<AttrView>, key: Seq<char>)
    requires
        forall|a: int| 0 <= a < attrs.len() ==> (#[trigger] attrs[a]).key != key,
    ensures
        attr_of(attrs, key) is None,
    decreases attrs.len(),
{
    if attrs.len() > 0 {
        let rest = attrs.drop_first();
        assert forall|a: int| 0 <= a < rest.len() implies (#[trigger] rest[a]).key != key by {
            assert(rest[a] == attrs[a + 1]);
        }
        assert(attrs[0].key != key);
        lemma_attr_nowhere(rest, key);
    }
}

/// Giving an actor an attribute puts it in the place of the one of its key, or at the end where
/// there is none, and leaves all others where they are.
pub proof fn law_new_attribute_replaces_the_one_of_its_key(attrs: Seq<AttrView>, a: AttrView, i: int)
    requires
        0 <= i <= attrs.len(),
        forall|j: int| 0 <= j < i ==> (#[trigger] attrs[j]).key != a.key,
        i < attrs.len() ==> attrs[i].key == a.key,
    ensures
        with_attr(attrs, a) == (if i < attrs.len() {
            attrs.update(i, a)
        } else {
            attrs.push(a)
        }),
    decreases i,
{
    if i > 0 {
        let rest = attrs.drop_first();
        assert(attrs[0].key != a.key);
        assert forall|j: int| 0 <= j < i - 1 implies (#[trigger] rest[j]).key != a.key by {
            assert(rest[j] == attrs[j + 1]);
        }
        if i < attrs.len() {
            assert(rest[i - 1] == attrs[i]);
        }
        law_new_attribute_replaces_the_one_of_its_key(rest, a, i - 1);
        assert(with_attr(attrs, a) =~= (if i < attrs.len() {
            attrs.update(i, a)
        } else {
            attrs.push(a)
        }));
    } else if attrs.len() > 0 {
        assert(with_attr(attrs, a) =~= attrs.update(0, a));
    } else {
        assert(with_attr(attrs, a) =~= attrs.push(a));
    }
}

} // verus!
