//! Attributes of actors, the policy's mapping of outside names to attribute
//! keys, and the union of attributes from several records.
use vstd::prelude::*;

use crate::text::{
    lemma_text_le_antisymmetric, lemma_text_le_total, lemma_text_le_transitive, not_after, text_eq,
    text_lt, texts,
};
use crate::time::Timestamp;

verus! {

/// Key of the attribute that names the service vouching for the user.
pub const USER_AUTHORITY: &'static str = "user.zpr.authority";

/// One attribute of an actor.
#[derive(Debug)]
pub struct Attribute {
    pub key: String,
    /// The values; a tag has none.
    pub values: Vec<String>,
    pub expires: Timestamp,
    /// The source that vouches for the attribute.
    pub source: String,
}

/// An attribute as mathematical data.
pub struct AttrView {
    pub key: Seq<char>,
    pub values: Seq<Seq<char>>,
    pub expires: int,
    pub source: Seq<char>,
}

impl View for Attribute {
    type V = AttrView;

    open spec fn view(&self) -> AttrView {
        AttrView {
            key: self.key@,
            values: texts(self.values@),
            expires: self.expires as int,
            source: self.source@,
        }
    }
}

/// The attributes of a list as mathematical data.
pub open spec fn attr_views(attrs: Seq<Attribute>) -> Seq<AttrView> {
    attrs.map_values(|a: Attribute| a@)
}

/// A copy of a list of texts.
pub fn clone_texts(list: &Vec<String>) -> (r: Vec<String>)
    ensures
        texts(r@) == texts(list@),
{
    let mut out: Vec<String> = Vec::new();
    let mut i: usize = 0;
    while i < list.len()
        invariant
            i <= list@.len(),
            out@.len() == i,
            forall|j: int| 0 <= j < i ==> (#[trigger] out@[j])@ == list@[j]@,
        decreases list@.len() - i,
    {
        out.push(list[i].clone());
        i = i + 1;
    }
    assert(texts(out@) =~= texts(list@));
    out
}

/// Whether two lists hold the same texts in the same order.
pub fn same_texts(a: &Vec<String>, b: &Vec<String>) -> (r: bool)
    ensures
        r == (texts(a@) == texts(b@)),
{
    if a.len() != b.len() {
        assert(texts(a@).len() != texts(b@).len());
        return false;
    }
    let mut i: usize = 0;
    while i < a.len()
        invariant
            a@.len() == b@.len(),
            i <= a@.len(),
            forall|j: int| 0 <= j < i ==> texts(a@)[j] == texts(b@)[j],
        decreases a@.len() - i,
    {
        if !text_eq(a[i].as_str(), b[i].as_str()) {
            assert(texts(a@)[i as int] != texts(b@)[i as int]);
            return false;
        }
        i = i + 1;
    }
    assert(texts(a@) =~= texts(b@));
    true
}

impl Attribute {
    /// A copy of the attribute.
    pub fn copy(&self) -> (r: Attribute)
        ensures
            r@ == self@,
    {
        Attribute {
            key: self.key.clone(),
            values: clone_texts(&self.values),
            expires: self.expires,
            source: self.source.clone(),
        }
    }

    /// The value, where there is exactly one.
    pub fn get_single_value(&self) -> (r: Option<&String>)
        ensures
            match r {
                Some(v) => single_value(self@) == Some(v@),
                None => single_value(self@) is None,
            },
    {
        if self.values.len() == 1 {
            assert(texts(self.values@)[0] == self.values@[0]@);
            Some(&self.values[0])
        } else {
            None
        }
    }
}

/// The value of an attribute that has exactly one.
pub open spec fn single_value(a: AttrView) -> Option<Seq<char>> {
    if a.values.len() == 1 {
        Some(a.values[0])
    } else {
        None
    }
}

/// How policy spells a mapped attribute.
#[derive(Clone, Copy, PartialEq, Eq, Structural, Debug)]
pub enum AttrHint {
    SingleValued,
    MultiValued,
    Tag,
}

/// One entry of a policy mapping: the name outside, and the key and spelling of
/// the attribute it becomes.
#[derive(Debug)]
pub struct AttributeMapping {
    pub service_attr_key: String,
    pub zpr_key: String,
    pub hint: AttrHint,
}

/// A mapping entry as mathematical data.
pub struct MappingView {
    pub service_attr_key: Seq<char>,
    pub zpr_key: Seq<char>,
    pub hint: AttrHint,
}

impl View for AttributeMapping {
    type V = MappingView;

    open spec fn view(&self) -> MappingView {
        MappingView {
            service_attr_key: self.service_attr_key@,
            zpr_key: self.zpr_key@,
            hint: self.hint,
        }
    }
}

/// The policy mapping of a trusted service.
#[derive(Debug)]
pub struct AttributeMapper {
    pub mappings: Vec<AttributeMapping>,
}

impl View for AttributeMapper {
    type V = Seq<MappingView>;

    open spec fn view(&self) -> Seq<MappingView> {
        self.mappings@.map_values(|m: AttributeMapping| m@)
    }
}

/// The first mapping of the given outside name.
pub open spec fn mapping_of(mappings: Seq<MappingView>, name: Seq<char>) -> Option<MappingView>
    decreases mappings.len(),
{
    if mappings.len() == 0 {
        None
    } else if mappings[0].service_attr_key == name {
        Some(mappings[0])
    } else {
        mapping_of(mappings.drop_first(), name)
    }
}

impl AttributeMapper {
    /// The attribute that an outside name becomes, if it is mapped at all.
    pub fn map_attribute(&self, name: &str) -> (r: Option<&AttributeMapping>)
        ensures
            match r {
                Some(m) => mapping_of(self@, name@) == Some(m@),
                None => mapping_of(self@, name@) is None,
            },
    {
        let ghost all = self@;
        let mut i: usize = 0;
        assert(all.skip(0) == all);
        while i < self.mappings.len()
            invariant
                all == self@,
                i <= self.mappings@.len(),
                mapping_of(all, name@) == mapping_of(all.skip(i as int), name@),
            decreases self.mappings@.len() - i,
        {
            assert(all.skip(i as int)[0] == all[i as int]);
            if text_eq(self.mappings[i].service_attr_key.as_str(), name) {
                return Some(&self.mappings[i]);
            }
            assert(all.skip(i as int).drop_first() == all.skip(i + 1));
            i = i + 1;
        }
        assert(all.skip(i as int).len() == 0);
        None
    }
}

/// The attribute at `p` is the first of its key.
pub open spec fn is_first(attrs: Seq<AttrView>, p: int) -> bool {
    forall|q: int| 0 <= q < p ==> (#[trigger] attrs[q]).key != attrs[p].key
}

/// `v` is the first attribute of its key.
pub open spec fn leads(attrs: Seq<AttrView>, v: AttrView) -> bool {
    exists|p: int| 0 <= p < attrs.len() && is_first(attrs, p) && #[trigger] attrs[p] == v
}

/// Some attribute has the key.
pub open spec fn has_key(attrs: Seq<AttrView>, key: Seq<char>) -> bool {
    exists|i: int| 0 <= i < attrs.len() && (#[trigger] attrs[i]).key == key
}

/// The key on which the attributes first disagree: that of the first attribute
/// with a key seen before and other values.
pub open spec fn first_conflict(attrs: Seq<AttrView>) -> Option<Seq<char>>
    decreases attrs.len(),
{
    if attrs.len() == 0 {
        None
    } else {
        match first_conflict(attrs.drop_last()) {
            Some(k) => Some(k),
            None => if exists|i: int|
                0 <= i < attrs.len() - 1 && (#[trigger] attrs[i]).key == attrs.last().key
                    && attrs[i].values != attrs.last().values {
                Some(attrs.last().key)
            } else {
                None
            },
        }
    }
}

/// Keys in strictly increasing order.
pub open spec fn sorted_by_key(out: Seq<AttrView>) -> bool {
    forall|i: int, j: int|
        0 <= i < j < out.len() ==> text_lt((#[trigger] out[i]).key, (#[trigger] out[j]).key)
}

/// `out` is the union of `attrs`: in the order of the keys, the first attribute
/// of every key.
pub open spec fn union_of(out: Seq<AttrView>, attrs: Seq<AttrView>) -> bool {
    &&& sorted_by_key(out)
    &&& forall|i: int| 0 <= i < out.len() ==> leads(attrs, #[trigger] out[i])
    &&& forall|p: int| 0 <= p < attrs.len() ==> has_key(out, (#[trigger] attrs[p]).key)
}

/// Without a disagreement, attributes of one key have the same values.
pub proof fn law_no_conflict_means_agreement(attrs: Seq<AttrView>, i: int, j: int)
    requires
        first_conflict(attrs) is None,
        0 <= i < j < attrs.len(),
        attrs[i].key == attrs[j].key,
    ensures
        attrs[i].values == attrs[j].values,
    decreases attrs.len(),
{
    if j < attrs.len() - 1 {
        assert(attrs.drop_last()[i] == attrs[i]);
        assert(attrs.drop_last()[j] == attrs[j]);
        law_no_conflict_means_agreement(attrs.drop_last(), i, j);
    } else {
        assert(attrs.last() == attrs[j]);
    }
}

/// A disagreement names a key under which two attributes have different values.
pub proof fn law_conflict_is_real(attrs: Seq<AttrView>)
    requires
        first_conflict(attrs) is Some,
    ensures
        exists|i: int, j: int|
            0 <= i < j < attrs.len() && (#[trigger] attrs[i]).key == first_conflict(attrs)->0
                && (#[trigger] attrs[j]).key == first_conflict(attrs)->0 && attrs[i].values
                != attrs[j].values,
    decreases attrs.len(),
{
    let init = attrs.drop_last();
    if first_conflict(init) is Some {
        law_conflict_is_real(init);
        let (i, j) = choose|i: int, j: int|
            0 <= i < j < init.len() && (#[trigger] init[i]).key == first_conflict(init)->0 && (
            #[trigger] init[j]).key == first_conflict(init)->0 && init[i].values != init[j].values;
        assert(attrs[i] == init[i] && attrs[j] == init[j]);
    } else {
        let i = choose|i: int|
            0 <= i < attrs.len() - 1 && (#[trigger] attrs[i]).key == attrs.last().key
                && attrs[i].values != attrs.last().values;
        assert(attrs[attrs.len() - 1] == attrs.last());
    }
}

/// A union under construction: the first attribute of every key so far, in the
/// order of the keys.
pub struct AttrUnion {
    pub entries: Vec<Attribute>,
}

impl AttrUnion {
    /// An empty union.
    pub fn new() -> (r: AttrUnion)
        ensures
            union_of(attr_views(r.entries@), Seq::empty()),
    {
        AttrUnion { entries: Vec::new() }
    }

    /// Adds an attribute. A key that is already there keeps its first attribute;
    /// the answer says whether the values agree.
    pub fn add(&mut self, attr: Attribute) -> (agrees: bool)
        requires
            sorted_by_key(attr_views(old(self).entries@)),
        ensures
            sorted_by_key(attr_views(final(self).entries@)),
            agrees == forall|i: int|
                0 <= i < old(self).entries@.len() ==> ((#[trigger] attr_views(
                    old(self).entries@,
                )[i]).key == attr@.key ==> attr_views(old(self).entries@)[i].values
                    == attr@.values),
            has_key(attr_views(old(self).entries@), attr@.key) ==> final(self).entries@ == old(
                self,
            ).entries@,
            !has_key(attr_views(old(self).entries@), attr@.key) ==> exists|pos: int|
                0 <= pos <= old(self).entries@.len() && final(self).entries@
                    == #[trigger] old(self).entries@.insert(pos, attr),
    {
        let ghost before = attr_views(self.entries@);
        let mut pos: usize = 0;
        while pos < self.entries.len()
            invariant
                *self == *old(self),
                before == attr_views(self.entries@),
                sorted_by_key(before),
                pos <= self.entries@.len(),
                forall|i: int| 0 <= i < pos ==> text_lt((#[trigger] before[i]).key, attr@.key),
            ensures
                *self == *old(self),
                pos <= self.entries@.len(),
                forall|i: int| 0 <= i < pos ==> text_lt((#[trigger] before[i]).key, attr@.key),
                forall|i: int|
                    pos <= i < before.len() ==> text_lt(attr@.key, (#[trigger] before[i]).key),
            decreases self.entries@.len() - pos,
        {
            assert(before[pos as int] == self.entries@[pos as int]@);
            if text_eq(self.entries[pos].key.as_str(), attr.key.as_str()) {
                let agrees = same_texts(&self.entries[pos].values, &attr.values);
                assert forall|i: int| 0 <= i < before.len() && i != pos implies (
                #[trigger] before[i]).key != attr@.key by {
                    if i < pos {
                    } else {
                        assert(text_lt(before[pos as int].key, before[i].key));
                    }
                }
                return agrees;
            }
            if not_after(attr.key.as_str(), self.entries[pos].key.as_str()) {
                assert forall|i: int| pos <= i < before.len() implies text_lt(
                    attr@.key,
                    (#[trigger] before[i]).key,
                ) by {
                    if i > pos {
                        assert(text_lt(before[pos as int].key, before[i].key));
                        lemma_text_le_transitive(attr@.key, before[pos as int].key, before[i].key);
                        if attr@.key == before[i].key {
                            lemma_text_le_antisymmetric(before[pos as int].key, before[i].key);
                        }
                    }
                }
                break;
            }
            proof {
                lemma_text_le_total(attr@.key, before[pos as int].key);
            }
            pos = pos + 1;
        }
        self.entries.insert(pos, attr);
        proof {
            let after = attr_views(self.entries@);
            assert(after =~= before.insert(pos as int, attr@));
            assert forall|i: int, j: int| 0 <= i < j < after.len() implies text_lt(
                (#[trigger] after[i]).key,
                (#[trigger] after[j]).key,
            ) by {
                let a = if i < pos {
                    i
                } else {
                    i - 1
                };
                let b = if j < pos {
                    j
                } else {
                    j - 1
                };
                if i != pos {
                    assert(after[i] == before[a]);
                }
                if j != pos {
                    assert(after[j] == before[b]);
                }
            }
            assert(self.entries@ == old(self).entries@.insert(pos as int, attr));
        }
        true
    }
}

proof fn lemma_leads_push(attrs: Seq<AttrView>, attr: AttrView, v: AttrView)
    requires
        leads(attrs, v),
    ensures
        leads(attrs.push(attr), v),
{
    let more = attrs.push(attr);
    let p = choose|p: int|
        0 <= p < attrs.len() && is_first(attrs, p) && #[trigger] attrs[p] == v;
    assert forall|q: int| 0 <= q < p implies (#[trigger] more[q]).key != more[p].key by {
        assert(more[q] == attrs[q]);
    }
    assert(more[p] == v);
}

proof fn lemma_leads_last(attrs: Seq<AttrView>, attr: AttrView)
    requires
        !has_key(attrs, attr.key),
    ensures
        leads(attrs.push(attr), attr),
{
    let more = attrs.push(attr);
    let p = attrs.len() as int;
    assert forall|q: int| 0 <= q < p implies (#[trigger] more[q]).key != more[p].key by {
        assert(more[q] == attrs[q]);
    }
    assert(more[p] == attr);
}

proof fn lemma_has_key_insert(out: Seq<AttrView>, pos: int, attr: AttrView, key: Seq<char>)
    requires
        0 <= pos <= out.len(),
        has_key(out, key) || key == attr.key,
    ensures
        has_key(out.insert(pos, attr), key),
{
    let next = out.insert(pos, attr);
    if key == attr.key {
        assert(next[pos].key == key);
    } else {
        let k = choose|k: int| 0 <= k < out.len() && (#[trigger] out[k]).key == key;
        let i = if k < pos {
            k
        } else {
            k + 1
        };
        assert(next[i] == out[k]);
    }
}

proof fn lemma_union_keys(out: Seq<AttrView>, attrs: Seq<AttrView>, key: Seq<char>)
    requires
        union_of(out, attrs),
    ensures
        has_key(out, key) == has_key(attrs, key),
{
    if has_key(out, key) {
        let i = choose|i: int| 0 <= i < out.len() && (#[trigger] out[i]).key == key;
        assert(leads(attrs, out[i]));
        let p = choose|p: int|
            0 <= p < attrs.len() && is_first(attrs, p) && #[trigger] attrs[p] == out[i];
        assert(attrs[p].key == key);
    }
    if has_key(attrs, key) {
        let p = choose|p: int| 0 <= p < attrs.len() && (#[trigger] attrs[p]).key == key;
        assert(has_key(out, attrs[p].key));
    }
}

/// Adding one more attribute to a union keeps it a union.
pub proof fn lemma_union_step(
    out: Seq<AttrView>,
    next: Seq<AttrView>,
    attrs: Seq<AttrView>,
    attr: AttrView,
)
    requires
        union_of(out, attrs),
        sorted_by_key(next),
        has_key(out, attr.key) ==> next == out,
        !has_key(out, attr.key) ==> exists|pos: int|
            0 <= pos <= out.len() && next == #[trigger] out.insert(pos, attr),
    ensures
        union_of(next, attrs.push(attr)),
{
    let more = attrs.push(attr);
    lemma_union_keys(out, attrs, attr.key);
    if has_key(out, attr.key) {
        assert forall|i: int| 0 <= i < next.len() implies leads(more, #[trigger] next[i]) by {
            lemma_leads_push(attrs, attr, out[i]);
        }
        assert forall|p: int| 0 <= p < more.len() implies has_key(next, (#[trigger] more[p]).key) by {
            if p < attrs.len() {
                assert(more[p] == attrs[p]);
            }
        }
    } else {
        let pos = choose|pos: int|
            0 <= pos <= out.len() && next == #[trigger] out.insert(pos, attr);
        assert forall|i: int| 0 <= i < next.len() implies leads(more, #[trigger] next[i]) by {
            if i == pos {
                lemma_leads_last(attrs, attr);
            } else {
                let k = if i < pos {
                    i
                } else {
                    i - 1
                };
                assert(next[i] == out[k]);
                lemma_leads_push(attrs, attr, out[k]);
            }
        }
        assert forall|p: int| 0 <= p < more.len() implies has_key(next, (#[trigger] more[p]).key) by {
            if p < attrs.len() {
                assert(more[p] == attrs[p]);
                assert(has_key(out, attrs[p].key));
            }
            lemma_has_key_insert(out, pos, attr, more[p].key);
        }
    }
}

/// How a union tells the next disagreement: if the attributes so far agree, the
/// union holds the values to compare with.
pub proof fn lemma_union_conflict(out: Seq<AttrView>, attrs: Seq<AttrView>, attr: AttrView)
    requires
        union_of(out, attrs),
        first_conflict(attrs) is None,
    ensures
        first_conflict(attrs.push(attr)) == (if forall|i: int|
            0 <= i < out.len() ==> ((#[trigger] out[i]).key == attr.key ==> out[i].values
                == attr.values) {
            None
        } else {
            Some(attr.key)
        }),
{
    let more = attrs.push(attr);
    assert(more.drop_last() =~= attrs);
    assert(more.last() == attr);
    let agrees = forall|i: int|
        0 <= i < out.len() ==> ((#[trigger] out[i]).key == attr.key ==> out[i].values
            == attr.values);
    if agrees {
        assert forall|p: int| 0 <= p < attrs.len() && (#[trigger] more[p]).key == attr.key implies more[p].values
            == attr.values by {
            assert(more[p] == attrs[p]);
            assert(has_key(out, attrs[p].key));
            let i = choose|i: int| 0 <= i < out.len() && (#[trigger] out[i]).key == attr.key;
            assert(leads(attrs, out[i]));
            let q = choose|q: int|
                0 <= q < attrs.len() && is_first(attrs, q) && #[trigger] attrs[q] == out[i];
            if q < p {
                law_no_conflict_means_agreement(attrs, q, p);
            } else if p < q {
                assert(attrs[p].key != attrs[q].key);
            }
        }
    } else {
        let i = choose|i: int|
            0 <= i < out.len() && (#[trigger] out[i]).key == attr.key && out[i].values
                != attr.values;
        assert(leads(attrs, out[i]));
        let q = choose|q: int|
            0 <= q < attrs.len() && is_first(attrs, q) && #[trigger] attrs[q] == out[i];
        assert(more[q] == attrs[q]);
    }
}

proof fn lemma_key_position(attrs: Seq<AttrView>, i: int, j: int)
    requires
        sorted_by_key(attrs),
        0 <= i < attrs.len(),
        0 <= j < attrs.len(),
        attrs[i].key == attrs[j].key,
    ensures
        i == j,
{
    if i < j {
        assert(text_lt(attrs[i].key, attrs[j].key));
    } else if j < i {
        assert(text_lt(attrs[j].key, attrs[i].key));
    }
}

/// A union of attributes that are sorted by key already is those attributes.
pub proof fn lemma_sorted_union_unique(out: Seq<AttrView>, attrs: Seq<AttrView>)
    requires
        sorted_by_key(attrs),
        union_of(out, attrs),
    ensures
        out == attrs,
{
    lemma_sorted_same(out, attrs);
}

proof fn lemma_sorted_same(a: Seq<AttrView>, b: Seq<AttrView>)
    requires
        sorted_by_key(a),
        sorted_by_key(b),
        forall|i: int| 0 <= i < a.len() ==> leads(b, #[trigger] a[i]),
        forall|p: int| 0 <= p < b.len() ==> has_key(a, (#[trigger] b[p]).key),
    ensures
        a == b,
    decreases a.len(),
{
    if a.len() == 0 {
        if b.len() > 0 {
            assert(has_key(a, b[0].key));
        }
        assert(a =~= b);
    } else {
        assert(leads(b, a.last()));
        let p = choose|p: int| 0 <= p < b.len() && is_first(b, p) && #[trigger] b[p] == a.last();
        if p < b.len() - 1 {
            assert(text_lt(b[p].key, b.last().key)) by {
                assert(b.last() == b[b.len() - 1]);
            }
            assert(has_key(a, b[b.len() - 1].key));
            let i = choose|i: int| 0 <= i < a.len() && (#[trigger] a[i]).key == b.last().key;
            if i < a.len() - 1 {
                assert(text_lt(a[i].key, a[a.len() - 1].key));
                lemma_text_le_antisymmetric(a[i].key, a.last().key);
            }
            assert(false);
        }
        assert(b.last() == a.last());
        let x = a.drop_last();
        let y = b.drop_last();
        assert forall|i: int, j: int| 0 <= i < j < x.len() implies text_lt(
            (#[trigger] x[i]).key,
            (#[trigger] x[j]).key,
        ) by {
            assert(x[i] == a[i] && x[j] == a[j]);
        }
        assert forall|i: int, j: int| 0 <= i < j < y.len() implies text_lt(
            (#[trigger] y[i]).key,
            (#[trigger] y[j]).key,
        ) by {
            assert(y[i] == b[i] && y[j] == b[j]);
        }
        assert forall|i: int| 0 <= i < x.len() implies leads(y, #[trigger] x[i]) by {
            assert(leads(b, a[i]));
            let q = choose|q: int|
                0 <= q < b.len() && is_first(b, q) && #[trigger] b[q] == a[i];
            if q == b.len() - 1 {
                lemma_key_position(a, i, a.len() - 1);
            }
            assert(y[q] == x[i]);
            assert forall|k: int| 0 <= k < q implies (#[trigger] y[k]).key != y[q].key by {
                assert(y[k] == b[k]);
            }
        }
        assert forall|q: int| 0 <= q < y.len() implies has_key(x, (#[trigger] y[q]).key) by {
            assert(y[q] == b[q]);
            assert(has_key(a, b[q].key));
            let i = choose|i: int| 0 <= i < a.len() && (#[trigger] a[i]).key == b[q].key;
            if i == a.len() - 1 {
                lemma_key_position(b, q, b.len() - 1);
            }
            assert(x[i].key == y[q].key);
        }
        lemma_sorted_same(x, y);
        assert(a =~= x.push(a.last()));
        assert(b =~= y.push(b.last()));
    }
}

/// What one record contributes to a list of attributes.
pub enum Step {
    /// Nothing.
    Skip,
    /// An attribute.
    Keep(AttrView),
    /// A complaint that fails the whole list.
    Fail(Seq<char>),
}

/// Why a list of attributes fails as a whole.
pub enum Trouble {
    /// Two records disagree on the attribute of this key.
    Disagree(Seq<char>),
    /// A record is bad.
    Bad(Seq<char>),
}

/// The attributes that records contribute, in order, up to the first trouble.
pub open spec fn gather(steps: Seq<Step>) -> Result<Seq<AttrView>, Trouble>
    decreases steps.len(),
{
    if steps.len() == 0 {
        Ok(Seq::empty())
    } else {
        match gather(steps.drop_last()) {
            Err(t) => Err(t),
            Ok(attrs) => match steps.last() {
                Step::Skip => Ok(attrs),
                Step::Fail(words) => Err(Trouble::Bad(words)),
                Step::Keep(a) => if first_conflict(attrs.push(a)) is Some {
                    Err(Trouble::Disagree(a.key))
                } else {
                    Ok(attrs.push(a))
                },
            },
        }
    }
}

/// Trouble among the first records is trouble of the whole.
pub proof fn lemma_gather_prefix(steps: Seq<Step>, n: int)
    requires
        0 <= n <= steps.len(),
        gather(steps.take(n)) is Err,
    ensures
        gather(steps) == gather(steps.take(n)),
    decreases steps.len(),
{
    if n < steps.len() {
        assert(steps.drop_last().take(n) =~= steps.take(n));
        lemma_gather_prefix(steps.drop_last(), n);
    } else {
        assert(steps.take(n) =~= steps);
    }
}

/// One record more.
pub proof fn lemma_gather_step(steps: Seq<Step>, i: int)
    requires
        0 <= i < steps.len(),
    ensures
        gather(steps.take(i + 1)) == (match gather(steps.take(i)) {
            Err(t) => Err(t),
            Ok(attrs) => match steps[i] {
                Step::Skip => Ok(attrs),
                Step::Fail(words) => Err(Trouble::Bad(words)),
                Step::Keep(a) => if first_conflict(attrs.push(a)) is Some {
                    Err(Trouble::Disagree(a.key))
                } else {
                    Ok(attrs.push(a))
                },
            },
        }),
{
    assert(steps.take(i + 1).drop_last() =~= steps.take(i));
    assert(steps.take(i + 1).last() == steps[i]);
}

impl AttrUnion {
    /// The union holds what the first `n` records contribute.
    pub open spec fn holds(self, steps: Seq<Step>, n: int) -> bool {
        &&& 0 <= n <= steps.len()
        &&& gather(steps.take(n)) matches Ok(attrs) && union_of(attr_views(self.entries@), attrs)
            && first_conflict(attrs) is None
    }

    /// Adds the attribute that the next record contributes.
    pub fn take_in(&mut self, attr: Attribute, Ghost(steps): Ghost<Seq<Step>>, Ghost(n): Ghost<int>) -> (agrees: bool)
        requires
            old(self).holds(steps, n),
            n < steps.len(),
            steps[n] == Step::Keep(attr@),
        ensures
            agrees ==> final(self).holds(steps, n + 1),
            !agrees ==> gather(steps) == Err::<Seq<AttrView>, Trouble>(
                Trouble::Disagree(attr@.key),
            ) && gather(steps.take(n + 1)) is Err,
    {
        let ghost attrs = gather(steps.take(n))->Ok_0;
        let ghost before = attr_views(self.entries@);
        let ghost given = attr;
        let agrees = self.add(attr);
        proof {
            let after = attr_views(self.entries@);
            lemma_gather_step(steps, n);
            lemma_union_conflict(before, attrs, given@);
            if !has_key(before, given@.key) {
                let pos = choose|pos: int|
                    0 <= pos <= old(self).entries@.len() && self.entries@
                        == #[trigger] old(self).entries@.insert(pos, given);
                assert(after =~= before.insert(pos, given@));
            }
            lemma_union_step(before, after, attrs, given@);
            if !agrees {
                lemma_gather_prefix(steps, n + 1);
            }
        }
        agrees
    }
}

/// The mapping of a name is the first that has the name.
pub proof fn law_mapping_is_the_first_of_its_name(
    mappings: Seq<MappingView>,
    name: Seq<char>,
    k: int,
)
    requires
        0 <= k < mappings.len(),
        mappings[k].service_attr_key == name,
        forall|j: int| 0 <= j < k ==> (#[trigger] mappings[j]).service_attr_key != name,
    ensures
        mapping_of(mappings, name) == Some(mappings[k]),
    decreases k,
{
    if k > 0 {
        let rest = mappings.drop_first();
        assert(mappings[0].service_attr_key != name);
        assert forall|j: int| 0 <= j < k - 1 implies (#[trigger] rest[j]).service_attr_key
            != name by {
            assert(rest[j] == mappings[j + 1]);
        }
        assert(rest[k - 1] == mappings[k]);
        law_mapping_is_the_first_of_its_name(rest, name, k - 1);
    }
}

/// A name is mapped by a mapping that has it, and not at all where none has it.
pub proof fn law_mapping_has_the_name(mappings: Seq<MappingView>, name: Seq<char>)
    ensures
        mapping_of(mappings, name) matches Some(m) ==> mappings.contains(m) && m.service_attr_key
            == name,
        mapping_of(mappings, name) is None ==> forall|k: int|
            0 <= k < mappings.len() ==> (#[trigger] mappings[k]).service_attr_key != name,
    decreases mappings.len(),
{
    if mappings.len() > 0 {
        let rest = mappings.drop_first();
        law_mapping_has_the_name(rest, name);
        assert(mappings[0].service_attr_key == name || mapping_of(mappings, name) == mapping_of(
            rest,
            name,
        ));
        if mappings[0].service_attr_key != name {
            match mapping_of(rest, name) {
                Some(m) => {
                    let k = choose|k: int| 0 <= k < rest.len() && rest[k] == m;
                    assert(mappings[k + 1] == m);
                },
                None => {
                    assert forall|k: int| 0 <= k < mappings.len() implies (
                    #[trigger] mappings[k]).service_attr_key != name by {
                        if k > 0 {
                            assert(rest[k - 1] == mappings[k]);
                        }
                    }
                },
            }
        } else {
            assert(mappings[0] == mapping_of(mappings, name)->0);
        }
    }
}

/// The record at a place contributes an attribute, and none before it one of that key.
pub open spec fn opens(steps: Seq<Step>, i: int, a: AttrView) -> bool {
    &&& 0 <= i < steps.len()
    &&& steps[i] == Step::Keep(a)
    &&& forall|j: int|
        0 <= j < i && (#[trigger] steps[j]) is Keep ==> steps[j]->Keep_0.key != a.key
}

proof fn lemma_gathered(steps: Seq<Step>)
    requires
        gather(steps) is Ok,
    ensures
        first_conflict(gather(steps)->Ok_0) is None,
        forall|p: int|
            0 <= p < gather(steps)->Ok_0.len() ==> steps.contains(
                Step::Keep(#[trigger] gather(steps)->Ok_0[p]),
            ),
        forall|i: int|
            0 <= i < steps.len() && (#[trigger] steps[i]) is Keep ==> gather(steps)->Ok_0.contains(
                steps[i]->Keep_0,
            ),
        forall|i: int| 0 <= i < steps.len() ==> !((#[trigger] steps[i]) is Fail),
        forall|a: AttrView| #[trigger]
            leads(gather(steps)->Ok_0, a) ==> exists|i: int| opens(steps, i, a),
        forall|a: AttrView, i: int| #[trigger]
            opens(steps, i, a) ==> leads(gather(steps)->Ok_0, a),
    decreases steps.len(),
{
    if steps.len() > 0 {
        let init = steps.drop_last();
        lemma_gathered(init);
        let before = gather(init)->Ok_0;
        let attrs = gather(steps)->Ok_0;
        assert(steps.last() == steps[steps.len() - 1]);
        assert forall|i: int| 0 <= i < init.len() implies steps[i] == #[trigger] init[i] by {}
        assert forall|i: int| 0 <= i < steps.len() && (#[trigger] steps[i]) is Keep implies attrs.contains(
            steps[i]->Keep_0,
        ) by {
            if i < init.len() {
                assert(init[i] is Keep);
                let p = choose|p: int| 0 <= p < before.len() && before[p] == steps[i]->Keep_0;
                assert(attrs[p] == before[p]);
            } else {
                assert(attrs[attrs.len() - 1] == steps[i]->Keep_0);
            }
        }
        assert forall|i: int| 0 <= i < steps.len() implies !((#[trigger] steps[i]) is Fail) by {
            if i < init.len() {
                assert(!(init[i] is Fail));
            }
        }
        assert forall|p: int| 0 <= p < attrs.len() implies steps.contains(
            Step::Keep(#[trigger] attrs[p]),
        ) by {
            if p < before.len() {
                assert(attrs[p] == before[p]);
                let k = choose|k: int| 0 <= k < init.len() && init[k] == Step::Keep(before[p]);
                assert(steps[k] == init[k]);
            } else {
                assert(steps[steps.len() - 1] == Step::Keep(attrs[p]));
            }
        }
        assert forall|a: AttrView| #[trigger] leads(attrs, a) implies exists|i: int|
            opens(steps, i, a) by {
            let p = choose|p: int| 0 <= p < attrs.len() && is_first(attrs, p) && #[trigger] attrs[p] == a;
            if p < before.len() {
                assert(before[p] == a);
                assert forall|q: int| 0 <= q < p implies (#[trigger] before[q]).key != before[p].key by {
                    assert(attrs[q] == before[q]);
                }
                assert(leads(before, a));
                let i = choose|i: int| opens(init, i, a);
                assert(steps[i] == init[i]);
                assert(opens(steps, i, a)) by {
                    assert forall|j: int| 0 <= j < i && (#[trigger] steps[j]) is Keep implies steps[j]->Keep_0.key
                        != a.key by {
                        assert(init[j] == steps[j]);
                    }
                }
            } else {
                let i = steps.len() - 1;
                assert(steps[i] == Step::Keep(a));
                assert(opens(steps, i, a)) by {
                    assert forall|j: int| 0 <= j < i && (#[trigger] steps[j]) is Keep implies steps[j]->Keep_0.key
                        != a.key by {
                        assert(init[j] == steps[j]);
                        assert(before.contains(init[j]->Keep_0));
                        let q = choose|q: int| 0 <= q < before.len() && before[q] == init[j]->Keep_0;
                        assert(attrs[q] == before[q]);
                    }
                }
            }
        }
        assert forall|a: AttrView, i: int| #[trigger] opens(steps, i, a) implies leads(attrs, a) by {
            if i < init.len() {
                assert(init[i] == steps[i]);
                assert(opens(init, i, a)) by {
                    assert forall|j: int| 0 <= j < i && (#[trigger] init[j]) is Keep implies init[j]->Keep_0.key
                        != a.key by {
                        assert(steps[j] == init[j]);
                    }
                }
                assert(leads(before, a));
                let p = choose|p: int| 0 <= p < before.len() && is_first(before, p) && #[trigger] before[p] == a;
                assert(attrs[p] == a);
                assert forall|q: int| 0 <= q < p implies (#[trigger] attrs[q]).key != attrs[p].key by {
                    assert(before[q] == attrs[q]);
                }
            } else {
                let p = attrs.len() - 1;
                assert(attrs[p] == a);
                assert forall|q: int| 0 <= q < p implies (#[trigger] attrs[q]).key != attrs[p].key by {
                    assert(before[q] == attrs[q]);
                    let k = choose|k: int| 0 <= k < init.len() && init[k] == Step::Keep(before[q]);
                    assert(steps[k] is Keep);
                }
            }
        }
    }
}

/// Records come to attributes just where none of them is bad and those of one key have the
/// same values.
pub proof fn law_agreeing_records_are_gathered(steps: Seq<Step>)
    ensures
        gather(steps) is Ok <==> {
            &&& forall|i: int| 0 <= i < steps.len() ==> !((#[trigger] steps[i]) is Fail)
            &&& forall|i: int, j: int|
                0 <= i < j < steps.len() && (#[trigger] steps[i]) is Keep && (#[trigger] steps[j])
                    is Keep && steps[i]->Keep_0.key == steps[j]->Keep_0.key
                    ==> steps[i]->Keep_0.values == steps[j]->Keep_0.values
        },
    decreases steps.len(),
{
    if gather(steps) is Ok {
        lemma_gathered(steps);
        let attrs = gather(steps)->Ok_0;
        assert forall|i: int, j: int|
            0 <= i < j < steps.len() && (#[trigger] steps[i]) is Keep && (#[trigger] steps[j])
                is Keep && steps[i]->Keep_0.key == steps[j]->Keep_0.key implies steps[i]->Keep_0.values
            == steps[j]->Keep_0.values by {
            let p = choose|p: int| 0 <= p < attrs.len() && attrs[p] == steps[i]->Keep_0;
            let q = choose|q: int| 0 <= q < attrs.len() && attrs[q] == steps[j]->Keep_0;
            if p < q {
                law_no_conflict_means_agreement(attrs, p, q);
            } else if q < p {
                law_no_conflict_means_agreement(attrs, q, p);
            }
        }
    } else if steps.len() > 0 && (forall|i: int| 0 <= i < steps.len() ==> !((#[trigger] steps[i]) is Fail)) && (forall|i: int, j: int|
                0 <= i < j < steps.len() && (#[trigger] steps[i]) is Keep && (#[trigger] steps[j])
                    is Keep && steps[i]->Keep_0.key == steps[j]->Keep_0.key
                    ==> steps[i]->Keep_0.values == steps[j]->Keep_0.values) {
        let init = steps.drop_last();
        assert forall|i: int| 0 <= i < init.len() implies !((#[trigger] init[i]) is Fail) by {
            assert(init[i] == steps[i]);
        }
        assert forall|i: int, j: int|
            0 <= i < j < init.len() && (#[trigger] init[i]) is Keep && (#[trigger] init[j])
                is Keep && init[i]->Keep_0.key == init[j]->Keep_0.key implies init[i]->Keep_0.values
            == init[j]->Keep_0.values by {
            assert(init[i] == steps[i] && init[j] == steps[j]);
        }
        law_agreeing_records_are_gathered(init);
        lemma_gathered(init);
        let last = steps.len() - 1;
        assert(steps.last() == steps[last]);
        let before = gather(init)->Ok_0;
        assert(steps[last] is Keep);
        let a = steps[last]->Keep_0;
        let more = before.push(a);
        assert(more.drop_last() =~= before);
        let i = choose|i: int|
            0 <= i < more.len() - 1 && (#[trigger] more[i]).key == more.last().key
                && more[i].values != more.last().values;
        assert(more[i] == before[i]);
        let k = choose|k: int| 0 <= k < init.len() && init[k] == Step::Keep(before[i]);
        assert(steps[k] == init[k]);
        assert(false);
    }
}

/// Where records do not come to attributes, there is a first one that fails them: all before
/// it come to attributes, and it is bad, or has other values than one before it of its key.
/// The trouble names what is wrong with it.
pub proof fn law_trouble_is_told_of_the_first_record(steps: Seq<Step>)
    requires
        gather(steps) is Err,
    ensures
        exists|i: int|
            0 <= i < steps.len() && gather(steps.take(i)) is Ok && match #[trigger] steps[i] {
                Step::Skip => false,
                Step::Fail(words) => gather(steps)->Err_0 == Trouble::Bad(words),
                Step::Keep(a) => gather(steps)->Err_0 == Trouble::Disagree(a.key) && exists|j: int|
                    0 <= j < i && (#[trigger] steps[j]) is Keep && steps[j]->Keep_0.key == a.key
                        && steps[j]->Keep_0.values != a.values,
            },
    decreases steps.len(),
{
    let init = steps.drop_last();
    let last = steps.len() - 1;
    assert(steps.last() == steps[last]);
    assert(steps.take(last) =~= init);
    if gather(init) is Err {
        law_trouble_is_told_of_the_first_record(init);
        let i = choose|i: int|
            0 <= i < init.len() && gather(init.take(i)) is Ok && match #[trigger] init[i] {
                Step::Skip => false,
                Step::Fail(words) => gather(init)->Err_0 == Trouble::Bad(words),
                Step::Keep(a) => gather(init)->Err_0 == Trouble::Disagree(a.key) && exists|j: int|
                    0 <= j < i && (#[trigger] init[j]) is Keep && init[j]->Keep_0.key == a.key
                        && init[j]->Keep_0.values != a.values,
            };
        assert(init.take(i) =~= steps.take(i));
        assert(steps[i] == init[i]);
        if let Step::Keep(a) = init[i] {
            let j = choose|j: int|
                0 <= j < i && (#[trigger] init[j]) is Keep && init[j]->Keep_0.key == a.key
                    && init[j]->Keep_0.values != a.values;
            assert(steps[j] == init[j]);
        }
    } else if let Step::Keep(a) = steps[last] {
        lemma_gathered(init);
        let before = gather(init)->Ok_0;
        let more = before.push(a);
        assert(more.drop_last() =~= before);
        let i = choose|i: int|
            0 <= i < more.len() - 1 && (#[trigger] more[i]).key == more.last().key
                && more[i].values != more.last().values;
        assert(more[i] == before[i]);
        let k = choose|k: int| 0 <= k < init.len() && init[k] == Step::Keep(before[i]);
        assert(steps[k] == init[k]);
    }
}

/// A union has for each key that records contribute just the attribute of the first of them,
/// and its keys ascend.
pub proof fn law_union_holds_the_first_of_each_key(steps: Seq<Step>, out: Seq<AttrView>)
    requires
        gather(steps) matches Ok(attrs) && union_of(out, attrs),
    ensures
        forall|a: AttrView| #[trigger] out.contains(a) ==> exists|i: int| opens(steps, i, a),
        forall|a: AttrView, i: int| #[trigger] opens(steps, i, a) ==> out.contains(a),
        forall|i: int|
            0 <= i < steps.len() && (#[trigger] steps[i]) is Keep ==> exists|p: int|
                0 <= p < out.len() && (#[trigger] out[p]).key == steps[i]->Keep_0.key
                    && out[p].values == steps[i]->Keep_0.values,
        forall|p: int, q: int|
            0 <= p < q < out.len() ==> text_lt((#[trigger] out[p]).key, (#[trigger] out[q]).key),
{
    lemma_gathered(steps);
    law_agreeing_records_are_gathered(steps);
    let attrs = gather(steps)->Ok_0;
    assert forall|a: AttrView| #[trigger] out.contains(a) implies exists|i: int|
        opens(steps, i, a) by {
        let p = choose|p: int| 0 <= p < out.len() && out[p] == a;
        assert(leads(attrs, out[p]));
    }
    assert forall|a: AttrView, i: int| #[trigger] opens(steps, i, a) implies out.contains(a) by {
        assert(leads(attrs, a));
        let p = choose|p: int| 0 <= p < attrs.len() && is_first(attrs, p) && #[trigger] attrs[p] == a;
        assert(has_key(out, attrs[p].key));
        let k = choose|k: int| 0 <= k < out.len() && (#[trigger] out[k]).key == a.key;
        assert(leads(attrs, out[k]));
        let q = choose|q: int| 0 <= q < attrs.len() && is_first(attrs, q) && #[trigger] attrs[q] == out[k];
        if q < p {
            assert(attrs[q].key != attrs[p].key);
        } else if p < q {
            assert(attrs[p].key != attrs[q].key);
        }
        assert(out[k] == a);
    }
    assert forall|i: int| 0 <= i < steps.len() && (#[trigger] steps[i]) is Keep implies exists|
        p: int,
    |
        0 <= p < out.len() && (#[trigger] out[p]).key == steps[i]->Keep_0.key && out[p].values
            == steps[i]->Keep_0.values by {
        let a = steps[i]->Keep_0;
        let n = choose|n: int| 0 <= n < attrs.len() && attrs[n] == a;
        assert(has_key(out, attrs[n].key));
        let p = choose|p: int| 0 <= p < out.len() && (#[trigger] out[p]).key == a.key;
        assert(leads(attrs, out[p]));
        let q = choose|q: int| 0 <= q < attrs.len() && is_first(attrs, q) && #[trigger] attrs[q] == out[p];
        if q < n {
            law_no_conflict_means_agreement(attrs, q, n);
        } else if n < q {
            law_no_conflict_means_agreement(attrs, n, q);
        }
    }
}

} // verus!
