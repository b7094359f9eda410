//! What the trusted services share: revisions of their data, the identities
//! that an actor is looked up under, and the authority that vouches for a user.
pub mod attr_query_store;
pub mod factory;
pub mod manager;
pub mod wire;

use vstd::prelude::*;

use crate::attribute::{
    attr_views, has_key, single_value, AttrView, Attribute, USER_AUTHORITY,
};
use crate::text::{contains_text, text_eq, texts, to_chars};
use crate::time::Timestamp;

verus! {

/// A revision that no data ever carries; the counter starts above it.
pub const REVISION_NEVER: u64 = 0;

/// The source of revisions.
#[derive(Debug)]
pub struct RevisionCounter {
    pub next: u64,
}

impl RevisionCounter {
    /// A counter that hands out 1 first.
    pub fn new() -> (r: RevisionCounter)
        ensures
            r.next == 1,
    {
        RevisionCounter { next: 1 }
    }
}

/// Hands out the next revision. The counter starts over after the last one.
pub fn next_revision(counter: &mut RevisionCounter) -> (r: u64)
    ensures
        r == old(counter).next,
        final(counter).next == (if old(counter).next == u64::MAX {
            0
        } else {
            (old(counter).next + 1) as u64
        }),
{
    let r: u64 = counter.next;
    counter.next = r.wrapping_add(1);
    r
}

/// The texts of a list of pairs.
pub open spec fn pair_views(pairs: Seq<(String, String)>) -> Seq<(Seq<char>, Seq<char>)> {
    pairs.map_values(|p: (String, String)| (p.0@, p.1@))
}

/// Whether an attribute takes part in lookups.
pub open spec fn names_identity(keys: Seq<Seq<char>>, a: AttrView) -> bool {
    (keys.contains(a.key) || a.key == USER_AUTHORITY@) && single_value(a) is Some
}

/// The identities that attributes give for the lookup keys, in order.
pub open spec fn identities_of(keys: Seq<Seq<char>>, attrs: Seq<AttrView>) -> Seq<
    (Seq<char>, Seq<char>),
>
    decreases attrs.len(),
{
    if attrs.len() == 0 {
        Seq::empty()
    } else {
        let before = identities_of(keys, attrs.drop_last());
        if names_identity(keys, attrs.last()) {
            before.push((attrs.last().key, single_value(attrs.last())->0))
        } else {
            before
        }
    }
}

/// The (key, value) pairs to look an actor up under: the attributes whose keys
/// policy names, and the authority in any case, as far as each has exactly one
/// value.
pub fn lookup_identities(lookup_keys: &Vec<String>, attrs: &Vec<Attribute>) -> (r: Vec<
    (String, String),
>)
    ensures
        pair_views(r@) == identities_of(texts(lookup_keys@), attr_views(attrs@)),
{
    let mut out: Vec<(String, String)> = Vec::new();
    let ghost keys = texts(lookup_keys@);
    let ghost all = attr_views(attrs@);
    let mut i: usize = 0;
    while i < attrs.len()
        invariant
            keys == texts(lookup_keys@),
            all == attr_views(attrs@),
            i <= attrs@.len(),
            pair_views(out@) == identities_of(keys, all.take(i as int)),
        decreases attrs@.len() - i,
    {
        proof {
            assert(all.take(i + 1).drop_last() =~= all.take(i as int));
            assert(all.take(i + 1).last() == attrs@[i as int]@);
        }
        let attr = &attrs[i];
        if contains_text(lookup_keys, attr.key.as_str()) || text_eq(
            attr.key.as_str(),
            USER_AUTHORITY,
        ) {
            if let Some(value) = attr.get_single_value() {
                let ghost before = out@;
                out.push((attr.key.clone(), value.clone()));
                assert(pair_views(out@) =~= pair_views(before).push((attr.key@, value@)));
            }
        }
        i = i + 1;
    }
    assert(all.take(i as int) =~= all);
    out
}

/// The key lies in the namespace of users.
pub open spec fn is_user_key(key: Seq<char>) -> bool {
    "user."@.is_prefix_of(key)
}

fn has_user_prefix(key: &str) -> (r: bool)
    ensures
        r == is_user_key(key@),
{
    let chars = to_chars(key);
    proof {
        reveal_strlit("user.");
    }
    if chars.len() < 5 {
        return false;
    }
    let r = chars[0] == 'u' && chars[1] == 's' && chars[2] == 'e' && chars[3] == 'r' && chars[4]
        == '.';
    proof {
        assert("user."@.len() == 5);
        let head = key@.subrange(0, 5);
        if r {
            assert("user."@ =~= head);
        } else {
            assert(head[0] != 'u' || head[1] != 's' || head[2] != 'e' || head[3] != 'r' || head[4]
                != '.');
        }
    }
    r
}

/// The earliest expiry among the attributes of users.
pub open spec fn earliest_user_expiry(attrs: Seq<AttrView>) -> Option<int>
    decreases attrs.len(),
{
    if attrs.len() == 0 {
        None
    } else {
        let before = earliest_user_expiry(attrs.drop_last());
        if !is_user_key(attrs.last().key) {
            before
        } else {
            match before {
                Some(t) if t <= attrs.last().expires => Some(t),
                _ => Some(attrs.last().expires),
            }
        }
    }
}

/// The authority that a service's attributes imply.
pub open spec fn derived_authority(
    source: Seq<char>,
    attrs: Seq<AttrView>,
    existing: Option<Seq<char>>,
) -> Option<AttrView> {
    if (existing matches Some(e) && e != source) || has_key(attrs, USER_AUTHORITY@) {
        None
    } else {
        match earliest_user_expiry(attrs) {
            None => None,
            Some(t) => Some(
                AttrView { key: USER_AUTHORITY@, values: seq![source], expires: t, source },
            ),
        }
    }
}

/// An optional borrowed text as mathematical data.
pub open spec fn opt_str(o: Option<&str>) -> Option<Seq<char>> {
    match o {
        Some(s) => Some(s@),
        None => None,
    }
}

/// Derives the authority attribute from what one trusted service vended.
///
/// A service that vends attributes of the user namespace vouches for the user,
/// so its source id becomes the authority; it expires with the first of those
/// attributes to expire. Nothing is derived where there is no such attribute,
/// where the service vends the authority itself, or where another source is the
/// authority already.
pub fn derive_user_authority(
    source_id: &str,
    ts_attrs: &Vec<Attribute>,
    existing_authority: Option<&str>,
) -> (r: Option<Attribute>)
    ensures
        match r {
            Some(a) => derived_authority(
                source_id@,
                attr_views(ts_attrs@),
                opt_str(existing_authority),
            ) == Some(a@),
            None => derived_authority(
                source_id@,
                attr_views(ts_attrs@),
                opt_str(existing_authority),
            ) is None,
        },
{
    if let Some(existing) = existing_authority {
        if !text_eq(existing, source_id) {
            return None;
        }
    }
    let ghost all = attr_views(ts_attrs@);
    let mut expires: Option<Timestamp> = None;
    let mut i: usize = 0;
    while i < ts_attrs.len()
        invariant
            all == attr_views(ts_attrs@),
            i <= ts_attrs@.len(),
            forall|j: int| 0 <= j < i ==> (#[trigger] all[j]).key != USER_AUTHORITY@,
            match expires {
                Some(t) => earliest_user_expiry(all.take(i as int)) == Some(t as int),
                None => earliest_user_expiry(all.take(i as int)) is None,
            },
        decreases ts_attrs@.len() - i,
    {
        let attr = &ts_attrs[i];
        proof {
            assert(all.take(i + 1).drop_last() =~= all.take(i as int));
            assert(all.take(i + 1).last() == ts_attrs@[i as int]@);
            assert(all[i as int] == ts_attrs@[i as int]@);
        }
        if text_eq(attr.key.as_str(), USER_AUTHORITY) {
            return None;
        }
        if has_user_prefix(attr.key.as_str()) {
            expires = match expires {
                Some(t) => if t <= attr.expires {
                    Some(t)
                } else {
                    Some(attr.expires)
                },
                None => Some(attr.expires),
            };
        }
        i = i + 1;
    }
    assert(all.take(i as int) =~= all);
    match expires {
        Some(t) => {
            let mut values: Vec<String> = Vec::new();
            values.push(source_id.to_owned());
            assert(texts(values@) =~= seq![source_id@]);
            Some(
                Attribute {
                    key: USER_AUTHORITY.to_owned(),
                    values,
                    expires: t,
                    source: source_id.to_owned(),
                },
            )
        },
        None => None,
    }
}

/// Revisions only grow, until the last one has been handed out.
pub proof fn law_revisions_grow(before: RevisionCounter, after: RevisionCounter, handed_out: u64)
    requires
        handed_out == before.next,
        after.next == (if before.next == u64::MAX {
            0
        } else {
            (before.next + 1) as u64
        }),
        before.next < u64::MAX,
    ensures
        handed_out < after.next,
        before.next >= 1 ==> handed_out != REVISION_NEVER,
{
}

/// The derived authority never outlives an attribute that it vouches for.
pub proof fn law_authority_never_outlives_the_user_record(
    source: Seq<char>,
    attrs: Seq<AttrView>,
    existing: Option<Seq<char>>,
    i: int,
)
    requires
        derived_authority(source, attrs, existing) is Some,
        0 <= i < attrs.len(),
        is_user_key(attrs[i].key),
    ensures
        derived_authority(source, attrs, existing)->0.expires <= attrs[i].expires,
    decreases attrs.len(),
{
    lemma_earliest(attrs, i);
}

proof fn lemma_earliest(attrs: Seq<AttrView>, i: int)
    requires
        0 <= i < attrs.len(),
        is_user_key(attrs[i].key),
    ensures
        earliest_user_expiry(attrs) matches Some(t) && t <= attrs[i].expires,
    decreases attrs.len(),
{
    if i < attrs.len() - 1 {
        assert(attrs.drop_last()[i] == attrs[i]);
        lemma_earliest(attrs.drop_last(), i);
    }
}

/// A service never displaces the authority that another source holds, and
/// without an attribute of the user namespace there is no authority at all.
pub proof fn law_authority_is_not_displaced(
    source: Seq<char>,
    attrs: Seq<AttrView>,
    existing: Option<Seq<char>>,
)
    ensures
        (existing matches Some(e) && e != source) ==> derived_authority(source, attrs, existing)
            is None,
        (forall|i: int| 0 <= i < attrs.len() ==> !is_user_key((#[trigger] attrs[i]).key))
            ==> derived_authority(source, attrs, existing) is None,
    decreases attrs.len(),
{
    if attrs.len() > 0 && (forall|i: int|
        0 <= i < attrs.len() ==> !is_user_key((#[trigger] attrs[i]).key)) {
        lemma_no_user_key(attrs);
    }
}

proof fn lemma_no_user_key(attrs: Seq<AttrView>)
    requires
        forall|i: int| 0 <= i < attrs.len() ==> !is_user_key((#[trigger] attrs[i]).key),
    ensures
        earliest_user_expiry(attrs) is None,
    decreases attrs.len(),
{
    if attrs.len() > 0 {
        assert forall|i: int| 0 <= i < attrs.drop_last().len() implies !is_user_key(
            (#[trigger] attrs.drop_last()[i]).key,
        ) by {
            assert(attrs.drop_last()[i] == attrs[i]);
        }
        assert(attrs.last() == attrs[attrs.len() - 1]);
        lemma_no_user_key(attrs.drop_last());
    }
}

/// An actor is looked up under those of its attributes that have one value and whose key is a
/// lookup key or the one of the user's authority, each under its key with its value, and under
/// nothing else.
pub proof fn law_identities_are_the_single_values_of_lookup_keys(
    keys: Seq<Seq<char>>,
    attrs: Seq<AttrView>,
    key: Seq<char>,
    value: Seq<char>,
)
    ensures
        identities_of(keys, attrs).contains((key, value)) <==> (keys.contains(key) || key
            == "user.zpr.authority"@) && exists|i: int|
            0 <= i < attrs.len() && (#[trigger] attrs[i]).key == key && attrs[i].values.len() == 1
                && attrs[i].values[0] == value,
    decreases attrs.len(),
{
    if attrs.len() > 0 {
        let init = attrs.drop_last();
        let last = attrs.len() - 1;
        law_identities_are_the_single_values_of_lookup_keys(keys, init, key, value);
        let before = identities_of(keys, init);
        let all = identities_of(keys, attrs);
        assert(attrs.last() == attrs[last]);
        if all.contains((key, value)) {
            let p = choose|p: int| 0 <= p < all.len() && all[p] == (key, value);
            if p < before.len() {
                assert(before[p] == (key, value));
                let i = choose|i: int|
                    0 <= i < init.len() && (#[trigger] init[i]).key == key && init[i].values.len()
                        == 1 && init[i].values[0] == value;
                assert(attrs[i] == init[i]);
            } else {
                assert(attrs[last].key == key);
            }
        }
        if (keys.contains(key) || key == "user.zpr.authority"@) && exists|i: int|
            0 <= i < attrs.len() && (#[trigger] attrs[i]).key == key && attrs[i].values.len() == 1
                && attrs[i].values[0] == value {
            let i = choose|i: int|
                0 <= i < attrs.len() && (#[trigger] attrs[i]).key == key && attrs[i].values.len()
                    == 1 && attrs[i].values[0] == value;
            if i < last {
                assert(init[i] == attrs[i]);
                let p = choose|p: int| 0 <= p < before.len() && before[p] == (key, value);
                assert(all[p] == (key, value));
            } else {
                assert(all[before.len() as int] == (key, value));
            }
        }
    }
}

/// A service becomes the authority of a user just where it gives an attribute of the user
/// namespace, gives no authority itself, and no other service is the authority. The authority is
/// the service, by its own word, until the first of these attributes expires.
pub proof fn law_authority_is_derived_from_user_attributes(
    source: Seq<char>,
    attrs: Seq<AttrView>,
    existing: Option<Seq<char>>,
)
    ensures
        derived_authority(source, attrs, existing) is Some <==> {
            &&& existing is None || existing == Some(source)
            &&& forall|i: int|
                0 <= i < attrs.len() ==> (#[trigger] attrs[i]).key != "user.zpr.authority"@
            &&& exists|i: int|
                0 <= i < attrs.len() && "user."@.is_prefix_of((#[trigger] attrs[i]).key)
        },
        derived_authority(source, attrs, existing) matches Some(a) ==> {
            &&& a.key == "user.zpr.authority"@
            &&& a.values == seq![source]
            &&& a.source == source
            &&& exists|i: int|
                0 <= i < attrs.len() && "user."@.is_prefix_of((#[trigger] attrs[i]).key) && a.expires
                    == attrs[i].expires
            &&& forall|i: int|
                0 <= i < attrs.len() && "user."@.is_prefix_of((#[trigger] attrs[i]).key)
                    ==> a.expires <= attrs[i].expires
        },
{
    lemma_earliest_is_met(attrs);
    if exists|i: int| 0 <= i < attrs.len() && "user."@.is_prefix_of((#[trigger] attrs[i]).key) {
        let i = choose|i: int|
            0 <= i < attrs.len() && "user."@.is_prefix_of((#[trigger] attrs[i]).key);
        assert(is_user_key(attrs[i].key));
        lemma_earliest(attrs, i);
    } else {
        assert forall|i: int| 0 <= i < attrs.len() implies !is_user_key(
            (#[trigger] attrs[i]).key,
        ) by {}
        lemma_no_user_key(attrs);
    }
    if derived_authority(source, attrs, existing) is Some {
        assert forall|i: int|
            0 <= i < attrs.len() && "user."@.is_prefix_of((#[trigger] attrs[i]).key) implies derived_authority(
        source, attrs, existing)->0.expires <= attrs[i].expires by {
            lemma_earliest(attrs, i);
        }
    }
}

proof fn lemma_earliest_is_met(attrs: Seq<AttrView>)
    ensures
        earliest_user_expiry(attrs) matches Some(t) ==> exists|i: int|
            0 <= i < attrs.len() && is_user_key((#[trigger] attrs[i]).key) && attrs[i].expires == t,
    decreases attrs.len(),
{
    if attrs.len() > 0 {
        let init = attrs.drop_last();
        lemma_earliest_is_met(init);
        assert(attrs.last() == attrs[attrs.len() - 1]);
        if let Some(t) = earliest_user_expiry(init) {
            let i = choose|i: int|
                0 <= i < init.len() && is_user_key((#[trigger] init[i]).key) && init[i].expires
                    == t;
            assert(attrs[i] == init[i]);
        }
    }
}

} // verus!
