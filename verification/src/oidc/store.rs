//! The claims store of an OIDC trusted service.
//!
//! A provider cannot be asked about an arbitrary identity: the claims arrive
//! with a validated token. They are admitted here, mapped to attributes, and
//! served from the cache until they expire.
use vstd::prelude::*;

use crate::attribute::{
    attr_views, gather, lemma_gather_prefix, mapping_of, union_of, AttrHint, AttrUnion, AttrView,
    Attribute, AttributeMapper, MappingView, Step, Trouble, USER_AUTHORITY,
};
use crate::error::{ServiceError, ServiceErrorView};
use crate::json::{items_view, members_view, Json, JsonView};
use crate::oidc::validate::{IdpParams, ValidatedToken};
use crate::policy::{OidcConfig, OidcConfigView, TrustedService};
use crate::text::{cat, cat3, text_eq, texts};
use crate::time::{
    checked_add, representable, secs, Span, Timestamp, MAX_CLOCK_SKEW_SECS, NANOS_PER_SEC,
};
use crate::trusted_services::{next_revision, pair_views, RevisionCounter};

verus! {

/// What is cached of one admitted subject.
#[derive(Debug)]
pub struct AdmittedEntry {
    /// The mapped attributes.
    pub attrs: Vec<Attribute>,
    /// When the record stops being served.
    pub expires: Timestamp,
}

/// An admitted subject as mathematical data.
pub struct AdmittedView {
    pub attrs: Seq<AttrView>,
    pub expires: int,
}

impl View for AdmittedEntry {
    type V = AdmittedView;

    open spec fn view(&self) -> AdmittedView {
        AdmittedView { attrs: attr_views(self.attrs@), expires: self.expires as int }
    }
}

/// A copy of a list of attributes.
pub fn copy_attrs(attrs: &Vec<Attribute>) -> (r: Vec<Attribute>)
    ensures
        attr_views(r@) == attr_views(attrs@),
{
    let mut out: Vec<Attribute> = Vec::new();
    let mut i: usize = 0;
    while i < attrs.len()
        invariant
            i <= attrs@.len(),
            out@.len() == i,
            forall|j: int| 0 <= j < i ==> (#[trigger] out@[j])@ == attrs@[j]@,
        decreases attrs@.len() - i,
    {
        out.push(attrs[i].copy());
        i = i + 1;
    }
    assert(attr_views(out@) =~= attr_views(attrs@));
    out
}

impl AdmittedEntry {
    /// A copy.
    pub fn copy(&self) -> (r: AdmittedEntry)
        ensures
            r@ == self@,
    {
        AdmittedEntry { attrs: copy_attrs(&self.attrs), expires: self.expires }
    }
}

/// The renewal anchors of one live session: when the user logged in, and when the
/// latest token was minted.
#[derive(Debug)]
pub struct SessionAnchors {
    pub sub: String,
    /// Fixed for the session.
    pub auth_time: Timestamp,
    /// Advances with every renewal.
    pub iat: Timestamp,
    pub expires: Timestamp,
}

/// Session anchors as mathematical data.
pub struct SessionView {
    pub sub: Seq<char>,
    pub auth_time: int,
    pub iat: int,
    pub expires: int,
}

impl View for SessionAnchors {
    type V = SessionView;

    open spec fn view(&self) -> SessionView {
        SessionView {
            sub: self.sub@,
            auth_time: self.auth_time as int,
            iat: self.iat as int,
            expires: self.expires as int,
        }
    }
}

impl SessionAnchors {
    /// A copy.
    pub fn copy(&self) -> (r: SessionAnchors)
        ensures
            r@ == self@,
    {
        SessionAnchors {
            sub: self.sub.clone(),
            auth_time: self.auth_time,
            iat: self.iat,
            expires: self.expires,
        }
    }
}

/// The concurrent map of the `dashmap` crate.
#[verifier::external_type_specification]
#[verifier::external_body]
#[verifier::reject_recursive_types(K)]
#[verifier::reject_recursive_types(V)]
#[verifier::reject_recursive_types(S)]
pub struct ExDashMap<K, V, S>(dashmap::DashMap<K, V, S>);

/// The subjects that an admission map holds.
pub uninterp spec fn admitted_contents(
    map: dashmap::DashMap<String, AdmittedEntry>,
) -> Map<Seq<char>, AdmittedView>;

/// The sessions that a session map holds.
pub uninterp spec fn session_contents(
    map: dashmap::DashMap<String, SessionAnchors>,
) -> Map<Seq<char>, SessionView>;

/// Whether what expires then is still live now.
pub fn is_live(expires: Timestamp, now: Timestamp) -> (r: bool)
    ensures
        r == (expires > now),
{
    expires > now
}

/// The subjects that are still live.
pub open spec fn live_admitted(m: Map<Seq<char>, AdmittedView>, now: int) -> Map<
    Seq<char>,
    AdmittedView,
> {
    Map::new(|k: Seq<char>| m.contains_key(k) && m[k].expires > now, |k: Seq<char>| m[k])
}

/// The sessions that are still live.
pub open spec fn live_sessions(m: Map<Seq<char>, SessionView>, now: int) -> Map<
    Seq<char>,
    SessionView,
> {
    Map::new(|k: Seq<char>| m.contains_key(k) && m[k].expires > now, |k: Seq<char>| m[k])
}

/// `DashMap::new` makes an empty map.
#[verifier::external_body]
fn admitted_new() -> (r: dashmap::DashMap<String, AdmittedEntry>)
    ensures
        admitted_contents(r) == (Map::<Seq<char>, AdmittedView>::empty()),
{
    dashmap::DashMap::new()
}

/// `DashMap::insert` puts the value under the key, in place of any value that was
/// there.
#[verifier::external_body]
fn admitted_insert(
    map: &mut dashmap::DashMap<String, AdmittedEntry>,
    sub: String,
    entry: AdmittedEntry,
)
    ensures
        admitted_contents(*final(map)) == admitted_contents(*old(map)).insert(sub@, entry@),
{
    map.insert(sub, entry);
}

/// `DashMap::retain` keeps exactly the entries that the closure accepts, here
/// those that are still live.
#[verifier::external_body]
fn admitted_retain(map: &mut dashmap::DashMap<String, AdmittedEntry>, now: Timestamp)
    ensures
        admitted_contents(*final(map)) == live_admitted(admitted_contents(*old(map)), now as int),
{
    map.retain(|_, entry| is_live(entry.expires, now));
}

/// `DashMap::get` finds the value under a key; a copy of it is handed out.
#[verifier::external_body]
fn admitted_get(map: &dashmap::DashMap<String, AdmittedEntry>, sub: &str) -> (r: Option<
    AdmittedEntry,
>)
    ensures
        match r {
            Some(entry) => admitted_contents(*map).contains_pair(sub@, entry@),
            None => !admitted_contents(*map).contains_key(sub@),
        },
{
    map.get(sub).map(|entry| entry.copy())
}

/// Whether what expires then is no longer live now.
fn is_expired(expires: Timestamp, now: Timestamp) -> (r: bool)
    ensures
        r == (expires <= now),
{
    expires <= now
}

/// `DashMap::remove_if` removes the entry under a key if there is one and the
/// closure accepts it, here if it has expired.
#[verifier::external_body]
fn admitted_remove_if(
    map: &mut dashmap::DashMap<String, AdmittedEntry>,
    sub: &str,
    now: Timestamp,
)
    ensures
        admitted_contents(*final(map)) == (if admitted_contents(*old(map)).contains_key(sub@)
            && admitted_contents(*old(map))[sub@].expires <= now {
            admitted_contents(*old(map)).remove(sub@)
        } else {
            admitted_contents(*old(map))
        }),
{
    map.remove_if(sub, |_, entry| is_expired(entry.expires, now));
}

/// `DashMap::clear` removes every entry.
#[verifier::external_body]
fn admitted_clear(map: &mut dashmap::DashMap<String, AdmittedEntry>)
    ensures
        admitted_contents(*final(map)) == (Map::<Seq<char>, AdmittedView>::empty()),
{
    map.clear();
}

/// `DashMap::new` makes an empty map.
#[verifier::external_body]
fn session_new() -> (r: dashmap::DashMap<String, SessionAnchors>)
    ensures
        session_contents(r) == (Map::<Seq<char>, SessionView>::empty()),
{
    dashmap::DashMap::new()
}

/// `DashMap::insert` puts the value under the key, in place of any value that was
/// there.
#[verifier::external_body]
fn session_insert(
    map: &mut dashmap::DashMap<String, SessionAnchors>,
    id: String,
    anchors: SessionAnchors,
)
    ensures
        session_contents(*final(map)) == session_contents(*old(map)).insert(id@, anchors@),
{
    map.insert(id, anchors);
}

/// `DashMap::retain` keeps exactly the entries that the closure accepts, here
/// those that are still live.
#[verifier::external_body]
fn session_retain(map: &mut dashmap::DashMap<String, SessionAnchors>, now: Timestamp)
    ensures
        session_contents(*final(map)) == live_sessions(session_contents(*old(map)), now as int),
{
    map.retain(|_, anchors| is_live(anchors.expires, now));
}

/// `DashMap::get` finds the value under a key; a copy of it is handed out.
#[verifier::external_body]
fn session_get(map: &dashmap::DashMap<String, SessionAnchors>, id: &str) -> (r: Option<
    SessionAnchors,
>)
    ensures
        match r {
            Some(anchors) => session_contents(*map).contains_pair(id@, anchors@),
            None => !session_contents(*map).contains_key(id@),
        },
{
    map.get(id).map(|anchors| anchors.copy())
}

/// `DashMap::clear` removes every entry.
#[verifier::external_body]
fn session_clear(map: &mut dashmap::DashMap<String, SessionAnchors>)
    ensures
        session_contents(*final(map)) == (Map::<Seq<char>, SessionView>::empty()),
{
    map.clear();
}

/// The attribute values of a claim: a text is itself, a boolean or a number its
/// printed form, an array what its items give; null and objects give nothing.
pub open spec fn claim_texts(v: JsonView) -> Seq<Seq<char>>
    decreases v,
{
    match v {
        JsonView::Text(s) => seq![s],
        JsonView::Bool(b) => seq![if b {
            "true"@
        } else {
            "false"@
        }],
        JsonView::Number(text, _) => seq![text],
        JsonView::Array(items) => items_texts(items),
        JsonView::Null => Seq::empty(),
        JsonView::Object(_) => Seq::empty(),
    }
}

/// The attribute values of the items of an array, one after the other.
pub open spec fn items_texts(items: Seq<JsonView>) -> Seq<Seq<char>>
    decreases items,
{
    if items.len() == 0 {
        Seq::empty()
    } else {
        items_texts(items.drop_last()) + claim_texts(items.last())
    }
}

/// The attribute values of a claim.
pub fn claim_values(value: &Json) -> (r: Vec<String>)
    ensures
        texts(r@) == claim_texts(value@),
    decreases value,
{
    let mut out: Vec<String> = Vec::new();
    match value {
        Json::Text(s) => {
            out.push(s.clone());
            assert(texts(out@) =~= claim_texts(value@));
        },
        Json::Bool(b) => {
            if *b {
                out.push("true".to_owned());
            } else {
                out.push("false".to_owned());
            }
            assert(texts(out@) =~= claim_texts(value@));
        },
        Json::Number(n) => {
            out.push(n.text.clone());
            assert(texts(out@) =~= claim_texts(value@));
        },
        Json::Array(items) => {
            let ghost all = items_view(items@);
            let mut i: usize = 0;
            assert(texts(out@) =~= items_texts(all.take(0)));
            while i < items.len()
                invariant
                    value == Json::Array(*items),
                    all == items_view(items@),
                    i <= items@.len(),
                    texts(out@) == items_texts(all.take(i as int)),
                decreases items@.len() - i,
            {
                let ghost before = out@;
                proof {
                    assert(decreases_to!(*value => value->Array_0));
                    assert(decreases_to!(value->Array_0 => items@));
                    assert(decreases_to!(items@ => items@[i as int]));
                }
                let mut more = claim_values(&items[i]);
                let ghost added = more@;
                out.append(&mut more);
                proof {
                    assert(texts(out@) =~= texts(before) + texts(added));
                    assert(all.take(i + 1).drop_last() =~= all.take(i as int));
                    assert(all.take(i + 1).last() == items@[i as int]@);
                }
                i = i + 1;
            }
            assert(all.take(i as int) =~= all);
            assert(value@->Array_0 =~= all);
        },
        Json::Null => {
            assert(texts(out@) =~= claim_texts(value@));
        },
        Json::Object(_) => {
            assert(texts(out@) =~= claim_texts(value@));
        },
    }
    out
}

/// What one claim contributes to the attributes of its subject.
pub open spec fn claim_step(
    mapper: Seq<MappingView>,
    id: Seq<char>,
    expires: int,
    claim: (Seq<char>, JsonView),
) -> Step {
    match mapping_of(mapper, claim.0) {
        None => Step::Skip,
        Some(m) => {
            let values = claim_texts(claim.1);
            match m.hint {
                AttrHint::SingleValued => if values.len() == 0 {
                    Step::Skip
                } else {
                    Step::Keep(
                        AttrView { key: m.zpr_key, values: seq![values[0]], expires, source: id },
                    )
                },
                AttrHint::MultiValued => Step::Keep(
                    AttrView { key: m.zpr_key, values, expires, source: id },
                ),
                AttrHint::Tag => Step::Keep(
                    AttrView { key: m.zpr_key, values: Seq::empty(), expires, source: id },
                ),
            }
        },
    }
}

/// What the claims contribute, in order.
pub open spec fn claim_steps(
    mapper: Seq<MappingView>,
    id: Seq<char>,
    expires: int,
    claims: Seq<(Seq<char>, JsonView)>,
) -> Seq<Step> {
    claims.map_values(|c: (Seq<char>, JsonView)| claim_step(mapper, id, expires, c))
}

/// The complaint about claims that disagree.
pub open spec fn admit_complaint(id: Seq<char>, t: Trouble) -> ServiceErrorView {
    match t {
        Trouble::Disagree(key) => ServiceErrorView::Param(
            id + ": two claims disagree on attribute '"@ + key + "'"@,
        ),
        Trouble::Bad(words) => ServiceErrorView::Param(words),
    }
}

/// The complaint about identities that disagree.
pub open spec fn lookup_complaint(id: Seq<char>, t: Trouble) -> ServiceErrorView {
    match t {
        Trouble::Disagree(key) => ServiceErrorView::Param(
            id + ": two admitted identities disagree on attribute '"@ + key + "'"@,
        ),
        Trouble::Bad(words) => ServiceErrorView::Param(words),
    }
}

/// An OIDC trusted service: the claims of the subjects it vouches for.
pub struct OidcTrustedService {
    id: String,
    cfg: OidcConfig,
    mapper: AttributeMapper,
    admitted: dashmap::DashMap<String, AdmittedEntry>,
    sessions: dashmap::DashMap<String, SessionAnchors>,
    expiration_seconds: u32,
    revision: u64,
    born: u64,
}

/// An OIDC trusted service as mathematical data.
#[verifier::ext_equal]
pub struct StoreView {
    pub id: Seq<char>,
    pub cfg: OidcConfigView,
    pub mapper: Seq<MappingView>,
    pub admitted: Map<Seq<char>, AdmittedView>,
    pub sessions: Map<Seq<char>, SessionView>,
    pub expiration_seconds: u32,
    pub revision: u64,
    /// The revision that the store was built with.
    pub born: u64,
}

impl View for OidcTrustedService {
    type V = StoreView;

    closed spec fn view(&self) -> StoreView {
        StoreView {
            id: self.id@,
            cfg: self.cfg@,
            mapper: self.mapper@,
            admitted: admitted_contents(self.admitted),
            sessions: session_contents(self.sessions),
            expiration_seconds: self.expiration_seconds,
            revision: self.revision,
            born: self.born,
        }
    }
}

/// The key that the subject claim maps to.
pub open spec fn sub_key(mapper: Seq<MappingView>) -> Option<Seq<char>> {
    match mapping_of(mapper, "sub"@) {
        Some(m) => Some(m.zpr_key),
        None => None,
    }
}

/// The identities say that this service vouches for the actor.
pub open spec fn vouched(identities: Seq<(Seq<char>, Seq<char>)>, id: Seq<char>) -> bool {
    identities.contains((USER_AUTHORITY@, id))
}

/// The attributes that the cache serves for identities, one subject after the
/// other.
pub open spec fn served(
    identities: Seq<(Seq<char>, Seq<char>)>,
    key: Seq<char>,
    admitted: Map<Seq<char>, AdmittedView>,
    now: int,
) -> Seq<AttrView>
    decreases identities.len(),
{
    if identities.len() == 0 {
        Seq::empty()
    } else {
        let before = served(identities.drop_last(), key, admitted, now);
        let (k, sub) = identities.last();
        if k == key && admitted.contains_key(sub) && admitted[sub].expires > now {
            before + admitted[sub].attrs
        } else {
            before
        }
    }
}

/// The cache without the expired subjects among the identities.
pub open spec fn without_expired(
    identities: Seq<(Seq<char>, Seq<char>)>,
    key: Seq<char>,
    admitted: Map<Seq<char>, AdmittedView>,
    now: int,
) -> Map<Seq<char>, AdmittedView> {
    Map::new(
        |sub: Seq<char>|
            admitted.contains_key(sub) && (admitted[sub].expires > now || !identities.contains(
                (key, sub),
            )),
        |sub: Seq<char>| admitted[sub],
    )
}

/// The identity at which a lookup comes upon a disagreement, and stops.
pub open spec fn stops_at(
    identities: Seq<(Seq<char>, Seq<char>)>,
    key: Seq<char>,
    admitted: Map<Seq<char>, AdmittedView>,
    now: int,
    i: int,
) -> bool {
    &&& 0 <= i < identities.len()
    &&& gather(keep_all(served(identities.take(i), key, admitted, now))) is Ok
    &&& gather(keep_all(served(identities.take(i + 1), key, admitted, now))) is Err
}

/// What a lookup gives, and what it leaves of the store. Expired subjects leave the cache as
/// far as the lookup comes.
pub open spec fn lookup_outcome(
    before: StoreView,
    identities: Seq<(Seq<char>, Seq<char>)>,
    now: int,
    r: Result<Vec<Attribute>, ServiceError>,
    after: StoreView,
) -> bool {
    match sub_key(before.mapper) {
        Some(key) if vouched(identities, before.id) => {
            match gather(keep_all(served(identities, key, before.admitted, now))) {
                Ok(attrs) => {
                    &&& r matches Ok(out) && union_of(attr_views(out@), attrs)
                    &&& after == (StoreView {
                        admitted: without_expired(identities, key, before.admitted, now),
                        ..before
                    })
                },
                Err(t) => {
                    &&& r matches Err(e) && e@ == lookup_complaint(before.id, t)
                    &&& exists|i: int|
                        {
                            &&& #[trigger] stops_at(identities, key, before.admitted, now, i)
                            &&& after == (StoreView {
                                admitted: without_expired(
                                    identities.take(i),
                                    key,
                                    before.admitted,
                                    now,
                                ),
                                ..before
                            })
                        }
                },
            }
        },
        _ => (r matches Ok(out) && out@.len() == 0) && after == before,
    }
}

/// What is served for the first identities comes first.
proof fn lemma_served_prefix(
    identities: Seq<(Seq<char>, Seq<char>)>,
    key: Seq<char>,
    admitted: Map<Seq<char>, AdmittedView>,
    now: int,
    i: int,
)
    requires
        0 <= i <= identities.len(),
    ensures
        served(identities.take(i), key, admitted, now).is_prefix_of(
            served(identities, key, admitted, now),
        ),
    decreases identities.len(),
{
    if i == identities.len() {
        assert(identities.take(i) =~= identities);
    } else {
        let fewer = identities.drop_last();
        lemma_served_prefix(fewer, key, admitted, now, i);
        assert(fewer.take(i) =~= identities.take(i));
        let short = served(identities.take(i), key, admitted, now);
        let middle = served(fewer, key, admitted, now);
        let long = served(identities, key, admitted, now);
        assert(middle.is_prefix_of(long)) by {
            assert(long.subrange(0, middle.len() as int) =~= middle);
        }
        assert(long.subrange(0, short.len() as int) =~= middle.subrange(0, short.len() as int));
    }
}

/// Every attribute of a list, as a contribution.
pub open spec fn keep_all(attrs: Seq<AttrView>) -> Seq<Step> {
    attrs.map_values(|a: AttrView| Step::Keep(a))
}

impl OidcTrustedService {
    /// Builds the store from its policy record, which must carry an OIDC
    /// configuration.
    pub fn new(record: &TrustedService, counter: &mut RevisionCounter) -> (r: Result<
        OidcTrustedService,
        ServiceError,
    >)
        ensures
            match r {
                Ok(store) => record@.oidc matches Some(cfg) && store@ == (StoreView {
                    id: record@.service_id,
                    cfg,
                    mapper: record@.returns_attrs,
                    admitted: Map::empty(),
                    sessions: Map::empty(),
                    expiration_seconds: record.expiration_seconds,
                    revision: old(counter).next,
                    born: old(counter).next,
                }) && final(counter).next == next_after(old(counter).next),
                Err(e) => record@.oidc is None && e@ == ServiceErrorView::Param(
                    "trusted service '"@ + record@.service_id
                        + "': api 'oidc' requires an oidc config"@,
                ) && *final(counter) == *old(counter),
            },
    {
        match &record.oidc {
            None => Err(
                ServiceError::Param(
                    cat3(
                        "trusted service '",
                        record.service_id.as_str(),
                        "': api 'oidc' requires an oidc config",
                    ),
                ),
            ),
            Some(cfg) => {
                let revision: u64 = next_revision(counter);
                let store = OidcTrustedService {
                    id: record.service_id.clone(),
                    cfg: cfg.copy(),
                    mapper: record.returns_attrs.copy(),
                    admitted: admitted_new(),
                    sessions: session_new(),
                    expiration_seconds: record.expiration_seconds,
                    revision,
                    born: revision,
                };
                Ok(store)
            },
        }
    }

    /// The validator's parameters for this provider. An age limit of 0 is no
    /// limit.
    pub fn params(&self) -> (r: IdpParams<'_>)
        ensures
            r.issuer@ == self@.cfg.issuer,
            r.client_id@ == self@.cfg.client_id,
            texts(r.allowed_domains@) == self@.cfg.allowed_domains,
            r.max_auth_age == (if self@.cfg.max_auth_age_seconds > 0 {
                Some((self@.cfg.max_auth_age_seconds * NANOS_PER_SEC) as u128)
            } else {
                None
            }),
            r.allow_offline_access == self@.cfg.allow_offline_access,
            r.clock_skew == MAX_CLOCK_SKEW_SECS * NANOS_PER_SEC,
            r.usable(),
    {
        IdpParams {
            issuer: self.cfg.issuer.as_str(),
            client_id: self.cfg.client_id.as_str(),
            allowed_domains: self.cfg.allowed_domains.as_slice(),
            max_auth_age: if self.cfg.max_auth_age_seconds > 0 {
                Some(secs(self.cfg.max_auth_age_seconds as u64))
            } else {
                None
            },
            allow_offline_access: self.cfg.allow_offline_access,
            clock_skew: IdpParams::default_clock_skew(),
        }
    }

    /// The moment after which a login may not be renewed: the authentication, plus
    /// the age limit, plus the clock leeway. None where there is no limit, or where
    /// the clock cannot hold the moment.
    pub fn session_ceiling(&self, auth_time: Timestamp) -> (r: Option<Timestamp>)
        requires
            representable(auth_time as int),
        ensures
            r == session_end(self@.cfg, auth_time as int),
    {
        if self.cfg.max_auth_age_seconds == 0 {
            return None;
        }
        let limit: Span = secs(self.cfg.max_auth_age_seconds as u64)
            + IdpParams::default_clock_skew();
        checked_add(auth_time, limit)
    }

    /// How long admitted attributes live.
    pub fn lifetime(&self) -> (r: Span)
        ensures
            r == self@.expiration_seconds * NANOS_PER_SEC,
    {
        secs(self.expiration_seconds as u64)
    }

    /// The provider's issuer.
    pub fn issuer(&self) -> (r: &str)
        ensures
            r@ == self@.cfg.issuer,
    {
        self.cfg.issuer.as_str()
    }

    /// The trusted service id, which is also the source of its attributes.
    pub fn id(&self) -> (r: &str)
        ensures
            r@ == self@.id,
    {
        self.id.as_str()
    }

    /// The key that the subject claim maps to, if it is mapped.
    pub fn mapped_sub_key(&self) -> (r: Option<String>)
        ensures
            match r {
                Some(k) => sub_key(self@.mapper) == Some(k@),
                None => sub_key(self@.mapper) is None,
            },
    {
        match self.mapper.map_attribute("sub") {
            Some(m) => Some(m.zpr_key.clone()),
            None => None,
        }
    }

    /// The attribute that a claim becomes.
    fn map_claim(&self, name: &str, value: &Json, expires: Timestamp) -> (r: Option<Attribute>)
        ensures
            match r {
                Some(a) => claim_step(self@.mapper, self@.id, expires as int, (name@, value@))
                    == Step::Keep(a@),
                None => claim_step(self@.mapper, self@.id, expires as int, (name@, value@))
                    == Step::Skip,
            },
    {
        let m = match self.mapper.map_attribute(name) {
            Some(m) => m,
            None => {
                return None;
            },
        };
        let found = claim_values(value);
        let values = match m.hint {
            AttrHint::SingleValued => {
                if found.len() == 0 {
                    return None;
                }
                let mut one: Vec<String> = Vec::new();
                one.push(found[0].clone());
                assert(texts(found@)[0] == found@[0]@);
                assert(texts(one@) =~= seq![texts(found@)[0]]);
                one
            },
            AttrHint::MultiValued => found,
            AttrHint::Tag => {
                let none: Vec<String> = Vec::new();
                assert(texts(none@) =~= Seq::empty());
                none
            },
        };
        Some(
            Attribute {
                key: m.zpr_key.clone(),
                values,
                expires,
                source: self.id.clone(),
            },
        )
    }

    /// Maps the claims of a token to attributes and caches them under its subject
    /// until `expires`. Subjects that have expired at `now` are dropped on the way,
    /// and the store moves to a new revision. Two claims that map to one key must
    /// agree on the values; otherwise nothing changes.
    pub fn admit_token(
        &mut self,
        token: &ValidatedToken,
        expires: Timestamp,
        now: Timestamp,
        counter: &mut RevisionCounter,
    ) -> (r: Result<Vec<Attribute>, ServiceError>)
        ensures
            match gather(
                claim_steps(old(self)@.mapper, old(self)@.id, expires as int, token@.raw_claims),
            ) {
                Err(t) => {
                    &&& r matches Err(e) && e@ == admit_complaint(old(self)@.id, t)
                    &&& final(self)@ == old(self)@
                    &&& *final(counter) == *old(counter)
                },
                Ok(attrs) => {
                    &&& r matches Ok(out) && union_of(attr_views(out@), attrs) && final(self)@ == (
                    StoreView {
                        admitted: live_admitted(old(self)@.admitted, now as int).insert(
                            token@.sub,
                            AdmittedView { attrs: attr_views(out@), expires: expires as int },
                        ),
                        revision: old(counter).next,
                        ..old(self)@
                    })
                    &&& final(counter).next == next_after(old(counter).next)
                },
            },
    {
        let ghost claims = members_view(token.raw_claims@);
        let ghost steps = claim_steps(self@.mapper, self@.id, expires as int, claims);
        let mut union = AttrUnion::new();
        let mut i: usize = 0;
        assert(steps.take(0) =~= Seq::empty());
        while i < token.raw_claims.len()
            invariant
                *self == *old(self),
                *counter == *old(counter),
                claims == members_view(token.raw_claims@),
                steps == claim_steps(self@.mapper, self@.id, expires as int, claims),
                i <= token.raw_claims@.len(),
                union.holds(steps, i as int),
            decreases token.raw_claims@.len() - i,
        {
            let claim = &token.raw_claims[i];
            assert(steps[i as int] == claim_step(
                self@.mapper,
                self@.id,
                expires as int,
                (claim.0@, claim.1@),
            ));
            match self.map_claim(claim.0.as_str(), &claim.1, expires) {
                Some(attr) => {
                    let key = attr.key.clone();
                    if !union.take_in(attr, Ghost(steps), Ghost(i as int)) {
                        let head = cat(
                            self.id.as_str(),
                            ": two claims disagree on attribute '",
                        );
                        return Err(ServiceError::Param(cat3(head.as_str(), key.as_str(), "'")));
                    }
                },
                None => {
                    proof {
                        crate::attribute::lemma_gather_step(steps, i as int);
                    }
                },
            }
            i = i + 1;
        }
        assert(steps.take(i as int) =~= steps);
        let attrs = union.entries;
        let kept = copy_attrs(&attrs);
        admitted_retain(&mut self.admitted, now);
        admitted_insert(
            &mut self.admitted,
            token.sub.clone(),
            AdmittedEntry { attrs: kept, expires },
        );
        self.revision = next_revision(counter);
        Ok(attrs)
    }

    /// Records the renewal anchors of a live session, or advances them. Sessions
    /// that have expired at `now` are dropped on the way.
    pub fn record_session(
        &mut self,
        session_id: &str,
        sub: &str,
        auth_time: Timestamp,
        iat: Timestamp,
        expires: Timestamp,
        now: Timestamp,
    )
        ensures
            final(self)@ == (StoreView {
                sessions: live_sessions(old(self)@.sessions, now as int).insert(
                    session_id@,
                    SessionView {
                        sub: sub@,
                        auth_time: auth_time as int,
                        iat: iat as int,
                        expires: expires as int,
                    },
                ),
                ..old(self)@
            }),
    {
        session_retain(&mut self.sessions, now);
        session_insert(
            &mut self.sessions,
            session_id.to_owned(),
            SessionAnchors { sub: sub.to_owned(), auth_time, iat, expires },
        );
    }

    /// The recorded anchors of a session.
    pub fn session_anchors(&self, session_id: &str) -> (r: Option<SessionAnchors>)
        ensures
            match r {
                Some(a) => self@.sessions.contains_pair(session_id@, a@),
                None => !self@.sessions.contains_key(session_id@),
            },
    {
        session_get(&self.sessions, session_id)
    }

    /// Whether the identities name this service as the authority.
    fn vouches_for(&self, identities: &Vec<(String, String)>) -> (r: bool)
        ensures
            r == vouched(pair_views(identities@), self@.id),
    {
        let ghost pairs = pair_views(identities@);
        let mut i: usize = 0;
        while i < identities.len()
            invariant
                pairs == pair_views(identities@),
                i <= identities@.len(),
                forall|j: int| 0 <= j < i ==> pairs[j] != (USER_AUTHORITY@, self@.id),
            decreases identities@.len() - i,
        {
            assert(pairs[i as int] == (identities@[i as int].0@, identities@[i as int].1@));
            if text_eq(identities[i].0.as_str(), USER_AUTHORITY) && text_eq(
                identities[i].1.as_str(),
                self.id.as_str(),
            ) {
                return true;
            }
            i = i + 1;
        }
        false
    }

    /// The cached attributes of the subject that an identity names, if it is admitted; an
    /// expired subject leaves the cache.
    fn look_up(
        &mut self,
        identities: &Vec<(String, String)>,
        i: usize,
        key: &str,
        now: Timestamp,
        Ghost(before): Ghost<StoreView>,
    ) -> (r: Vec<Attribute>)
        requires
            i < identities@.len(),
            old(self)@ == (StoreView {
                admitted: without_expired(
                    pair_views(identities@).take(i as int),
                    key@,
                    before.admitted,
                    now as int,
                ),
                ..before
            }),
        ensures
            served(pair_views(identities@).take(i + 1), key@, before.admitted, now as int)
                == served(pair_views(identities@).take(i as int), key@, before.admitted, now as int)
                + attr_views(r@),
            final(self)@ == (StoreView {
                admitted: without_expired(
                    pair_views(identities@).take(i + 1),
                    key@,
                    before.admitted,
                    now as int,
                ),
                ..before
            }),
            r@.len() > 0 ==> final(self)@ == old(self)@,
    {
        let ghost pairs = pair_views(identities@);
        let pair = &identities[i];
        let none: Vec<Attribute> = Vec::new();
        proof {
            assert(attr_views(none@) =~= Seq::empty());
            assert(pairs[i as int] == (pair.0@, pair.1@));
            assert(pairs.take(i + 1).drop_last() =~= pairs.take(i as int));
            assert(pairs.take(i + 1).last() == pairs[i as int]);
            assert forall|p: (Seq<char>, Seq<char>)| pairs.take(i + 1).contains(p) <==> (pairs.take(
                i as int,
            ).contains(p) || p == pairs[i as int]) by {
                if pairs.take(i as int).contains(p) {
                    let j = choose|j: int| 0 <= j < i && pairs.take(i as int)[j] == p;
                    assert(pairs.take(i + 1)[j] == p);
                }
                if p == pairs[i as int] {
                    assert(pairs.take(i + 1)[i as int] == p);
                }
            }
        }
        let mut out = none;
        if text_eq(pair.0.as_str(), key) {
            match admitted_get(&self.admitted, pair.1.as_str()) {
                Some(entry) => {
                    if is_expired(entry.expires, now) {
                        admitted_remove_if(&mut self.admitted, pair.1.as_str(), now);
                    } else {
                        out = entry.attrs;
                    }
                },
                None => {},
            }
        }
        proof {
            let had = served(pairs.take(i as int), key@, before.admitted, now as int);
            assert(had + Seq::<AttrView>::empty() =~= had);
            assert(self@.admitted =~= without_expired(
                pairs.take(i + 1),
                key@,
                before.admitted,
                now as int,
            ));
            if out@.len() > 0 {
                assert(self@.admitted =~= old(self)@.admitted);
            }
        }
        out
    }

    /// Serves the cached attributes of every admitted subject among the
    /// identities.
    ///
    /// Subjects are unique only within their issuer, so the identities must also
    /// name this service as the actor's authority; otherwise nothing is served.
    /// Expired records are dropped. Several subjects give the union of their
    /// attributes, which must agree where they share a key; the lookup stops where
    /// they do not.
    pub fn get_attributes_for_actor(
        &mut self,
        identities: &Vec<(String, String)>,
        now: Timestamp,
    ) -> (r: Result<Vec<Attribute>, ServiceError>)
        ensures
            lookup_outcome(old(self)@, pair_views(identities@), now as int, r, final(self)@),
    {
        let key = match self.mapped_sub_key() {
            Some(key) => key,
            None => {
                return Ok(Vec::new());
            },
        };
        if !self.vouches_for(identities) {
            return Ok(Vec::new());
        }
        let ghost before = self@;
        let ghost pairs = pair_views(identities@);
        let ghost steps = keep_all(served(pairs, key@, before.admitted, now as int));
        let mut union = AttrUnion::new();
        let mut i: usize = 0;
        proof {
            assert(steps.take(0) =~= Seq::empty());
            assert(served(pairs.take(0), key@, before.admitted, now as int) =~= Seq::empty());
            assert(without_expired(pairs.take(0), key@, before.admitted, now as int)
                =~= before.admitted);
        }
        while i < identities.len()
            invariant
                before == old(self)@,
                pairs == pair_views(identities@),
                steps == keep_all(served(pairs, key@, before.admitted, now as int)),
                i <= identities@.len(),
                sub_key(before.mapper) == Some(key@),
                vouched(pairs, before.id),
                union.holds(
                    steps,
                    served(pairs.take(i as int), key@, before.admitted, now as int).len() as int,
                ),
                self@ == (StoreView {
                    admitted: without_expired(
                        pairs.take(i as int),
                        key@,
                        before.admitted,
                        now as int,
                    ),
                    ..before
                }),
            decreases identities@.len() - i,
        {
            let ghost had = served(pairs.take(i as int), key@, before.admitted, now as int);
            let ghost has = served(pairs.take(i + 1), key@, before.admitted, now as int);
            let ghost at = self@;
            let found = self.look_up(identities, i, key.as_str(), now, Ghost(before));
            proof {
                lemma_served_prefix(pairs, key@, before.admitted, now as int, i as int);
                lemma_served_prefix(pairs, key@, before.admitted, now as int, i + 1);
                assert(steps.take(had.len() as int) =~= keep_all(had));
                assert(steps.take(has.len() as int) =~= keep_all(has));
            }
            let mut k: usize = 0;
            while k < found.len()
                invariant
                    before == old(self)@,
                    pairs == pair_views(identities@),
                    steps == keep_all(served(pairs, key@, before.admitted, now as int)),
                    i < identities@.len(),
                    sub_key(before.mapper) == Some(key@),
                    vouched(pairs, before.id),
                    had == served(pairs.take(i as int), key@, before.admitted, now as int),
                    has == served(pairs.take(i + 1), key@, before.admitted, now as int),
                    has == had + attr_views(found@),
                    has.len() <= steps.len(),
                    steps.take(had.len() as int) == keep_all(had),
                    steps.take(has.len() as int) == keep_all(has),
                    gather(keep_all(had)) is Ok,
                    k <= found@.len(),
                    union.holds(steps, had.len() + k),
                    at == (StoreView {
                        admitted: without_expired(
                            pairs.take(i as int),
                            key@,
                            before.admitted,
                            now as int,
                        ),
                        ..before
                    }),
                    found@.len() > 0 ==> self@ == at,
                    self@.id == before.id,
                decreases found@.len() - k,
            {
                let attr = found[k].copy();
                let name = attr.key.clone();
                let ghost n = had.len() + k;
                proof {
                    assert(has[n] == attr@);
                    assert(steps.take(has.len() as int)[n] == keep_all(has)[n]);
                    assert(steps[n] == Step::Keep(attr@));
                }
                if !union.take_in(attr, Ghost(steps), Ghost(n)) {
                    proof {
                        let reached = keep_all(has);
                        assert(reached.take(n + 1) =~= steps.take(n + 1));
                        lemma_gather_prefix(reached, n + 1);
                        assert(stops_at(pairs, key@, before.admitted, now as int, i as int));
                    }
                    let head = cat(
                        self.id.as_str(),
                        ": two admitted identities disagree on attribute '",
                    );
                    let text = cat3(head.as_str(), name.as_str(), "'");
                    return Err(ServiceError::Param(text));
                }
                k = k + 1;
            }
            i = i + 1;
        }
        proof {
            assert(pairs.take(i as int) =~= pairs);
            assert(steps.take(steps.len() as int) =~= steps);
        }
        Ok(union.entries)
    }

    /// Drops every admitted record and every recorded session, and moves to a new
    /// revision.
    pub fn flush(&mut self, counter: &mut RevisionCounter)
        ensures
            final(self)@ == (StoreView {
                admitted: Map::empty(),
                sessions: Map::empty(),
                revision: old(counter).next,
                ..old(self)@
            }),
            final(counter).next == next_after(old(counter).next),
    {
        admitted_clear(&mut self.admitted);
        session_clear(&mut self.sessions);
        self.revision = next_revision(counter);
    }

    /// The revision that the store was built with, by which it is told from others.
    pub fn born(&self) -> (r: u64)
        ensures
            r == self@.born,
    {
        self.born
    }

    /// The revision of the data that is served.
    pub fn current_revision(&self) -> (r: u64)
        ensures
            r == self@.revision,
    {
        self.revision
    }

    /// The source that the attributes carry.
    pub fn get_source_id(&self) -> (r: &str)
        ensures
            r@ == self@.id,
    {
        self.id.as_str()
    }
}

/// The revision that the counter hands out next.
pub open spec fn next_after(n: u64) -> u64 {
    if n == u64::MAX {
        0
    } else {
        (n + 1) as u64
    }
}

/// When the session of a login ends for good.
pub open spec fn session_end(cfg: OidcConfigView, auth_time: int) -> Option<Timestamp> {
    let end = auth_time + (cfg.max_auth_age_seconds + MAX_CLOCK_SKEW_SECS) * NANOS_PER_SEC;
    if cfg.max_auth_age_seconds == 0 || !representable(end) {
        None
    } else {
        Some(end as i128)
    }
}

/// Attributes of one key have the same values.
pub open spec fn agreeing(attrs: Seq<AttrView>) -> bool {
    forall|i: int, j: int|
        0 <= i < j < attrs.len() && (#[trigger] attrs[i]).key == (#[trigger] attrs[j]).key
            ==> attrs[i].values == attrs[j].values
}

proof fn lemma_gather_agreeing(attrs: Seq<AttrView>)
    requires
        agreeing(attrs),
    ensures
        gather(keep_all(attrs)) == Ok::<Seq<AttrView>, Trouble>(attrs),
    decreases attrs.len(),
{
    let steps = keep_all(attrs);
    if attrs.len() > 0 {
        let init = attrs.drop_last();
        assert(steps.drop_last() =~= keep_all(init));
        lemma_agreeing_init(attrs);
        lemma_gather_agreeing(init);
        assert(init.push(attrs.last()) =~= attrs);
        lemma_no_conflict(attrs);
    } else {
        assert(attrs =~= Seq::empty());
    }
}

proof fn lemma_agreeing_init(attrs: Seq<AttrView>)
    requires
        agreeing(attrs),
        attrs.len() > 0,
    ensures
        agreeing(attrs.drop_last()),
{
    let init = attrs.drop_last();
    assert forall|i: int, j: int| 0 <= i < j < init.len() && (#[trigger] init[i]).key == (
    #[trigger] init[j]).key implies init[i].values == init[j].values by {
        assert(init[i] == attrs[i] && init[j] == attrs[j]);
    }
}

proof fn lemma_no_conflict(attrs: Seq<AttrView>)
    requires
        agreeing(attrs),
    ensures
        crate::attribute::first_conflict(attrs) is None,
    decreases attrs.len(),
{
    if attrs.len() > 0 {
        lemma_agreeing_init(attrs);
        lemma_no_conflict(attrs.drop_last());
        assert(attrs.last() == attrs[attrs.len() - 1]);
    }
}

proof fn lemma_served(
    ids: Seq<(Seq<char>, Seq<char>)>,
    key: Seq<char>,
    sub: Seq<char>,
    admitted: Map<Seq<char>, AdmittedView>,
    now: int,
)
    requires
        admitted.contains_key(sub),
        admitted[sub].expires > now,
        forall|i: int| 0 <= i < ids.len() && (#[trigger] ids[i]).0 == key ==> ids[i].1 == sub,
    ensures
        forall|p: int|
            0 <= p < served(ids, key, admitted, now).len() ==> admitted[sub].attrs.contains(
                #[trigger] served(ids, key, admitted, now)[p],
            ),
        ids.contains((key, sub)) ==> forall|q: int|
            0 <= q < admitted[sub].attrs.len() ==> served(ids, key, admitted, now).contains(
                #[trigger] admitted[sub].attrs[q],
            ),
    decreases ids.len(),
{
    let out = admitted[sub].attrs;
    let all = served(ids, key, admitted, now);
    if ids.len() > 0 {
        let init = ids.drop_last();
        let before = served(init, key, admitted, now);
        assert forall|i: int| 0 <= i < init.len() && (#[trigger] init[i]).0 == key implies init[i].1
            == sub by {
            assert(init[i] == ids[i]);
        }
        lemma_served(init, key, sub, admitted, now);
        assert(ids.last() == ids[ids.len() - 1]);
        if ids.last().0 == key {
            assert(all == before + out);
            assert forall|p: int| 0 <= p < all.len() implies out.contains(#[trigger] all[p]) by {
                if p < before.len() {
                    assert(all[p] == before[p]);
                } else {
                    assert(all[p] == out[p - before.len()]);
                }
            }
            assert forall|q: int| 0 <= q < out.len() implies all.contains(#[trigger] out[q]) by {
                assert(all[before.len() + q] == out[q]);
            }
        } else if ids.contains((key, sub)) {
            let i = choose|i: int| 0 <= i < ids.len() && ids[i] == (key, sub);
            assert(init[i] == (key, sub));
        }
    }
}

/// What was admitted is served: every lookup that names this service as an authority, and
/// under the mapped key the subject and no other, gives exactly the attributes of the
/// admission, until they expire.
pub proof fn law_admitted_claims_are_served(
    before: StoreView,
    after: StoreView,
    key: Seq<char>,
    sub: Seq<char>,
    out: Seq<AttrView>,
    expires: int,
    admitted_at: int,
    looked_up_at: int,
    identities: Seq<(Seq<char>, Seq<char>)>,
    answer: Seq<AttrView>,
)
    requires
        crate::attribute::sorted_by_key(out),
        after == (StoreView {
            admitted: live_admitted(before.admitted, admitted_at).insert(
                sub,
                AdmittedView { attrs: out, expires },
            ),
            revision: after.revision,
            ..before
        }),
        looked_up_at < expires,
        identities.contains((key, sub)),
        forall|i: int|
            0 <= i < identities.len() && (#[trigger] identities[i]).0 == key ==> identities[i].1
                == sub,
    ensures
        gather(keep_all(served(identities, key, after.admitted, looked_up_at))) matches Ok(attrs)
            && (union_of(answer, attrs) ==> answer == out),
{
    let all = served(identities, key, after.admitted, looked_up_at);
    lemma_served(identities, key, sub, after.admitted, looked_up_at);
    assert(after.admitted[sub].attrs == out);
    assert(agreeing(all)) by {
        assert forall|i: int, j: int| 0 <= i < j < all.len() && (#[trigger] all[i]).key == (
        #[trigger] all[j]).key implies all[i].values == all[j].values by {
            let p = choose|p: int| 0 <= p < out.len() && out[p] == all[i];
            let q = choose|q: int| 0 <= q < out.len() && out[q] == all[j];
            lemma_one_of_key(out, p, q);
        }
    }
    lemma_gather_agreeing(all);
    if union_of(answer, all) {
        assert(union_of(answer, out)) by {
            assert forall|i: int| 0 <= i < answer.len() implies crate::attribute::leads(
                out,
                #[trigger] answer[i],
            ) by {
                assert(crate::attribute::leads(all, answer[i]));
                let p = choose|p: int|
                    0 <= p < all.len() && crate::attribute::is_first(all, p)
                        && #[trigger] all[p] == answer[i];
                let q = choose|q: int| 0 <= q < out.len() && out[q] == all[p];
                assert(crate::attribute::is_first(out, q)) by {
                    assert forall|k: int| 0 <= k < q implies (#[trigger] out[k]).key != out[q].key by {
                        if out[k].key == out[q].key {
                            lemma_one_of_key(out, k, q);
                        }
                    }
                }
                assert(out[q] == answer[i]);
            }
            assert forall|q: int| 0 <= q < out.len() implies crate::attribute::has_key(
                answer,
                (#[trigger] out[q]).key,
            ) by {
                assert(all.contains(out[q]));
                let p = choose|p: int| 0 <= p < all.len() && all[p] == out[q];
                assert(crate::attribute::has_key(answer, all[p].key));
            }
        }
        crate::attribute::lemma_sorted_union_unique(answer, out);
    }
}

proof fn lemma_one_of_key(out: Seq<AttrView>, p: int, q: int)
    requires
        crate::attribute::sorted_by_key(out),
        0 <= p < out.len(),
        0 <= q < out.len(),
        out[p].key == out[q].key,
    ensures
        p == q,
{
    if p < q {
        assert(crate::text::text_lt(out[p].key, out[q].key));
    }
    if q < p {
        assert(crate::text::text_lt(out[q].key, out[p].key));
    }
}

/// The revision of the store was handed out before the one that the counter hands out
/// next.
pub open spec fn behind(store: StoreView, counter: u64) -> bool {
    store.revision < counter
}

/// As long as the counter has not run out: a store that takes its revision from it, when
/// it is built, flushed or admits somebody, is behind it afterwards; if it was behind
/// before, its revision has risen; and a store that is behind stays so when another takes
/// the revision.
pub proof fn law_admission_raises_the_revision(before: StoreView, after: StoreView, counter: u64)
    requires
        counter < u64::MAX,
        after.revision == counter,
    ensures
        behind(after, next_after(counter)),
        behind(before, counter) ==> after.revision > before.revision && behind(
            before,
            next_after(counter),
        ),
{
}

/// An actor vouched for by another service gets nothing from this one's cache,
/// whatever subject it carries.
pub proof fn law_lookup_is_scoped_to_the_authority(
    identities: Seq<(Seq<char>, Seq<char>)>,
    id: Seq<char>,
)
    requires
        forall|i: int|
            0 <= i < identities.len() && (#[trigger] identities[i]).0 == USER_AUTHORITY@
                ==> identities[i].1 != id,
    ensures
        !vouched(identities, id),
{
}

/// Nothing that has expired is served, and after a flush nothing is served.
pub proof fn law_expired_or_flushed_is_not_served(
    identities: Seq<(Seq<char>, Seq<char>)>,
    key: Seq<char>,
    admitted: Map<Seq<char>, AdmittedView>,
    now: int,
)
    requires
        forall|sub: Seq<char>|
            #![trigger admitted[sub]]
            admitted.contains_key(sub) ==> admitted[sub].expires <= now,
    ensures
        served(identities, key, admitted, now) == Seq::<AttrView>::empty(),
    decreases identities.len(),
{
    if identities.len() > 0 {
        law_expired_or_flushed_is_not_served(identities.drop_last(), key, admitted, now);
    }
}

/// Recording one session leaves the anchors of every other live session alone.
pub proof fn law_sessions_are_independent(
    sessions: Map<Seq<char>, SessionView>,
    id: Seq<char>,
    other: Seq<char>,
    anchors: SessionView,
    now: int,
)
    requires
        id != other,
        sessions.contains_key(other),
        sessions[other].expires > now,
    ensures
        live_sessions(sessions, now).insert(id, anchors).contains_pair(other, sessions[other]),
        live_sessions(sessions, now).insert(id, anchors).contains_pair(id, anchors),
{
}

/// Every authentication that validation accepts at `now` leaves a session that
/// has not ended yet at `now`.
pub proof fn law_ceiling_covers_what_is_accepted(cfg: OidcConfigView, auth_time: int, now: int)
    requires
        cfg.max_auth_age_seconds > 0,
        now - auth_time <= cfg.max_auth_age_seconds * NANOS_PER_SEC + MAX_CLOCK_SKEW_SECS
            * NANOS_PER_SEC,
    ensures
        session_end(cfg, auth_time) matches Some(end) ==> now <= end,
{
    let end = auth_time + (cfg.max_auth_age_seconds + MAX_CLOCK_SKEW_SECS) * NANOS_PER_SEC;
    assert((cfg.max_auth_age_seconds + MAX_CLOCK_SKEW_SECS) * NANOS_PER_SEC
        == cfg.max_auth_age_seconds * NANOS_PER_SEC + MAX_CLOCK_SKEW_SECS * NANOS_PER_SEC)
        by (nonlinear_arith);
}

/// The texts of a claim: a text is itself, a boolean is `true` or `false`, a number is as it
/// is written, and nothing and an object have none. An array has the texts of its items, one
/// after the other.
pub proof fn law_texts_of_a_claim(v: JsonView, items: Seq<JsonView>, more: Seq<JsonView>)
    ensures
        v matches JsonView::Text(s) ==> claim_texts(v) == seq![s],
        v == JsonView::Bool(true) ==> claim_texts(v) == seq!["true"@],
        v == JsonView::Bool(false) ==> claim_texts(v) == seq!["false"@],
        v matches JsonView::Number(t, _) ==> claim_texts(v) == seq![t],
        v is Null || v is Object ==> claim_texts(v).len() == 0,
        claim_texts(JsonView::Array(Seq::empty())).len() == 0,
        claim_texts(JsonView::Array(items.push(v))) == claim_texts(JsonView::Array(items))
            + claim_texts(v),
        claim_texts(JsonView::Array(items + more)) == claim_texts(JsonView::Array(items))
            + claim_texts(JsonView::Array(more)),
    decreases more.len(),
{
    assert(items.push(v).drop_last() =~= items);
    reveal_with_fuel(items_texts, 2);
    reveal_with_fuel(claim_texts, 2);
    if more.len() == 0 {
        assert(items + more =~= items);
        assert(claim_texts(JsonView::Array(items)) + claim_texts(JsonView::Array(more))
            =~= claim_texts(JsonView::Array(items)));
    } else {
        let short = more.drop_last();
        law_texts_of_a_claim(v, items, short);
        assert((items + more).drop_last() =~= items + short);
        assert((items + more).last() == more.last());
        assert(items_texts(items + more) =~= items_texts(items) + items_texts(more));
    }
}

/// An array of texts has just these texts, in their order.
pub proof fn law_text_array_gives_each_item(items: Seq<JsonView>)
    requires
        forall|j: int| 0 <= j < items.len() ==> (#[trigger] items[j]) is Text,
    ensures
        claim_texts(JsonView::Array(items)).len() == items.len(),
        forall|j: int|
            0 <= j < items.len() ==> claim_texts(JsonView::Array(items))[j]
                == (#[trigger] items[j])->Text_0,
    decreases items.len(),
{
    if items.len() > 0 {
        let init = items.drop_last();
        let last = items.len() - 1;
        assert forall|j: int| 0 <= j < init.len() implies (#[trigger] init[j]) is Text by {
            assert(init[j] == items[j]);
        }
        law_text_array_gives_each_item(init);
        assert(items[last] is Text);
        assert(items.last() == items[last]);
        law_texts_of_a_claim(items.last(), init, Seq::empty());
        assert(init.push(items.last()) =~= items);
        let all = claim_texts(JsonView::Array(items));
        assert(all =~= claim_texts(JsonView::Array(init)).push(items.last()->Text_0));
        assert forall|j: int| 0 <= j < items.len() implies all[j] == (
        #[trigger] items[j])->Text_0 by {
            if j < last {
                assert(init[j] == items[j]);
            }
        }
    }
}

/// An admitted claim whose name is mapped is an attribute of its key, from this service and
/// with the expiry of the admission. A multi-valued one has all the values of the claim, each
/// at its place; a single-valued one has the first; a tag has none.
pub proof fn law_admitted_claim_is_an_attribute(
    mapper: Seq<MappingView>,
    id: Seq<char>,
    expires: int,
    claims: Seq<(Seq<char>, JsonView)>,
    out: Seq<AttrView>,
    i: int,
    k: int,
)
    requires
        gather(claim_steps(mapper, id, expires, claims)) matches Ok(attrs) && union_of(out, attrs),
        0 <= i < claims.len(),
        0 <= k < mapper.len(),
        mapper[k].service_attr_key == claims[i].0,
        forall|j: int| 0 <= j < k ==> (#[trigger] mapper[j]).service_attr_key != claims[i].0,
        mapper[k].hint is SingleValued ==> claim_texts(claims[i].1).len() > 0,
    ensures
        exists|p: int|
            {
                &&& 0 <= p < out.len()
                &&& (#[trigger] out[p]).key == mapper[k].zpr_key
                &&& out[p].expires == expires
                &&& out[p].source == id
                &&& mapper[k].hint is Tag ==> out[p].values.len() == 0
                &&& mapper[k].hint is SingleValued ==> out[p].values == seq![claim_texts(
                    claims[i].1,
                )[0]]
                &&& mapper[k].hint is SingleValued && claims[i].1 is Text ==> out[p].values
                    == seq![claims[i].1->Text_0]
                &&& mapper[k].hint is MultiValued ==> out[p].values == claim_texts(claims[i].1)
                &&& mapper[k].hint is MultiValued && claims[i].1 is Text ==> out[p].values
                    == seq![claims[i].1->Text_0]
                &&& mapper[k].hint is MultiValued && claims[i].1 is Array && (forall|j: int|
                    0 <= j < claims[i].1->Array_0.len() ==> (#[trigger] claims[i].1->Array_0[j])
                        is Text) ==> {
                    &&& out[p].values.len() == claims[i].1->Array_0.len()
                    &&& forall|j: int|
                        0 <= j < claims[i].1->Array_0.len() ==> out[p].values[j] == (
                        #[trigger] claims[i].1->Array_0[j])->Text_0
                }
            },
{
    let steps = claim_steps(mapper, id, expires, claims);
    crate::attribute::law_mapping_is_the_first_of_its_name(mapper, claims[i].0, k);
    crate::attribute::law_union_holds_the_first_of_each_key(steps, out);
    law_texts_of_a_claim(claims[i].1, Seq::empty(), Seq::empty());
    assert(steps[i] == claim_step(mapper, id, expires, claims[i]));
    assert(steps[i] is Keep);
    let p = choose|p: int|
        0 <= p < out.len() && (#[trigger] out[p]).key == steps[i]->Keep_0.key && out[p].values
            == steps[i]->Keep_0.values;
    law_admitted_attributes_come_from_claims(mapper, id, expires, claims, out, p);
    if let JsonView::Array(items) = claims[i].1 {
        if forall|j: int| 0 <= j < items.len() ==> (#[trigger] items[j]) is Text {
            law_text_array_gives_each_item(items);
        }
    }
    assert(out[p].key == mapper[k].zpr_key);
}

/// Every attribute of an admission is from this service, expires with the admission, and comes
/// from a claim whose name is mapped to its key.
pub proof fn law_admitted_attributes_come_from_claims(
    mapper: Seq<MappingView>,
    id: Seq<char>,
    expires: int,
    claims: Seq<(Seq<char>, JsonView)>,
    out: Seq<AttrView>,
    p: int,
)
    requires
        gather(claim_steps(mapper, id, expires, claims)) matches Ok(attrs) && union_of(out, attrs),
        0 <= p < out.len(),
    ensures
        out[p].expires == expires,
        out[p].source == id,
        exists|i: int, k: int|
            {
                &&& 0 <= i < claims.len()
                &&& 0 <= k < mapper.len()
                &&& (#[trigger] mapper[k]).service_attr_key == (#[trigger] claims[i]).0
                &&& out[p].key == mapper[k].zpr_key
                &&& forall|j: int|
                    0 <= j < out[p].values.len() ==> claim_texts(claims[i].1).contains(
                        #[trigger] out[p].values[j],
                    )
            },
{
    let steps = claim_steps(mapper, id, expires, claims);
    crate::attribute::law_union_holds_the_first_of_each_key(steps, out);
    assert(out.contains(out[p]));
    let i = choose|i: int| crate::attribute::opens(steps, i, out[p]);
    assert(steps[i] == claim_step(mapper, id, expires, claims[i]));
    crate::attribute::law_mapping_has_the_name(mapper, claims[i].0);
    let m = mapping_of(mapper, claims[i].0)->0;
    let k = choose|k: int| 0 <= k < mapper.len() && mapper[k] == m;
    assert(mapper[k].service_attr_key == claims[i].0);
    assert forall|j: int| 0 <= j < out[p].values.len() implies claim_texts(claims[i].1).contains(
        #[trigger] out[p].values[j],
    ) by {
        assert(out[p].values[j] == claim_texts(claims[i].1)[j]);
    }
}

/// Claims are admitted unless two of them are mapped to one key with different values.
pub proof fn law_claims_of_different_keys_are_admitted(
    mapper: Seq<MappingView>,
    id: Seq<char>,
    expires: int,
    claims: Seq<(Seq<char>, JsonView)>,
)
    requires
        forall|i: int, j: int, k: int, l: int|
            0 <= i < j < claims.len() && 0 <= k < mapper.len() && 0 <= l < mapper.len() && (
            #[trigger] mapper[k]).service_attr_key == (#[trigger] claims[i]).0 && (
            #[trigger] mapper[l]).service_attr_key == (#[trigger] claims[j]).0 ==> mapper[k].zpr_key
                != mapper[l].zpr_key,
    ensures
        gather(claim_steps(mapper, id, expires, claims)) is Ok,
{
    let steps = claim_steps(mapper, id, expires, claims);
    assert forall|i: int, j: int|
        0 <= i < j < steps.len() && (#[trigger] steps[i]) is Keep && (#[trigger] steps[j])
            is Keep implies steps[i]->Keep_0.key != steps[j]->Keep_0.key by {
        assert(steps[i] == claim_step(mapper, id, expires, claims[i]));
        assert(steps[j] == claim_step(mapper, id, expires, claims[j]));
        crate::attribute::law_mapping_has_the_name(mapper, claims[i].0);
        crate::attribute::law_mapping_has_the_name(mapper, claims[j].0);
        let a = mapping_of(mapper, claims[i].0)->0;
        let b = mapping_of(mapper, claims[j].0)->0;
        let k = choose|k: int| 0 <= k < mapper.len() && mapper[k] == a;
        let l = choose|l: int| 0 <= l < mapper.len() && mapper[l] == b;
        assert(mapper[k].service_attr_key == claims[i].0);
        assert(mapper[l].service_attr_key == claims[j].0);
    }
    assert forall|i: int| 0 <= i < steps.len() implies !((#[trigger] steps[i]) is Fail) by {
        assert(steps[i] == claim_step(mapper, id, expires, claims[i]));
    }
    crate::attribute::law_agreeing_records_are_gathered(steps);
}

/// An admission and the recording of a session leave every other entry alone that has not
/// expired, and drop those that have.
pub proof fn law_only_expired_entries_are_dropped(
    admitted: Map<Seq<char>, AdmittedView>,
    sessions: Map<Seq<char>, SessionView>,
    now: int,
    who: Seq<char>,
)
    ensures
        live_admitted(admitted, now).contains_key(who) <==> admitted.contains_key(who)
            && admitted[who].expires > now,
        live_admitted(admitted, now).contains_key(who) ==> live_admitted(admitted, now)[who]
            == admitted[who],
        live_sessions(sessions, now).contains_key(who) <==> sessions.contains_key(who)
            && sessions[who].expires > now,
        live_sessions(sessions, now).contains_key(who) ==> live_sessions(sessions, now)[who]
            == sessions[who],
{
}

/// The identity at a place names a subject that has been admitted with this attribute and has
/// not expired.
pub open spec fn names_live(
    store: StoreView,
    identities: Seq<(Seq<char>, Seq<char>)>,
    key: Seq<char>,
    now: int,
    i: int,
    a: AttrView,
) -> bool {
    &&& 0 <= i < identities.len()
    &&& identities[i].0 == key
    &&& store.admitted.contains_key(identities[i].1)
    &&& store.admitted[identities[i].1].expires > now
    &&& store.admitted[identities[i].1].attrs.contains(a)
}

/// Some live subject that is named has been admitted with this attribute.
pub open spec fn is_live_attr(
    store: StoreView,
    identities: Seq<(Seq<char>, Seq<char>)>,
    key: Seq<char>,
    now: int,
    a: AttrView,
) -> bool {
    exists|i: int| #[trigger] names_live(store, identities, key, now, i, a)
}

proof fn lemma_served_members(
    store: StoreView,
    identities: Seq<(Seq<char>, Seq<char>)>,
    key: Seq<char>,
    now: int,
)
    ensures
        forall|a: AttrView| #[trigger]
            served(identities, key, store.admitted, now).contains(a) ==> exists|i: int| #[trigger]
                names_live(store, identities, key, now, i, a),
        forall|i: int, a: AttrView| #[trigger]
            names_live(store, identities, key, now, i, a) ==> served(
                identities,
                key,
                store.admitted,
                now,
            ).contains(a),
    decreases identities.len(),
{
    let all = served(identities, key, store.admitted, now);
    if identities.len() > 0 {
        let init = identities.drop_last();
        let last = identities.len() - 1;
        lemma_served_members(store, init, key, now);
        let before = served(init, key, store.admitted, now);
        assert(identities.last() == identities[last]);
        assert forall|a: AttrView| #[trigger] all.contains(a) implies exists|i: int| #[trigger]
            names_live(store, identities, key, now, i, a) by {
            let p = choose|p: int| 0 <= p < all.len() && all[p] == a;
            if p < before.len() {
                assert(before[p] == a);
                assert(before.contains(a));
                let i = choose|i: int| #[trigger] names_live(store, init, key, now, i, a);
                assert(init[i] == identities[i]);
                assert(names_live(store, identities, key, now, i, a));
            } else {
                let attrs = store.admitted[identities[last].1].attrs;
                assert(a == attrs[p - before.len()]);
                assert(names_live(store, identities, key, now, last, a));
            }
        }
        assert forall|i: int, a: AttrView| #[trigger]
            names_live(store, identities, key, now, i, a) implies all.contains(a) by {
            if i < last {
                assert(init[i] == identities[i]);
                assert(names_live(store, init, key, now, i, a));
                assert(before.contains(a));
                let p = choose|p: int| 0 <= p < before.len() && before[p] == a;
                assert(all[p] == a);
            } else {
                let attrs = store.admitted[identities[last].1].attrs;
                let q = choose|q: int| 0 <= q < attrs.len() && attrs[q] == a;
                assert(all[before.len() + q] == a);
            }
        }
    }
}

proof fn lemma_served_union(
    store: StoreView,
    identities: Seq<(Seq<char>, Seq<char>)>,
    key: Seq<char>,
    now: int,
    views: Seq<AttrView>,
)
    requires
        gather(keep_all(served(identities, key, store.admitted, now))) matches Ok(attrs)
            && union_of(views, attrs),
    ensures
        forall|p: int|
            0 <= p < views.len() ==> is_live_attr(
                store,
                identities,
                key,
                now,
                #[trigger] views[p],
            ),
        forall|a: AttrView| #[trigger]
            is_live_attr(store, identities, key, now, a) ==> exists|p: int|
                0 <= p < views.len() && (#[trigger] views[p]).key == a.key && views[p].values
                    == a.values,
{
    let all = served(identities, key, store.admitted, now);
    let steps = keep_all(all);
    lemma_served_members(store, identities, key, now);
    crate::attribute::law_union_holds_the_first_of_each_key(steps, views);
    assert forall|p: int| 0 <= p < views.len() implies is_live_attr(
        store,
        identities,
        key,
        now,
        #[trigger] views[p],
    ) by {
        assert(views.contains(views[p]));
        let n = choose|n: int| crate::attribute::opens(steps, n, views[p]);
        assert(steps[n] == Step::Keep(all[n]));
        assert(all.contains(views[p]));
    }
    assert forall|a: AttrView| #[trigger]
        is_live_attr(store, identities, key, now, a) implies exists|p: int|
        0 <= p < views.len() && (#[trigger] views[p]).key == a.key && views[p].values
            == a.values by {
        assert(all.contains(a));
        let n = choose|n: int| 0 <= n < all.len() && all[n] == a;
        assert(steps[n] == Step::Keep(all[n]));
    }
}

proof fn lemma_served_conflict(
    store: StoreView,
    identities: Seq<(Seq<char>, Seq<char>)>,
    key: Seq<char>,
    now: int,
)
    ensures
        gather(keep_all(served(identities, key, store.admitted, now))) is Ok ==> forall|
            a: AttrView,
            b: AttrView,
        |
            {
                &&& #[trigger] is_live_attr(store, identities, key, now, a)
                &&& #[trigger] is_live_attr(store, identities, key, now, b)
                &&& a.key == b.key
            } ==> a.values == b.values,
        gather(keep_all(served(identities, key, store.admitted, now))) is Err ==> exists|
            a: AttrView,
            b: AttrView,
        |
            {
                &&& #[trigger] is_live_attr(store, identities, key, now, a)
                &&& #[trigger] is_live_attr(store, identities, key, now, b)
                &&& a.key == b.key
                &&& a.values != b.values
            },
{
    let all = served(identities, key, store.admitted, now);
    let steps = keep_all(all);
    lemma_served_members(store, identities, key, now);
    crate::attribute::law_agreeing_records_are_gathered(steps);
    assert forall|p: int| 0 <= p < all.len() implies #[trigger] steps[p] == Step::Keep(all[p]) by {}
    if gather(steps) is Ok {
        assert forall|a: AttrView, b: AttrView|
            {
                &&& #[trigger] is_live_attr(store, identities, key, now, a)
                &&& #[trigger] is_live_attr(store, identities, key, now, b)
                &&& a.key == b.key
            } implies a.values == b.values by {
            assert(all.contains(a) && all.contains(b));
            let m = choose|m: int| 0 <= m < all.len() && all[m] == a;
            let n = choose|n: int| 0 <= n < all.len() && all[n] == b;
            assert(steps[m] is Keep && steps[n] is Keep);
        }
    } else {
        let (m, n) = choose|m: int, n: int|
            0 <= m < n < steps.len() && (#[trigger] steps[m]) is Keep && (#[trigger] steps[n])
                is Keep && steps[m]->Keep_0.key == steps[n]->Keep_0.key && steps[m]->Keep_0.values
                != steps[n]->Keep_0.values;
        assert(all.contains(all[m]) && all.contains(all[n]));
        assert(is_live_attr(store, identities, key, now, all[m]));
        assert(is_live_attr(store, identities, key, now, all[n]));
    }
}

proof fn lemma_lookup_is_a_union(
    before: StoreView,
    identities: Seq<(Seq<char>, Seq<char>)>,
    now: int,
    r: Result<Vec<Attribute>, ServiceError>,
    after: StoreView,
    key: Seq<char>,
)
    requires
        lookup_outcome(before, identities, now, r, after),
        sub_key(before.mapper) == Some(key),
        vouched(identities, before.id),
    ensures
        r is Ok <==> gather(keep_all(served(identities, key, before.admitted, now))) is Ok,
        r matches Ok(out) ==> union_of(
            attr_views(out@),
            gather(keep_all(served(identities, key, before.admitted, now)))->Ok_0,
        ),
{
}

/// A lookup that names this service as the authority gives the attributes of all live subjects
/// that it names, under the key that subjects are mapped to, and no others. It fails just where
/// two of these have different values under one key.
pub proof fn law_lookup_gives_what_live_subjects_have(
    before: StoreView,
    identities: Seq<(Seq<char>, Seq<char>)>,
    now: int,
    r: Result<Vec<Attribute>, ServiceError>,
    after: StoreView,
    k: int,
)
    requires
        lookup_outcome(before, identities, now, r, after),
        0 <= k < before.mapper.len(),
        before.mapper[k].service_attr_key == "sub"@,
        forall|j: int| 0 <= j < k ==> (#[trigger] before.mapper[j]).service_attr_key != "sub"@,
        identities.contains(("user.zpr.authority"@, before.id)),
    ensures
        r matches Ok(out) ==> forall|p: int|
            0 <= p < attr_views(out@).len() ==> is_live_attr(
                before,
                identities,
                before.mapper[k].zpr_key,
                now,
                #[trigger] attr_views(out@)[p],
            ),
        r matches Ok(out) ==> forall|a: AttrView| #[trigger]
            is_live_attr(before, identities, before.mapper[k].zpr_key, now, a) ==> exists|p: int|
                0 <= p < attr_views(out@).len() && (#[trigger] attr_views(out@)[p]).key == a.key
                    && attr_views(out@)[p].values == a.values,
        r is Err <==> exists|a: AttrView, b: AttrView|
            {
                &&& #[trigger] is_live_attr(before, identities, before.mapper[k].zpr_key, now, a)
                &&& #[trigger] is_live_attr(before, identities, before.mapper[k].zpr_key, now, b)
                &&& a.key == b.key
                &&& a.values != b.values
            },
{
    let key = before.mapper[k].zpr_key;
    crate::attribute::law_mapping_is_the_first_of_its_name(before.mapper, "sub"@, k);
    lemma_lookup_is_a_union(before, identities, now, r, after, key);
    lemma_served_conflict(before, identities, key, now);
    if let Ok(out) = r {
        lemma_served_union(before, identities, key, now, attr_views(out@));
    }
}

/// A lookup changes nothing but the cache, drops nothing from it that has not expired or that
/// was not asked for, and where it succeeds it drops all that was asked for and has expired. It
/// gives nothing where subjects are not mapped or another service is the authority.
pub proof fn law_lookup_drops_only_the_expired(
    before: StoreView,
    identities: Seq<(Seq<char>, Seq<char>)>,
    now: int,
    r: Result<Vec<Attribute>, ServiceError>,
    after: StoreView,
    sub: Seq<char>,
)
    requires
        lookup_outcome(before, identities, now, r, after),
    ensures
        after == (StoreView { admitted: after.admitted, ..before }),
        after.admitted.contains_key(sub) ==> before.admitted.contains_key(sub)
            && after.admitted[sub] == before.admitted[sub],
        before.admitted.contains_key(sub) && before.admitted[sub].expires > now
            ==> after.admitted.contains_key(sub),
        before.admitted.contains_key(sub) && (forall|i: int|
            0 <= i < identities.len() ==> (#[trigger] identities[i]).1 != sub)
            ==> after.admitted.contains_key(sub),
        !identities.contains(("user.zpr.authority"@, before.id)) || (forall|k: int|
            0 <= k < before.mapper.len() ==> (#[trigger] before.mapper[k]).service_attr_key
                != "sub"@) ==> after == before && (r matches Ok(out) && out@.len() == 0),
        forall|k: int|
            0 <= k < before.mapper.len() && (#[trigger] before.mapper[k]).service_attr_key
                == "sub"@ && (forall|j: int|
                0 <= j < k ==> (#[trigger] before.mapper[j]).service_attr_key != "sub"@)
                && identities.contains(("user.zpr.authority"@, before.id)) && identities.contains(
                (before.mapper[k].zpr_key, sub),
            ) && r is Ok && after.admitted.contains_key(sub) ==> after.admitted[sub].expires > now,
{
    crate::attribute::law_mapping_has_the_name(before.mapper, "sub"@);
    assert forall|k: int|
        0 <= k < before.mapper.len() && (#[trigger] before.mapper[k]).service_attr_key == "sub"@
            && (forall|j: int|
            0 <= j < k ==> (#[trigger] before.mapper[j]).service_attr_key != "sub"@) implies sub_key(
        before.mapper,
    ) == Some(before.mapper[k].zpr_key) by {
        crate::attribute::law_mapping_is_the_first_of_its_name(before.mapper, "sub"@, k);
    }
}

/// A session ends for good when its login is older than the policy allows by five minutes; it
/// has no such end where the policy sets no limit, or where time does not reach that far.
pub proof fn law_session_ends_after_the_limit(cfg: OidcConfigView, auth_time: int)
    ensures
        cfg.max_auth_age_seconds == 0 ==> session_end(cfg, auth_time) is None,
        cfg.max_auth_age_seconds > 0 ==> match session_end(cfg, auth_time) {
            Some(end) => end == auth_time + cfg.max_auth_age_seconds * 1_000_000_000
                + 300_000_000_000,
            None => !representable(
                auth_time + cfg.max_auth_age_seconds * 1_000_000_000 + 300_000_000_000,
            ),
        },
{
    assert((cfg.max_auth_age_seconds + MAX_CLOCK_SKEW_SECS) * NANOS_PER_SEC
        == cfg.max_auth_age_seconds * 1_000_000_000 + 300_000_000_000) by (nonlinear_arith)
        requires
            MAX_CLOCK_SKEW_SECS == 300,
            NANOS_PER_SEC == 1_000_000_000,
    ;
}

/// Revisions go up by one, and begin again after the last.
pub proof fn law_revisions_go_up_by_one(n: u64)
    ensures
        n < u64::MAX ==> next_after(n) == n + 1,
        next_after(u64::MAX) == 0,
        next_after(n) != n,
{
}

} // verus!
