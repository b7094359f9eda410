//! The store of an attribute service, which is asked over HTTPS for the
//! attributes of an actor.
//!
//! The store keeps no attributes. It says what to ask and decides what an answer
//! is worth; anything but a well-formed answer counts as none at all.
use vstd::prelude::*;

use crate::attribute::{
    attr_views, clone_texts, gather, lemma_gather_prefix, lemma_gather_step, mapping_of, union_of,
    AttrHint, AttrUnion, AttrView, Attribute, AttributeMapper, MappingView, Step, Trouble,
};
use crate::error::{ServiceError, ServiceErrorView};
use crate::json::{
    distinct_names, lemma_member_at, members_view, nests_within, object_map, put_text,
    sorted_names, writable, Json, JsonView,
};
use crate::oidc::store::next_after;
use crate::policy::{AttrQueryConfig, AttrQueryConfigView, TrustedService};
use crate::text::{
    cat, cat3, contains_text, decimal, decimal_text, opt_text, quote_list, quoted_list, text_eq,
    text_lt, texts, trim, trim_end_char, trimmed, without_trailing,
};
use crate::time::{representable, secs, Span, Timestamp, NANOS_PER_SEC};
use crate::trusted_services::{next_revision, pair_views, RevisionCounter};

verus! {

/// A declared lifetime must exceed this many seconds.
pub const MIN_ATTRIBUTE_TTL_SECS: u32 = 60;

/// Seconds allowed for a request where policy gives none.
pub const DEFAULT_QUERY_TIMEOUT_SECS: u32 = 5;

/// One attribute of an answer.
#[derive(Debug)]
pub struct QueryAttrEntry {
    pub values: Vec<String>,
    pub expires_at: Option<String>,
}

/// One attribute of an answer as mathematical data.
pub struct EntryView {
    pub values: Seq<Seq<char>>,
    pub expires_at: Option<Seq<char>>,
}

impl View for QueryAttrEntry {
    type V = EntryView;

    open spec fn view(&self) -> EntryView {
        EntryView { values: texts(self.values@), expires_at: opt_text(self.expires_at) }
    }
}

/// The named attributes of an answer as mathematical data.
pub open spec fn entry_views(entries: Seq<(String, QueryAttrEntry)>) -> Seq<
    (Seq<char>, EntryView),
> {
    entries.map_values(|e: (String, QueryAttrEntry)| (e.0@, e.1@))
}

/// The body of an answer.
#[derive(Debug)]
pub enum QueryBody {
    /// It could not be read whole.
    Unreadable(ServiceError),
    /// It was not read, or is not of the expected shape.
    Malformed,
    /// It is well-formed.
    Attributes(Vec<(String, QueryAttrEntry)>),
}

/// How a query came out.
#[derive(Debug)]
pub enum QueryAnswer {
    /// The request failed, for this reason.
    Failed(String),
    /// An answer came: its status, the status as printed, and the body.
    Response(u16, String, QueryBody),
}

/// What `chrono` reads from an RFC 3339 text: the seconds since the epoch and the
/// nanoseconds beyond them.
pub uninterp spec fn rfc3339_parsed(text: Seq<char>) -> Option<(i64, u32)>;

/// Reads a moment with `chrono::DateTime::parse_from_rfc3339`, as its
/// `timestamp` and its `timestamp_subsec_nanos`. The outcome depends on the text
/// alone.
#[verifier::external_body]
fn parse_rfc3339(text: &str) -> (r: Option<(i64, u32)>)
    ensures
        r == rfc3339_parsed(text@),
{
    match chrono::DateTime::parse_from_rfc3339(text) {
        Ok(moment) => Some((moment.timestamp(), moment.timestamp_subsec_nanos())),
        Err(_) => None,
    }
}

/// The moment that an RFC 3339 text denotes.
pub open spec fn moment_of(text: Seq<char>) -> Option<int> {
    match rfc3339_parsed(text) {
        Some((s, n)) => Some(s * NANOS_PER_SEC + n),
        None => None,
    }
}

/// Reads a moment.
fn read_moment(text: &str) -> (r: Option<Timestamp>)
    ensures
        match r {
            Some(t) => moment_of(text@) == Some(t as int),
            None => moment_of(text@) is None,
        },
{
    match parse_rfc3339(text) {
        Some((s, n)) => Some(s as i128 * 1_000_000_000i128 + n as i128),
        None => None,
    }
}

/// The beginning of the store's complaints.
pub open spec fn ts_head(id: Seq<char>) -> Seq<char> {
    "TS '"@ + id + "'"@
}

/// When an attribute of an answer expires: when it says, but no later than policy
/// allows.
pub open spec fn entry_expiry(entry: EntryView, ceiling: int) -> Option<int> {
    match entry.expires_at {
        None => Some(ceiling),
        Some(stamp) => match moment_of(stamp) {
            None => None,
            Some(t) => Some(
                if t <= ceiling {
                    t
                } else {
                    ceiling
                },
            ),
        },
    }
}

/// What one attribute of an answer contributes.
pub open spec fn entry_step(
    mapper: Seq<MappingView>,
    id: Seq<char>,
    now: int,
    ceiling: int,
    entry: (Seq<char>, EntryView),
) -> Step {
    let (name, e) = entry;
    match mapping_of(mapper, name) {
        None => Step::Skip,
        Some(m) => if m.hint is SingleValued && e.values.len() > 1 {
            Step::Fail(
                ts_head(id) + " returned "@ + decimal_text(e.values.len())
                    + " values for single-valued attribute '"@ + name + "'"@,
            )
        } else {
            match entry_expiry(e, ceiling) {
                None => Step::Fail(
                    ts_head(id) + " attribute '"@ + name + "' carries a malformed expires_at"@,
                ),
                Some(expires) => if expires <= now {
                    Step::Skip
                } else if m.hint is Tag {
                    Step::Keep(
                        AttrView { key: m.zpr_key, values: Seq::empty(), expires, source: id },
                    )
                } else if e.values.len() == 0 {
                    Step::Skip
                } else {
                    Step::Keep(AttrView { key: m.zpr_key, values: e.values, expires, source: id })
                },
            }
        },
    }
}

/// What the attributes of an answer contribute, in order.
pub open spec fn entry_steps(
    mapper: Seq<MappingView>,
    id: Seq<char>,
    now: int,
    ceiling: int,
    entries: Seq<(Seq<char>, EntryView)>,
) -> Seq<Step> {
    entries.map_values(|e: (Seq<char>, EntryView)| entry_step(mapper, id, now, ceiling, e))
}

/// The complaint about an answer.
pub open spec fn answer_complaint(id: Seq<char>, t: Trouble) -> ServiceErrorView {
    match t {
        Trouble::Disagree(key) => ServiceErrorView::Internal(
            ts_head(id) + ": two returned attributes disagree on '"@ + key + "'"@,
        ),
        Trouble::Bad(words) => ServiceErrorView::Internal(words),
    }
}

/// The store of one attribute service.
#[derive(Debug)]
pub struct AttrQueryStore {
    id: String,
    mapper: AttributeMapper,
    expiration: Span,
    query_url: String,
    schema_url: String,
    token: String,
    revision: u64,
    born: u64,
}

/// The store as mathematical data.
pub struct AttrQueryView {
    pub id: Seq<char>,
    pub mapper: Seq<MappingView>,
    pub expiration: int,
    pub query_url: Seq<char>,
    pub schema_url: Seq<char>,
    pub token: Seq<char>,
    pub revision: u64,
    /// The revision that the store was built with.
    pub born: u64,
}

impl View for AttrQueryStore {
    type V = AttrQueryView;

    closed spec fn view(&self) -> AttrQueryView {
        AttrQueryView {
            id: self.id@,
            mapper: self.mapper@,
            expiration: self.expiration as int,
            query_url: self.query_url@,
            schema_url: self.schema_url@,
            token: self.token@,
            revision: self.revision,
            born: self.born,
        }
    }
}

impl AttrQueryStore {
    /// The attribute that one entry of an answer becomes, or the complaint about
    /// it.
    fn read_entry(
        &self,
        name: &str,
        entry: &QueryAttrEntry,
        now: Timestamp,
        ceiling: Timestamp,
    ) -> (r: Result<Option<Attribute>, String>)
        ensures
            match r {
                Ok(Some(a)) => entry_step(
                    self@.mapper,
                    self@.id,
                    now as int,
                    ceiling as int,
                    (name@, entry@),
                ) == Step::Keep(a@),
                Ok(None) => entry_step(
                    self@.mapper,
                    self@.id,
                    now as int,
                    ceiling as int,
                    (name@, entry@),
                ) == Step::Skip,
                Err(words) => entry_step(
                    self@.mapper,
                    self@.id,
                    now as int,
                    ceiling as int,
                    (name@, entry@),
                ) == Step::Fail(words@),
            },
    {
        let m = match self.mapper.map_attribute(name) {
            Some(m) => m,
            None => {
                return Ok(None);
            },
        };
        let single = matches!(m.hint, AttrHint::SingleValued);
        if single && entry.values.len() > 1 {
            let head = cat3("TS '", self.id.as_str(), "'");
            let count = decimal(entry.values.len() as u64);
            let counted = cat3(head.as_str(), " returned ", count.as_str());
            let middle = cat(counted.as_str(), " values for single-valued attribute '");
            return Err(cat3(middle.as_str(), name, "'"));
        }
        let expires: Timestamp = match &entry.expires_at {
            None => ceiling,
            Some(stamp) => match read_moment(stamp.as_str()) {
                Some(t) => if t <= ceiling {
                    t
                } else {
                    ceiling
                },
                None => {
                    let head = cat3("TS '", self.id.as_str(), "'");
                    let named = cat3(head.as_str(), " attribute '", name);
                    return Err(cat(named.as_str(), "' carries a malformed expires_at"));
                },
            },
        };
        if expires <= now {
            return Ok(None);
        }
        let values = match m.hint {
            AttrHint::Tag => {
                let none: Vec<String> = Vec::new();
                assert(texts(none@) =~= Seq::empty());
                none
            },
            _ => {
                if entry.values.len() == 0 {
                    return Ok(None);
                }
                clone_texts(&entry.values)
            },
        };
        Ok(
            Some(
                Attribute { key: m.zpr_key.clone(), values, expires, source: self.id.clone() },
            ),
        )
    }

    /// Reads the attributes of a well-formed answer that came in at `now`.
    ///
    /// Names that policy does not map are dropped. A single-valued attribute with
    /// several values, whatever its expiry, a malformed expiry, or two names that map
    /// to one key with different values fail the whole answer. A valued attribute
    /// without values is absent, and so is one that has expired. No attribute outlives
    /// what policy allows.
    pub fn read_attributes(&self, entries: &Vec<(String, QueryAttrEntry)>, now: Timestamp) -> (r:
        Result<Vec<Attribute>, ServiceError>)
        requires
            representable(now + self@.expiration),
            representable(now as int),
        ensures
            match gather(
                entry_steps(
                    self@.mapper,
                    self@.id,
                    now as int,
                    now + self@.expiration,
                    entry_views(entries@),
                ),
            ) {
                Ok(attrs) => r matches Ok(out) && union_of(attr_views(out@), attrs),
                Err(t) => r matches Err(e) && e@ == answer_complaint(self@.id, t),
            },
    {
        let ceiling: Timestamp = now + self.expiration as i128;
        let ghost views = entry_views(entries@);
        let ghost steps = entry_steps(self@.mapper, self@.id, now as int, ceiling as int, views);
        let mut union = AttrUnion::new();
        let mut i: usize = 0;
        assert(steps.take(0) =~= Seq::empty());
        while i < entries.len()
            invariant
                views == entry_views(entries@),
                ceiling == now + self@.expiration,
                steps == entry_steps(self@.mapper, self@.id, now as int, ceiling as int, views),
                i <= entries@.len(),
                union.holds(steps, i as int),
            decreases entries@.len() - i,
        {
            let (name, entry) = (&entries[i].0, &entries[i].1);
            proof {
                assert(steps[i as int] == entry_step(
                    self@.mapper,
                    self@.id,
                    now as int,
                    ceiling as int,
                    (name@, entry@),
                ));
                lemma_gather_step(steps, i as int);
            }
            match self.read_entry(name.as_str(), entry, now, ceiling) {
                Err(words) => {
                    proof {
                        lemma_gather_prefix(steps, i + 1);
                    }
                    return Err(ServiceError::Internal(words));
                },
                Ok(Some(attr)) => {
                    let key = attr.key.clone();
                    if !union.take_in(attr, Ghost(steps), Ghost(i as int)) {
                        let head = cat3("TS '", self.id.as_str(), "'");
                        let middle = cat(head.as_str(), ": two returned attributes disagree on '");
                        return Err(ServiceError::Internal(cat3(middle.as_str(), key.as_str(), "'")));
                    }
                },
                Ok(None) => {},
            }
            i = i + 1;
        }
        assert(steps.take(i as int) =~= steps);
        Ok(union.entries)
    }

    /// Decides what a query is worth that came out at `now`. Every failure, every
    /// status but 200, an unreadable and a malformed body are errors; only a
    /// well-formed answer gives attributes.
    pub fn get_attributes_for_actor(&self, answer: QueryAnswer, now: Timestamp) -> (r: Result<
        Vec<Attribute>,
        ServiceError,
    >)
        requires
            representable(now + self@.expiration),
            representable(now as int),
        ensures
            match answer {
                QueryAnswer::Failed(e) => r matches Err(x) && x@ == ServiceErrorView::Internal(
                    ts_head(self@.id) + " query failed: "@ + e@,
                ),
                QueryAnswer::Response(status, text, _) if status != 200 => r matches Err(x) && x@
                    == ServiceErrorView::Internal(
                    ts_head(self@.id) + " query returned status "@ + text@,
                ),
                QueryAnswer::Response(_, _, QueryBody::Unreadable(e)) => r matches Err(x) && x@
                    == e@,
                QueryAnswer::Response(_, _, QueryBody::Malformed) => r matches Err(x) && x@
                    == ServiceErrorView::Internal(
                    ts_head(self@.id) + " query response does not parse to the zpr-attr/1 shape"@,
                ),
                QueryAnswer::Response(_, _, QueryBody::Attributes(entries)) => match gather(
                    entry_steps(
                        self@.mapper,
                        self@.id,
                        now as int,
                        now + self@.expiration,
                        entry_views(entries@),
                    ),
                ) {
                    Ok(attrs) => r matches Ok(out) && union_of(attr_views(out@), attrs),
                    Err(t) => r matches Err(e) && e@ == answer_complaint(self@.id, t),
                },
            },
    {
        let head = cat3("TS '", self.id.as_str(), "'");
        match answer {
            QueryAnswer::Failed(e) => Err(
                ServiceError::Internal(cat3(head.as_str(), " query failed: ", e.as_str())),
            ),
            QueryAnswer::Response(status, text, body) => {
                if status != 200 {
                    return Err(
                        ServiceError::Internal(
                            cat3(head.as_str(), " query returned status ", text.as_str()),
                        ),
                    );
                }
                match body {
                    QueryBody::Unreadable(e) => Err(e),
                    QueryBody::Malformed => Err(
                        ServiceError::Internal(
                            cat(
                                head.as_str(),
                                " query response does not parse to the zpr-attr/1 shape",
                            ),
                        ),
                    ),
                    QueryBody::Attributes(entries) => self.read_attributes(&entries, now),
                }
            },
        }
    }

    /// Builds the store from its policy record and from what came of reading its
    /// token file, whose printed path is `token_path`. The record must carry the
    /// service's configuration and a lifetime above the minimum; the token,
    /// without the white space around it, must not be empty; and certificate
    /// authorities that policy pins must be there and be readable.
    pub fn new(
        record: &TrustedService,
        token_path: &str,
        token_file: Result<String, String>,
        counter: &mut RevisionCounter,
    ) -> (r: Result<AttrQueryStore, ServiceError>)
        ensures
            match store_complaint(record@, token_path@, file_view(token_file)) {
                Some(e) => (r matches Err(x) && x@ == e) && *final(counter) == *old(counter),
                None => {
                    &&& r matches Ok(store) && store@ == new_store(
                        record@,
                        file_view(token_file)->Ok_0,
                        old(counter).next,
                    )
                    &&& final(counter).next == next_after(old(counter).next)
                },
            },
    {
        let id = &record.service_id;
        let cfg = match &record.attr_query {
            Some(cfg) => cfg,
            None => {
                let text = cat3(
                    "trusted service '",
                    id.as_str(),
                    "': api 'zpr-attr/1' requires an attr_query config in the policy record",
                );
                return Err(ServiceError::Param(text));
            },
        };
        if record.expiration_seconds <= MIN_ATTRIBUTE_TTL_SECS {
            let shown = if record.expiration_seconds == 0 {
                "0ns".to_owned()
            } else {
                cat(decimal(record.expiration_seconds as u64).as_str(), "s")
            };
            let head = cat3("trusted service '", id.as_str(), "' ttl ");
            let text = cat3(head.as_str(), shown.as_str(), " must exceed minimum of 60s");
            return Err(ServiceError::Param(text));
        }
        let head = cat3("TS '", id.as_str(), "'");
        let token = match token_file {
            Ok(content) => trim(content.as_str()),
            Err(e) => {
                let start = cat(head.as_str(), " failed to read bearer token file ");
                let middle = cat3(start.as_str(), token_path, ": ");
                return Err(ServiceError::TrustedServiceInit(cat(middle.as_str(), e.as_str())));
            },
        };
        if token.as_str().is_empty() {
            let start = cat(head.as_str(), " bearer token file ");
            return Err(
                ServiceError::TrustedServiceInit(cat3(start.as_str(), token_path, " is empty")),
            );
        }
        if let Some(pem) = cfg.client_plan().pinned_pem {
            if let Some(e) = check_bundle(id.as_str(), &read_pem_bundle(pem.as_str())) {
                return Err(e);
            }
        }
        let base = trim_end_char(cfg.url.as_str(), '/');
        let revision: u64 = next_revision(counter);
        Ok(
            AttrQueryStore {
                id: record.service_id.clone(),
                mapper: record.returns_attrs.copy(),
                expiration: secs(record.expiration_seconds as u64),
                query_url: cat(base.as_str(), "/query"),
                schema_url: cat(base.as_str(), "/schema"),
                token,
                revision,
                born: revision,
            },
        )
    }

    /// Moves to a new revision, so that every actor is asked about anew.
    pub fn flush(&mut self, counter: &mut RevisionCounter)
        ensures
            final(self)@ == (AttrQueryView { revision: old(counter).next, ..old(self)@ }),
            final(counter).next == next_after(old(counter).next),
    {
        self.revision = next_revision(counter);
    }

    /// The revision that the store was built with, by which it is told from others.
    pub fn born(&self) -> (r: u64)
        ensures
            r == self@.born,
    {
        self.born
    }

    /// The revision of the data that is served.
    pub fn current_revision(&self) -> (r: u64)
        ensures
            r == self@.revision,
    {
        self.revision
    }

    /// The source that the attributes carry.
    pub fn get_source_id(&self) -> (r: &str)
        ensures
            r@ == self@.id,
    {
        self.id.as_str()
    }

    /// Where queries go.
    pub fn query_url(&self) -> (r: &str)
        ensures
            r@ == self@.query_url,
    {
        self.query_url.as_str()
    }

    /// Where the schema is.
    pub fn schema_url(&self) -> (r: &str)
        ensures
            r@ == self@.schema_url,
    {
        self.schema_url.as_str()
    }

    /// The bearer token.
    pub fn token(&self) -> (r: &str)
        ensures
            r@ == self@.token,
    {
        self.token.as_str()
    }
}

/// What pairs say of every name: the last value wins.
pub open spec fn pairs_map(pairs: Seq<(Seq<char>, Seq<char>)>) -> Map<Seq<char>, JsonView>
    decreases pairs.len(),
{
    if pairs.len() == 0 {
        Map::empty()
    } else {
        pairs_map(pairs.drop_last()).insert(pairs.last().0, JsonView::Text(pairs.last().1))
    }
}

/// The outside names of a mapping.
pub open spec fn mapped_names(mapper: Seq<MappingView>) -> Seq<JsonView> {
    mapper.map_values(|m: MappingView| JsonView::Text(m.service_attr_key))
}

/// `body` asks for the mapped names, and for the actor of these identities.
pub open spec fn asks_for(
    body: JsonView,
    mapper: Seq<MappingView>,
    identities: Seq<(Seq<char>, Seq<char>)>,
) -> bool {
    &&& body matches JsonView::Object(members)
    &&& members.len() == 2
    &&& members[0] == ("attributes"@, JsonView::Array(mapped_names(mapper)))
    &&& members[1].0 == "identities"@
    &&& members[1].1 matches JsonView::Object(pairs)
    &&& sorted_names(pairs)
    &&& object_map(pairs) == pairs_map(identities)
}

impl AttrQueryStore {
    /// The body of a query: the identities, and the outside names that will be
    /// kept.
    pub fn query_body(&self, identities: &Vec<(String, String)>) -> (r: Json)
        ensures
            asks_for(r@, self@.mapper, pair_views(identities@)),
            writable(r@),
            nests_within(r@, 100),
    {
        let mut names: Vec<Json> = Vec::new();
        let mut i: usize = 0;
        while i < self.mapper.mappings.len()
            invariant
                i <= self.mapper.mappings@.len(),
                names@.len() == i,
                forall|j: int|
                    0 <= j < i ==> (#[trigger] names@[j])@ == JsonView::Text(
                        self.mapper.mappings@[j].service_attr_key@,
                    ),
            decreases self.mapper.mappings@.len() - i,
        {
            names.push(Json::Text(self.mapper.mappings[i].service_attr_key.clone()));
            i = i + 1;
        }
        let ghost all = pair_views(identities@);
        let mut pairs: Vec<(String, Json)> = Vec::new();
        let mut k: usize = 0;
        proof {
            assert(members_view(pairs@) =~= Seq::empty());
            assert(object_map(members_view(pairs@)) =~= Map::empty());
            assert(all.take(0) =~= Seq::empty());
        }
        while k < identities.len()
            invariant
                all == pair_views(identities@),
                k <= identities@.len(),
                sorted_names(members_view(pairs@)),
                object_map(members_view(pairs@)) == pairs_map(all.take(k as int)),
            decreases identities@.len() - k,
        {
            put_text(&mut pairs, identities[k].0.as_str(), identities[k].1.as_str());
            k = k + 1;
            proof {
                assert(all.take(k as int).drop_last() =~= all.take(k - 1));
                assert(all.take(k as int).last() == all[k - 1]);
            }
        }
        let ghost names_seq = names@;
        let ghost pairs_seq = pairs@;
        let mut members: Vec<(String, Json)> = Vec::new();
        members.push(("attributes".to_owned(), Json::Array(names)));
        members.push(("identities".to_owned(), Json::Object(pairs)));
        proof {
            assert(all.take(k as int) =~= all);
            let first = JsonView::Array(mapped_names(self@.mapper));
            let second = JsonView::Object(members_view(pairs_seq));
            assert(members@[0].1@->Array_0 =~= mapped_names(self@.mapper));
            assert(members@[1].1@->Object_0 =~= members_view(pairs_seq));
            lemma_pairs_are_texts(members_view(pairs_seq), all);
            reveal_strlit("attributes");
            reveal_strlit("identities");
            assert(text_lt("attributes"@, "identities"@));
            let body = Json::Object(members)@;
            assert(body->Object_0 =~= seq![("attributes"@, first), ("identities"@, second)]);
            reveal_with_fuel(writable, 3);
            reveal_with_fuel(nests_within, 3);
            assert(writable(first));
            assert(writable(second));
            assert(nests_within(first, 99));
            assert(nests_within(second, 99));
        }
        Json::Object(members)
    }
}

pub proof fn lemma_pairs_are_texts(
    members: Seq<(Seq<char>, JsonView)>,
    pairs: Seq<(Seq<char>, Seq<char>)>,
)
    requires
        sorted_names(members),
        object_map(members) == pairs_map(pairs),
    ensures
        forall|i: int| 0 <= i < members.len() ==> (#[trigger] members[i]).1 is Text,
{
    assert(distinct_names(members));
    assert forall|i: int| 0 <= i < members.len() implies (#[trigger] members[i]).1 is Text by {
        lemma_member_at(members, members[i].0);
        assert(object_map(members).contains_key(members[i].0));
        lemma_map_of_texts(pairs, members[i].0);
    }
}

proof fn lemma_map_of_texts(pairs: Seq<(Seq<char>, Seq<char>)>, name: Seq<char>)
    ensures
        pairs_map(pairs).contains_key(name) ==> pairs_map(pairs)[name] is Text,
    decreases pairs.len(),
{
    if pairs.len() > 0 {
        lemma_map_of_texts(pairs.drop_last(), name);
    }
}

/// One attribute definition of a schema.
#[derive(Debug)]
pub struct SchemaAttrDef {
    pub name: String,
    pub scim_type: String,
    pub multi_valued: bool,
}

/// A definition as mathematical data.
pub struct DefView {
    pub name: Seq<char>,
    pub scim_type: Seq<char>,
    pub multi_valued: bool,
}

impl View for SchemaAttrDef {
    type V = DefView;

    open spec fn view(&self) -> DefView {
        DefView {
            name: self.name@,
            scim_type: self.scim_type@,
            multi_valued: self.multi_valued,
        }
    }
}

/// The type of a definition that names none.
pub fn default_scim_type() -> (r: String)
    ensures
        r@ == "string"@,
{
    "string".to_owned()
}

/// What the schema endpoint says.
#[derive(Debug)]
pub struct SchemaResponse {
    pub identity_keys: Vec<String>,
    pub attributes: Vec<SchemaAttrDef>,
}

/// The definitions of a schema as mathematical data.
pub open spec fn def_views(defs: Seq<SchemaAttrDef>) -> Seq<DefView> {
    defs.map_values(|d: SchemaAttrDef| d@)
}

/// The last definition of a name.
pub open spec fn definition_of(defs: Seq<DefView>, name: Seq<char>) -> Option<DefView>
    decreases defs.len(),
{
    if defs.len() == 0 {
        None
    } else if defs.last().name == name {
        Some(defs.last())
    } else {
        definition_of(defs.drop_last(), name)
    }
}

/// Whether a definition contradicts the way policy spells the attribute: a tag is
/// a single boolean; anything else is neither boolean nor complex, and has several
/// values exactly where policy says so.
pub open spec fn contradicts(hint: AttrHint, def: DefView) -> bool {
    match hint {
        AttrHint::Tag => def.scim_type != "boolean"@ || def.multi_valued,
        AttrHint::MultiValued => def.scim_type == "boolean"@ || def.scim_type == "complex"@
            || !def.multi_valued,
        AttrHint::SingleValued => def.scim_type == "boolean"@ || def.scim_type == "complex"@
            || def.multi_valued,
    }
}

/// What there is to say of one mapping.
pub open spec fn mapping_finding(defs: Seq<DefView>, m: MappingView) -> Option<Seq<char>> {
    let name = m.service_attr_key;
    match definition_of(defs, name) {
        None => Some("mapped attribute '"@ + name + "' is not in the service schema"@),
        Some(def) => if contradicts(m.hint, def) {
            Some(
                "mapped attribute '"@ + name + "' disagrees with its schema definition (type '"@
                    + def.scim_type + "', multiValued "@ + (if def.multi_valued {
                    "true"@
                } else {
                    "false"@
                }) + ") under the policy spelling"@,
            )
        } else {
            None
        },
    }
}

/// What there is to say of the mappings, in order.
pub open spec fn mapping_findings(defs: Seq<DefView>, mapper: Seq<MappingView>) -> Seq<Seq<char>>
    decreases mapper.len(),
{
    if mapper.len() == 0 {
        Seq::empty()
    } else {
        let before = mapping_findings(defs, mapper.drop_last());
        match mapping_finding(defs, mapper.last()) {
            Some(text) => before.push(text),
            None => before,
        }
    }
}

/// The service can never match an actor: it names identity keys, and none of them
/// is looked up.
pub open spec fn never_matches(identity_keys: Seq<Seq<char>>, lookup_keys: Seq<Seq<char>>) -> bool {
    &&& identity_keys.len() > 0
    &&& forall|i: int|
        0 <= i < identity_keys.len() ==> !lookup_keys.contains(#[trigger] identity_keys[i])
}

/// The finding about identity keys that share nothing.
pub open spec fn never_matches_text(
    identity_keys: Seq<Seq<char>>,
    lookup_keys: Seq<Seq<char>>,
) -> Seq<char> {
    "schema identityKeys "@ + quoted_list(identity_keys)
        + " share nothing with the policy's lookup-identity keys "@ + quoted_list(lookup_keys)
        + " — the service can never match an actor"@
}

/// Everything there is to say of a schema.
pub open spec fn findings_of(
    mapper: Seq<MappingView>,
    defs: Seq<DefView>,
    identity_keys: Seq<Seq<char>>,
    lookup_keys: Seq<Seq<char>>,
) -> Seq<Seq<char>> {
    if never_matches(identity_keys, lookup_keys) {
        mapping_findings(defs, mapper).push(never_matches_text(identity_keys, lookup_keys))
    } else {
        mapping_findings(defs, mapper)
    }
}

/// The last definition of a name.
fn find_definition<'a>(defs: &'a Vec<SchemaAttrDef>, name: &str) -> (r: Option<&'a SchemaAttrDef>)
    ensures
        match r {
            Some(d) => definition_of(def_views(defs@), name@) == Some(d@),
            None => definition_of(def_views(defs@), name@) is None,
        },
{
    let ghost all = def_views(defs@);
    let mut i: usize = defs.len();
    assert(all.take(i as int) =~= all);
    while i > 0
        invariant
            all == def_views(defs@),
            i <= defs@.len(),
            definition_of(all, name@) == definition_of(all.take(i as int), name@),
        decreases i,
    {
        assert(all.take(i as int).last() == defs@[i - 1]@);
        assert(all.take(i as int).drop_last() =~= all.take(i - 1));
        i = i - 1;
        if text_eq(defs[i].name.as_str(), name) {
            return Some(&defs[i]);
        }
    }
    None
}

impl AttrQueryStore {
    /// The finding about one mapping.
    fn check_mapping(
        defs: &Vec<SchemaAttrDef>,
        m: &crate::attribute::AttributeMapping,
    ) -> (r: Option<String>)
        ensures
            opt_text(r) == mapping_finding(def_views(defs@), m@),
    {
        let name = m.service_attr_key.as_str();
        let def = match find_definition(defs, name) {
            Some(def) => def,
            None => {
                return Some(
                    cat3("mapped attribute '", name, "' is not in the service schema"),
                );
            },
        };
        let boolean = text_eq(def.scim_type.as_str(), "boolean");
        let complex = text_eq(def.scim_type.as_str(), "complex");
        let wrong = match m.hint {
            AttrHint::Tag => !boolean || def.multi_valued,
            AttrHint::MultiValued => boolean || complex || !def.multi_valued,
            AttrHint::SingleValued => boolean || complex || def.multi_valued,
        };
        if !wrong {
            return None;
        }
        let head = cat3(
            "mapped attribute '",
            name,
            "' disagrees with its schema definition (type '",
        );
        let typed = cat3(head.as_str(), def.scim_type.as_str(), "', multiValued ");
        let several = if def.multi_valued {
            "true"
        } else {
            "false"
        };
        Some(cat3(typed.as_str(), several, ") under the policy spelling"))
    }

    /// The advice that a schema gives rise to: a sentence for every mapped name that
    /// the schema lacks or defines otherwise, and one if the service can never match
    /// an actor. It never stands in the way of a policy.
    pub fn schema_findings(
        &self,
        schema: &SchemaResponse,
        lookup_identity_keys: &Vec<String>,
    ) -> (r: Vec<String>)
        ensures
            texts(r@) == findings_of(
                self@.mapper,
                def_views(schema.attributes@),
                texts(schema.identity_keys@),
                texts(lookup_identity_keys@),
            ),
    {
        let ghost mapper = self@.mapper;
        let ghost defs = def_views(schema.attributes@);
        let mut out: Vec<String> = Vec::new();
        let mut i: usize = 0;
        assert(texts(out@) =~= Seq::empty());
        while i < self.mapper.mappings.len()
            invariant
                mapper == self@.mapper,
                defs == def_views(schema.attributes@),
                i <= self.mapper.mappings@.len(),
                texts(out@) == mapping_findings(defs, mapper.take(i as int)),
            decreases self.mapper.mappings@.len() - i,
        {
            proof {
                assert(mapper.take(i + 1).drop_last() =~= mapper.take(i as int));
                assert(mapper.take(i + 1).last() == self.mapper.mappings@[i as int]@);
            }
            if let Some(text) = AttrQueryStore::check_mapping(
                &schema.attributes,
                &self.mapper.mappings[i],
            ) {
                let ghost before = out@;
                out.push(text);
                assert(texts(out@) =~= texts(before).push(text@));
            }
            i = i + 1;
        }
        assert(mapper.take(i as int) =~= mapper);
        let ghost ids = texts(schema.identity_keys@);
        let ghost keys = texts(lookup_identity_keys@);
        let mut shared = false;
        let mut k: usize = 0;
        while k < schema.identity_keys.len()
            invariant
                ids == texts(schema.identity_keys@),
                keys == texts(lookup_identity_keys@),
                k <= schema.identity_keys@.len(),
                shared == exists|j: int| 0 <= j < k && keys.contains(#[trigger] ids[j]),
            decreases schema.identity_keys@.len() - k,
        {
            assert(ids[k as int] == schema.identity_keys@[k as int]@);
            if contains_text(lookup_identity_keys, schema.identity_keys[k].as_str()) {
                shared = true;
            }
            k = k + 1;
        }
        if schema.identity_keys.len() > 0 && !shared {
            let head = cat("schema identityKeys ", quote_list(&schema.identity_keys).as_str());
            let middle = cat3(
                head.as_str(),
                " share nothing with the policy's lookup-identity keys ",
                quote_list(lookup_identity_keys).as_str(),
            );
            let ghost before = out@;
            out.push(cat(middle.as_str(), " — the service can never match an actor"));
            assert(texts(out@) =~= texts(before).push(never_matches_text(ids, keys)));
        }
        out
    }
}

/// No attribute of an answer lives longer than policy allows, is already expired,
/// or carries another source than this store; and each comes from a name that
/// policy maps.
pub proof fn law_answers_stay_within_policy(
    mapper: Seq<MappingView>,
    id: Seq<char>,
    now: int,
    ceiling: int,
    entries: Seq<(Seq<char>, EntryView)>,
    i: int,
)
    requires
        gather(entry_steps(mapper, id, now, ceiling, entries)) matches Ok(attrs) && 0 <= i
            < attrs.len(),
    ensures
        now < gather(entry_steps(mapper, id, now, ceiling, entries))->Ok_0[i].expires <= ceiling,
        gather(entry_steps(mapper, id, now, ceiling, entries))->Ok_0[i].source == id,
        exists|e: int|
            0 <= e < entries.len() && (mapping_of(mapper, (#[trigger] entries[e]).0) matches Some(m)
                && m.zpr_key == gather(entry_steps(mapper, id, now, ceiling, entries))->Ok_0[i].key),
    decreases entries.len(),
{
    let steps = entry_steps(mapper, id, now, ceiling, entries);
    if entries.len() > 0 {
        let init = entries.drop_last();
        assert(steps.drop_last() =~= entry_steps(mapper, id, now, ceiling, init));
        let attrs = gather(steps)->Ok_0;
        let before = gather(steps.drop_last())->Ok_0;
        if i < before.len() {
            law_answers_stay_within_policy(mapper, id, now, ceiling, init, i);
            assert(attrs[i] == before[i]);
            let e = choose|e: int|
                0 <= e < init.len() && (mapping_of(mapper, (#[trigger] init[e]).0) matches Some(m)
                    && m.zpr_key == before[i].key);
            assert(entries[e] == init[e]);
        } else {
            assert(attrs[i] == steps.last()->Keep_0);
            assert(entries[entries.len() - 1] == entries.last());
        }
    }
}

/// An answer without attributes, as for an unknown actor, is a success without
/// attributes.
pub proof fn law_unknown_actor_has_no_attributes(
    mapper: Seq<MappingView>,
    id: Seq<char>,
    now: int,
    ceiling: int,
)
    ensures
        gather(entry_steps(mapper, id, now, ceiling, Seq::empty())) == Ok::<Seq<AttrView>, Trouble>(
            Seq::empty(),
        ),
{
    assert(entry_steps(mapper, id, now, ceiling, Seq::empty()) =~= Seq::empty());
}

/// What came of reading a file, as mathematical data.
pub open spec fn file_view(file: Result<String, String>) -> Result<Seq<char>, Seq<char>> {
    match file {
        Ok(s) => Ok(s@),
        Err(e) => Err(e@),
    }
}

/// The base URL, without slashes at its end.
pub open spec fn base_url(cfg: AttrQueryConfigView) -> Seq<char> {
    without_trailing(cfg.url, '/')
}

/// A whole number of seconds, as a duration is printed.
pub open spec fn shown_seconds(n: u32) -> Seq<char> {
    if n == 0 {
        "0ns"@
    } else {
        decimal_text(n as nat) + "s"@
    }
}

/// How many certificates `reqwest` reads from a text in PEM form, or the words of its
/// complaint.
pub uninterp spec fn pem_bundle_read(pem: Seq<char>) -> Result<nat, Seq<char>>;

/// Counts the certificates of a text with `reqwest::Certificate::from_pem_bundle`. The
/// outcome depends on the text alone: their number, or the error's printed form.
#[verifier::external_body]
fn read_pem_bundle(pem: &str) -> (r: Result<usize, String>)
    ensures
        match r {
            Ok(n) => pem_bundle_read(pem@) == Ok::<nat, Seq<char>>(n as nat),
            Err(e) => pem_bundle_read(pem@) == Err::<nat, Seq<char>>(e@),
        },
{
    match reqwest::Certificate::from_pem_bundle(pem.as_bytes()) {
        Ok(certs) => Ok(certs.len()),
        Err(e) => Err(e.to_string()),
    }
}

/// The text of the certificate authorities that policy pins, where it pins any.
pub open spec fn pinned(cfg: AttrQueryConfigView) -> Option<Seq<char>> {
    match cfg.ca_cert_pem {
        Some(pem) if trimmed(pem).len() > 0 => Some(pem),
        _ => None,
    }
}

/// What there is to say against the certificates that came of reading a pin.
pub open spec fn bundle_complaint(id: Seq<char>, read: Result<nat, Seq<char>>) -> Option<
    ServiceErrorView,
> {
    match read {
        Err(words) => Some(
            ServiceErrorView::TrustedServiceInit(
                ts_head(id) + " ca_cert_pem does not parse as PEM certificates: "@ + words,
            ),
        ),
        Ok(n) => if n == 0 {
            Some(
                ServiceErrorView::TrustedServiceInit(
                    ts_head(id) + " ca_cert_pem holds no CERTIFICATE block"@,
                ),
            )
        } else {
            None
        },
    }
}

/// What there is to say against the pin of a configuration.
pub open spec fn pin_complaint(id: Seq<char>, cfg: AttrQueryConfigView) -> Option<
    ServiceErrorView,
> {
    match pinned(cfg) {
        None => None,
        Some(pem) => bundle_complaint(id, pem_bundle_read(pem)),
    }
}

/// Decides on what came of reading a pin.
pub fn check_bundle(id: &str, read: &Result<usize, String>) -> (r: Option<ServiceError>)
    ensures
        match bundle_complaint(
            id@,
            match *read {
                Ok(n) => Ok(n as nat),
                Err(e) => Err(e@),
            },
        ) {
            Some(m) => r matches Some(e) && e@ == m,
            None => r is None,
        },
{
    let head = cat3("TS '", id, "'");
    match read {
        Err(words) => Some(
            ServiceError::TrustedServiceInit(
                cat3(
                    head.as_str(),
                    " ca_cert_pem does not parse as PEM certificates: ",
                    words.as_str(),
                ),
            ),
        ),
        Ok(n) => if *n == 0 {
            Some(
                ServiceError::TrustedServiceInit(
                    cat(head.as_str(), " ca_cert_pem holds no CERTIFICATE block"),
                ),
            )
        } else {
            None
        },
    }
}

/// The store of a record, with the content of its token file.
pub open spec fn new_store(
    record: crate::policy::TrustedServiceView,
    token: Seq<char>,
    revision: u64,
) -> AttrQueryView {
    AttrQueryView {
        id: record.service_id,
        mapper: record.returns_attrs,
        expiration: record.expiration_seconds * NANOS_PER_SEC,
        query_url: base_url(record.attr_query->0) + "/query"@,
        schema_url: base_url(record.attr_query->0) + "/schema"@,
        token: trimmed(token),
        revision,
        born: revision,
    }
}

/// Why no store can be built, if none can.
pub open spec fn store_complaint(
    record: crate::policy::TrustedServiceView,
    token_path: Seq<char>,
    token_file: Result<Seq<char>, Seq<char>>,
) -> Option<ServiceErrorView> {
    let id = record.service_id;
    if record.attr_query is None {
        Some(
            ServiceErrorView::Param(
                "trusted service '"@ + id
                    + "': api 'zpr-attr/1' requires an attr_query config in the policy record"@,
            ),
        )
    } else if record.expiration_seconds <= MIN_ATTRIBUTE_TTL_SECS {
        Some(
            ServiceErrorView::Param(
                "trusted service '"@ + id + "' ttl "@ + shown_seconds(record.expiration_seconds)
                    + " must exceed minimum of 60s"@,
            ),
        )
    } else {
        match token_file {
            Err(e) => Some(
                ServiceErrorView::TrustedServiceInit(
                    ts_head(id) + " failed to read bearer token file "@ + token_path + ": "@ + e,
                ),
            ),
            Ok(content) => if trimmed(content).len() == 0 {
                Some(
                    ServiceErrorView::TrustedServiceInit(
                        ts_head(id) + " bearer token file "@ + token_path + " is empty"@,
                    ),
                )
            } else {
                pin_complaint(id, record.attr_query->0)
            },
        }
    }
}

/// How the HTTPS client of a store is set up.
#[derive(Debug)]
pub struct ClientPlan {
    /// Seconds allowed for a whole request.
    pub timeout_seconds: u32,
    /// The only certificate authorities to trust, if policy pins any.
    pub pinned_pem: Option<String>,
}

impl AttrQueryConfig {
    /// How the client is set up: the default time where policy gives none, and a
    /// pin only where the text holds more than white space. Redirects are never
    /// followed.
    pub fn client_plan(&self) -> (r: ClientPlan)
        ensures
            r.timeout_seconds == (if self.timeout_seconds == 0 {
                DEFAULT_QUERY_TIMEOUT_SECS
            } else {
                self.timeout_seconds
            }),
            opt_text(r.pinned_pem) == pinned(self@),
    {
        let timeout_seconds: u32 = if self.timeout_seconds == 0 {
            DEFAULT_QUERY_TIMEOUT_SECS
        } else {
            self.timeout_seconds
        };
        let pinned_pem = match &self.ca_cert_pem {
            Some(pem) => {
                if trim(pem.as_str()).as_str().is_empty() {
                    None
                } else {
                    Some(pem.clone())
                }
            },
            None => None,
        };
        ClientPlan { timeout_seconds, pinned_pem }
    }
}

/// Every attribute that is read from an answer is as its entry says: the name of the entry is
/// mapped to its key, its values are those of the entry, or none for a tag, and it expires at
/// the lesser of the moment that the entry sets and the end of the lifetime that policy allows,
/// which lies ahead.
pub proof fn law_attribute_is_as_its_entry_says(
    mapper: Seq<MappingView>,
    id: Seq<char>,
    now: int,
    lifetime: int,
    entries: Seq<(Seq<char>, EntryView)>,
    out: Seq<AttrView>,
    p: int,
)
    requires
        gather(entry_steps(mapper, id, now, now + lifetime, entries)) matches Ok(attrs) && union_of(
            out,
            attrs,
        ),
        0 <= p < out.len(),
    ensures
        out[p].source == id,
        out[p].expires > now,
        exists|e: int, k: int|
            {
                &&& 0 <= e < entries.len()
                &&& 0 <= k < mapper.len()
                &&& (#[trigger] mapper[k]).service_attr_key == (#[trigger] entries[e]).0
                &&& mapper[k].zpr_key == out[p].key
                &&& mapper[k].hint is Tag ==> out[p].values.len() == 0
                &&& mapper[k].hint is SingleValued ==> out[p].values.len() == 1
                &&& !(mapper[k].hint is Tag) ==> out[p].values == entries[e].1.values
                    && out[p].values.len() > 0
                &&& entries[e].1.expires_at is None ==> out[p].expires == now + lifetime
                &&& entries[e].1.expires_at is Some ==> (rfc3339_parsed(
                    entries[e].1.expires_at->0,
                ) matches Some((s, n)) && out[p].expires == (if s * 1_000_000_000 + n < now
                    + lifetime {
                    s * 1_000_000_000 + n
                } else {
                    now + lifetime
                }))
            },
{
    let steps = entry_steps(mapper, id, now, now + lifetime, entries);
    crate::attribute::law_union_holds_the_first_of_each_key(steps, out);
    assert(out.contains(out[p]));
    let e = choose|e: int| crate::attribute::opens(steps, e, out[p]);
    assert(steps[e] == entry_step(mapper, id, now, now + lifetime, entries[e]));
    crate::attribute::law_mapping_has_the_name(mapper, entries[e].0);
    let m = mapping_of(mapper, entries[e].0)->0;
    let k = choose|k: int| 0 <= k < mapper.len() && mapper[k] == m;
    assert(mapper[k].service_attr_key == entries[e].0);
    if let Some(stamp) = entries[e].1.expires_at {
        assert(moment_of(stamp) is Some);
    }
}

/// An entry of an answer whose name is mapped and that has not expired is an attribute of the
/// key that its name is mapped to, with its values; a tag needs no value and has none.
pub proof fn law_live_entry_is_an_attribute(
    mapper: Seq<MappingView>,
    id: Seq<char>,
    now: int,
    lifetime: int,
    entries: Seq<(Seq<char>, EntryView)>,
    out: Seq<AttrView>,
    e: int,
    k: int,
)
    requires
        gather(entry_steps(mapper, id, now, now + lifetime, entries)) matches Ok(attrs) && union_of(
            out,
            attrs,
        ),
        lifetime > 0,
        0 <= e < entries.len(),
        0 <= k < mapper.len(),
        mapper[k].service_attr_key == entries[e].0,
        forall|j: int| 0 <= j < k ==> (#[trigger] mapper[j]).service_attr_key != entries[e].0,
        entries[e].1.expires_at matches Some(stamp) ==> (rfc3339_parsed(stamp) matches Some((s, n))
            && s * 1_000_000_000 + n > now),
        mapper[k].hint is Tag || entries[e].1.values.len() > 0,
    ensures
        exists|p: int|
            {
                &&& 0 <= p < out.len()
                &&& (#[trigger] out[p]).key == mapper[k].zpr_key
                &&& mapper[k].hint is Tag ==> out[p].values.len() == 0
                &&& !(mapper[k].hint is Tag) ==> out[p].values == entries[e].1.values
            },
{
    let steps = entry_steps(mapper, id, now, now + lifetime, entries);
    crate::attribute::law_mapping_is_the_first_of_its_name(mapper, entries[e].0, k);
    crate::attribute::law_agreeing_records_are_gathered(steps);
    crate::attribute::law_union_holds_the_first_of_each_key(steps, out);
    assert(steps[e] == entry_step(mapper, id, now, now + lifetime, entries[e]));
    assert(!(steps[e] is Fail));
    assert(steps[e] is Keep);
    let p = choose|p: int|
        0 <= p < out.len() && (#[trigger] out[p]).key == steps[e]->Keep_0.key && out[p].values
            == steps[e]->Keep_0.values;
    assert(out[p].key == mapper[k].zpr_key);
}

/// One bad entry fails the whole answer: several values under a name that is mapped as
/// single-valued, or a moment of expiry that cannot be read.
pub proof fn law_bad_entry_fails_the_answer(
    mapper: Seq<MappingView>,
    id: Seq<char>,
    now: int,
    lifetime: int,
    entries: Seq<(Seq<char>, EntryView)>,
    e: int,
    k: int,
)
    requires
        0 <= e < entries.len(),
        0 <= k < mapper.len(),
        mapper[k].service_attr_key == entries[e].0,
        forall|j: int| 0 <= j < k ==> (#[trigger] mapper[j]).service_attr_key != entries[e].0,
    ensures
        mapper[k].hint is SingleValued && entries[e].1.values.len() > 1 ==> gather(
            entry_steps(mapper, id, now, now + lifetime, entries),
        ) is Err,
        entries[e].1.expires_at is Some && rfc3339_parsed(entries[e].1.expires_at->0) is None
            ==> gather(entry_steps(mapper, id, now, now + lifetime, entries)) is Err,
{
    let steps = entry_steps(mapper, id, now, now + lifetime, entries);
    crate::attribute::law_mapping_is_the_first_of_its_name(mapper, entries[e].0, k);
    crate::attribute::law_agreeing_records_are_gathered(steps);
    assert(steps[e] == entry_step(mapper, id, now, now + lifetime, entries[e]));
}

/// An answer is read where no mapped entry is bad and the entries are mapped to different keys;
/// what is not mapped does not matter.
pub proof fn law_good_answer_is_read(
    mapper: Seq<MappingView>,
    id: Seq<char>,
    now: int,
    lifetime: int,
    entries: Seq<(Seq<char>, EntryView)>,
)
    requires
        forall|e: int, k: int|
            0 <= e < entries.len() && 0 <= k < mapper.len() && (
            #[trigger] mapper[k]).service_attr_key == (#[trigger] entries[e]).0 ==> {
                &&& mapper[k].hint is SingleValued ==> entries[e].1.values.len() <= 1
                &&& entries[e].1.expires_at is Some ==> rfc3339_parsed(
                    entries[e].1.expires_at->0,
                ) is Some
            },
        forall|e: int, f: int, k: int, l: int|
            0 <= e < f < entries.len() && 0 <= k < mapper.len() && 0 <= l < mapper.len() && (
            #[trigger] mapper[k]).service_attr_key == (#[trigger] entries[e]).0 && (
            #[trigger] mapper[l]).service_attr_key == (#[trigger] entries[f]).0 ==> mapper[k].zpr_key
                != mapper[l].zpr_key,
    ensures
        gather(entry_steps(mapper, id, now, now + lifetime, entries)) is Ok,
{
    let steps = entry_steps(mapper, id, now, now + lifetime, entries);
    assert forall|e: int| 0 <= e < steps.len() implies !((#[trigger] steps[e]) is Fail) by {
        assert(steps[e] == entry_step(mapper, id, now, now + lifetime, entries[e]));
        crate::attribute::law_mapping_has_the_name(mapper, entries[e].0);
        if let Some(m) = mapping_of(mapper, entries[e].0) {
            let k = choose|k: int| 0 <= k < mapper.len() && mapper[k] == m;
            assert(mapper[k].service_attr_key == entries[e].0);
        }
    }
    assert forall|e: int, f: int|
        0 <= e < f < steps.len() && (#[trigger] steps[e]) is Keep && (#[trigger] steps[f])
            is Keep implies steps[e]->Keep_0.key != steps[f]->Keep_0.key by {
        assert(steps[e] == entry_step(mapper, id, now, now + lifetime, entries[e]));
        assert(steps[f] == entry_step(mapper, id, now, now + lifetime, entries[f]));
        crate::attribute::law_mapping_has_the_name(mapper, entries[e].0);
        crate::attribute::law_mapping_has_the_name(mapper, entries[f].0);
        let a = mapping_of(mapper, entries[e].0)->0;
        let b = mapping_of(mapper, entries[f].0)->0;
        let k = choose|k: int| 0 <= k < mapper.len() && mapper[k] == a;
        let l = choose|l: int| 0 <= l < mapper.len() && mapper[l] == b;
        assert(mapper[k].service_attr_key == entries[e].0);
        assert(mapper[l].service_attr_key == entries[f].0);
    }
    crate::attribute::law_agreeing_records_are_gathered(steps);
}

proof fn lemma_pairs_map(pairs: Seq<(Seq<char>, Seq<char>)>, i: int)
    requires
        0 <= i < pairs.len(),
        forall|j: int| i < j < pairs.len() ==> (#[trigger] pairs[j]).0 != pairs[i].0,
    ensures
        pairs_map(pairs).contains_pair(pairs[i].0, JsonView::Text(pairs[i].1)),
    decreases pairs.len(),
{
    if i < pairs.len() - 1 {
        let init = pairs.drop_last();
        assert(pairs[pairs.len() - 1].0 != pairs[i].0);
        assert forall|j: int| i < j < init.len() implies (#[trigger] init[j]).0 != init[i].0 by {
            assert(init[j] == pairs[j]);
        }
        lemma_pairs_map(init, i);
        assert(init[i] == pairs[i]);
    }
}

proof fn lemma_pairs_map_names(pairs: Seq<(Seq<char>, Seq<char>)>, name: Seq<char>)
    ensures
        pairs_map(pairs).contains_key(name) ==> exists|i: int|
            0 <= i < pairs.len() && (#[trigger] pairs[i]).0 == name && pairs_map(pairs)[name]
                == JsonView::Text(pairs[i].1),
    decreases pairs.len(),
{
    if pairs.len() > 0 {
        let init = pairs.drop_last();
        lemma_pairs_map_names(init, name);
        let last = pairs.len() - 1;
        if pairs[last].0 == name {
            assert(pairs_map(pairs)[name] == JsonView::Text(pairs[last].1));
        } else if pairs_map(pairs).contains_key(name) {
            let i = choose|i: int|
                0 <= i < init.len() && (#[trigger] init[i]).0 == name && pairs_map(init)[name]
                    == JsonView::Text(init[i].1);
            assert(pairs[i] == init[i]);
        }
    }
}

/// A query names what it wants and whom it asks about: every mapped name, in the order of the
/// mappings, and every identity; of several of one key the last. It names nothing else.
pub proof fn law_query_names_mappings_and_identities(
    body: JsonView,
    mapper: Seq<MappingView>,
    identities: Seq<(Seq<char>, Seq<char>)>,
    name: Seq<char>,
    i: int,
)
    requires
        asks_for(body, mapper, identities),
    ensures
        body is Object,
        body->Object_0.len() == 2,
        body->Object_0[0].0 == "attributes"@,
        body->Object_0[0].1 is Array,
        body->Object_0[0].1->Array_0.len() == mapper.len(),
        forall|k: int|
            0 <= k < mapper.len() ==> #[trigger] body->Object_0[0].1->Array_0[k] == JsonView::Text(
                mapper[k].service_attr_key,
            ),
        body->Object_0[1].0 == "identities"@,
        body->Object_0[1].1 is Object,
        0 <= i < identities.len() && (forall|j: int|
            i < j < identities.len() ==> (#[trigger] identities[j]).0 != identities[i].0)
            ==> crate::json::member(body->Object_0[1].1->Object_0, identities[i].0) == Some(
            JsonView::Text(identities[i].1),
        ),
        crate::json::member(body->Object_0[1].1->Object_0, name) is Some ==> exists|k: int|
            0 <= k < identities.len() && (#[trigger] identities[k]).0 == name,
{
    let pairs = body->Object_0[1].1->Object_0;
    if 0 <= i < identities.len() && (forall|j: int|
        i < j < identities.len() ==> (#[trigger] identities[j]).0 != identities[i].0) {
        lemma_pairs_map(identities, i);
        assert(object_map(pairs).contains_key(identities[i].0));
        assert(object_map(pairs)[identities[i].0] == JsonView::Text(identities[i].1));
    }
    lemma_pairs_map_names(identities, name);
    if crate::json::member(pairs, name) is Some {
        assert(object_map(pairs).contains_key(name));
    }
}

/// The definition of a name in a schema is the last of that name.
pub proof fn law_schema_definition_is_the_last_of_its_name(
    defs: Seq<DefView>,
    name: Seq<char>,
    i: int,
)
    ensures
        0 <= i < defs.len() && defs[i].name == name && (forall|j: int|
            i < j < defs.len() ==> (#[trigger] defs[j]).name != name) ==> definition_of(defs, name)
            == Some(defs[i]),
        (forall|j: int| 0 <= j < defs.len() ==> (#[trigger] defs[j]).name != name)
            ==> definition_of(defs, name) is None,
    decreases defs.len(),
{
    if defs.len() > 0 {
        let init = defs.drop_last();
        law_schema_definition_is_the_last_of_its_name(init, name, i);
        assert(defs.last() == defs[defs.len() - 1]);
        if 0 <= i < defs.len() - 1 {
            assert(init[i] == defs[i]);
        }
        if i >= 0 && forall|j: int| i < j < defs.len() ==> (#[trigger] defs[j]).name != name {
            assert forall|j: int| i < j < init.len() implies (#[trigger] init[j]).name != name by {
                assert(init[j] == defs[j]);
            }
        }
        if forall|j: int| 0 <= j < defs.len() ==> (#[trigger] defs[j]).name != name {
            assert forall|j: int| 0 <= j < init.len() implies (#[trigger] init[j]).name != name by {
                assert(init[j] == defs[j]);
            }
        }
    }
}

/// A mapping fits a definition where a tag is mapped from a boolean of one value, several values
/// from an attribute of several, and one value from an attribute of one, neither of them boolean
/// or complex. A mapping that does not fit is found, and so is one without a definition; the
/// finding names it.
pub proof fn law_mapping_that_does_not_fit_is_found(defs: Seq<DefView>, m: MappingView)
    ensures
        definition_of(defs, m.service_attr_key) is None ==> mapping_finding(defs, m) is Some,
        definition_of(defs, m.service_attr_key) matches Some(def) ==> {
            &&& m.hint is Tag ==> (mapping_finding(defs, m) is None <==> def.scim_type
                == "boolean"@ && !def.multi_valued)
            &&& m.hint is MultiValued ==> (mapping_finding(defs, m) is None <==> def.multi_valued
                && def.scim_type != "boolean"@ && def.scim_type != "complex"@)
            &&& m.hint is SingleValued ==> (mapping_finding(defs, m) is None <==> !def.multi_valued
                && def.scim_type != "boolean"@ && def.scim_type != "complex"@)
        },
        mapping_finding(defs, m) matches Some(text) ==> ("mapped attribute '"@
            + m.service_attr_key).is_prefix_of(text),
{
    if let Some(text) = mapping_finding(defs, m) {
        let head = "mapped attribute '"@ + m.service_attr_key;
        assert(text.subrange(0, head.len() as int) =~= head);
    }
}

/// A schema is found fault with just where a mapping does not fit, or where it names identity
/// keys and none of them is one that lookups use.
pub proof fn law_schema_is_found_fault_with(
    mapper: Seq<MappingView>,
    defs: Seq<DefView>,
    identity_keys: Seq<Seq<char>>,
    lookup_keys: Seq<Seq<char>>,
)
    ensures
        findings_of(mapper, defs, identity_keys, lookup_keys).len() == 0 <==> {
            &&& forall|k: int|
                0 <= k < mapper.len() ==> mapping_finding(defs, #[trigger] mapper[k]) is None
            &&& identity_keys.len() == 0 || exists|i: int|
                0 <= i < identity_keys.len() && lookup_keys.contains(#[trigger] identity_keys[i])
        },
        forall|k: int|
            0 <= k < mapper.len() && mapping_finding(defs, #[trigger] mapper[k]) is Some
                ==> findings_of(mapper, defs, identity_keys, lookup_keys).contains(
                mapping_finding(defs, mapper[k])->0,
            ),
{
    lemma_mapping_findings(mapper, defs);
    let found = mapping_findings(defs, mapper);
    let all = findings_of(mapper, defs, identity_keys, lookup_keys);
    assert forall|k: int|
        0 <= k < mapper.len() && mapping_finding(defs, #[trigger] mapper[k])
            is Some implies all.contains(mapping_finding(defs, mapper[k])->0) by {
        let p = choose|p: int|
            0 <= p < found.len() && found[p] == mapping_finding(defs, mapper[k])->0;
        assert(all[p] == found[p]);
    }
}

proof fn lemma_mapping_findings(mapper: Seq<MappingView>, defs: Seq<DefView>)
    ensures
        mapping_findings(defs, mapper).len() == 0 <==> forall|k: int|
            0 <= k < mapper.len() ==> mapping_finding(defs, #[trigger] mapper[k]) is None,
        forall|k: int|
            0 <= k < mapper.len() && mapping_finding(defs, #[trigger] mapper[k]) is Some
                ==> mapping_findings(defs, mapper).contains(mapping_finding(defs, mapper[k])->0),
    decreases mapper.len(),
{
    if mapper.len() > 0 {
        let init = mapper.drop_last();
        let last = mapper.len() - 1;
        lemma_mapping_findings(init, defs);
        let before = mapping_findings(defs, init);
        let all = mapping_findings(defs, mapper);
        assert(mapper.last() == mapper[last]);
        assert forall|k: int| 0 <= k < init.len() implies mapper[k] == #[trigger] init[k] by {}
        assert forall|k: int|
            0 <= k < mapper.len() && mapping_finding(defs, #[trigger] mapper[k])
                is Some implies all.contains(mapping_finding(defs, mapper[k])->0) by {
            if k < last {
                assert(mapping_finding(defs, init[k]) is Some);
                let p = choose|p: int|
                    0 <= p < before.len() && before[p] == mapping_finding(defs, init[k])->0;
                assert(all[p] == before[p]);
            } else {
                assert(all[before.len() as int] == mapping_finding(defs, mapper[k])->0);
            }
        }
        if forall|k: int| 0 <= k < mapper.len() ==> mapping_finding(defs, #[trigger] mapper[k])
            is None {
            assert forall|k: int| 0 <= k < init.len() implies mapping_finding(
                defs,
                #[trigger] init[k],
            ) is None by {
                assert(mapper[k] == init[k]);
            }
            assert(mapping_finding(defs, mapper[last]) is None);
        }
    }
}

/// A store is built where its record has a query configuration and a lifetime over a minute, its
/// token file can be read and holds more than white space, and what is pinned, if anything is,
/// reads as certificates; otherwise not.
pub proof fn law_store_needs_a_lifetime_and_a_token(
    record: crate::policy::TrustedServiceView,
    token_path: Seq<char>,
    token_file: Result<Seq<char>, Seq<char>>,
)
    ensures
        store_complaint(record, token_path, token_file) is None <==> {
            &&& record.attr_query is Some
            &&& record.expiration_seconds > 60
            &&& token_file is Ok
            &&& exists|i: int|
                0 <= i < token_file->Ok_0.len() && !crate::text::is_space(
                    #[trigger] token_file->Ok_0[i],
                )
            &&& (record.attr_query->0.ca_cert_pem is Some && exists|i: int|
                0 <= i < record.attr_query->0.ca_cert_pem->0.len() && !crate::text::is_space(
                    #[trigger] record.attr_query->0.ca_cert_pem->0[i],
                )) ==> (pem_bundle_read(record.attr_query->0.ca_cert_pem->0) matches Ok(n) && n > 0)
        },
{
    if let Ok(content) = token_file {
        crate::text::law_trimming_takes_white_space_off_the_ends(content);
    }
    if record.attr_query is Some && record.attr_query->0.ca_cert_pem is Some {
        crate::text::law_trimming_takes_white_space_off_the_ends(
            record.attr_query->0.ca_cert_pem->0,
        );
    }
}

/// What a new store holds: the record's name, mappings and lifetime, in nanoseconds, the token
/// without the white space around it, and the two addresses under the configured one, with just
/// one slash between.
pub proof fn law_new_store_is_as_its_record_says(
    record: crate::policy::TrustedServiceView,
    token: Seq<char>,
    revision: u64,
)
    ensures
        new_store(record, token, revision).id == record.service_id,
        new_store(record, token, revision).mapper == record.returns_attrs,
        new_store(record, token, revision).expiration == record.expiration_seconds * 1_000_000_000,
        new_store(record, token, revision).revision == revision,
        new_store(record, token, revision).token == trimmed(token),
        exists|n: int|
            {
                &&& 0 <= n <= record.attr_query->0.url.len()
                &&& new_store(record, token, revision).query_url
                    == #[trigger] record.attr_query->0.url.take(n) + "/query"@
                &&& new_store(record, token, revision).schema_url == record.attr_query->0.url.take(n)
                    + "/schema"@
                &&& n > 0 ==> record.attr_query->0.url[n - 1] != '/'
                &&& forall|i: int|
                    n <= i < record.attr_query->0.url.len()
                        ==> #[trigger] record.attr_query->0.url[i] == '/'
            },
{
    crate::text::law_trailing_characters_are_taken_off(record.attr_query->0.url, '/');
}

} // verus!
