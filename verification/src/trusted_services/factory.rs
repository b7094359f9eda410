//! The trusted services that a policy declares, and how each is built.
use vstd::prelude::*;

use crate::error::{ServiceError, ServiceErrorView};
use crate::policy::{
    record_of, service_of, OidcConfig, OidcConfigView, Policy, PolicyServiceView, PolicyView,
    TrustedService, TrustedServiceView,
};
use crate::oidc::store::{next_after, OidcTrustedService, StoreView};
use crate::text::{cat, cat3, not_after, text_eq, text_le, to_chars};
use crate::time::{secs, Span, NANOS_PER_SEC};
use crate::trusted_services::attr_query_store::{
    file_view, new_store, store_complaint, AttrQueryStore,
};
use crate::trusted_services::manager::{FileSource, TrustedStore};
use crate::trusted_services::RevisionCounter;

verus! {

/// The API of file-backed trusted services.
pub const TS_API_FILE: &'static str = "file";

/// The API of OIDC identity providers.
pub const TS_API_OIDC: &'static str = "oidc";

/// The API of attribute services.
pub const TS_API_ATTR_QUERY: &'static str = "zpr-attr/1";

/// A declared trusted service, reduced to what determines its store. As long as it
/// stays the same from one policy to the next, the store can stay too.
#[derive(Debug)]
pub struct TrustedServiceDefinition {
    id: String,
    api: String,
    record: TrustedService,
    jwks_proxy_port: Option<u16>,
}

/// A declared trusted service as mathematical data.
pub struct DefinitionView {
    pub id: Seq<char>,
    pub api: Seq<char>,
    pub record: TrustedServiceView,
    /// The port of the service through which signing keys are fetched.
    pub jwks_proxy_port: Option<u16>,
}

impl View for TrustedServiceDefinition {
    type V = DefinitionView;

    closed spec fn view(&self) -> DefinitionView {
        DefinitionView {
            id: self.id@,
            api: self.api@,
            record: self.record@,
            jwks_proxy_port: self.jwks_proxy_port,
        }
    }
}

/// The declared trusted services as mathematical data.
pub open spec fn definition_views(defs: Seq<TrustedServiceDefinition>) -> Seq<DefinitionView> {
    defs.map_values(|d: TrustedServiceDefinition| d@)
}

/// Tells one store from all others: the declaration that it was built from, and the revision
/// that it was built with. It stands for that very store, however often the store changes and
/// whether or not it is still in force.
#[derive(Debug)]
pub struct StoreMark {
    pub definition: TrustedServiceDefinition,
    pub born: u64,
}

/// The mark of a store as mathematical data.
pub struct MarkView {
    pub definition: DefinitionView,
    pub born: u64,
}

impl View for StoreMark {
    type V = MarkView;

    open spec fn view(&self) -> MarkView {
        MarkView { definition: self.definition@, born: self.born }
    }
}

/// Marks as mathematical data.
pub open spec fn mark_views(marks: Seq<StoreMark>) -> Seq<MarkView> {
    marks.map_values(|m: StoreMark| m@)
}

impl StoreMark {
    /// A copy.
    pub fn copy(&self) -> (r: StoreMark)
        ensures
            r@ == self@,
    {
        StoreMark { definition: self.definition.copy(), born: self.born }
    }
}

/// How the store of a trusted service is built.
#[derive(Debug)]
pub enum StorePlan {
    /// From the provider's configuration and its signing keys.
    Oidc,
    /// With the bearer token from this file in the directory of secrets.
    AttrQuery { token_file: String },
    /// From this file in the directory of attribute files; its attributes are good for
    /// the given time.
    File { file: String, lifetime: Span },
}

impl TrustedServiceDefinition {
    /// The declared id, which is also the source that the attributes carry.
    pub fn id(&self) -> (r: &str)
        ensures
            r@ == self@.id,
    {
        self.id.as_str()
    }

    /// The OIDC configuration, where the record has one.
    pub fn oidc_config(&self) -> (r: Option<&OidcConfig>)
        ensures
            match r {
                Some(c) => self@.record.oidc == Some(c@),
                None => self@.record.oidc is None,
            },
    {
        match &self.record.oidc {
            Some(c) => Some(c),
            None => None,
        }
    }

    /// The policy record.
    pub fn record(&self) -> (r: &TrustedService)
        ensures
            r@ == self@.record,
    {
        &self.record
    }

    /// The port of the service through which signing keys are fetched.
    pub fn jwks_proxy_port(&self) -> (r: Option<u16>)
        ensures
            r == self@.jwks_proxy_port,
    {
        self.jwks_proxy_port
    }

    /// Whether the declaration is of the provider with this issuer.
    pub fn provides_for(&self, issuer: &str) -> (r: bool)
        ensures
            r == is_provider(self@, issuer@),
    {
        text_eq(self.api.as_str(), TS_API_OIDC) && match &self.record.oidc {
            Some(cfg) => text_eq(cfg.issuer.as_str(), issuer),
            None => false,
        }
    }

    /// A copy.
    pub fn copy(&self) -> (r: TrustedServiceDefinition)
        ensures
            r@ == self@,
    {
        TrustedServiceDefinition {
            id: self.id.clone(),
            api: self.api.clone(),
            record: self.record.copy(),
            jwks_proxy_port: self.jwks_proxy_port,
        }
    }

    /// Whether the two declarations are the same.
    pub fn same(&self, other: &TrustedServiceDefinition) -> (r: bool)
        ensures
            r == (self@ == other@),
    {
        let port = match (self.jwks_proxy_port, other.jwks_proxy_port) {
            (Some(a), Some(b)) => a == b,
            (None, None) => true,
            _ => false,
        };
        text_eq(self.id.as_str(), other.id.as_str()) && text_eq(
            self.api.as_str(),
            other.api.as_str(),
        ) && self.record.same(&other.record) && port
    }

    /// How the store is built. An OIDC declaration without a configuration is refused.
    pub fn plan(&self) -> (r: Result<StorePlan, ServiceError>)
        ensures
            if self@.api == TS_API_OIDC@ {
                if self@.record.oidc is Some {
                    r matches Ok(StorePlan::Oidc)
                } else {
                    r matches Err(e) && e@ == ServiceErrorView::Param(
                        "trusted service '"@ + self@.id + "': api 'oidc' requires an oidc config"@,
                    )
                }
            } else if self@.api == TS_API_ATTR_QUERY@ {
                r matches Ok(StorePlan::AttrQuery { token_file }) && token_file@ == self@.id
                    + ".token"@
            } else {
                r matches Ok(StorePlan::File { file, lifetime }) && file@ == self@.id + ".json"@
                    && lifetime == self@.record.expiration_seconds * NANOS_PER_SEC
            },
    {
        if text_eq(self.api.as_str(), TS_API_OIDC) {
            if self.record.oidc.is_none() {
                return Err(
                    ServiceError::Param(
                        cat3(
                            "trusted service '",
                            self.id.as_str(),
                            "': api 'oidc' requires an oidc config",
                        ),
                    ),
                );
            }
            Ok(StorePlan::Oidc)
        } else if text_eq(self.api.as_str(), TS_API_ATTR_QUERY) {
            Ok(StorePlan::AttrQuery { token_file: cat(self.id.as_str(), ".token") })
        } else {
            Ok(
                StorePlan::File {
                    file: cat(self.id.as_str(), ".json"),
                    lifetime: secs(self.record.expiration_seconds as u64),
                },
            )
        }
    }

    /// What is said where the source of signing keys cannot be built.
    pub fn key_source_complaint(&self, error: &str) -> (r: ServiceError)
        ensures
            r@ == ServiceErrorView::TrustedServiceInit(
                "TS '"@ + self@.id + "' failed to build JWKS key source: "@ + error@,
            ),
    {
        let head = cat3("TS '", self.id.as_str(), "' failed to build JWKS key source: ");
        ServiceError::TrustedServiceInit(cat(head.as_str(), error))
    }
}

/// What was found of what a store is built from.
pub enum StoreInput {
    /// Whether the source of signing keys could be built.
    Keys(Result<(), String>),
    /// The path of the token file, and what reading it gave.
    Token { path: String, file: Result<String, String> },
    /// Whether the file of attributes could be taken in.
    File(Result<(), ServiceError>),
}

/// Why a store cannot be built from a declaration and what its plan asked for, if it
/// cannot.
pub open spec fn build_refusal(d: DefinitionView, input: StoreInput) -> Option<ServiceErrorView> {
    match input {
        StoreInput::Keys(keys) => if d.record.oidc is None {
            Some(
                ServiceErrorView::Param(
                    "trusted service '"@ + d.id + "': api 'oidc' requires an oidc config"@,
                ),
            )
        } else {
            match keys {
                Err(m) => Some(
                    ServiceErrorView::TrustedServiceInit(
                        "TS '"@ + d.id + "' failed to build JWKS key source: "@ + m@,
                    ),
                ),
                Ok(()) => None,
            }
        },
        StoreInput::Token { path, file } => store_complaint(d.record, path@, file_view(file)),
        StoreInput::File(Err(m)) => Some(m@),
        StoreInput::File(Ok(())) => None,
    }
}

/// The store that is built from a declaration and what its plan asked for, at a revision.
pub open spec fn built_from(
    d: DefinitionView,
    input: StoreInput,
    store: TrustedStore,
    revision: u64,
) -> bool {
    match input {
        StoreInput::Keys(_) => store matches TrustedStore::Oidc(s) && s@ == (StoreView {
            id: d.record.service_id,
            cfg: d.record.oidc->0,
            mapper: d.record.returns_attrs,
            admitted: Map::empty(),
            sessions: Map::empty(),
            expiration_seconds: d.record.expiration_seconds,
            revision,
            born: revision,
        }),
        StoreInput::Token { path, file } => store matches TrustedStore::AttrQuery(s) && s@
            == new_store(d.record, file_view(file)->Ok_0, revision),
        StoreInput::File(_) => store matches TrustedStore::File(s) && s.id@ == d.id && s.revision
            == revision && s.born == revision,
    }
}

impl TrustedServiceDefinition {
    /// The input is the one that the plan asks for.
    pub open spec fn takes(self, input: StoreInput) -> bool {
        if self@.api == TS_API_OIDC@ {
            input is Keys
        } else if self@.api == TS_API_ATTR_QUERY@ {
            input is Token
        } else {
            input is File
        }
    }

    /// Builds the store from what the plan asked for.
    pub fn build(&self, input: StoreInput, counter: &mut RevisionCounter) -> (r: Result<
        TrustedStore,
        ServiceError,
    >)
        requires
            self.takes(input),
        ensures
            match build_refusal(self@, input) {
                Some(m) => (r matches Err(e) && e@ == m) && *final(counter) == *old(counter),
                None => {
                    &&& r matches Ok(store) && built_from(self@, input, store, old(counter).next)
                    &&& final(counter).next == next_after(old(counter).next)
                },
            },
    {
        match input {
            StoreInput::Keys(keys) => {
                if self.record.oidc.is_none() {
                    return Err(
                        ServiceError::Param(
                            cat3(
                                "trusted service '",
                                self.id.as_str(),
                                "': api 'oidc' requires an oidc config",
                            ),
                        ),
                    );
                }
                match keys {
                    Err(m) => Err(self.key_source_complaint(m.as_str())),
                    Ok(()) => match OidcTrustedService::new(&self.record, counter) {
                        Ok(store) => Ok(TrustedStore::Oidc(store)),
                        Err(e) => Err(e),
                    },
                }
            },
            StoreInput::Token { path, file } => match AttrQueryStore::new(
                &self.record,
                path.as_str(),
                file,
                counter,
            ) {
                Ok(store) => Ok(TrustedStore::AttrQuery(store)),
                Err(e) => Err(e),
            },
            StoreInput::File(Err(e)) => Err(e),
            StoreInput::File(Ok(())) => Ok(
                TrustedStore::File(FileSource::new(self.id.clone(), counter)),
            ),
        }
    }
}

/// The port of a service whose declaration has exactly one endpoint scope, of a single
/// port.
pub open spec fn proxy_port(policy: PolicyView, service_id: Seq<char>) -> Option<u16> {
    match service_of(policy.services, service_id) {
        Some(s) if s.endpoint_ports.len() == 1 => s.endpoint_ports[0],
        _ => None,
    }
}

/// The port of a service whose declaration has exactly one endpoint scope, of a single
/// port.
pub fn jwks_proxy_port_from_policy(policy: &Policy, service_id: &str) -> (r: Option<u16>)
    ensures
        r == proxy_port(policy@, service_id@),
{
    match policy.service_by_id(service_id) {
        Some(service) => if service.endpoint_ports.len() == 1 {
            service.endpoint_ports[0]
        } else {
            None
        },
        None => None,
    }
}

/// The port of the service that an OIDC configuration names as its proxy.
pub open spec fn record_proxy_port(policy: PolicyView, oidc: Option<OidcConfigView>) -> Option<u16> {
    match oidc {
        Some(cfg) => match cfg.jwks_proxy_service {
            Some(id) => proxy_port(policy, id),
            None => None,
        },
        None => None,
    }
}

/// The id names a file of its own directory: no slash and no two dots in a row.
pub open spec fn plain_filename(id: Seq<char>) -> bool {
    &&& forall|i: int| 0 <= i < id.len() ==> #[trigger] id[i] != '/'
    &&& !has_dots(id)
}

/// Two dots in a row.
pub open spec fn has_dots(id: Seq<char>) -> bool {
    exists|i: int| #[trigger] dots_at(id, i)
}

/// Two dots, here.
pub open spec fn dots_at(id: Seq<char>, i: int) -> bool {
    0 <= i && i + 1 < id.len() && id[i] == '.' && id[i + 1] == '.'
}

fn is_plain_filename(id: &str) -> (r: bool)
    ensures
        r == plain_filename(id@),
{
    let chars = to_chars(id);
    let mut i: usize = 0;
    while i < chars.len()
        invariant
            i <= chars@.len(),
            chars@ == id@,
            forall|j: int| 0 <= j < i ==> #[trigger] id@[j] != '/',
            forall|j: int| 0 <= j && j + 1 < i ==> !#[trigger] dots_at(id@, j),
        decreases chars@.len() - i,
    {
        if chars[i] == '/' {
            return false;
        }
        if i > 0 && chars[i] == '.' && chars[i - 1] == '.' {
            assert(dots_at(id@, i - 1));
            return false;
        }
        assert(i > 0 ==> !dots_at(id@, i - 1));
        i = i + 1;
    }
    true
}

/// The first of the declared OIDC services that has this issuer.
pub open spec fn issuer_owner(defs: Seq<DefinitionView>, issuer: Seq<char>) -> Option<Seq<char>>
    decreases defs.len(),
{
    if defs.len() == 0 {
        None
    } else if is_provider(defs[0], issuer) {
        Some(defs[0].id)
    } else {
        issuer_owner(defs.drop_first(), issuer)
    }
}

/// The declaration is an OIDC service of this issuer.
pub open spec fn is_provider(d: DefinitionView, issuer: Seq<char>) -> bool {
    d.api == TS_API_OIDC@ && (d.record.oidc matches Some(cfg) && cfg.issuer == issuer)
}

/// What is said of two OIDC services of one issuer, in the order of their ids.
pub open spec fn shared_issuer(a: Seq<char>, b: Seq<char>, issuer: Seq<char>) -> Seq<char> {
    let (first, second) = if text_le(a, b) {
        (a, b)
    } else {
        (b, a)
    };
    "trusted services '"@ + first + "' and '"@ + second + "' both declare oidc issuer '"@ + issuer
        + "': issuers must be unique so a token's iss claim selects exactly one provider"@
}

/// Why a declared trusted service is refused, after those declared before it.
pub open spec fn refusal(
    policy: PolicyView,
    before: Seq<DefinitionView>,
    id: Seq<char>,
    api: Seq<char>,
) -> Option<Seq<char>> {
    let head = "trusted service '"@ + id;
    if api != TS_API_FILE@ && api != TS_API_OIDC@ && api != TS_API_ATTR_QUERY@ {
        Some(head + "': unsupported api '"@ + api + "'"@)
    } else if api != TS_API_OIDC@ && !plain_filename(id) {
        Some(head + "': id is not a plain filename"@)
    } else {
        match record_of(policy.trusted, id) {
            None => Some(head + "': no trusted service record in policy"@),
            Some(record) => if api == TS_API_OIDC@ {
                match record.oidc {
                    None => Some(
                        head + "': api 'oidc' requires an oidc config in the policy record"@,
                    ),
                    Some(cfg) => match issuer_owner(before, cfg.issuer) {
                        Some(other) => Some(shared_issuer(other, id, cfg.issuer)),
                        None => None,
                    },
                }
            } else if api == TS_API_ATTR_QUERY@ && record.attr_query is None {
                Some(
                    head
                        + "': api 'zpr-attr/1' requires an attr_query config in the policy record"@,
                )
            } else {
                None
            },
        }
    }
}

/// The trusted services among the given services of a policy, in order; or the first
/// refusal.
pub open spec fn declared(policy: PolicyView, services: Seq<PolicyServiceView>) -> Result<
    Seq<DefinitionView>,
    Seq<char>,
>
    decreases services.len(),
{
    if services.len() == 0 {
        Ok(Seq::empty())
    } else {
        match declared(policy, services.drop_last()) {
            Err(m) => Err(m),
            Ok(before) => {
                let s = services.last();
                match s.trusted_api {
                    None => Ok(before),
                    Some(api) => match refusal(policy, before, s.id, api) {
                        Some(m) => Err(m),
                        None => Ok(
                            before.push(
                                DefinitionView {
                                    id: s.id,
                                    api,
                                    record: record_of(policy.trusted, s.id)->0,
                                    jwks_proxy_port: record_proxy_port(
                                        policy,
                                        record_of(policy.trusted, s.id)->0.oidc,
                                    ),
                                },
                            ),
                        ),
                    },
                }
            },
        }
    }
}

fn find_issuer(defs: &Vec<TrustedServiceDefinition>, issuer: &str) -> (r: Option<String>)
    ensures
        match r {
            Some(id) => issuer_owner(definition_views(defs@), issuer@) == Some(id@),
            None => issuer_owner(definition_views(defs@), issuer@) is None,
        },
{
    let ghost all = definition_views(defs@);
    let mut i: usize = 0;
    assert(all.skip(0) =~= all);
    while i < defs.len()
        invariant
            i <= defs@.len(),
            all == definition_views(defs@),
            issuer_owner(all, issuer@) == issuer_owner(all.skip(i as int), issuer@),
        decreases defs@.len() - i,
    {
        assert(all.skip(i as int)[0] == defs@[i as int]@);
        if text_eq(defs[i].api.as_str(), TS_API_OIDC) {
            if let Some(cfg) = &defs[i].record.oidc {
                if text_eq(cfg.issuer.as_str(), issuer) {
                    return Some(defs[i].id.clone());
                }
            }
        }
        assert(all.skip(i as int).drop_first() =~= all.skip(i + 1));
        i = i + 1;
    }
    assert(all.skip(i as int).len() == 0);
    None
}

fn shared_issuer_text(a: &str, b: &str, issuer: &str) -> (r: String)
    ensures
        r@ == shared_issuer(a@, b@, issuer@),
{
    let (first, second) = if not_after(a, b) {
        (a, b)
    } else {
        (b, a)
    };
    let one = cat3("trusted services '", first, "' and '");
    let two = cat3(one.as_str(), second, "' both declare oidc issuer '");
    cat3(
        two.as_str(),
        issuer,
        "': issuers must be unique so a token's iss claim selects exactly one provider",
    )
}

/// Why a declared trusted service is refused, or the declaration.
fn declare(
    policy: &Policy,
    before: &Vec<TrustedServiceDefinition>,
    id: &str,
    api: &str,
) -> (r: Result<TrustedServiceDefinition, String>)
    ensures
        match refusal(policy@, definition_views(before@), id@, api@) {
            Some(m) => r matches Err(e) && e@ == m,
            None => r matches Ok(d) && d@ == (DefinitionView {
                id: id@,
                api: api@,
                record: record_of(policy@.trusted, id@)->0,
                jwks_proxy_port: record_proxy_port(
                    policy@,
                    record_of(policy@.trusted, id@)->0.oidc,
                ),
            }),
        },
{
    let head = cat("trusted service '", id);
    let is_oidc = text_eq(api, TS_API_OIDC);
    let is_query = text_eq(api, TS_API_ATTR_QUERY);
    let is_file = text_eq(api, TS_API_FILE);
    if !is_file && !is_oidc && !is_query {
        let start = cat3(head.as_str(), "': unsupported api '", api);
        return Err(cat(start.as_str(), "'"));
    }
    if !is_oidc && !is_plain_filename(id) {
        return Err(cat(head.as_str(), "': id is not a plain filename"));
    }
    let record = match policy.trusted_service_by_id(id) {
        Some(record) => record,
        None => {
            return Err(cat(head.as_str(), "': no trusted service record in policy"));
        },
    };
    proof {
        assert(TS_API_OIDC@ != TS_API_ATTR_QUERY@) by {
            reveal_strlit("oidc");
            reveal_strlit("zpr-attr/1");
            assert("oidc"@.len() != "zpr-attr/1"@.len());
        }
    }
    if is_oidc {
        match &record.oidc {
            None => {
                return Err(
                    cat(
                        head.as_str(),
                        "': api 'oidc' requires an oidc config in the policy record",
                    ),
                );
            },
            Some(cfg) => {
                if let Some(other) = find_issuer(before, cfg.issuer.as_str()) {
                    return Err(shared_issuer_text(other.as_str(), id, cfg.issuer.as_str()));
                }
            },
        }
    }
    if is_query && record.attr_query.is_none() {
        return Err(
            cat(
                head.as_str(),
                "': api 'zpr-attr/1' requires an attr_query config in the policy record",
            ),
        );
    }
    let jwks_proxy_port = match &record.oidc {
        Some(cfg) => match &cfg.jwks_proxy_service {
            Some(proxy) => jwks_proxy_port_from_policy(policy, proxy.as_str()),
            None => None,
        },
        None => None,
    };
    Ok(
        TrustedServiceDefinition {
            id: id.to_owned(),
            api: api.to_owned(),
            record: record.copy(),
            jwks_proxy_port,
        },
    )
}

/// The trusted services that a policy declares, in the order of its services; or why
/// the first of them that cannot be accepted is refused.
///
/// The API must be known. The id of a file-backed or an attribute service must be a
/// plain file name. The policy must hold the record, with the configuration that the API
/// needs. No two OIDC services may share an issuer: the issuer of a token selects the
/// service that checks it.
pub fn trusted_service_definitions(policy: &Policy) -> (r: Result<
    Vec<TrustedServiceDefinition>,
    ServiceError,
>)
    ensures
        match declared(policy@, policy@.services) {
            Ok(defs) => r matches Ok(out) && definition_views(out@) == defs,
            Err(m) => r matches Err(e) && e@ == ServiceErrorView::Param(m),
        },
{
    let mut out: Vec<TrustedServiceDefinition> = Vec::new();
    let ghost all = policy@.services;
    let mut i: usize = 0;
    assert(definition_views(out@) =~= Seq::empty());
    assert(all.take(0) =~= Seq::empty());
    while i < policy.services.len()
        invariant
            i <= policy.services@.len(),
            all == policy@.services,
            declared(policy@, all.take(i as int)) == Ok::<Seq<DefinitionView>, Seq<char>>(
                definition_views(out@),
            ),
        decreases policy.services@.len() - i,
    {
        let ghost upto = all.take(i + 1);
        proof {
            assert(upto.drop_last() =~= all.take(i as int));
            assert(upto.last() == policy.services@[i as int]@);
        }
        let service = &policy.services[i];
        if let Some(api) = &service.trusted_api {
            match declare(policy, &out, service.id.as_str(), api.as_str()) {
                Ok(d) => {
                    let ghost before = out@;
                    out.push(d);
                    assert(definition_views(out@) =~= definition_views(before).push(d@));
                },
                Err(m) => {
                    proof {
                        lemma_refusal_stays(policy@, all, i + 1, m@);
                    }
                    return Err(ServiceError::Param(m));
                },
            }
        }
        i = i + 1;
    }
    assert(all.take(i as int) =~= all);
    Ok(out)
}

proof fn lemma_refusal_stays(
    policy: PolicyView,
    services: Seq<PolicyServiceView>,
    i: int,
    m: Seq<char>,
)
    requires
        0 <= i <= services.len(),
        declared(policy, services.take(i)) == Err::<Seq<DefinitionView>, Seq<char>>(m),
    ensures
        declared(policy, services) == Err::<Seq<DefinitionView>, Seq<char>>(m),
    decreases services.len(),
{
    if i == services.len() {
        assert(services.take(i) =~= services);
    } else {
        let rest = services.drop_last();
        assert(rest.take(i) =~= services.take(i));
        lemma_refusal_stays(policy, rest, i, m);
    }
}

proof fn lemma_no_owner(defs: Seq<DefinitionView>, issuer: Seq<char>, i: int)
    requires
        issuer_owner(defs, issuer) is None,
        0 <= i < defs.len(),
    ensures
        !is_provider(defs[i], issuer),
    decreases defs.len(),
{
    if i > 0 {
        lemma_no_owner(defs.drop_first(), issuer, i - 1);
        assert(defs.drop_first()[i - 1] == defs[i]);
    }
}

/// In an accepted policy no two OIDC services share an issuer, so that a token's issuer
/// selects at most one of them.
pub proof fn law_issuers_are_unique(
    policy: PolicyView,
    services: Seq<PolicyServiceView>,
    i: int,
    j: int,
    issuer: Seq<char>,
)
    requires
        declared(policy, services) is Ok,
        0 <= i < j < declared(policy, services)->Ok_0.len(),
    ensures
        !(is_provider(declared(policy, services)->Ok_0[i], issuer) && is_provider(
            declared(policy, services)->Ok_0[j],
            issuer,
        )),
    decreases services.len(),
{
    if services.len() > 0 {
        let before = declared(policy, services.drop_last())->Ok_0;
        let defs = declared(policy, services)->Ok_0;
        if j < before.len() {
            law_issuers_are_unique(policy, services.drop_last(), i, j, issuer);
            assert(defs[i] == before[i] && defs[j] == before[j]);
        } else {
            assert(defs[i] == before[i]);
            if is_provider(defs[j], issuer) {
                assert(TS_API_OIDC@ != TS_API_ATTR_QUERY@) by {
                    reveal_strlit("oidc");
                    reveal_strlit("zpr-attr/1");
                    assert("oidc"@.len() != "zpr-attr/1"@.len());
                }
                lemma_no_owner(before, issuer, i);
            }
        }
    }
}

/// In an accepted policy every declared trusted service has an API that is known and a
/// record of its own id with the configuration that the API needs.
pub proof fn law_accepted_services_can_be_built(
    policy: PolicyView,
    services: Seq<PolicyServiceView>,
    i: int,
)
    requires
        declared(policy, services) is Ok,
        0 <= i < declared(policy, services)->Ok_0.len(),
    ensures
        ({
            let d = declared(policy, services)->Ok_0[i];
            &&& record_of(policy.trusted, d.id) == Some(d.record)
            &&& d.api == TS_API_FILE@ || d.api == TS_API_OIDC@ || d.api == TS_API_ATTR_QUERY@
            &&& d.api == TS_API_OIDC@ ==> d.record.oidc is Some
            &&& d.api == TS_API_ATTR_QUERY@ ==> d.record.attr_query is Some
            &&& d.api != TS_API_OIDC@ ==> plain_filename(d.id)
        }),
    decreases services.len(),
{
    if services.len() > 0 {
        let before = declared(policy, services.drop_last())->Ok_0;
        let defs = declared(policy, services)->Ok_0;
        assert(TS_API_OIDC@ != TS_API_ATTR_QUERY@) by {
            reveal_strlit("oidc");
            reveal_strlit("zpr-attr/1");
            assert("oidc"@.len() != "zpr-attr/1"@.len());
        }
        if i < before.len() {
            law_accepted_services_can_be_built(policy, services.drop_last(), i);
            assert(defs[i] == before[i]);
        }
    }
}

proof fn lemma_apis_differ()
    ensures
        "oidc"@ != "zpr-attr/1"@,
        "oidc"@ != "file"@,
        "file"@ != "zpr-attr/1"@,
{
    reveal_strlit("oidc");
    reveal_strlit("file");
    reveal_strlit("zpr-attr/1");
    assert("oidc"@.len() == 4 && "file"@.len() == 4 && "zpr-attr/1"@.len() == 10);
    assert("oidc"@[0] != "file"@[0]);
}

/// The services of an accepted policy that speak an API are defined, all of them and no others:
/// each with its id, its API and a record that the policy has of it.
pub proof fn law_declared_services_are_defined(
    policy: PolicyView,
    services: Seq<PolicyServiceView>,
    i: int,
)
    requires
        declared(policy, services) is Ok,
    ensures
        0 <= i < services.len() && services[i].trusted_api is Some ==> exists|p: int|
            0 <= p < declared(policy, services)->Ok_0.len() && (
            #[trigger] declared(policy, services)->Ok_0[p]).id == services[i].id && declared(
                policy,
                services,
            )->Ok_0[p].api == services[i].trusted_api->0,
        0 <= i < declared(policy, services)->Ok_0.len() ==> exists|s: int|
            0 <= s < services.len() && (#[trigger] services[s]).id == declared(
                policy,
                services,
            )->Ok_0[i].id && services[s].trusted_api == Some(
                declared(policy, services)->Ok_0[i].api,
            ),
        0 <= i < declared(policy, services)->Ok_0.len() ==> policy.trusted.contains(
            declared(policy, services)->Ok_0[i].record,
        ) && declared(policy, services)->Ok_0[i].record.service_id == declared(
            policy,
            services,
        )->Ok_0[i].id,
    decreases services.len(),
{
    if services.len() > 0 {
        let init = services.drop_last();
        let last = services.len() - 1;
        let before = declared(policy, init)->Ok_0;
        let defs = declared(policy, services)->Ok_0;
        law_declared_services_are_defined(policy, init, i);
        assert(services.last() == services[last]);
        if 0 <= i < services.len() && services[i].trusted_api is Some {
            if i < last {
                assert(init[i] == services[i]);
                let p = choose|p: int|
                    0 <= p < before.len() && (#[trigger] before[p]).id == init[i].id
                        && before[p].api == init[i].trusted_api->0;
                assert(defs[p] == before[p]);
            } else {
                assert(defs[before.len() as int].id == services[i].id);
            }
        }
        if 0 <= i < defs.len() {
            if i < before.len() {
                assert(defs[i] == before[i]);
                let s = choose|s: int|
                    0 <= s < init.len() && (#[trigger] init[s]).id == before[i].id
                        && init[s].trusted_api == Some(before[i].api);
                assert(services[s] == init[s]);
            } else {
                assert(services[last].id == defs[i].id);
                crate::policy::law_record_is_the_first_of_its_id(
                    policy.trusted,
                    services[last].id,
                    0,
                );
            }
        }
    }
}

/// A policy is accepted where every service that speaks an API speaks a known one, has a record
/// of its id with the configuration for it, has a name that can stand for a file where it needs
/// one, and no two providers have one issuer.
pub proof fn law_good_declarations_are_accepted(
    policy: PolicyView,
    services: Seq<PolicyServiceView>,
)
    requires
        forall|i: int|
            0 <= i < services.len() && (#[trigger] services[i]).trusted_api is Some ==> {
                let api = services[i].trusted_api->0;
                let id = services[i].id;
                &&& api == "file"@ || api == "oidc"@ || api == "zpr-attr/1"@
                &&& record_of(policy.trusted, id) is Some
                &&& api == "oidc"@ ==> record_of(policy.trusted, id)->0.oidc is Some
                &&& api == "zpr-attr/1"@ ==> record_of(policy.trusted, id)->0.attr_query is Some
                &&& api != "oidc"@ ==> plain_filename(id)
            },
        forall|i: int, j: int|
            0 <= i < j < services.len() && (#[trigger] services[i]).trusted_api == Some("oidc"@) && (
            #[trigger] services[j]).trusted_api == Some("oidc"@) ==> record_of(
                policy.trusted,
                services[i].id,
            )->0.oidc->0.issuer != record_of(policy.trusted, services[j].id)->0.oidc->0.issuer,
    ensures
        declared(policy, services) is Ok,
    decreases services.len(),
{
    if services.len() > 0 {
        let init = services.drop_last();
        let last = services.len() - 1;
        assert forall|i: int| 0 <= i < init.len() implies services[i] == #[trigger] init[i] by {}
        law_good_declarations_are_accepted(policy, init);
        let before = declared(policy, init)->Ok_0;
        assert(services.last() == services[last]);
        lemma_apis_differ();
        if services[last].trusted_api == Some("oidc"@) {
            let id = services[last].id;
            let issuer = record_of(policy.trusted, id)->0.oidc->0.issuer;
            assert forall|p: int| 0 <= p < before.len() implies !is_provider(
                #[trigger] before[p],
                issuer,
            ) by {
                law_declared_services_are_defined(policy, init, p);
                law_accepted_services_can_be_built(policy, init, p);
                let s = choose|s: int|
                    0 <= s < init.len() && (#[trigger] init[s]).id == before[p].id
                        && init[s].trusted_api == Some(before[p].api);
                assert(services[s] == init[s]);
                if is_provider(before[p], issuer) {
                    assert(services[s].trusted_api == Some("oidc"@));
                }
            }
            lemma_nobody_owns(before, issuer);
        }
    }
}

proof fn lemma_nobody_owns(defs: Seq<DefinitionView>, issuer: Seq<char>)
    requires
        forall|p: int| 0 <= p < defs.len() ==> !is_provider(#[trigger] defs[p], issuer),
    ensures
        issuer_owner(defs, issuer) is None,
    decreases defs.len(),
{
    if defs.len() > 0 {
        let rest = defs.drop_first();
        assert forall|p: int| 0 <= p < rest.len() implies !is_provider(
            #[trigger] rest[p],
            issuer,
        ) by {
            assert(rest[p] == defs[p + 1]);
        }
        assert(!is_provider(defs[0], issuer));
        lemma_nobody_owns(rest, issuer);
    }
}

/// One bad declaration fails the policy: an API that is not known, a service without a record or
/// without the configuration for its API, and a name that cannot stand for a file where one is
/// needed.
pub proof fn law_bad_declaration_fails_the_policy(
    policy: PolicyView,
    services: Seq<PolicyServiceView>,
    i: int,
    j: int,
)
    requires
        0 <= i < services.len(),
        services[i].trusted_api is Some,
    ensures
        services[i].trusted_api != Some("file"@) && services[i].trusted_api != Some("oidc"@)
            && services[i].trusted_api != Some("zpr-attr/1"@) ==> declared(policy, services) is Err,
        record_of(policy.trusted, services[i].id) is None ==> declared(policy, services) is Err,
        services[i].trusted_api == Some("oidc"@) && (record_of(
            policy.trusted,
            services[i].id,
        ) matches Some(r) && r.oidc is None) ==> declared(policy, services) is Err,
        services[i].trusted_api == Some("zpr-attr/1"@) && (record_of(
            policy.trusted,
            services[i].id,
        ) matches Some(r) && r.attr_query is None) ==> declared(policy, services) is Err,
        services[i].trusted_api != Some("oidc"@) && 0 <= j < services[i].id.len()
            && services[i].id[j] == '/' ==> declared(policy, services) is Err,
        services[i].trusted_api != Some("oidc"@) && 0 <= j && j + 1 < services[i].id.len()
            && services[i].id[j] == '.' && services[i].id[j + 1] == '.' ==> declared(
            policy,
            services,
        ) is Err,
{
    if declared(policy, services) is Ok {
        let defs = declared(policy, services)->Ok_0;
        lemma_apis_differ();
        law_declared_services_are_defined(policy, services, i);
        let p = choose|p: int|
            0 <= p < defs.len() && (#[trigger] defs[p]).id == services[i].id && defs[p].api
                == services[i].trusted_api->0;
        law_accepted_services_can_be_built(policy, services, p);
        if 0 <= j && j + 1 < services[i].id.len() && services[i].id[j] == '.'
            && services[i].id[j + 1] == '.' {
            assert(dots_at(services[i].id, j));
        }
    }
}

/// The port of a proxy is the one of its service in the policy, where that has just one endpoint
/// with just one port.
pub proof fn law_proxy_port_is_the_only_one(policy: PolicyView, id: Seq<char>, i: int)
    requires
        0 <= i < policy.services.len(),
        policy.services[i].id == id,
        forall|j: int| 0 <= j < i ==> (#[trigger] policy.services[j]).id != id,
    ensures
        policy.services[i].endpoint_ports.len() == 1 ==> proxy_port(policy, id)
            == policy.services[i].endpoint_ports[0],
        policy.services[i].endpoint_ports.len() != 1 ==> proxy_port(policy, id) is None,
{
    crate::policy::law_service_is_the_first_of_its_id(policy.services, id, i);
}

/// A store is built just where what it needs is there: signing keys and a configuration for a
/// provider, a token and what else the store asks for a query service, the file for a file.
pub proof fn law_store_is_built_where_its_needs_are_met(d: DefinitionView, input: StoreInput)
    ensures
        input matches StoreInput::Keys(keys) ==> (build_refusal(d, input) is None <==> d.record.oidc
            is Some && keys is Ok),
        input matches StoreInput::Token { path, file } ==> (build_refusal(d, input) is None
            <==> store_complaint(d.record, path@, file_view(file)) is None),
        input matches StoreInput::File(file) ==> (build_refusal(d, input) is None <==> file is Ok),
        input matches StoreInput::File(Err(e)) ==> build_refusal(d, input) == Some(e@),
{
}

/// A new store is of the kind that its definition says, under the name of the service, with the
/// mappings, configuration and lifetime of its record, and it holds nothing yet.
pub proof fn law_new_store_is_as_defined(
    d: DefinitionView,
    input: StoreInput,
    store: TrustedStore,
    revision: u64,
)
    requires
        built_from(d, input, store, revision),
        d.record.service_id == d.id,
    ensures
        store.source().id == d.id,
        store.source().revision == revision,
        store.birth() == revision,
        input is Keys ==> (store matches TrustedStore::Oidc(s) && d.record.oidc->0 == s@.cfg
            && s@.mapper == d.record.returns_attrs && s@.expiration_seconds
            == d.record.expiration_seconds && (forall|sub: Seq<char>|
            !#[trigger] s@.admitted.contains_key(sub)) && forall|id: Seq<char>|
            !#[trigger] s@.sessions.contains_key(id)),
        input is Token ==> (store matches TrustedStore::AttrQuery(s) && s@.mapper
            == d.record.returns_attrs && s@.expiration == d.record.expiration_seconds
            * 1_000_000_000),
        input is File ==> store is File,
{
}

/// The definitions stand in the order of the services: one more service that speaks an API adds
/// its definition behind those of the services before it, and one that speaks none adds nothing.
pub proof fn law_definitions_follow_the_order_of_services(
    policy: PolicyView,
    services: Seq<PolicyServiceView>,
    next: PolicyServiceView,
)
    requires
        declared(policy, services.push(next)) is Ok,
    ensures
        declared(policy, services) is Ok,
        next.trusted_api is None ==> declared(policy, services.push(next)) == declared(
            policy,
            services,
        ),
        next.trusted_api is Some ==> {
            let all = declared(policy, services.push(next))->Ok_0;
            &&& all.len() == declared(policy, services)->Ok_0.len() + 1
            &&& all.drop_last() == declared(policy, services)->Ok_0
            &&& all.last().id == next.id
        },
{
    assert(services.push(next).drop_last() =~= services);
    assert(services.push(next).last() == next);
    if next.trusted_api is Some {
        let all = declared(policy, services.push(next))->Ok_0;
        assert(all.drop_last() =~= declared(policy, services)->Ok_0);
    }
}

} // verus!
