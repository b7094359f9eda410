//! What the service reads from a policy: its services and the records of its
//! trusted services.
use vstd::prelude::*;

use crate::attribute::{
    clone_texts, same_texts, AttributeMapper, AttributeMapping, MappingView,
};
use crate::text::{opt_text, text_eq, texts};

verus! {

/// The configuration of one OIDC provider.
#[derive(Debug)]
pub struct OidcConfig {
    pub issuer: String,
    pub client_id: String,
    /// Where the provider publishes its signing keys.
    pub jwks_uri: String,
    /// Signing keys to start with.
    pub seed_jwks: String,
    /// The service whose provider is the proxy to fetch keys through.
    pub jwks_proxy_service: Option<String>,
    pub allowed_domains: Vec<String>,
    /// Greatest age of an authentication; 0 for no limit.
    pub max_auth_age_seconds: u32,
    pub allow_offline_access: bool,
}

/// An OIDC configuration as mathematical data.
pub struct OidcConfigView {
    pub issuer: Seq<char>,
    pub client_id: Seq<char>,
    pub jwks_uri: Seq<char>,
    pub seed_jwks: Seq<char>,
    pub jwks_proxy_service: Option<Seq<char>>,
    pub allowed_domains: Seq<Seq<char>>,
    pub max_auth_age_seconds: u32,
    pub allow_offline_access: bool,
}

impl View for OidcConfig {
    type V = OidcConfigView;

    open spec fn view(&self) -> OidcConfigView {
        OidcConfigView {
            issuer: self.issuer@,
            client_id: self.client_id@,
            jwks_uri: self.jwks_uri@,
            seed_jwks: self.seed_jwks@,
            jwks_proxy_service: opt_text(self.jwks_proxy_service),
            allowed_domains: texts(self.allowed_domains@),
            max_auth_age_seconds: self.max_auth_age_seconds,
            allow_offline_access: self.allow_offline_access,
        }
    }
}

/// A copy of an optional text.
pub fn clone_opt(o: &Option<String>) -> (r: Option<String>)
    ensures
        opt_text(r) == opt_text(*o),
{
    match o {
        Some(s) => Some(s.clone()),
        None => None,
    }
}

/// Whether two optional texts are the same.
pub fn same_opt(a: &Option<String>, b: &Option<String>) -> (r: bool)
    ensures
        r == (opt_text(*a) == opt_text(*b)),
{
    match (a, b) {
        (Some(x), Some(y)) => text_eq(x.as_str(), y.as_str()),
        (None, None) => true,
        _ => false,
    }
}

impl OidcConfig {
    /// A copy.
    pub fn copy(&self) -> (r: OidcConfig)
        ensures
            r@ == self@,
    {
        OidcConfig {
            issuer: self.issuer.clone(),
            client_id: self.client_id.clone(),
            jwks_uri: self.jwks_uri.clone(),
            seed_jwks: self.seed_jwks.clone(),
            jwks_proxy_service: clone_opt(&self.jwks_proxy_service),
            allowed_domains: clone_texts(&self.allowed_domains),
            max_auth_age_seconds: self.max_auth_age_seconds,
            allow_offline_access: self.allow_offline_access,
        }
    }

    /// Whether the two configurations are the same.
    pub fn same(&self, other: &OidcConfig) -> (r: bool)
        ensures
            r == (self@ == other@),
    {
        text_eq(self.issuer.as_str(), other.issuer.as_str()) && text_eq(
            self.client_id.as_str(),
            other.client_id.as_str(),
        ) && text_eq(self.jwks_uri.as_str(), other.jwks_uri.as_str()) && text_eq(
            self.seed_jwks.as_str(),
            other.seed_jwks.as_str(),
        ) && same_opt(&self.jwks_proxy_service, &other.jwks_proxy_service) && same_texts(
            &self.allowed_domains,
            &other.allowed_domains,
        ) && self.max_auth_age_seconds == other.max_auth_age_seconds && self.allow_offline_access
            == other.allow_offline_access
    }
}

/// The configuration of an attribute service.
#[derive(Debug)]
pub struct AttrQueryConfig {
    /// Base URL.
    pub url: String,
    /// Time allowed for a request; 0 for the default.
    pub timeout_seconds: u32,
    /// The only certificate authorities to trust, if given.
    pub ca_cert_pem: Option<String>,
}

/// An attribute service configuration as mathematical data.
pub struct AttrQueryConfigView {
    pub url: Seq<char>,
    pub timeout_seconds: u32,
    pub ca_cert_pem: Option<Seq<char>>,
}

impl View for AttrQueryConfig {
    type V = AttrQueryConfigView;

    open spec fn view(&self) -> AttrQueryConfigView {
        AttrQueryConfigView {
            url: self.url@,
            timeout_seconds: self.timeout_seconds,
            ca_cert_pem: opt_text(self.ca_cert_pem),
        }
    }
}

impl AttrQueryConfig {
    /// A copy.
    pub fn copy(&self) -> (r: AttrQueryConfig)
        ensures
            r@ == self@,
    {
        AttrQueryConfig {
            url: self.url.clone(),
            timeout_seconds: self.timeout_seconds,
            ca_cert_pem: clone_opt(&self.ca_cert_pem),
        }
    }

    /// Whether the two configurations are the same.
    pub fn same(&self, other: &AttrQueryConfig) -> (r: bool)
        ensures
            r == (self@ == other@),
    {
        text_eq(self.url.as_str(), other.url.as_str()) && self.timeout_seconds
            == other.timeout_seconds && same_opt(&self.ca_cert_pem, &other.ca_cert_pem)
    }
}

impl AttributeMapper {
    /// A copy.
    pub fn copy(&self) -> (r: AttributeMapper)
        ensures
            r@ == self@,
    {
        let mut out: Vec<AttributeMapping> = Vec::new();
        let mut i: usize = 0;
        while i < self.mappings.len()
            invariant
                i <= self.mappings@.len(),
                out@.len() == i,
                forall|j: int| 0 <= j < i ==> (#[trigger] out@[j])@ == self.mappings@[j]@,
            decreases self.mappings@.len() - i,
        {
            let m = &self.mappings[i];
            out.push(
                AttributeMapping {
                    service_attr_key: m.service_attr_key.clone(),
                    zpr_key: m.zpr_key.clone(),
                    hint: m.hint,
                },
            );
            i = i + 1;
        }
        let r = AttributeMapper { mappings: out };
        assert(r@ =~= self@);
        r
    }

    /// Whether the two mappings are the same.
    pub fn same(&self, other: &AttributeMapper) -> (r: bool)
        ensures
            r == (self@ == other@),
    {
        if self.mappings.len() != other.mappings.len() {
            assert(self@.len() != other@.len());
            return false;
        }
        let mut i: usize = 0;
        while i < self.mappings.len()
            invariant
                self.mappings@.len() == other.mappings@.len(),
                i <= self.mappings@.len(),
                forall|j: int| 0 <= j < i ==> self@[j] == other@[j],
            decreases self.mappings@.len() - i,
        {
            let a = &self.mappings[i];
            let b = &other.mappings[i];
            let alike = text_eq(a.service_attr_key.as_str(), b.service_attr_key.as_str())
                && text_eq(a.zpr_key.as_str(), b.zpr_key.as_str()) && a.hint == b.hint;
            assert(self@[i as int] == a@ && other@[i as int] == b@);
            if !alike {
                return false;
            }
            i = i + 1;
        }
        assert(self@ =~= other@);
        true
    }
}

/// The policy record of a trusted service.
#[derive(Debug)]
pub struct TrustedService {
    pub service_id: String,
    /// Lifetime of the attributes that the service vends.
    pub expiration_seconds: u32,
    pub returns_attrs: AttributeMapper,
    pub identity_attrs: Vec<String>,
    pub oidc: Option<OidcConfig>,
    pub attr_query: Option<AttrQueryConfig>,
}

/// A trusted service record as mathematical data.
pub struct TrustedServiceView {
    pub service_id: Seq<char>,
    pub expiration_seconds: u32,
    pub returns_attrs: Seq<MappingView>,
    pub identity_attrs: Seq<Seq<char>>,
    pub oidc: Option<OidcConfigView>,
    pub attr_query: Option<AttrQueryConfigView>,
}

impl View for TrustedService {
    type V = TrustedServiceView;

    open spec fn view(&self) -> TrustedServiceView {
        TrustedServiceView {
            service_id: self.service_id@,
            expiration_seconds: self.expiration_seconds,
            returns_attrs: self.returns_attrs@,
            identity_attrs: texts(self.identity_attrs@),
            oidc: match self.oidc {
                Some(c) => Some(c@),
                None => None,
            },
            attr_query: match self.attr_query {
                Some(c) => Some(c@),
                None => None,
            },
        }
    }
}

impl TrustedService {
    /// A copy.
    pub fn copy(&self) -> (r: TrustedService)
        ensures
            r@ == self@,
    {
        TrustedService {
            service_id: self.service_id.clone(),
            expiration_seconds: self.expiration_seconds,
            returns_attrs: self.returns_attrs.copy(),
            identity_attrs: clone_texts(&self.identity_attrs),
            oidc: match &self.oidc {
                Some(c) => Some(c.copy()),
                None => None,
            },
            attr_query: match &self.attr_query {
                Some(c) => Some(c.copy()),
                None => None,
            },
        }
    }

    /// Whether the two records are the same.
    pub fn same(&self, other: &TrustedService) -> (r: bool)
        ensures
            r == (self@ == other@),
    {
        let oidc = match (&self.oidc, &other.oidc) {
            (Some(a), Some(b)) => a.same(b),
            (None, None) => true,
            _ => false,
        };
        let attr_query = match (&self.attr_query, &other.attr_query) {
            (Some(a), Some(b)) => a.same(b),
            (None, None) => true,
            _ => false,
        };
        text_eq(self.service_id.as_str(), other.service_id.as_str()) && self.expiration_seconds
            == other.expiration_seconds && self.returns_attrs.same(&other.returns_attrs)
            && same_texts(&self.identity_attrs, &other.identity_attrs) && oidc && attr_query
    }
}

/// One service that a policy declares.
#[derive(Debug)]
pub struct PolicyService {
    pub id: String,
    /// For a trusted service, the API that it speaks.
    pub trusted_api: Option<String>,
    /// The port of each endpoint scope, where the scope is a single port.
    pub endpoint_ports: Vec<Option<u16>>,
}

/// A declared service as mathematical data.
pub struct PolicyServiceView {
    pub id: Seq<char>,
    pub trusted_api: Option<Seq<char>>,
    pub endpoint_ports: Seq<Option<u16>>,
}

impl View for PolicyService {
    type V = PolicyServiceView;

    open spec fn view(&self) -> PolicyServiceView {
        PolicyServiceView {
            id: self.id@,
            trusted_api: opt_text(self.trusted_api),
            endpoint_ports: self.endpoint_ports@,
        }
    }
}

impl PolicyService {
    /// A copy.
    pub fn copy(&self) -> (r: PolicyService)
        ensures
            r@ == self@,
    {
        let mut endpoint_ports: Vec<Option<u16>> = Vec::new();
        let mut i: usize = 0;
        while i < self.endpoint_ports.len()
            invariant
                i <= self.endpoint_ports@.len(),
                endpoint_ports@ == self.endpoint_ports@.take(i as int),
            decreases self.endpoint_ports@.len() - i,
        {
            endpoint_ports.push(self.endpoint_ports[i]);
            i = i + 1;
            assert(endpoint_ports@ =~= self.endpoint_ports@.take(i as int));
        }
        assert(endpoint_ports@ =~= self.endpoint_ports@);
        PolicyService {
            id: self.id.clone(),
            trusted_api: clone_opt(&self.trusted_api),
            endpoint_ports,
        }
    }
}

/// The part of a policy that the service reads.
#[derive(Debug)]
pub struct Policy {
    pub services: Vec<PolicyService>,
    pub trusted: Vec<TrustedService>,
}

/// A policy as mathematical data.
pub struct PolicyView {
    pub services: Seq<PolicyServiceView>,
    pub trusted: Seq<TrustedServiceView>,
}

impl View for Policy {
    type V = PolicyView;

    open spec fn view(&self) -> PolicyView {
        PolicyView {
            services: self.services@.map_values(|s: PolicyService| s@),
            trusted: self.trusted@.map_values(|t: TrustedService| t@),
        }
    }
}

impl Policy {
    /// A copy.
    pub fn copy(&self) -> (r: Policy)
        ensures
            r@ == self@,
    {
        let mut services: Vec<PolicyService> = Vec::new();
        let mut i: usize = 0;
        while i < self.services.len()
            invariant
                i <= self.services@.len(),
                services@.len() == i,
                forall|j: int| 0 <= j < i ==> (#[trigger] services@[j])@ == self.services@[j]@,
            decreases self.services@.len() - i,
        {
            services.push(self.services[i].copy());
            i = i + 1;
        }
        let mut trusted: Vec<TrustedService> = Vec::new();
        let mut k: usize = 0;
        while k < self.trusted.len()
            invariant
                k <= self.trusted@.len(),
                trusted@.len() == k,
                forall|j: int| 0 <= j < k ==> (#[trigger] trusted@[j])@ == self.trusted@[j]@,
            decreases self.trusted@.len() - k,
        {
            trusted.push(self.trusted[k].copy());
            k = k + 1;
        }
        let out = Policy { services, trusted };
        assert(out@.services =~= self@.services);
        assert(out@.trusted =~= self@.trusted);
        out
    }
}

/// The first trusted service record of the given id.
pub open spec fn record_of(records: Seq<TrustedServiceView>, id: Seq<char>) -> Option<
    TrustedServiceView,
>
    decreases records.len(),
{
    if records.len() == 0 {
        None
    } else if records[0].service_id == id {
        Some(records[0])
    } else {
        record_of(records.drop_first(), id)
    }
}

/// The first declared service of the given id.
pub open spec fn service_of(services: Seq<PolicyServiceView>, id: Seq<char>) -> Option<
    PolicyServiceView,
>
    decreases services.len(),
{
    if services.len() == 0 {
        None
    } else if services[0].id == id {
        Some(services[0])
    } else {
        service_of(services.drop_first(), id)
    }
}

impl Policy {
    /// The first trusted service record of the given id.
    pub fn trusted_service_by_id(&self, id: &str) -> (r: Option<&TrustedService>)
        ensures
            match r {
                Some(t) => record_of(self@.trusted, id@) == Some(t@),
                None => record_of(self@.trusted, id@) is None,
            },
    {
        let ghost all = self@.trusted;
        let mut i: usize = 0;
        assert(all.skip(0) == all);
        while i < self.trusted.len()
            invariant
                all == self@.trusted,
                i <= self.trusted@.len(),
                record_of(all, id@) == record_of(all.skip(i as int), id@),
            decreases self.trusted@.len() - i,
        {
            assert(all.skip(i as int)[0] == all[i as int]);
            if text_eq(self.trusted[i].service_id.as_str(), id) {
                return Some(&self.trusted[i]);
            }
            assert(all.skip(i as int).drop_first() == all.skip(i + 1));
            i = i + 1;
        }
        assert(all.skip(i as int).len() == 0);
        None
    }

    /// The first declared service of the given id.
    pub fn service_by_id(&self, id: &str) -> (r: Option<&PolicyService>)
        ensures
            match r {
                Some(s) => service_of(self@.services, id@) == Some(s@),
                None => service_of(self@.services, id@) is None,
            },
    {
        let ghost all = self@.services;
        let mut i: usize = 0;
        assert(all.skip(0) == all);
        while i < self.services.len()
            invariant
                all == self@.services,
                i <= self.services@.len(),
                service_of(all, id@) == service_of(all.skip(i as int), id@),
            decreases self.services@.len() - i,
        {
            assert(all.skip(i as int)[0] == all[i as int]);
            if text_eq(self.services[i].id.as_str(), id) {
                return Some(&self.services[i]);
            }
            assert(all.skip(i as int).drop_first() == all.skip(i + 1));
            i = i + 1;
        }
        assert(all.skip(i as int).len() == 0);
        None
    }
}

/// The record of an id is the first that has it, and the same of services; there is none where
/// none has the id.
pub proof fn law_record_is_the_first_of_its_id(
    records: Seq<TrustedServiceView>,
    id: Seq<char>,
    i: int,
)
    ensures
        0 <= i < records.len() && records[i].service_id == id && (forall|j: int|
            0 <= j < i ==> (#[trigger] records[j]).service_id != id) ==> record_of(records, id)
            == Some(records[i]),
        record_of(records, id) is None <==> forall|j: int|
            0 <= j < records.len() ==> (#[trigger] records[j]).service_id != id,
        record_of(records, id) matches Some(r) ==> r.service_id == id && records.contains(r),
    decreases records.len(),
{
    if records.len() > 0 {
        let rest = records.drop_first();
        law_record_is_the_first_of_its_id(rest, id, i - 1);
        if records[0].service_id == id {
            assert(records[0] == record_of(records, id)->0);
        } else {
            if 0 < i < records.len() {
                assert(rest[i - 1] == records[i]);
                if forall|j: int| 0 <= j < i ==> (#[trigger] records[j]).service_id != id {
                    assert forall|j: int| 0 <= j < i - 1 implies (#[trigger] rest[j]).service_id
                        != id by {
                        assert(rest[j] == records[j + 1]);
                    }
                }
            }
            if forall|j: int| 0 <= j < rest.len() ==> (#[trigger] rest[j]).service_id != id {
                assert forall|j: int| 0 <= j < records.len() implies (
                #[trigger] records[j]).service_id != id by {
                    if j > 0 {
                        assert(rest[j - 1] == records[j]);
                    }
                }
            }
            if forall|j: int| 0 <= j < records.len() ==> (#[trigger] records[j]).service_id != id {
                assert forall|j: int| 0 <= j < rest.len() implies (#[trigger] rest[j]).service_id
                    != id by {
                    assert(rest[j] == records[j + 1]);
                }
            }
            if let Some(r) = record_of(rest, id) {
                let k = choose|k: int| 0 <= k < rest.len() && rest[k] == r;
                assert(records[k + 1] == r);
            }
        }
    }
}

/// The service of an id is the first that has it; there is none where none has the id.
pub proof fn law_service_is_the_first_of_its_id(
    services: Seq<PolicyServiceView>,
    id: Seq<char>,
    i: int,
)
    ensures
        0 <= i < services.len() && services[i].id == id && (forall|j: int|
            0 <= j < i ==> (#[trigger] services[j]).id != id) ==> service_of(services, id) == Some(
            services[i],
        ),
        service_of(services, id) is None <==> forall|j: int|
            0 <= j < services.len() ==> (#[trigger] services[j]).id != id,
    decreases services.len(),
{
    if services.len() > 0 {
        let rest = services.drop_first();
        law_service_is_the_first_of_its_id(rest, id, i - 1);
        if services[0].id != id {
            if 0 < i < services.len() {
                assert(rest[i - 1] == services[i]);
                if forall|j: int| 0 <= j < i ==> (#[trigger] services[j]).id != id {
                    assert forall|j: int| 0 <= j < i - 1 implies (#[trigger] rest[j]).id != id by {
                        assert(rest[j] == services[j + 1]);
                    }
                }
            }
            if forall|j: int| 0 <= j < rest.len() ==> (#[trigger] rest[j]).id != id {
                assert forall|j: int| 0 <= j < services.len() implies (#[trigger] services[j]).id
                    != id by {
                    if j > 0 {
                        assert(rest[j - 1] == services[j]);
                    }
                }
            }
            if forall|j: int| 0 <= j < services.len() ==> (#[trigger] services[j]).id != id {
                assert forall|j: int| 0 <= j < rest.len() implies (#[trigger] rest[j]).id != id by {
                    assert(rest[j] == services[j + 1]);
                }
            }
        } else {
            assert(services[0].id == id);
        }
    }
}

} // verus!
