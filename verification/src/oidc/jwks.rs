//! The signing keys of one provider: seeded by policy, refreshed from where the provider
//! publishes them, and never given up because a refresh failed.
use vstd::prelude::*;

use crate::error::{ServiceError, ServiceErrorView};
use crate::oidc::keys::{jwk_set_parsed, key_of_id, KeySet, SigningKey};
use crate::oidc::validate::{OidcError, OidcErrorView};
use crate::policy::{clone_opt, OidcConfig, OidcConfigView};
use crate::text::{
    cat, decimal, decimal_text, opt_text, slice_text, text_eq, to_chars, trim, trimmed,
};

verus! {

/// The keys as mathematical data: the id of each, and its text.
pub type KeysView = Seq<(Option<Seq<char>>, Seq<char>)>;

/// The address is one that a proxy tunnels to.
pub open spec fn is_https(uri: Seq<char>) -> bool {
    "https://"@.is_prefix_of(uri)
}

fn starts_with_https(uri: &str) -> (r: bool)
    ensures
        r == is_https(uri@),
{
    let chars = to_chars(uri);
    proof {
        reveal_strlit("https://");
    }
    if chars.len() < 8 {
        return false;
    }
    let head = slice_text(&chars, 0, 8);
    let r = text_eq(head.as_str(), "https://");
    proof {
        assert("https://"@.len() == 8);
        assert(head@ =~= uri@.subrange(0, 8));
    }
    r
}

/// There is a way to fetch keys: an address, and, where policy names a proxy, a proxy.
pub open spec fn has_route(cfg: OidcConfigView, proxy: bool) -> bool {
    cfg.jwks_uri.len() > 0 && (cfg.jwks_proxy_service is Some ==> proxy)
}

/// The keys that policy seeds, or why its seed is refused.
pub open spec fn seeded(cfg: OidcConfigView) -> Result<KeysView, Seq<char>> {
    if trimmed(cfg.seed_jwks).len() == 0 {
        Ok(Seq::empty())
    } else {
        jwk_set_parsed(cfg.seed_jwks)
    }
}

/// Why a configuration gives no source of keys: a proxy that would be bypassed, a seed
/// that is no key set, or neither a seed nor a way to fetch keys.
pub open spec fn source_refusal(cfg: OidcConfigView, proxy: bool) -> Option<OidcErrorView> {
    if cfg.jwks_proxy_service is Some && cfg.jwks_uri.len() > 0 && !is_https(cfg.jwks_uri) {
        Some(
            OidcErrorView::Rejected(
                "jwks_uri must be https:// when a jwks proxy is configured"@,
            ),
        )
    } else {
        match seeded(cfg) {
            Err(m) => Some(OidcErrorView::Rejected("seed_jwks does not parse: "@ + m)),
            Ok(keys) => if keys.len() == 0 && !has_route(cfg, proxy) {
                Some(OidcErrorView::NoKeys)
            } else {
                None
            },
        }
    }
}

/// The source of one provider's signing keys.
#[derive(Debug)]
pub struct KeySource {
    keys: KeySet,
    jwks_uri: String,
    proxy_service: Option<String>,
}

/// A fetch to be made: from where, and through which proxy. Redirects are not followed.
#[derive(Debug)]
pub struct FetchPlan {
    pub url: String,
    pub proxy: Option<String>,
}

/// What came of a fetch.
#[derive(Debug)]
pub enum Fetched {
    /// The request failed.
    Failed(String),
    /// The status of the response, and its body or why the body could not be read.
    Response(u16, Result<String, ServiceError>),
}

/// The keys that a fetch gave, or why it gave none.
pub open spec fn fetched_keys(f: Fetched) -> Result<KeysView, ServiceErrorView> {
    match f {
        Fetched::Failed(m) => Err(ServiceErrorView::Internal("JWKS fetch failed: "@ + m@)),
        Fetched::Response(status, body) => if status != 200 {
            Err(
                ServiceErrorView::Internal(
                    "JWKS fetch returned status "@ + decimal_text(status as nat),
                ),
            )
        } else {
            match body {
                Err(e) => Err(e@),
                Ok(text) => match jwk_set_parsed(text@) {
                    Ok(keys) => Ok(keys),
                    Err(m) => Err(
                        ServiceErrorView::Internal("JWKS response does not parse: "@ + m),
                    ),
                },
            }
        },
    }
}

impl KeySource {
    /// The keys that serve now.
    pub closed spec fn view_keys(self) -> KeysView {
        self.keys@
    }

    /// Where keys are fetched from, and the proxy service that they are fetched through.
    pub closed spec fn route(self) -> (Seq<char>, Option<Seq<char>>) {
        (self.jwks_uri@, opt_text(self.proxy_service))
    }

    /// The source that policy configures. `proxy` says whether the proxy can be reached.
    pub fn from_policy(cfg: &OidcConfig, proxy: bool) -> (r: Result<KeySource, OidcError>)
        ensures
            match source_refusal(cfg@, proxy) {
                Some(m) => r matches Err(e) && e@ == m,
                None => r matches Ok(ks) && ks.view_keys() == seeded(cfg@)->Ok_0 && ks.route() == (
                    cfg@.jwks_uri,
                    cfg@.jwks_proxy_service,
                ),
            },
    {
        let has_uri = !cfg.jwks_uri.as_str().is_empty();
        let proxied = cfg.jwks_proxy_service.is_some();
        if proxied && has_uri && !starts_with_https(cfg.jwks_uri.as_str()) {
            return Err(
                OidcError::Rejected(
                    "jwks_uri must be https:// when a jwks proxy is configured".to_owned(),
                ),
            );
        }
        let keys = if trim(cfg.seed_jwks.as_str()).as_str().is_empty() {
            let none: Vec<SigningKey> = Vec::new();
            let set = KeySet { keys: none };
            assert(set@ =~= Seq::empty());
            set
        } else {
            match KeySet::parse(cfg.seed_jwks.as_str()) {
                Ok(set) => set,
                Err(m) => {
                    return Err(OidcError::Rejected(cat("seed_jwks does not parse: ", m.as_str())));
                },
            }
        };
        if keys.keys.len() == 0 && !(has_uri && (!proxied || proxy)) {
            return Err(OidcError::NoKeys);
        }
        Ok(
            KeySource {
                keys,
                jwks_uri: cfg.jwks_uri.clone(),
                proxy_service: clone_opt(&cfg.jwks_proxy_service),
            },
        )
    }

    /// The keys that serve now.
    pub fn current(&self) -> (r: &KeySet)
        ensures
            r@ == self.view_keys(),
    {
        &self.keys
    }

    /// Whether a key of this id is known. One that is not calls for a refresh.
    pub fn knows(&self, kid: &str) -> (r: bool)
        ensures
            r == (key_of_id(self.view_keys(), kid@) is Some),
    {
        self.keys.find(kid).is_some()
    }

    /// The service through whose provider keys are fetched.
    pub fn proxy_service(&self) -> (r: Option<&str>)
        ensures
            match r {
                Some(s) => self.route().1 == Some(s@),
                None => self.route().1 is None,
            },
    {
        match &self.proxy_service {
            Some(s) => Some(s.as_str()),
            None => None,
        }
    }

    /// The fetch that a refresh makes, given the proxy of the moment. Where policy names a
    /// proxy, nothing is fetched without it; where it names none, none is used.
    pub fn plan_refresh(&self, proxy: Option<String>) -> (r: Result<FetchPlan, ServiceError>)
        ensures
            match self.route() {
                (uri, service) => if uri.len() == 0 {
                    r matches Err(e) && e@ == ServiceErrorView::Internal(
                        "JWKS fetch has no jwks_uri"@,
                    )
                } else {
                    match (service, proxy) {
                        (Some(s), None) => r matches Err(e) && e@ == ServiceErrorView::Internal(
                            "JWKS proxy not reachable: "@ + s,
                        ),
                        (Some(_), Some(p)) => r matches Ok(plan) && plan.url@ == uri && (
                        plan.proxy matches Some(q) && q@ == p@),
                        (None, _) => r matches Ok(plan) && plan.url@ == uri && plan.proxy is None,
                    }
                },
            },
    {
        if self.jwks_uri.as_str().is_empty() {
            return Err(ServiceError::Internal("JWKS fetch has no jwks_uri".to_owned()));
        }
        match (&self.proxy_service, proxy) {
            (Some(s), None) => Err(
                ServiceError::Internal(cat("JWKS proxy not reachable: ", s.as_str())),
            ),
            (Some(_), Some(p)) => Ok(FetchPlan { url: self.jwks_uri.clone(), proxy: Some(p) }),
            (None, _) => Ok(FetchPlan { url: self.jwks_uri.clone(), proxy: None }),
        }
    }

    /// Takes in what came of a fetch. The keys of a good answer replace those that served
    /// so far; after any failure those go on serving.
    pub fn refresh(&mut self, fetched: Fetched) -> (r: Result<(), ServiceError>)
        ensures
            final(self).route() == old(self).route(),
            match fetched_keys(fetched) {
                Ok(keys) => r is Ok && final(self).view_keys() == keys,
                Err(m) => (r matches Err(e) && e@ == m) && final(self).view_keys() == old(
                    self,
                ).view_keys(),
            },
    {
        match fetched {
            Fetched::Failed(m) => Err(
                ServiceError::Internal(cat("JWKS fetch failed: ", m.as_str())),
            ),
            Fetched::Response(status, body) => {
                if status != 200 {
                    return Err(
                        ServiceError::Internal(
                            cat("JWKS fetch returned status ", decimal(status as u64).as_str()),
                        ),
                    );
                }
                match body {
                    Err(e) => Err(e),
                    Ok(text) => match KeySet::parse(text.as_str()) {
                        Ok(keys) => {
                            self.keys = keys;
                            Ok(())
                        },
                        Err(m) => Err(
                            ServiceError::Internal(
                                cat("JWKS response does not parse: ", m.as_str()),
                            ),
                        ),
                    },
                }
            },
        }
    }
}

/// A source of keys always has keys, or a way to fetch them.
pub proof fn law_source_has_keys_or_a_route(cfg: OidcConfigView, proxy: bool)
    ensures
        source_refusal(cfg, proxy) is None ==> seeded(cfg)->Ok_0.len() > 0 || has_route(cfg, proxy),
        source_refusal(cfg, proxy) is None && cfg.jwks_proxy_service is Some && cfg.jwks_uri.len()
            > 0 ==> is_https(cfg.jwks_uri),
{
}

/// Only a good response replaces the keys: status 200 with a body that was read and holds a key
/// set. It replaces them by that set; all else is an error.
pub proof fn law_only_a_good_response_brings_keys(f: Fetched, keys: KeysView)
    ensures
        (fetched_keys(f) matches Ok(k) && k == keys) <==> (f matches Fetched::Response(status, body)
            && status == 200 && (body matches Ok(text) && (jwk_set_parsed(text@) matches Ok(k) && k
            == keys))),
{
}

/// A source of keys is refused just where its keys would be fetched through a proxy and not over
/// TLS, where its first keys cannot be read, and where it has neither first keys nor a way to
/// fetch any.
pub proof fn law_key_source_is_refused(cfg: OidcConfigView, proxy: bool)
    ensures
        source_refusal(cfg, proxy) is None <==> {
            let blank = forall|i: int|
                0 <= i < cfg.seed_jwks.len() ==> crate::text::is_space(#[trigger] cfg.seed_jwks[i]);
            &&& cfg.jwks_proxy_service is Some && cfg.jwks_uri.len() > 0
                ==> "https://"@.is_prefix_of(cfg.jwks_uri)
            &&& !blank ==> jwk_set_parsed(cfg.seed_jwks) is Ok
            &&& (!blank && jwk_set_parsed(cfg.seed_jwks)->Ok_0.len() > 0) || (cfg.jwks_uri.len() > 0
                && (cfg.jwks_proxy_service is None || proxy))
        },
        source_refusal(cfg, proxy) is None && (exists|i: int|
            0 <= i < cfg.seed_jwks.len() && !crate::text::is_space(#[trigger] cfg.seed_jwks[i]))
            ==> seeded(cfg) == jwk_set_parsed(cfg.seed_jwks),
{
    crate::text::law_trimming_takes_white_space_off_the_ends(cfg.seed_jwks);
}

} // verus!
