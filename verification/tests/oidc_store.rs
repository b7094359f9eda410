//! The claims store of an OIDC service, and the source of its keys.

use visa_service::attribute::{
    AttrHint, Attribute, AttributeMapper, AttributeMapping, USER_AUTHORITY,
};
use visa_service::error::ServiceError;
use visa_service::json::Json;
use visa_service::oidc::jwks::{Fetched, KeySource};
use visa_service::oidc::store::{claim_values, OidcTrustedService};
use visa_service::oidc::validate::{IdpParams, OidcError, ValidatedToken};
use visa_service::policy::{OidcConfig, TrustedService};
use visa_service::time::{Timestamp, MAX_TIMESTAMP, NANOS_PER_SEC};
use visa_service::trusted_services::RevisionCounter;

const NOW: u64 = 1_800_000_000;

fn secs(n: u64) -> Timestamp {
    n as Timestamp * NANOS_PER_SEC as Timestamp
}

fn config() -> OidcConfig {
    OidcConfig {
        issuer: "https://accounts.google.com".to_string(),
        client_id: "test-client-id.apps.googleusercontent.com".to_string(),
        jwks_uri: "https://idp.invalid/jwks".to_string(),
        seed_jwks: SEED.to_string(),
        jwks_proxy_service: None,
        allowed_domains: vec!["example.com".to_string()],
        max_auth_age_seconds: 0,
        allow_offline_access: false,
    }
}

fn mapping(name: &str, key: &str) -> AttributeMapping {
    AttributeMapping {
        service_attr_key: name.to_string(),
        zpr_key: key.to_string(),
        hint: AttrHint::SingleValued,
    }
}

fn record(cfg: OidcConfig) -> TrustedService {
    TrustedService {
        service_id: "google".to_string(),
        expiration_seconds: 300,
        returns_attrs: AttributeMapper {
            mappings: vec![mapping("sub", "user.oidc-subject"), mapping("email", "user.email")],
        },
        identity_attrs: vec!["sub".to_string()],
        oidc: Some(cfg),
        attr_query: None,
    }
}

fn make_store(counter: &mut RevisionCounter) -> OidcTrustedService {
    OidcTrustedService::new(&record(config()), counter).unwrap()
}

fn make_token(sub: &str, email: Option<&str>) -> ValidatedToken {
    let mut raw_claims = vec![
        ("hd".to_string(), Json::Text("example.com".to_string())),
        ("sub".to_string(), Json::Text(sub.to_string())),
    ];
    if let Some(email) = email {
        raw_claims.insert(0, ("email".to_string(), Json::Text(email.to_string())));
    }
    ValidatedToken {
        sub: sub.to_string(),
        email: email.map(str::to_string),
        hd: Some("example.com".to_string()),
        auth_time: secs(NOW),
        iat: secs(NOW),
        raw_claims,
    }
}

fn identities(authority: &str, sub: &str) -> Vec<(String, String)> {
    vec![
        (USER_AUTHORITY.to_string(), authority.to_string()),
        ("user.oidc-subject".to_string(), sub.to_string()),
    ]
}

fn find<'a>(attrs: &'a [Attribute], key: &str) -> &'a Attribute {
    attrs.iter().find(|a| a.key == key).expect("mapped attribute")
}

#[test]
fn test_admit_then_lookup_by_sub() {
    let mut counter = RevisionCounter::new();
    let mut store = make_store(&mut counter);
    assert_eq!(store.get_source_id(), "google");
    let expires = secs(NOW + 300);
    let admitted = store
        .admit_token(
            &make_token("s-123", Some("jane@example.com")),
            expires,
            secs(NOW),
            &mut counter,
        )
        .unwrap();
    assert!(!admitted.is_empty());
    let attrs =
        store.get_attributes_for_actor(&identities("google", "s-123"), secs(NOW)).unwrap();
    let sub = find(&attrs, "user.oidc-subject");
    assert_eq!(sub.get_single_value().unwrap(), "s-123");
    assert_eq!(sub.expires, expires);
    assert_eq!(sub.source, "google");
    let email = find(&attrs, "user.email");
    assert_eq!(email.get_single_value().unwrap(), "jane@example.com");
    assert_eq!(email.expires, expires);
}

#[test]
fn test_lookup_unknown_sub_is_empty() {
    let mut counter = RevisionCounter::new();
    let mut store = make_store(&mut counter);
    store
        .admit_token(
            &make_token("s-123", Some("jane@example.com")),
            secs(NOW + 300),
            secs(NOW),
            &mut counter,
        )
        .unwrap();
    assert!(store
        .get_attributes_for_actor(&identities("google", "s-999"), secs(NOW))
        .unwrap()
        .is_empty());
    let other = vec![("device.zpr.adapter.cn".to_string(), "s-123".to_string())];
    assert!(store.get_attributes_for_actor(&other, secs(NOW)).unwrap().is_empty());
}

#[test]
fn test_email_not_mapped_when_unverified() {
    let mut counter = RevisionCounter::new();
    let mut store = make_store(&mut counter);
    let admitted = store
        .admit_token(&make_token("s-123", None), secs(NOW + 300), secs(NOW), &mut counter)
        .unwrap();
    assert!(admitted.iter().all(|a| a.key != "user.email"));
    let attrs =
        store.get_attributes_for_actor(&identities("google", "s-123"), secs(NOW)).unwrap();
    assert!(attrs.iter().all(|a| a.key != "user.email"));
    assert!(attrs.iter().any(|a| a.key == "user.oidc-subject"));
}

#[test]
fn test_flush_clears_admitted() {
    let mut counter = RevisionCounter::new();
    let mut store = make_store(&mut counter);
    store
        .admit_token(&make_token("s-123", None), secs(NOW + 300), secs(NOW), &mut counter)
        .unwrap();
    store.flush(&mut counter);
    assert!(store
        .get_attributes_for_actor(&identities("google", "s-123"), secs(NOW))
        .unwrap()
        .is_empty());
}

#[test]
fn test_admit_bumps_revision() {
    let mut counter = RevisionCounter::new();
    let mut store = make_store(&mut counter);
    let before = store.current_revision();
    store
        .admit_token(&make_token("s-123", None), secs(NOW + 300), secs(NOW), &mut counter)
        .unwrap();
    assert!(store.current_revision() > before);
}

#[test]
fn test_lookup_scoped_to_issuing_service_authority() {
    let mut counter = RevisionCounter::new();
    let mut store = make_store(&mut counter);
    store
        .admit_token(
            &make_token("s-123", Some("jane@example.com")),
            secs(NOW + 300),
            secs(NOW),
            &mut counter,
        )
        .unwrap();
    assert!(
        store
            .get_attributes_for_actor(&identities("other-idp", "s-123"), secs(NOW))
            .unwrap()
            .is_empty(),
        "an actor vouched for by another service must not receive this store's cache"
    );
    let attrs =
        store.get_attributes_for_actor(&identities("google", "s-123"), secs(NOW)).unwrap();
    assert!(attrs.iter().any(|a| a.key == "user.email"));
}

#[test]
fn test_admitted_entry_carries_attrs_and_expiry() {
    let mut counter = RevisionCounter::new();
    let mut store = make_store(&mut counter);
    let expires = secs(NOW + 300);
    let token = make_token("s-123", Some("jane@example.com"));
    store.admit_token(&token, expires, secs(NOW), &mut counter).unwrap();

    let ids = identities("google", "s-123");
    let attrs = store.get_attributes_for_actor(&ids, expires - 1).unwrap();
    assert!(!attrs.is_empty());
    for attr in &attrs {
        assert_eq!(attr.expires, expires);
    }
    // What was admitted expires at that moment.
    assert!(store.get_attributes_for_actor(&ids, expires).unwrap().is_empty());
}

/// What has expired is not served, even where it was never purged.
#[test]
fn expired_claims_are_not_served() {
    let mut counter = RevisionCounter::new();
    let mut store = make_store(&mut counter);
    store
        .admit_token(&make_token("s-gone", None), secs(NOW + 10), secs(NOW), &mut counter)
        .unwrap();
    let ids = identities("google", "s-gone");
    assert_eq!(store.get_attributes_for_actor(&ids, secs(NOW + 9)).unwrap().len(), 1);
    assert!(store.get_attributes_for_actor(&ids, secs(NOW + 10)).unwrap().is_empty());
    // The lookup dropped it for good.
    assert!(store.get_attributes_for_actor(&ids, secs(NOW)).unwrap().is_empty());
}

/// A lookup stops where two subjects disagree: what comes after it is not looked at, so an
/// expired subject there stays, and one before it leaves.
#[test]
fn disagreements_end_the_lookup() {
    let admitted = || {
        let mut counter = RevisionCounter::new();
        let mut store = make_store(&mut counter);
        for (sub, life) in [("a", 300), ("b", 300), ("brief", 10)] {
            let token = make_token(sub, None);
            store.admit_token(&token, secs(NOW + life), secs(NOW), &mut counter).unwrap();
        }
        store
    };
    let naming = |subs: &[&str]| {
        let mut list = vec![(USER_AUTHORITY.to_string(), "google".to_string())];
        for sub in subs {
            list.push(("user.oidc-subject".to_string(), sub.to_string()));
        }
        list
    };
    let later = secs(NOW + 20);
    for (order, stays) in [
        (["a", "b", "brief"], true),
        (["a", "brief", "b"], false),
        (["brief", "a", "b"], false),
    ] {
        let mut store = admitted();
        assert!(store.get_attributes_for_actor(&naming(&order), later).is_err(), "{order:?}");
        let left = store.get_attributes_for_actor(&naming(&["brief"]), secs(NOW)).unwrap();
        assert_eq!(!left.is_empty(), stays, "{order:?}");
    }
    // Without a disagreement the lookup comes to the end.
    let mut store = admitted();
    let served = store.get_attributes_for_actor(&naming(&["a", "brief"]), later).unwrap();
    assert_eq!(find(&served, "user.oidc-subject").get_single_value().unwrap(), "a");
    assert!(store.get_attributes_for_actor(&naming(&["brief"]), secs(NOW)).unwrap().is_empty());
}

#[test]
fn test_admit_purges_expired_entries() {
    let mut counter = RevisionCounter::new();
    let mut store = make_store(&mut counter);
    let past = secs(NOW - 1);
    let gone = identities("google", "s-gone");
    let token = make_token("s-gone", Some("gone@example.com"));
    store.admit_token(&token, past, secs(NOW), &mut counter).unwrap();

    let future = secs(NOW + 300);
    let token = make_token("s-new", Some("new@example.com"));
    store.admit_token(&token, future, secs(NOW), &mut counter).unwrap();
    // Not even a look into the past brings the expired record back.
    assert!(store.get_attributes_for_actor(&gone, secs(NOW - 2)).unwrap().is_empty());
    let new = identities("google", "s-new");
    assert!(!store.get_attributes_for_actor(&new, secs(NOW)).unwrap().is_empty());
}

/// Admission drops subjects that have expired.
#[test]
fn admission_purges_expired_subjects() {
    let mut counter = RevisionCounter::new();
    let mut store = make_store(&mut counter);
    store
        .admit_token(&make_token("s-gone", None), secs(NOW - 1), secs(NOW - 300), &mut counter)
        .unwrap();
    store
        .admit_token(&make_token("s-new", None), secs(NOW + 300), secs(NOW), &mut counter)
        .unwrap();
    assert!(store
        .get_attributes_for_actor(&identities("google", "s-gone"), secs(NOW - 200))
        .unwrap()
        .is_empty());
    assert_eq!(
        store.get_attributes_for_actor(&identities("google", "s-new"), secs(NOW)).unwrap().len(),
        1
    );
}

#[test]
fn test_session_anchors_scoped_per_session() {
    let mut counter = RevisionCounter::new();
    let mut store = make_store(&mut counter);
    let expires = secs(NOW + 300);
    store.record_session("fd5a::1", "s-123", secs(NOW - 3600), secs(NOW - 60), expires, secs(NOW));
    store.record_session("fd5a::2", "s-123", secs(NOW - 120), secs(NOW), expires, secs(NOW));
    let a1 = store.session_anchors("fd5a::1").expect("session 1 recorded");
    assert_eq!(a1.sub, "s-123");
    assert_eq!(a1.auth_time, secs(NOW - 3600));
    assert_eq!(a1.iat, secs(NOW - 60));
    assert_eq!(a1.expires, expires);
    let a2 = store.session_anchors("fd5a::2").expect("session 2 recorded");
    assert_eq!((a2.auth_time, a2.iat), (secs(NOW - 120), secs(NOW)));
    assert!(
        store.session_anchors("fd5a::dead").is_none(),
        "an unknown session has no recorded anchors"
    );
    store.flush(&mut counter);
    assert!(store.session_anchors("fd5a::1").is_none());
}

#[test]
fn test_session_ceiling_from_max_auth_age() {
    let mut counter = RevisionCounter::new();
    let store = make_store(&mut counter);
    assert_eq!(store.session_ceiling(secs(NOW)), None);

    let mut cfg = config();
    cfg.max_auth_age_seconds = 7200;
    let store = OidcTrustedService::new(&record(cfg), &mut counter).unwrap();
    assert_eq!(
        store.session_ceiling(secs(NOW)),
        Some(secs(NOW + 7200) + IdpParams::default_clock_skew() as Timestamp)
    );
}

#[test]
fn test_session_ceiling_covers_accepted_skew() {
    let mut counter = RevisionCounter::new();
    let mut cfg = config();
    cfg.max_auth_age_seconds = 7200;
    let store = OidcTrustedService::new(&record(cfg), &mut counter).unwrap();
    let skew = IdpParams::default_clock_skew() as Timestamp;
    let auth_time = secs(NOW - 7200) - skew;
    let ceiling = store.session_ceiling(auth_time).expect("knob set: there must be a ceiling");
    assert!(
        ceiling >= secs(NOW),
        "an auth_time validation accepts must never yield an already-expired ceiling"
    );
    assert_eq!(ceiling, auth_time + secs(7200) + skew);
}

#[test]
fn test_session_ceiling_overflow_is_no_ceiling() {
    let mut counter = RevisionCounter::new();
    let mut cfg = config();
    cfg.max_auth_age_seconds = 7200;
    let store = OidcTrustedService::new(&record(cfg), &mut counter).unwrap();
    assert_eq!(store.session_ceiling(MAX_TIMESTAMP), None);
}

#[test]
fn stores_need_an_oidc_configuration() {
    let mut counter = RevisionCounter::new();
    let mut r = record(config());
    r.oidc = None;
    let err = OidcTrustedService::new(&r, &mut counter).err().unwrap();
    assert_eq!(err.text(), "trusted service 'google': api 'oidc' requires an oidc config");
    let store = make_store(&mut counter);
    assert_eq!(store.issuer(), "https://accounts.google.com");
    assert_eq!(store.id(), "google");
    assert_eq!(store.mapped_sub_key().as_deref(), Some("user.oidc-subject"));
    assert_eq!(store.lifetime(), 300 * NANOS_PER_SEC);
    let params = store.params();
    assert_eq!(params.max_auth_age, None);
    assert_eq!(params.client_id, "test-client-id.apps.googleusercontent.com");
}

#[test]
fn claims_become_texts() {
    let v = Json::Array(vec![
        Json::Text("a".to_string()),
        Json::Bool(true),
        Json::Null,
        Json::Array(vec![Json::Text("b".to_string())]),
        Json::Object(vec![]),
    ]);
    assert_eq!(claim_values(&v), vec!["a", "true", "b"]);
}

const SEED: &str = r#"{"keys":[{"kty":"RSA","use":"sig","alg":"RS256","kid":"k1","n":"AQAB","e":"AQAB"}]}"#;
const K2: &str = r#"{"keys":[{"kty":"RSA","use":"sig","alg":"RS256","kid":"k2","n":"AQAB","e":"AQAB"}]}"#;

fn source_config(seed: &str, jwks_uri: &str, proxy: Option<&str>) -> OidcConfig {
    let mut cfg = config();
    cfg.seed_jwks = seed.to_string();
    cfg.jwks_uri = jwks_uri.to_string();
    cfg.jwks_proxy_service = proxy.map(str::to_string);
    cfg
}

fn kids(ks: &KeySource) -> Vec<String> {
    ks.current().keys.iter().filter_map(|k| k.kid.clone()).collect()
}

#[test]
fn test_seed_serves_before_first_fetch() {
    let ks = KeySource::from_policy(&source_config(SEED, "https://idp.invalid/jwks", None), false)
        .unwrap();
    assert_eq!(kids(&ks), vec!["k1".to_string()]);
    assert!(ks.knows("k1"));
    assert!(!ks.knows("k2"));
}

#[test]
fn test_refresh_replaces_keys() {
    let mut ks = KeySource::from_policy(&source_config(SEED, "http://h/jwks", None), false).unwrap();
    let plan = ks.plan_refresh(None).unwrap();
    assert_eq!((plan.url.as_str(), plan.proxy), ("http://h/jwks", None));
    ks.refresh(Fetched::Response(200, Ok(K2.to_string()))).unwrap();
    let got = kids(&ks);
    assert!(got.contains(&"k2".to_string()), "{got:?}");
    assert!(
        !got.contains(&"k1".to_string()),
        "fetched set must replace the seed-only view: {got:?}"
    );
}

#[test]
fn test_refresh_failure_keeps_stale_keys() {
    let mut ks = KeySource::from_policy(&source_config(SEED, "http://h/jwks", None), false).unwrap();
    let err = ks.refresh(Fetched::Response(500, Ok(String::new()))).unwrap_err();
    assert_eq!(err.text(), "JWKS fetch returned status 500");
    assert_eq!(kids(&ks), vec!["k1".to_string()]);
    ks.refresh(Fetched::Failed("reset".to_string())).unwrap_err();
    ks.refresh(Fetched::Response(200, Ok("?".to_string()))).unwrap_err();
    let err = ks
        .refresh(Fetched::Response(200, Err(ServiceError::Internal("cut off".to_string()))))
        .unwrap_err();
    assert_eq!(err.text(), "cut off");
    assert_eq!(kids(&ks), vec!["k1".to_string()]);
}

#[test]
fn refreshes_go_through_the_proxy_or_not_at_all() {
    let ks = KeySource::from_policy(
        &source_config(SEED, "https://idp.invalid/jwks", Some("egress-proxy")),
        false,
    )
    .unwrap();
    assert_eq!(ks.proxy_service(), Some("egress-proxy"));
    let err = ks.plan_refresh(None).unwrap_err();
    assert_eq!(err.text(), "JWKS proxy not reachable: egress-proxy");
    let plan = ks.plan_refresh(Some("http://10.0.0.1:3128".to_string())).unwrap();
    assert_eq!(plan.proxy.as_deref(), Some("http://10.0.0.1:3128"));
    // A plain address would bypass the proxy.
    let err =
        KeySource::from_policy(&source_config(SEED, "http://idp/jwks", Some("egress-proxy")), true)
            .unwrap_err();
    assert!(matches!(err, OidcError::Rejected(_)));
    let err = KeySource::from_policy(&source_config("?", "https://idp/jwks", None), true).unwrap_err();
    assert!(err.message().contains("seed_jwks does not parse"), "{}", err.message());
    let ks = KeySource::from_policy(&source_config(SEED, "", None), true).unwrap();
    assert_eq!(ks.plan_refresh(None).unwrap_err().text(), "JWKS fetch has no jwks_uri");
}

#[test]
fn test_no_seed_no_route_is_nokeys() {
    // Policy demands a proxy, none is connected, and the seed is empty.
    let c = source_config("", "https://idp.invalid/jwks", Some("egress-proxy"));
    let err = KeySource::from_policy(&c, false).unwrap_err();
    assert!(matches!(err, OidcError::NoKeys), "{}", err.message());
    // Likewise with no way to fetch at all.
    let c2 = source_config("", "", None);
    let err2 = KeySource::from_policy(&c2, false).unwrap_err();
    assert!(matches!(err2, OidcError::NoKeys), "{}", err2.message());
    // With the proxy there, keys can be fetched.
    assert!(KeySource::from_policy(&c, true).is_ok());
}
