//! Validation of identity tokens.

use std::time::{SystemTime, UNIX_EPOCH};

use base64::engine::general_purpose::URL_SAFE_NO_PAD;
use base64::Engine;
use jsonwebtoken as jwt;
use serde_json::Value;

use visa_service::oidc::keys::KeySet;
use visa_service::oidc::validate::{
    validate_id_token, IdpParams, NonceExpectation, OidcError, ValidatedToken,
};
use visa_service::time::{Timestamp, NANOS_PER_SEC};

const ISSUER: &str = "https://accounts.google.com";
const CLIENT_ID: &str = "test-client-id.apps.googleusercontent.com";
const NONCE: &str = "expected-nonce-value";
const TEST_KID: &str = "k1";

/// A throwaway key pair, made for one test.
struct Keys {
    private_pem: Vec<u8>,
    public_pem: Vec<u8>,
    jwks: String,
}

fn make_keys() -> Keys {
    let rsa = openssl::rsa::Rsa::generate(2048).unwrap();
    let n = URL_SAFE_NO_PAD.encode(rsa.n().to_vec());
    let e = URL_SAFE_NO_PAD.encode(rsa.e().to_vec());
    let jwks = format!(
        "{{\"keys\":[{{\"kty\":\"RSA\",\"use\":\"sig\",\"alg\":\"RS256\",\"kid\":\"{TEST_KID}\",\
         \"n\":\"{n}\",\"e\":\"{e}\"}}]}}"
    );
    Keys {
        private_pem: rsa.private_key_to_pem().unwrap(),
        public_pem: rsa.public_key_to_pem().unwrap(),
        jwks,
    }
}

fn key_set(keys: &Keys) -> KeySet {
    KeySet::parse(&keys.jwks).unwrap()
}

fn now_secs() -> u64 {
    SystemTime::now().duration_since(UNIX_EPOCH).unwrap().as_secs()
}

fn now() -> Timestamp {
    SystemTime::now().duration_since(UNIX_EPOCH).unwrap().as_nanos() as Timestamp
}

fn at(secs: u64) -> Timestamp {
    secs as Timestamp * NANOS_PER_SEC as Timestamp
}

/// The default leeway in seconds.
fn skew_secs() -> u64 {
    (IdpParams::default_clock_skew() / NANOS_PER_SEC as u128) as u64
}

fn base_claims() -> serde_json::Map<String, Value> {
    let mut c = serde_json::Map::new();
    c.insert("iss".to_string(), Value::from(ISSUER));
    c.insert("aud".to_string(), Value::from(CLIENT_ID));
    c.insert("sub".to_string(), Value::from("10769150350006150715113082367"));
    c.insert("exp".to_string(), Value::from(now_secs() + 3600));
    c.insert("iat".to_string(), Value::from(now_secs()));
    c.insert("nonce".to_string(), Value::from(NONCE));
    c.insert("hd".to_string(), Value::from("example.com"));
    c.insert("email".to_string(), Value::from("jane@example.com"));
    c.insert("email_verified".to_string(), Value::from(true));
    c
}

fn set(c: &mut serde_json::Map<String, Value>, name: &str, value: impl Into<Value>) {
    c.insert(name.to_string(), value.into());
}

fn params(allowed: &[String]) -> IdpParams<'_> {
    IdpParams {
        issuer: ISSUER,
        client_id: CLIENT_ID,
        allowed_domains: allowed,
        max_auth_age: None,
        allow_offline_access: false,
        clock_skew: IdpParams::default_clock_skew(),
    }
}

fn token(
    claims: serde_json::Map<String, Value>,
    kid: &str,
    alg: jwt::Algorithm,
    key: &jwt::EncodingKey,
) -> String {
    let mut header = jwt::Header::new(alg);
    header.kid = Some(kid.to_string());
    jwt::encode(&header, &Value::Object(claims), key).unwrap()
}

/// An unsigned token, put together by hand.
fn token_alg_none(claims: serde_json::Map<String, Value>, kid: &str) -> String {
    let mut header = serde_json::Map::new();
    header.insert("alg".to_string(), Value::from("none"));
    header.insert("typ".to_string(), Value::from("JWT"));
    header.insert("kid".to_string(), Value::from(kid));
    format!(
        "{}.{}.",
        URL_SAFE_NO_PAD.encode(Value::Object(header).to_string()),
        URL_SAFE_NO_PAD.encode(Value::Object(claims).to_string()),
    )
}

fn sign(keys: &Keys, claims: serde_json::Map<String, Value>) -> String {
    let key = jwt::EncodingKey::from_rsa_pem(&keys.private_pem).unwrap();
    token(claims, TEST_KID, jwt::Algorithm::RS256, &key)
}

fn validate(keys: &Keys, claims: serde_json::Map<String, Value>) -> Result<ValidatedToken, OidcError> {
    let allowed = vec!["example.com".to_string()];
    validate_id_token(
        &sign(keys, claims),
        &key_set(keys),
        &params(&allowed),
        NonceExpectation::Required(NONCE),
        now(),
    )
}

fn has_claim(tok: &ValidatedToken, name: &str) -> bool {
    tok.raw_claims.iter().any(|(n, _)| n == name)
}

#[test]
fn valid_token_accepted() {
    let keys = make_keys();
    let tok = validate(&keys, base_claims()).unwrap();
    assert_eq!(tok.sub, "10769150350006150715113082367");
    assert_eq!(tok.hd.as_deref(), Some("example.com"));
    assert_eq!(tok.email.as_deref(), Some("jane@example.com"));
    assert!(has_claim(&tok, "iss"));
}

#[test]
fn alg_none_rejected() {
    let keys = make_keys();
    let allowed = vec!["example.com".to_string()];
    let t = token_alg_none(base_claims(), TEST_KID);
    let err = validate_id_token(
        &t,
        &key_set(&keys),
        &params(&allowed),
        NonceExpectation::Required(NONCE),
        now(),
    )
    .unwrap_err();
    assert!(matches!(err, OidcError::Signature(_)), "{}", err.message());
}

#[test]
fn hs256_algorithm_confusion_rejected() {
    let keys = make_keys();
    let allowed = vec!["example.com".to_string()];
    let key = jwt::EncodingKey::from_secret(&keys.public_pem);
    let t = token(base_claims(), TEST_KID, jwt::Algorithm::HS256, &key);
    let err = validate_id_token(
        &t,
        &key_set(&keys),
        &params(&allowed),
        NonceExpectation::Required(NONCE),
        now(),
    )
    .unwrap_err();
    assert!(matches!(err, OidcError::Signature(_)), "{}", err.message());
}

#[test]
fn wrong_audience_rejected() {
    let keys = make_keys();
    let mut c = base_claims();
    set(&mut c, "aud", "attacker-client-id.apps.googleusercontent.com");
    let err = validate(&keys, c).unwrap_err();
    assert!(matches!(err, OidcError::Signature(_)), "{}", err.message());
}

#[test]
fn wrong_issuer_rejected() {
    let keys = make_keys();
    let mut c = base_claims();
    set(&mut c, "iss", "https://evil.example.net");
    let err = validate(&keys, c).unwrap_err();
    assert!(matches!(err, OidcError::Signature(_)), "{}", err.message());
}

#[test]
fn expired_token_rejected() {
    let keys = make_keys();
    let mut c = base_claims();
    set(&mut c, "exp", now_secs() - 3600);
    let err = validate(&keys, c).unwrap_err();
    assert!(matches!(err, OidcError::Signature(_)), "{}", err.message());
}

#[test]
fn missing_nonce_rejected() {
    let keys = make_keys();
    let mut c = base_claims();
    c.remove("nonce");
    let err = validate(&keys, c).unwrap_err();
    assert!(matches!(err, OidcError::Signature(_)), "{}", err.message());
}

#[test]
fn mismatched_nonce_rejected() {
    let keys = make_keys();
    let mut c = base_claims();
    set(&mut c, "nonce", "some-other-nonce");
    let err = validate(&keys, c).unwrap_err();
    assert!(matches!(err, OidcError::Signature(_)), "{}", err.message());
}

#[test]
fn session_bound_ignores_nonce_mismatch() {
    let keys = make_keys();
    let allowed = vec!["example.com".to_string()];

    let mut c = base_claims();
    set(&mut c, "nonce", "the-original-login-nonce");
    let tok = validate_id_token(
        &sign(&keys, c),
        &key_set(&keys),
        &params(&allowed),
        NonceExpectation::SessionBound,
        now(),
    )
    .expect("SessionBound must not check the nonce");
    assert_eq!(tok.sub, "10769150350006150715113082367");

    let mut c2 = base_claims();
    c2.remove("nonce");
    validate_id_token(
        &sign(&keys, c2),
        &key_set(&keys),
        &params(&allowed),
        NonceExpectation::SessionBound,
        now(),
    )
    .expect("SessionBound must accept a missing nonce");

    // Only the nonce check is relaxed: everything else still runs.
    let mut c3 = base_claims();
    set(&mut c3, "aud", "attacker-client-id.apps.googleusercontent.com");
    let err = validate_id_token(
        &sign(&keys, c3),
        &key_set(&keys),
        &params(&allowed),
        NonceExpectation::SessionBound,
        now(),
    )
    .unwrap_err();
    assert!(matches!(err, OidcError::Signature(_)), "{}", err.message());
}

#[test]
fn absent_hd_rejected() {
    let keys = make_keys();
    let mut c = base_claims();
    c.remove("hd");
    let err = validate(&keys, c).unwrap_err();
    assert!(matches!(err, OidcError::Rejected(_)), "{}", err.message());
}

#[test]
fn wrong_hd_rejected() {
    let keys = make_keys();
    let mut c = base_claims();
    set(&mut c, "hd", "not-allowed.example.org");
    let err = validate(&keys, c).unwrap_err();
    assert!(matches!(err, OidcError::Rejected(_)), "{}", err.message());
    assert!(
        !err.message().contains("not-allowed.example.org"),
        "error must not echo the token's hd value: {}",
        err.message()
    );
}

#[test]
fn unverified_email_dropped() {
    let keys = make_keys();
    let mut c = base_claims();
    set(&mut c, "email_verified", false);
    let tok = validate(&keys, c).unwrap();
    assert_eq!(tok.email, None);
    assert_eq!(tok.sub, "10769150350006150715113082367");
}

#[test]
fn unverified_email_stripped_from_raw_claims() {
    let keys = make_keys();
    let mut c = base_claims();
    set(&mut c, "email_verified", false);
    let tok = validate(&keys, c).unwrap();
    assert!(
        !has_claim(&tok, "email"),
        "unverified email must not survive in raw_claims"
    );
    // A missing email_verified counts as unverified.
    let mut c2 = base_claims();
    c2.remove("email_verified");
    let tok2 = validate(&keys, c2).unwrap();
    assert!(!has_claim(&tok2, "email"));
    // A verified email is retained.
    let tok3 = validate(&keys, base_claims()).unwrap();
    assert!(has_claim(&tok3, "email"));
}

#[test]
fn unknown_kid_rejected() {
    let keys = make_keys();
    let allowed = vec!["example.com".to_string()];
    let key = jwt::EncodingKey::from_rsa_pem(&keys.private_pem).unwrap();
    let t = token(base_claims(), "rotated-away", jwt::Algorithm::RS256, &key);
    let err = validate_id_token(
        &t,
        &key_set(&keys),
        &params(&allowed),
        NonceExpectation::Required(NONCE),
        now(),
    )
    .unwrap_err();
    assert!(
        matches!(err, OidcError::UnknownKid(ref k) if k == "rotated-away"),
        "{}",
        err.message()
    );
}

#[test]
fn stale_auth_time_rejected() {
    let keys = make_keys();
    let mut c = base_claims();
    set(&mut c, "auth_time", now_secs() - 86_400);
    let allowed = vec!["example.com".to_string()];
    let mut p = params(&allowed);
    p.max_auth_age = Some(3600 * NANOS_PER_SEC as u128);
    let err = validate_id_token(
        &sign(&keys, c),
        &key_set(&keys),
        &p,
        NonceExpectation::Required(NONCE),
        now(),
    )
    .unwrap_err();
    assert!(matches!(err, OidcError::Rejected(_)), "{}", err.message());
}

#[test]
fn wildcard_domain_accepts_missing_hd() {
    let keys = make_keys();
    let mut c = base_claims();
    c.remove("hd");
    let allowed = vec!["*".to_string()];
    let tok = validate_id_token(
        &sign(&keys, c),
        &key_set(&keys),
        &params(&allowed),
        NonceExpectation::Required(NONCE),
        now(),
    )
    .unwrap();
    assert_eq!(tok.hd, None);
}

#[test]
fn auth_time_falls_back_to_iat() {
    let keys = make_keys();
    let iat = now_secs();
    let mut c = base_claims();
    set(&mut c, "iat", iat);
    let tok = validate(&keys, c).unwrap();
    assert_eq!(tok.auth_time, at(iat));

    // Where auth_time is present, it wins over iat.
    let mut c2 = base_claims();
    set(&mut c2, "auth_time", iat - 100);
    let tok2 = validate(&keys, c2).unwrap();
    assert_eq!(tok2.auth_time, at(iat - 100));
}

#[test]
fn offline_access_without_auth_time_rejected() {
    let keys = make_keys();
    let c = base_claims();
    let allowed = vec!["example.com".to_string()];
    let mut p = params(&allowed);
    p.allow_offline_access = true;
    let err = validate_id_token(
        &sign(&keys, c),
        &key_set(&keys),
        &p,
        NonceExpectation::Required(NONCE),
        now(),
    )
    .unwrap_err();
    assert!(
        matches!(err, OidcError::Rejected(ref msg)
            if msg == "auth_time required for a renewable session"),
        "expected the exact renewable-session rejection, got: {}",
        err.message()
    );
}

#[test]
fn offline_access_with_auth_time_accepted() {
    let keys = make_keys();
    let seen = now_secs() - 100;
    let mut c = base_claims();
    set(&mut c, "auth_time", seen);
    let allowed = vec!["example.com".to_string()];
    let mut p = params(&allowed);
    p.allow_offline_access = true;
    let tok = validate_id_token(
        &sign(&keys, c),
        &key_set(&keys),
        &p,
        NonceExpectation::Required(NONCE),
        now(),
    )
    .unwrap();
    assert_eq!(tok.auth_time, at(seen));
}

#[test]
fn iat_is_kept_alongside_auth_time() {
    let keys = make_keys();
    let iat = now_secs();
    let mut c = base_claims();
    set(&mut c, "iat", iat);
    set(&mut c, "auth_time", iat - 3600);
    let tok = validate(&keys, c).unwrap();
    assert_eq!(tok.iat, at(iat));
    assert_eq!(tok.auth_time, at(iat - 3600));

    // Without auth_time both anchor on iat.
    let mut c2 = base_claims();
    set(&mut c2, "iat", iat);
    let tok2 = validate(&keys, c2).unwrap();
    assert_eq!(tok2.iat, at(iat));
    assert_eq!(tok2.auth_time, tok2.iat);
}

#[test]
fn huge_auth_time_rejected_not_panic() {
    let keys = make_keys();
    let mut c = base_claims();
    set(&mut c, "auth_time", u64::MAX);
    let err = validate(&keys, c).unwrap_err();
    assert!(matches!(err, OidcError::Rejected(_)), "{}", err.message());

    // The same guard where iat stands in.
    let mut c2 = base_claims();
    c2.remove("auth_time");
    set(&mut c2, "iat", u64::MAX);
    let _ = validate(&keys, c2).unwrap_err();
}

#[test]
fn future_iat_beyond_skew_rejected() {
    let keys = make_keys();
    let now_s = now_secs();
    let skew = skew_secs();
    let allowed = vec!["example.com".to_string()];

    let mut c = base_claims();
    set(&mut c, "iat", now_s + skew + 61);
    let err = validate_id_token(
        &sign(&keys, c),
        &key_set(&keys),
        &params(&allowed),
        NonceExpectation::Required(NONCE),
        at(now_s),
    )
    .unwrap_err();
    assert!(matches!(err, OidcError::Rejected(_)), "{}", err.message());

    // Within the leeway it is accepted.
    let mut c2 = base_claims();
    set(&mut c2, "iat", now_s + skew - 60);
    let tok = validate_id_token(
        &sign(&keys, c2),
        &key_set(&keys),
        &params(&allowed),
        NonceExpectation::Required(NONCE),
        at(now_s),
    )
    .unwrap();
    assert_eq!(tok.iat, at(now_s + skew - 60));
}

#[test]
fn auth_time_just_beyond_skew_leeway_still_rejected() {
    let keys = make_keys();
    let now_s = now_secs();
    let skew = skew_secs();
    let allowed = vec!["example.com".to_string()];
    let mut p = params(&allowed);
    p.max_auth_age = Some(7200 * NANOS_PER_SEC as u128);

    // One past the leeway window: rejected.
    let mut c = base_claims();
    set(&mut c, "auth_time", now_s - 7200 - skew - 1);
    let err = validate_id_token(
        &sign(&keys, c),
        &key_set(&keys),
        &p,
        NonceExpectation::Required(NONCE),
        at(now_s),
    )
    .unwrap_err();
    assert!(matches!(err, OidcError::Rejected(_)), "{}", err.message());

    // Exactly at the boundary: accepted.
    let mut c2 = base_claims();
    set(&mut c2, "auth_time", now_s - 7200 - skew);
    validate_id_token(
        &sign(&keys, c2),
        &key_set(&keys),
        &p,
        NonceExpectation::Required(NONCE),
        at(now_s),
    )
    .expect("auth_time exactly max_auth_age + clock_skew old is accepted");
}

#[test]
fn empty_jwks_is_no_keys() {
    let keys = make_keys();
    let allowed = vec!["example.com".to_string()];
    let empty = KeySet { keys: vec![] };
    let err = validate_id_token(
        &sign(&keys, base_claims()),
        &empty,
        &params(&allowed),
        NonceExpectation::Required(NONCE),
        now(),
    )
    .unwrap_err();
    assert!(matches!(err, OidcError::NoKeys), "{}", err.message());
}

/// Without a key id there is no key to choose, and the words say which claim is meant.
#[test]
fn token_without_key_id_is_refused() {
    let keys = make_keys();
    let allowed = vec!["example.com".to_string()];
    let key = jwt::EncodingKey::from_rsa_pem(&keys.private_pem).unwrap();
    let header = jwt::Header::new(jwt::Algorithm::RS256);
    let t = jwt::encode(&header, &Value::Object(base_claims()), &key).unwrap();
    let err = validate_id_token(
        &t,
        &key_set(&keys),
        &params(&allowed),
        NonceExpectation::Required(NONCE),
        now(),
    )
    .unwrap_err();
    assert!(matches!(err, OidcError::Signature(_)), "{}", err.message());
}

/// A key set is read key by key, in order, and found by id.
#[test]
fn key_set_finds_keys_by_id() {
    let keys = make_keys();
    let set = key_set(&keys);
    assert_eq!(set.keys.len(), 1);
    assert_eq!(set.keys[0].kid.as_deref(), Some(TEST_KID));
    let jwk = set.find(TEST_KID).expect("the key is there");
    assert!(jwk.contains("\"kty\":\"RSA\""), "{jwk}");
    assert_ne!(*jwk, keys.jwks);
    assert!(set.find("k2").is_none());
    assert!(KeySet::parse("{\"keys\": 1}").is_err());
}

/// A token signed with another key under a known id is refused.
#[test]
fn foreign_signature_is_refused() {
    let keys = make_keys();
    let other = make_keys();
    let allowed = vec!["example.com".to_string()];
    let err = validate_id_token(
        &sign(&other, base_claims()),
        &key_set(&keys),
        &params(&allowed),
        NonceExpectation::Required(NONCE),
        now(),
    )
    .unwrap_err();
    assert!(matches!(err, OidcError::Signature(_)), "{}", err.message());
}
