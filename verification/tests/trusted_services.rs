//! Trusted services: authority, stores, manager, declarations.

use visa_service::attribute::{
    AttrHint, Attribute, AttributeMapper, AttributeMapping, USER_AUTHORITY,
};
use visa_service::db::addr::ZprAddr;
use visa_service::error::ServiceError;
use visa_service::http_util::{append_capped, read_body_capped, Chunk, Reading, MAX_RESPONSE_BYTES};
use visa_service::json::print_json;
use visa_service::policy::{AttrQueryConfig, OidcConfig, Policy, PolicyService, TrustedService};
use visa_service::time::{Timestamp, NANOS_PER_SEC};
use visa_service::trusted_services::attr_query_store::{
    check_bundle, AttrQueryStore, QueryAnswer, QueryBody, SchemaResponse,
};
use visa_service::trusted_services::factory::{
    jwks_proxy_port_from_policy, trusted_service_definitions, StoreInput, StorePlan,
};
use visa_service::trusted_services::manager::{
    Asked, FileSource, TrustedServicesMgr, TrustedStore,
};
use visa_service::trusted_services::wire::{read_query_body, read_schema};
use visa_service::trusted_services::{
    derive_user_authority, lookup_identities, next_revision, RevisionCounter,
};

fn secs(n: u64) -> Timestamp {
    n as Timestamp * NANOS_PER_SEC as Timestamp
}

/// A moment in the middle of things.
const NOW: u64 = 1_800_000_000;

fn attr(source: &str, key: &str, value: &str, life: u64) -> Attribute {
    Attribute {
        key: key.to_string(),
        values: vec![value.to_string()],
        expires: secs(NOW + life),
        source: source.to_string(),
    }
}

#[test]
fn test_derive_user_authority_from_user_attrs() {
    let attrs = vec![
        attr("bas", "user.clearance", "classified", 600),
        attr("bas", "user.dept", "engineering", 300),
        attr("bas", "device.zpr.location", "hq", 60),
    ];
    let authority = derive_user_authority("bas", &attrs, None).expect("authority expected");
    assert_eq!(authority.key, USER_AUTHORITY);
    assert_eq!(authority.values, ["bas".to_string()]);
    assert_eq!(authority.source, "bas");
    assert_eq!(
        authority.expires, attrs[1].expires,
        "authority must expire with the earliest-expiring user attribute"
    );
}

#[test]
fn test_derive_user_authority_none_without_user_attrs() {
    let device_only = vec![attr("bas", "device.zpr.location", "hq", 600)];
    assert!(derive_user_authority("bas", &device_only, None).is_none());
    assert!(derive_user_authority("bas", &vec![], None).is_none());
}

#[test]
fn test_derive_user_authority_displaces_competing_authority_zipline24() {
    let attrs = vec![attr("happyfile", "user.zpr.tag.lazy", "", 600)];
    assert!(
        derive_user_authority("happyfile", &attrs, Some("google")).is_none(),
        "a decorating source must not displace the authenticator's authority"
    );
}

#[test]
fn test_derive_user_authority_restamps_own_authority() {
    let attrs = vec![
        attr("google", "user.oidc-subject", "s-123", 600),
        attr("google", "user.dept", "engineering", 300),
    ];
    let authority = derive_user_authority("google", &attrs, Some("google"))
        .expect("the authenticating source must re-derive its own authority");
    assert_eq!(authority.key, USER_AUTHORITY);
    assert_eq!(authority.values, ["google".to_string()]);
    assert_eq!(authority.source, "google");
    assert_eq!(
        authority.expires, attrs[1].expires,
        "expiry must be recomputed from the current attributes on each pass"
    );
}

#[test]
fn test_derive_user_authority_without_existing_authority() {
    let attrs = vec![attr("bas", "user.dept", "engineering", 300)];
    let authority = derive_user_authority("bas", &attrs, None).expect("authority expected");
    assert_eq!(authority.values, ["bas".to_string()]);
    assert_eq!(authority.expires, attrs[0].expires);
}

#[test]
fn test_derive_user_authority_defers_to_explicit() {
    let attrs = vec![
        attr("bas", USER_AUTHORITY, "custom-authority", 600),
        attr("bas", "user.dept", "engineering", 300),
    ];
    assert!(derive_user_authority("bas", &attrs, None).is_none());
}

#[test]
fn test_lookup_identities_includes_user_authority() {
    let attrs = vec![
        attr("google", USER_AUTHORITY, "google", 600),
        attr("google", "user.oidc-subject", "s-123", 600),
        attr("bas", "user.dept", "engineering", 600),
    ];
    let identities = lookup_identities(&vec!["user.oidc-subject".to_string()], &attrs);
    assert!(
        identities.contains(&(USER_AUTHORITY.to_string(), "google".to_string())),
        "the authority pair must be in the lookup set: {identities:?}"
    );
    assert!(identities.contains(&("user.oidc-subject".to_string(), "s-123".to_string())));
    // Attributes that are no identities never leak into the lookup set.
    assert!(!identities.iter().any(|(k, _)| k == "user.dept"));

    // It is not duplicated where policy names it too.
    let identities = lookup_identities(
        &vec!["user.oidc-subject".to_string(), USER_AUTHORITY.to_string()],
        &attrs,
    );
    assert_eq!(
        identities.iter().filter(|(k, _)| k == USER_AUTHORITY).count(),
        1
    );
}

#[test]
fn revisions_count_up() {
    let mut counter = RevisionCounter::new();
    assert_eq!(next_revision(&mut counter), 1);
    assert_eq!(next_revision(&mut counter), 2);
}

fn mapping(spelled: &str) -> AttributeMapping {
    // "name -> key", "name -> key{}" for several values, "name -> #key" for a tag.
    let (name, key) = spelled.split_once(" -> ").unwrap();
    let (key, hint) = if let Some(tag) = key.strip_prefix('#') {
        (tag, AttrHint::Tag)
    } else if let Some(multi) = key.strip_suffix("{}") {
        (multi, AttrHint::MultiValued)
    } else {
        (key, AttrHint::SingleValued)
    };
    AttributeMapping {
        service_attr_key: name.to_string(),
        zpr_key: key.to_string(),
        hint,
    }
}

fn mapper(mappings: &[&str]) -> AttributeMapper {
    AttributeMapper { mappings: mappings.iter().map(|m| mapping(m)).collect() }
}

const MAPPINGS: &[&str] = &[
    "color -> user.color",
    "roles -> user.role{}",
    "contractor -> #user.zpr.tag.contractor",
];

fn query_record(id: &str, url: &str, lifetime: u32) -> TrustedService {
    TrustedService {
        service_id: id.to_string(),
        expiration_seconds: lifetime,
        returns_attrs: mapper(MAPPINGS),
        identity_attrs: vec![],
        oidc: None,
        attr_query: Some(AttrQueryConfig {
            url: url.to_string(),
            timeout_seconds: 5,
            ca_cert_pem: None,
        }),
    }
}

fn query_store(token: &str) -> AttrQueryStore {
    let mut counter = RevisionCounter::new();
    AttrQueryStore::new(
        &query_record("attrs", "https://attrs.example/", 3600),
        "secrets/attrs.token",
        Ok(token.to_string()),
        &mut counter,
    )
    .unwrap()
}

fn answer(status: u16, body: &str) -> QueryAnswer {
    QueryAnswer::Response(status, status.to_string(), read_query_body(Some(body)))
}

fn by_key<'a>(attrs: &'a [Attribute], key: &str) -> &'a Attribute {
    attrs.iter().find(|a| a.key == key).unwrap()
}

#[test]
fn test_query_happy_path_all_three_types() {
    let store = query_store("sekrit-token");
    let attrs = store
        .get_attributes_for_actor(
            answer(
                200,
                r#"{"attributes": {
                    "color":      {"values": ["red"]},
                    "roles":      {"values": ["a", "b"]},
                    "contractor": {"values": []},
                    "unmapped":   {"values": ["zzz"]}
                }}"#,
            ),
            secs(NOW),
        )
        .unwrap();
    assert_eq!(attrs.len(), 3, "unmapped names must be dropped: {attrs:?}");
    assert_eq!(by_key(&attrs, "user.color").get_single_value().unwrap(), "red");
    assert_eq!(
        by_key(&attrs, "user.role").values,
        vec!["a".to_string(), "b".to_string()]
    );
    assert!(by_key(&attrs, "user.zpr.tag.contractor").values.is_empty());
    for a in &attrs {
        assert_eq!(a.source, "attrs");
        assert_eq!(a.expires, secs(NOW + 3600));
    }

    // What goes over the wire.
    assert_eq!(store.query_url(), "https://attrs.example/query");
    assert_eq!(store.token(), "sekrit-token");
    let body = print_json(&store.query_body(&vec![(
        "user.sub".to_string(),
        "s-123".to_string(),
    )]));
    let body: serde_json::Value = serde_json::from_str(&body).unwrap();
    assert_eq!(body["identities"]["user.sub"], "s-123");
    assert!(body["attributes"].as_array().unwrap().contains(&"color".into()));
}

#[test]
fn test_expires_at_clamped_both_ways() {
    let store = query_store("t");
    let now = chrono::DateTime::parse_from_rfc3339("2027-01-15T08:00:00Z").unwrap();
    assert_eq!(now.timestamp() as u64, NOW);
    let attrs = store
        .get_attributes_for_actor(
            answer(
                200,
                r#"{"attributes": {
                "color": {"values": ["red"],  "expires_at": "2199-01-01T00:00:00Z"},
                "roles": {"values": ["a"],    "expires_at": "2027-01-15T08:02:00.5Z"},
                "contractor": {"values": [], "expires_at": "2001-01-01T00:00:00Z"}
            }}"#,
            ),
            secs(NOW),
        )
        .unwrap();
    // Policy shortens, never extends.
    assert_eq!(by_key(&attrs, "user.color").expires, secs(NOW + 3600));
    // Within the window it is honoured as sent.
    assert_eq!(
        by_key(&attrs, "user.role").expires,
        secs(NOW + 120) + NANOS_PER_SEC as Timestamp / 2
    );
    // Past: the attribute is absent.
    assert!(!attrs.iter().any(|a| a.key == "user.zpr.tag.contractor"));
}

#[test]
fn test_unknown_actor_is_ok_empty() {
    let store = query_store("t");
    let attrs = store
        .get_attributes_for_actor(answer(200, r#"{"attributes": {}}"#), secs(NOW))
        .unwrap();
    assert!(attrs.is_empty());
}

#[test]
fn test_empty_values_on_non_tag_is_absent() {
    let store = query_store("t");
    let attrs = store
        .get_attributes_for_actor(
            answer(
                200,
                r#"{"attributes": {"color": {"values": []}, "roles": {"values": []}}}"#,
            ),
            secs(NOW),
        )
        .unwrap();
    assert!(attrs.is_empty(), "{attrs:?}");
}

#[test]
fn test_fail_closed_statuses_and_shapes() {
    let cases: Vec<(u16, &str)> = vec![
        (404, r#"{"attributes": {}}"#),
        (409, r#"{"error": "conflict"}"#),
        (500, "oops"),
        (200, "not json at all"),
        (200, r#"{"attributes": {"color": {"values": ["red", "blue"]}}}"#),
        (
            200,
            r#"{"attributes": {"color": {"values": ["red"], "expires_at": "bogus"}}}"#,
        ),
        (200, r#"{"attributes": {"color": ["red"]}}"#),
        (200, r#"{}"#),
    ];
    let store = query_store("t");
    for (status, body) in cases {
        let result = store.get_attributes_for_actor(answer(status, body), secs(NOW));
        assert!(
            result.is_err(),
            "status={status} body={body} must fail closed"
        );
    }
}

/// Several values for a single-valued name fail the whole answer, though they have expired.
#[test]
fn expired_conflicts_fail_the_answer() {
    let store = query_store("t");
    let body = r#"{"attributes": {
        "color": {"values": ["red", "blue"], "expires_at": "2001-01-01T00:00:00Z"},
        "roles": {"values": ["a"]}
    }}"#;
    let err = store.get_attributes_for_actor(answer(200, body), secs(NOW)).unwrap_err();
    assert_eq!(
        err.text(),
        "TS 'attrs' returned 2 values for single-valued attribute 'color'"
    );
    // Several values under a name for sets are only dropped.
    let body = r#"{"attributes": {
        "roles": {"values": ["a", "b"], "expires_at": "2001-01-01T00:00:00Z"}
    }}"#;
    assert!(store.get_attributes_for_actor(answer(200, body), secs(NOW)).unwrap().is_empty());
}

#[test]
fn test_fail_closed_on_timeout() {
    let store = query_store("t");
    let stalled = QueryAnswer::Failed("operation timed out".to_string());
    let result = store.get_attributes_for_actor(stalled, secs(NOW));
    assert!(result.is_err(), "a stalled server must time out into Err");
}

#[test]
fn failures_say_what_failed() {
    let store = query_store("t");
    let text = |a: QueryAnswer| -> String {
        store.get_attributes_for_actor(a, secs(NOW)).unwrap_err().text().clone()
    };
    assert_eq!(text(QueryAnswer::Failed("timed out".to_string())), "TS 'attrs' query failed: timed out");
    assert_eq!(text(answer(404, "{}")), "TS 'attrs' query returned status 404");
    assert_eq!(
        text(answer(200, "?")),
        "TS 'attrs' query response does not parse to the zpr-attr/1 shape"
    );
    assert_eq!(
        text(QueryAnswer::Response(
            200,
            "200 OK".to_string(),
            QueryBody::Unreadable(ServiceError::Internal("cut off".to_string())),
        )),
        "cut off"
    );
    assert_eq!(
        text(answer(200, r#"{"attributes": {"color": {"values": ["r", "b"]}}}"#)),
        "TS 'attrs' returned 2 values for single-valued attribute 'color'"
    );
}

#[test]
fn test_fail_closed_on_oversized_body() {
    let chunk = vec![0u8; MAX_RESPONSE_BYTES];
    let Ok(Reading::More(body)) = read_body_capped(Vec::new(), Chunk::Data(chunk), "answer") else {
        panic!("a body at the cap is read");
    };
    let err = match read_body_capped(body, Chunk::Data(vec![1]), "answer") {
        Err(e) => e,
        Ok(_) => panic!("a body over the cap must fail closed"),
    };
    assert_eq!(err.text(), "answer too large (over 1048576 bytes)");
}

#[test]
fn bodies_are_read_chunk_by_chunk() {
    let mut body = vec![1];
    append_capped(&mut body, &vec![2, 3], "x").unwrap();
    assert_eq!(body, vec![1, 2, 3]);
    assert!(matches!(
        read_body_capped(body, Chunk::End, "x"),
        Ok(Reading::Whole(b)) if b == vec![1, 2, 3]
    ));
    assert!(matches!(
        read_body_capped(vec![], Chunk::Failed("reset".to_string()), "x"),
        Err(e) if e.text() == "x read failed: reset"
    ));
}

/// Reads the pieces of a body one after the other.
fn read_pieces(pieces: Vec<Chunk>) -> Result<Vec<u8>, String> {
    let mut body = Vec::new();
    for piece in pieces {
        match read_body_capped(body, piece, "answer") {
            Ok(Reading::More(b)) => body = b,
            Ok(Reading::Whole(b)) => return Ok(b),
            Err(e) => return Err(e.text().to_string()),
        }
    }
    panic!("the body has no end");
}

/// However a body comes in pieces, it is read whole where it fits, and not at all where it
/// does not.
#[test]
fn bodies_are_read_whole_or_not_at_all() {
    let data = |n: usize, b: u8| Chunk::Data(vec![b; n]);
    let whole = vec![data(2, 1), data(0, 9), data(3, 2), Chunk::End];
    assert_eq!(read_pieces(whole), Ok(vec![1, 1, 2, 2, 2]));
    let half = MAX_RESPONSE_BYTES / 2;
    let full = vec![data(half, 1), data(half, 1), Chunk::End];
    assert_eq!(read_pieces(full).map(|b| b.len()), Ok(MAX_RESPONSE_BYTES));
    let over = vec![data(half, 1), data(half, 1), data(1, 1), Chunk::End];
    assert_eq!(read_pieces(over), Err("answer too large (over 1048576 bytes)".to_string()));
    let broken = vec![data(2, 1), Chunk::Failed("reset".to_string())];
    assert_eq!(read_pieces(broken), Err("answer read failed: reset".to_string()));
}

#[test]
fn test_missing_or_empty_token_fails_install() {
    let record = query_record("attrs", "https://attrs.example", 3600);
    let mut counter = RevisionCounter::new();
    let missing =
        AttrQueryStore::new(&record, "s/attrs.token", Err("no such file".to_string()), &mut counter);
    assert!(matches!(&missing, Err(ServiceError::TrustedServiceInit(m))
        if m == "TS 'attrs' failed to read bearer token file s/attrs.token: no such file"));
    let empty =
        AttrQueryStore::new(&record, "s/attrs.token", Ok("  \n".to_string()), &mut counter);
    assert!(matches!(&empty, Err(ServiceError::TrustedServiceInit(m))
        if m == "TS 'attrs' bearer token file s/attrs.token is empty"));
}

/// A pinned authority has to be a PEM certificate.
#[test]
fn pins_are_read() {
    let make = |pem: &str| {
        let mut record = query_record("attrs", "https://attrs.example", 3600);
        record.attr_query.as_mut().unwrap().ca_cert_pem = Some(pem.to_string());
        let mut counter = RevisionCounter::new();
        AttrQueryStore::new(&record, "t", Ok("t".to_string()), &mut counter)
    };
    assert!(make(" \n").is_ok(), "nothing is pinned");
    let block = "-----BEGIN CERTIFICATE-----\nAAAA\n-----END CERTIFICATE-----\n";
    assert!(make(block).is_ok());
    assert!(make(&format!("{block}{block}")).is_ok());
    assert!(matches!(make("no certificate"), Err(ServiceError::TrustedServiceInit(m))
        if m == "TS 'attrs' ca_cert_pem holds no CERTIFICATE block"));
    let torn = "-----BEGIN CERTIFICATE-----\n*\n-----END CERTIFICATE-----\n";
    assert!(matches!(make(torn), Err(ServiceError::TrustedServiceInit(m))
        if m.starts_with("TS 'attrs' ca_cert_pem does not parse as PEM certificates: ")));

    assert!(check_bundle("x", &Ok(2)).is_none());
    assert_eq!(
        check_bundle("x", &Ok(0)).unwrap().text(),
        "TS 'x' ca_cert_pem holds no CERTIFICATE block"
    );
    assert_eq!(
        check_bundle("x", &Err("bad".to_string())).unwrap().text(),
        "TS 'x' ca_cert_pem does not parse as PEM certificates: bad"
    );
}

#[test]
fn test_token_is_trimmed() {
    assert_eq!(query_store("  tok-42\n").token(), "tok-42");
}

#[test]
fn test_two_ids_one_url_each_request_carries_its_own_token() {
    let mut counter = RevisionCounter::new();
    let mut make = |id: &str, token: &str| {
        AttrQueryStore::new(
            &query_record(id, "https://attrs.example", 3600),
            "t",
            Ok(token.to_string()),
            &mut counter,
        )
        .unwrap()
    };
    let parent = make("parent", "parent-token");
    let delegate = make("delegate", "delegate-token");
    let body = r#"{"attributes": {"color": {"values": ["red"]}}}"#;
    let from_parent = parent.get_attributes_for_actor(answer(200, body), secs(NOW)).unwrap();
    let from_delegate = delegate.get_attributes_for_actor(answer(200, body), secs(NOW)).unwrap();
    assert_eq!(from_parent[0].source, "parent");
    assert_eq!(from_delegate[0].source, "delegate");
    assert_eq!(parent.query_url(), delegate.query_url());
    assert_eq!((parent.token(), delegate.token()), ("parent-token", "delegate-token"));
}

#[test]
fn test_flush_bumps_revision() {
    let mut store = query_store("t");
    assert_eq!(store.get_source_id(), "attrs");
    let before = store.current_revision();
    let mut counter = RevisionCounter { next: before + 1 };
    store.flush(&mut counter);
    assert!(store.current_revision() > before);
}

#[test]
fn test_missing_attr_query_config_rejected() {
    let mut record = query_record("attrs", "https://example.invalid", 3600);
    record.attr_query = None;
    let mut counter = RevisionCounter::new();
    assert!(matches!(
        AttrQueryStore::new(&record, "t", Ok("t".to_string()), &mut counter),
        Err(ServiceError::Param(_))
    ));
}

#[test]
fn test_ttl_floor_enforced() {
    let record = query_record("attrs", "https://example.invalid", 60);
    let mut counter = RevisionCounter::new();
    assert!(matches!(
        AttrQueryStore::new(&record, "t", Ok("t".to_string()), &mut counter),
        Err(ServiceError::Param(m)) if m == "trusted service 'attrs' ttl 60s must exceed minimum of 60s"
    ));
}

fn schema(json: &str) -> SchemaResponse {
    read_schema(Some(json)).unwrap()
}

fn lookup_keys() -> Vec<String> {
    vec!["user.sub".to_string()]
}

#[test]
fn test_schema_findings_clean() {
    let store = query_store("t");
    let s = schema(
        r#"{"identityKeys": ["user.sub"], "attributes": [
                {"name": "color", "type": "string"},
                {"name": "roles", "type": "string", "multiValued": true},
                {"name": "contractor", "type": "boolean",
                 "required": false, "caseExact": true}
            ]}"#,
    );
    assert!(store.schema_findings(&s, &lookup_keys()).is_empty());
}

#[test]
fn test_schema_findings_each_warning_fires() {
    let store = query_store("t");
    let findings = |json: &str| store.schema_findings(&schema(json), &lookup_keys());

    // Missing name.
    let f = findings(
        r#"{"attributes": [{"name": "roles", "type": "string", "multiValued": true}, {"name": "contractor", "type": "boolean"}]}"#,
    );
    assert_eq!(f.len(), 1, "{f:?}");
    assert!(f[0].contains("'color'") && f[0].contains("not in the service schema"));

    // Single-valued mapped to a multiValued definition.
    let f = findings(r#"{"attributes": [{"name": "color", "type": "string", "multiValued": true}]}"#);
    assert!(
        f.iter().any(|w| w.contains("'color'") && w.contains("disagrees")),
        "{f:?}"
    );

    // Multi-valued mapped to a single-valued definition.
    let f = findings(r#"{"attributes": [{"name": "roles", "type": "string"}]}"#);
    assert!(
        f.iter().any(|w| w.contains("'roles'") && w.contains("disagrees")),
        "{f:?}"
    );

    // Tag mapped to a definition that is no boolean.
    let f = findings(r#"{"attributes": [{"name": "contractor", "type": "string"}]}"#);
    assert!(
        f.iter().any(|w| w.contains("'contractor'") && w.contains("disagrees")),
        "{f:?}"
    );

    // complex is never a match.
    let f = findings(r#"{"attributes": [{"name": "color", "type": "complex"}]}"#);
    assert!(
        f.iter().any(|w| w.contains("'color'") && w.contains("disagrees")),
        "{f:?}"
    );

    // identityKeys that share nothing with the lookup keys.
    let f = findings(r#"{"identityKeys": ["user.email"], "attributes": []}"#);
    assert!(f.iter().any(|w| w.contains("identityKeys")), "{f:?}");

    // No identityKeys: nothing is said.
    let f = findings(r#"{"identityKeys": [], "attributes": []}"#);
    assert!(!f.iter().any(|w| w.contains("identityKeys")), "{f:?}");
}

#[test]
fn schema_texts_are_read() {
    let s = schema(r#"{"attributes": [{"name": "x"}], "other": 1}"#);
    assert_eq!(s.attributes[0].scim_type, "string");
    assert!(!s.attributes[0].multi_valued);
    assert!(s.identity_keys.is_empty());
    for bad in ["not json", "[]", r#"{"attributes": [{"type": "string"}]}"#, r#"{"identityKeys": null}"#] {
        assert_eq!(read_schema(Some(bad)).unwrap_err(), "schema response does not parse");
    }
    assert!(read_schema(None).is_err());
    assert_eq!(query_store("schema-tok").schema_url(), "https://attrs.example/schema");
}

#[test]
fn client_plans() {
    let mut cfg = AttrQueryConfig {
        url: "https://x".to_string(),
        timeout_seconds: 0,
        ca_cert_pem: Some(" \n".to_string()),
    };
    let plan = cfg.client_plan();
    assert_eq!((plan.timeout_seconds, plan.pinned_pem), (5, None));
    cfg.timeout_seconds = 9;
    cfg.ca_cert_pem = Some("PEM".to_string());
    let plan = cfg.client_plan();
    assert_eq!((plan.timeout_seconds, plan.pinned_pem.as_deref()), (9, Some("PEM")));
}

fn addr(s: &str) -> ZprAddr {
    ZprAddr::parse(s).unwrap()
}

fn file_store(id: &str, counter: &mut RevisionCounter) -> TrustedStore {
    TrustedStore::File(FileSource::new(id.to_string(), counter))
}

#[test]
fn test_manager_flush_all_reaches_every_service() {
    let mut counter = RevisionCounter::new();
    let mut manager = TrustedServicesMgr::new();
    manager.update_services(vec![
        file_store("test", &mut counter),
        TrustedStore::AttrQuery(query_store("t")),
    ]);
    counter.next = 7;
    let results = manager.flush_all(&mut counter);
    assert_eq!(results.len(), 2);
    assert!(results.iter().all(|r| r.is_ok()));
    assert_eq!(manager.service(0).current_revision(), 7);
    assert_eq!(manager.service(1).current_revision(), 8);
    assert_eq!(manager.len(), 2);
}

#[test]
fn test_stale_sources_for_actor_tracks_revisions() {
    let mut counter = RevisionCounter::new();
    let mut manager = TrustedServicesMgr::new();
    manager.update_services(vec![file_store("test", &mut counter)]);
    let current = manager.service(0).current_revision();

    // Never refreshed from the source: it is stale.
    let a = addr("fd5a:5052::a1");
    let stale = manager.stale_sources_for_actor(&a);
    assert_eq!(stale, vec![("test".to_string(), current)]);

    manager.record_revision(&a, "test", stale[0].1);
    assert!(manager.stale_sources_for_actor(&a).is_empty());

    manager.flush_one("test", &mut counter).unwrap();
    let flushed = manager.service(0).current_revision();
    assert_ne!(flushed, current);
    assert_eq!(
        manager.stale_sources_for_actor(&a),
        vec![("test".to_string(), flushed)]
    );

    // A recycled address does not inherit the records.
    manager.record_revision(&a, "test", flushed);
    assert!(manager.stale_sources_for_actor(&a).is_empty());
    manager.forget_actor_revisions(&a);
    assert_eq!(
        manager.stale_sources_for_actor(&a),
        vec![("test".to_string(), flushed)]
    );
}

#[test]
fn test_forget_source_revision_scopes_to_one_actor_and_source() {
    let mut counter = RevisionCounter::new();
    let mut manager = TrustedServicesMgr::new();
    manager.update_services(vec![
        file_store("s1", &mut counter),
        file_store("s2", &mut counter),
    ]);
    let r1 = manager.service(0).current_revision();
    let r2 = manager.service(1).current_revision();

    let actor_a = addr("fd5a:5052::a1");
    let actor_b = addr("fd5a:5052::b1");
    manager.record_revision(&actor_a, "s1", r1);
    manager.record_revision(&actor_a, "s2", r2);
    manager.record_revision(&actor_b, "s1", r1);
    assert!(manager.stale_sources_for_actor(&actor_a).is_empty());

    manager.forget_source_revision(&actor_a, "s1");
    assert_eq!(
        manager.stale_sources_for_actor(&actor_a),
        vec![("s1".to_string(), r1)]
    );
    assert_eq!(
        manager.stale_sources_for_actor(&actor_b),
        vec![("s2".to_string(), r2)]
    );

    let actor_c = addr("fd5a:5052::c1");
    manager.forget_source_revision(&actor_c, "s1");
}

/// A refresh that was under way when the change was announced does not count.
#[test]
fn announced_change_outlasts_a_refresh() {
    let mut counter = RevisionCounter::new();
    let mut manager = TrustedServicesMgr::new();
    manager.update_services(vec![file_store("s1", &mut counter)]);
    let r1 = manager.service(0).current_revision();
    let a = addr("10.0.0.1");
    let seen = manager.invalidation_generation(&a, "s1");
    assert_eq!(seen, 0);
    manager.forget_source_revision(&a, "s1");
    assert!(!manager.record_revision_at_generation(&a, "s1", r1, seen));
    assert_eq!(manager.stale_sources_for_actor(&a).len(), 1);
    let seen = manager.invalidation_generation(&a, "s1");
    assert_eq!(seen, 1);
    assert!(manager.record_revision_at_generation(&a, "s1", r1, seen));
    assert!(manager.stale_sources_for_actor(&a).is_empty());
}

#[test]
fn sources_are_found_by_id_and_issuer() {
    let mut counter = RevisionCounter::new();
    let mut manager = TrustedServicesMgr::new();
    let oidc = visa_service::oidc::store::OidcTrustedService::new(
        &oidc_record("google", oidc_config()),
        &mut counter,
    )
    .unwrap();
    manager.update_services(vec![
        file_store("files", &mut counter),
        TrustedStore::AttrQuery(query_store("t")),
        TrustedStore::Oidc(oidc),
    ]);
    assert!(manager.has_source("attrs"));
    assert!(!manager.has_source("nobody"));
    assert_eq!(
        manager
            .oidc_service_for_issuer("https://accounts.google.com")
            .unwrap()
            .get_source_id(),
        "google"
    );
    assert!(manager.oidc_service_for_issuer("https://other").is_none());

    let none: Vec<(String, String)> = vec![];
    assert!(matches!(
        manager.get_attributes_from_source_for_actor("files", &none, secs(NOW)),
        Asked::File(0)
    ));
    assert!(matches!(
        manager.get_attributes_from_source_for_actor("attrs", &none, secs(NOW)),
        Asked::Query(1)
    ));
    assert!(matches!(
        manager.get_attributes_from_source_for_actor("google", &none, secs(NOW)),
        Asked::Answered(Ok(a)) if a.is_empty()
    ));
    assert!(matches!(
        manager.get_attributes_from_source_for_actor("nobody", &none, secs(NOW)),
        Asked::Answered(Err(ServiceError::TrustedServiceNotFound(m))) if m == "nobody"
    ));
    assert!(matches!(
        manager.flush_one("nobody", &mut counter),
        Err(ServiceError::TrustedServiceNotFound(m)) if m == "nobody"
    ));
}

fn oidc_config() -> OidcConfig {
    OidcConfig {
        issuer: "https://accounts.google.com".to_string(),
        client_id: "test-client-id.apps.googleusercontent.com".to_string(),
        jwks_uri: "https://www.googleapis.com/oauth2/v3/certs".to_string(),
        seed_jwks: String::new(),
        jwks_proxy_service: None,
        allowed_domains: vec!["example.com".to_string()],
        max_auth_age_seconds: 0,
        allow_offline_access: false,
    }
}

fn oidc_record(id: &str, cfg: OidcConfig) -> TrustedService {
    TrustedService {
        service_id: id.to_string(),
        expiration_seconds: 300,
        returns_attrs: mapper(&["sub -> user.oidc-subject"]),
        identity_attrs: vec!["sub".to_string()],
        oidc: Some(cfg),
        attr_query: None,
    }
}

fn declared(id: &str, api: &str) -> PolicyService {
    PolicyService {
        id: id.to_string(),
        trusted_api: Some(api.to_string()),
        endpoint_ports: vec![],
    }
}

fn oidc_policy(id: &str, cfg: OidcConfig) -> Policy {
    Policy { services: vec![declared(id, "oidc")], trusted: vec![oidc_record(id, cfg)] }
}

#[test]
fn test_oidc_definition_change_rebuilds_store() {
    let make_defs = |client_id: &str| {
        let mut cfg = oidc_config();
        cfg.client_id = client_id.to_string();
        trusted_service_definitions(&oidc_policy("google", cfg)).unwrap()
    };
    let defs_a = make_defs("client-a.apps.googleusercontent.com");
    let defs_a_again = make_defs("client-a.apps.googleusercontent.com");
    let defs_b = make_defs("client-b.apps.googleusercontent.com");
    assert_eq!(defs_a.len(), 1);
    assert!(
        defs_a[0].same(&defs_a_again[0]),
        "identical declarations must compare equal"
    );
    assert!(
        !defs_a[0].same(&defs_b[0]),
        "an oidc config change must break definition equality"
    );
}

#[test]
fn test_duplicate_oidc_issuer_rejected() {
    let policy = Policy {
        services: vec![declared("idp-b", "oidc"), declared("idp-a", "oidc")],
        trusted: vec![oidc_record("idp-a", oidc_config()), oidc_record("idp-b", oidc_config())],
    };
    let err = match trusted_service_definitions(&policy) {
        Err(e) => e,
        Ok(_) => panic!("duplicate oidc issuers must be rejected"),
    };
    let msg = err.text();
    assert!(msg.contains("idp-a") && msg.contains("idp-b"), "{msg}");
    assert!(msg.contains("https://accounts.google.com"), "{msg}");
    assert_eq!(
        msg,
        "trusted services 'idp-a' and 'idp-b' both declare oidc issuer \
         'https://accounts.google.com': issuers must be unique so a token's iss claim selects \
         exactly one provider"
    );
}

#[test]
fn test_build_services_from_policy_rejects_bad_declarations() {
    let refusal = |id: &str, api: &str, trusted: Vec<TrustedService>| -> String {
        let policy = Policy { services: vec![declared(id, api)], trusted };
        trusted_service_definitions(&policy).unwrap_err().text().clone()
    };
    assert_eq!(
        refusal("attrfile", "ldap", vec![]),
        "trusted service 'attrfile': unsupported api 'ldap'"
    );
    assert_eq!(
        refusal("../escape", "file", vec![]),
        "trusted service '../escape': id is not a plain filename"
    );
    assert_eq!(
        refusal("a..b", "zpr-attr/1", vec![]),
        "trusted service 'a..b': id is not a plain filename"
    );
    assert_eq!(
        refusal("attrfile", "file", vec![]),
        "trusted service 'attrfile': no trusted service record in policy"
    );
    let mut bare = oidc_record("google", oidc_config());
    bare.oidc = None;
    assert_eq!(
        refusal("google", "oidc", vec![bare]),
        "trusted service 'google': api 'oidc' requires an oidc config in the policy record"
    );
    assert_eq!(
        refusal("google", "zpr-attr/1", vec![oidc_record("google", oidc_config())]),
        "trusted service 'google': api 'zpr-attr/1' requires an attr_query config in the policy \
         record"
    );
}

#[test]
fn proxy_ports_come_from_the_policy() {
    let mut cfg = oidc_config();
    cfg.jwks_proxy_service = Some("proxy".to_string());
    let mut policy = oidc_policy("google", cfg);
    let proxy = |ports: Vec<Option<u16>>| PolicyService {
        id: "proxy".to_string(),
        trusted_api: None,
        endpoint_ports: ports,
    };
    assert_eq!(jwks_proxy_port_from_policy(&policy, "proxy"), None);
    policy.services.push(proxy(vec![Some(3128)]));
    let defs = trusted_service_definitions(&policy).unwrap();
    assert_eq!(defs.len(), 1);
    assert_eq!(defs[0].jwks_proxy_port(), Some(3128));
    assert_eq!(defs[0].id(), "google");
    assert!(defs[0].oidc_config().is_some());
    policy.services[1] = proxy(vec![Some(1), Some(2)]);
    let changed = trusted_service_definitions(&policy).unwrap();
    assert_eq!(changed[0].jwks_proxy_port(), None);
    // A change of the proxy alone is a change of the declaration.
    assert!(!defs[0].same(&changed[0]));
}

#[test]
fn test_oidc_definition_builds_oidc_store() {
    let defs = trusted_service_definitions(&oidc_policy("google", oidc_config())).unwrap();
    assert!(matches!(defs[0].plan(), Ok(StorePlan::Oidc)));
    let mut counter = RevisionCounter::new();
    let store = defs[0].build(StoreInput::Keys(Ok(())), &mut counter).unwrap();
    assert_eq!(store.get_source_id(), "google");
    let err = defs[0]
        .build(StoreInput::Keys(Err("no keys".to_string())), &mut counter)
        .err()
        .unwrap();
    assert_eq!(err.text(), "TS 'google' failed to build JWKS key source: no keys");
}

#[test]
fn test_oidc_definition_without_oidc_record_rejected() {
    let mut record = oidc_record("google", oidc_config());
    record.oidc = None;
    let policy = Policy { services: vec![declared("google", "oidc")], trusted: vec![record] };
    let err = trusted_service_definitions(&policy).err().unwrap();
    assert!(matches!(err, ServiceError::Param(_)), "{err:?}");
}

/// A declared file of attributes has a store under the id of the service.
#[test]
fn a_file_declaration_builds_a_store() {
    let mut record = query_record("attrfile", "", 3600);
    record.attr_query = None;
    record.returns_attrs = mapper(&["color -> user.color"]);
    let policy = Policy { services: vec![declared("attrfile", "file")], trusted: vec![record] };
    let defs = trusted_service_definitions(&policy).unwrap();
    assert_eq!(defs.len(), 1);
    assert!(matches!(
        defs[0].plan(),
        Ok(StorePlan::File { file, .. }) if file == "attrfile.json"
    ));
    let mut counter = RevisionCounter::new();
    let store = defs[0].build(StoreInput::File(Ok(())), &mut counter).unwrap();
    assert_eq!(store.get_source_id(), "attrfile");
    let bad = ServiceError::Param("no such file".to_string());
    let err = defs[0].build(StoreInput::File(Err(bad)), &mut counter).err().unwrap();
    assert_eq!(err.text(), "no such file");
}

#[test]
fn stores_are_built_as_planned() {
    let policy = Policy {
        services: vec![declared("attrs", "zpr-attr/1"), declared("attrfile", "file")],
        trusted: vec![
            query_record("attrs", "https://attrs.example", 3600),
            query_record("attrfile", "", 90),
        ],
    };
    let defs = trusted_service_definitions(&policy).unwrap();
    assert!(matches!(
        defs[0].plan(),
        Ok(StorePlan::AttrQuery { token_file }) if token_file == "attrs.token"
    ));
    assert!(matches!(
        defs[1].plan(),
        Ok(StorePlan::File { file, lifetime })
            if file == "attrfile.json" && lifetime == 90 * NANOS_PER_SEC
    ));
    let mut counter = RevisionCounter::new();
    let input = StoreInput::Token { path: "p".to_string(), file: Ok("tok".to_string()) };
    assert_eq!(defs[0].build(input, &mut counter).ok().unwrap().get_source_id(), "attrs");
    let store = defs[1].build(StoreInput::File(Ok(())), &mut counter).ok().unwrap();
    assert_eq!((store.get_source_id(), store.current_revision()), ("attrfile", 2));
}
