//! The two ends of the attribute protocol against each other.

use visa_service::attr_server::router::{respond, AppState, Method};
use visa_service::attr_server::store::AttrData;
use visa_service::attribute::{AttrHint, Attribute, AttributeMapper, AttributeMapping};
use visa_service::error::ServiceError;
use visa_service::json::print_json;
use visa_service::policy::{AttrQueryConfig, TrustedService};
use visa_service::time::{Timestamp, NANOS_PER_SEC};
use visa_service::trusted_services::attr_query_store::{AttrQueryStore, QueryAnswer};
use visa_service::trusted_services::manager::{
    Asked, FileSource, TrustedServicesMgr, TrustedStore,
};
use visa_service::trusted_services::wire::{read_query_body, read_schema};
use visa_service::trusted_services::RevisionCounter;

const DATA: &str = r#"{
    "user.sub": {
        "sub-123": {
            "dept": ["eng"],
            "roles": ["a", "b"],
            "contractor": []
        }
    },
    "device.zpr.adapter.cn": {
        "conflicting.zpr.org": {
            "dept": ["sales"]
        }
    }
}"#;

const NOW: Timestamp = 1_800_000_000 * NANOS_PER_SEC as Timestamp;

fn mapping(name: &str, key: &str, hint: AttrHint) -> AttributeMapping {
    AttributeMapping { service_attr_key: name.to_string(), zpr_key: key.to_string(), hint }
}

fn store(token: &str) -> AttrQueryStore {
    let record = TrustedService {
        service_id: "attrs".to_string(),
        expiration_seconds: 3600,
        returns_attrs: AttributeMapper {
            mappings: vec![
                mapping("dept", "user.dept", AttrHint::SingleValued),
                mapping("roles", "user.role", AttrHint::MultiValued),
                mapping("contractor", "user.zpr.tag.contractor", AttrHint::Tag),
            ],
        },
        identity_attrs: vec![],
        oidc: None,
        attr_query: Some(AttrQueryConfig {
            url: "https://127.0.0.1:1".to_string(),
            timeout_seconds: 5,
            ca_cert_pem: None,
        }),
    };
    AttrQueryStore::new(&record, "attrs.token", Ok(token.to_string()), &mut RevisionCounter::new())
        .unwrap()
}

fn server(token: &str) -> AppState {
    AppState { data: AttrData::from_json_str(DATA).unwrap(), token: token.to_string() }
}

fn pairs(list: &[(&str, &str)]) -> Vec<(String, String)> {
    list.iter().map(|(k, v)| (k.to_string(), v.to_string())).collect()
}

/// A query from one end to the other and back.
fn across(
    server: &AppState,
    store: &AttrQueryStore,
    identities: &[(&str, &str)],
) -> Result<Vec<Attribute>, ServiceError> {
    let body = print_json(&store.query_body(&pairs(identities)));
    let header = format!("Bearer {}", store.token());
    let given = respond(server, Method::Post, "/query", Some(&header), Some(&body));
    let text = given.body.as_ref().map(print_json);
    let answer = QueryAnswer::Response(
        given.status,
        given.status.to_string(),
        read_query_body(text.as_deref()),
    );
    store.get_attributes_for_actor(answer, NOW)
}

#[test]
fn test_attr_query_store_against_reference_server() {
    let server = server("integration-token");
    let store = store("integration-token");
    let attrs = across(&server, &store, &[("user.sub", "sub-123")]).unwrap();
    let by_key: Vec<(&str, Vec<String>)> =
        attrs.iter().map(|a| (a.key.as_str(), a.values.clone())).collect();
    assert_eq!(
        by_key,
        vec![
            ("user.dept", vec!["eng".to_string()]),
            ("user.role", vec!["a".to_string(), "b".to_string()]),
            ("user.zpr.tag.contractor", Vec::<String>::new()),
        ]
    );
    for attr in &attrs {
        assert_eq!(attr.source, "attrs");
    }
    assert!(across(&server, &store, &[("user.sub", "nobody")]).unwrap().is_empty());
}

#[test]
fn test_conflict_fails_closed_across_the_wire() {
    let result = across(
        &server("integration-token"),
        &store("integration-token"),
        &[("user.sub", "sub-123"), ("device.zpr.adapter.cn", "conflicting.zpr.org")],
    );
    assert_eq!(result.unwrap_err().text(), "TS 'attrs' query returned status 409");
}

#[test]
fn test_wrong_token_fails_closed_across_the_wire() {
    let result =
        across(&server("integration-token"), &store("wrong-token"), &[("user.sub", "sub-123")]);
    assert_eq!(result.unwrap_err().text(), "TS 'attrs' query returned status 401");
}

#[test]
fn the_last_value_of_an_identity_counts() {
    let server = server("t");
    let store = store("t");
    let attrs = across(&server, &store, &[("user.sub", "sub-123"), ("user.sub", "nobody")]);
    assert!(attrs.unwrap().is_empty());
    let attrs = across(&server, &store, &[("user.sub", "nobody"), ("user.sub", "sub-123")]);
    assert_eq!(attrs.unwrap().len(), 3);
}

#[test]
fn the_vocabulary_crosses_too() {
    let server = server("t");
    let store = store("t");
    let given = respond(&server, Method::Get, "/schema", Some("Bearer t"), None);
    let text = print_json(given.body.as_ref().unwrap());
    let schema = read_schema(Some(&text)).unwrap();
    assert_eq!(schema.identity_keys, ["device.zpr.adapter.cn", "user.sub"]);
    let findings = store.schema_findings(&schema, &vec!["user.sub".to_string()]);
    assert_eq!(
        findings,
        [concat_finding("contractor", "string", "false")],
        "a tag should be a boolean"
    );
}

fn concat_finding(name: &str, kind: &str, several: &str) -> String {
    format!(
        "mapped attribute '{name}' disagrees with its schema definition (type '{kind}', \
         multiValued {several}) under the policy spelling"
    )
}

#[test]
fn every_service_is_asked_and_named() {
    let mut counter = RevisionCounter::new();
    let mut services = vec![
        TrustedStore::File(FileSource::new("files".to_string(), &mut counter)),
        TrustedStore::AttrQuery(store("t")),
    ];
    let asked = TrustedServicesMgr::get_attributes_for_actor_from(
        &mut services,
        &pairs(&[("user.sub", "sub-123")]),
        NOW,
    );
    assert_eq!(asked.len(), 2);
    assert_eq!(asked[0].0, "files");
    assert!(matches!(asked[0].1, Asked::File(0)));
    assert_eq!(asked[1].0, "attrs");
    assert!(matches!(asked[1].1, Asked::Query(1)));
    assert!(matches!(services[0], TrustedStore::File(_)));
    assert!(matches!(services[1], TrustedStore::AttrQuery(_)));
}

#[test]
fn flushing_keeps_the_kind_of_a_service() {
    let mut counter = RevisionCounter::new();
    let mut manager = TrustedServicesMgr::new();
    manager.update_services(vec![
        TrustedStore::File(FileSource::new("files".to_string(), &mut counter)),
        TrustedStore::AttrQuery(store("t")),
    ]);
    let done = manager.flush_all(&mut counter);
    assert_eq!(done.len(), 2);
    assert!(done.iter().all(|r| r.is_ok()));
    assert!(matches!(&manager.services()[0], TrustedStore::File(f) if f.revision == 2));
    assert!(matches!(&manager.services()[1], TrustedStore::AttrQuery(s)
        if s.current_revision() == 3 && s.token() == "t"));
    manager.flush_one("files", &mut counter).unwrap();
    assert_eq!(manager.services()[0].current_revision(), 4);
    assert_eq!(manager.services()[1].current_revision(), 3);
    assert!(matches!(manager.flush_one("nobody", &mut counter),
        Err(ServiceError::TrustedServiceNotFound(s)) if s == "nobody"));
}
