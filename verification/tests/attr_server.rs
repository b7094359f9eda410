//! The attribute server: its data and its answers.

use serde_json::Value;

use visa_service::attr_server::router::{respond, AppState, Answer, Method};
use visa_service::attr_server::store::{AttrData, AttrMap, DataError, StoredEntry};
use visa_service::json::Json;

const TOKEN: &str = "test-token";

const SPEC_DATA: &str = r#"{
    "_schema": [
        { "name": "dept", "type": "string", "multiValued": false,
          "description": "Cost centre", "canonicalValues": ["eng", "sales", "ops"] },
        { "name": "roles", "type": "string", "multiValued": true },
        { "name": "contractor", "type": "boolean", "description": "Not an employee" }
    ],
    "user.sub": {
        "10769150350006150715113082367": {
            "dept": ["eng"],
            "roles": { "values": ["a", "b"], "expires_at": "2026-09-22T15:00:00Z" },
            "contractor": []
        }
    },
    "device.zpr.adapter.cn": {
        "laptop.zpr.org": {}
    }
}"#;

const SPEC_QUERY_REQUEST: &str = r#"{
        "identities": {
            "user.sub": "10769150350006150715113082367",
            "user.zpr.authority": "google",
            "device.zpr.adapter.cn": "laptop.zpr.org"
        },
        "attributes": ["dept", "roles", "contractor"]
    }"#;

fn value(text: &str) -> Value {
    serde_json::from_str(text).unwrap()
}

/// The value of a tree, for comparison.
fn to_value(json: &Json) -> Value {
    match json {
        Json::Null => Value::Null,
        Json::Bool(b) => Value::Bool(*b),
        Json::Number(n) => serde_json::from_str(&n.text).unwrap(),
        Json::Text(s) => Value::String(s.clone()),
        Json::Array(items) => Value::Array(items.iter().map(to_value).collect()),
        Json::Object(members) => {
            Value::Object(members.iter().map(|(n, v)| (n.clone(), to_value(v))).collect())
        }
    }
}

fn exchange(
    data: &str,
    method: Method,
    path: &str,
    bearer: Option<&str>,
    body: Option<&str>,
) -> (u16, Option<Value>) {
    let state = AppState {
        data: AttrData::from_json_str(data).expect("test data must parse"),
        token: TOKEN.to_string(),
    };
    let header = bearer.map(|t| format!("Bearer {t}"));
    let answer: Answer = respond(&state, method, path, header.as_deref(), body);
    (answer.status, answer.body.as_ref().map(to_value))
}

fn query(data: &str, body: &str) -> (u16, Option<Value>) {
    exchange(data, Method::Post, "/query", Some(TOKEN), Some(body))
}

#[test]
fn test_query_spec_example_byte_for_byte() {
    let (status, body) = query(SPEC_DATA, SPEC_QUERY_REQUEST);
    assert_eq!(status, 200);
    let body = body.expect("a 200 must carry a JSON body");
    assert_eq!(
        body,
        value(
            r#"{ "attributes": {
                "dept":       { "values": ["eng"] },
                "roles":      { "values": ["a", "b"], "expires_at": "2026-09-22T15:00:00Z" },
                "contractor": { "values": [] }
            } }"#
        )
    );
}

#[test]
fn test_query_attributes_hint_honoured() {
    let (status, body) = query(
        SPEC_DATA,
        r#"{ "identities": { "user.sub": "10769150350006150715113082367" },
             "attributes": ["dept"] }"#,
    );
    assert_eq!(status, 200);
    assert_eq!(
        body.unwrap(),
        value(r#"{ "attributes": { "dept": { "values": ["eng"] } } }"#)
    );
}

#[test]
fn test_query_multi_identity_union() {
    let data = r#"{
        "device.zpr.adapter.cn": {
            "dev.zpr.org": { "color": ["red"], "dept": ["eng"] }
        },
        "user.sub": {
            "sub-123": { "roles": ["a", "b"], "dept": ["eng"] }
        }
    }"#;
    let (status, body) = query(
        data,
        r#"{ "identities": {
                "device.zpr.adapter.cn": "dev.zpr.org",
                "user.sub": "sub-123"
             },
             "attributes": ["color", "roles", "dept"] }"#,
    );
    assert_eq!(status, 200);
    assert_eq!(
        body.unwrap(),
        value(
            r#"{ "attributes": {
                "color": { "values": ["red"] },
                "roles": { "values": ["a", "b"] },
                "dept":  { "values": ["eng"] }
            } }"#
        )
    );
}

#[test]
fn test_query_conflict_is_409() {
    let data = r#"{
        "device.zpr.adapter.cn": {
            "dev.zpr.org": { "color": ["red"] }
        },
        "user.sub": {
            "sub-conflict": { "color": ["blue"] }
        }
    }"#;
    let (status, body) = query(
        data,
        r#"{ "identities": {
                "device.zpr.adapter.cn": "dev.zpr.org",
                "user.sub": "sub-conflict"
             },
             "attributes": ["color"] }"#,
    );
    assert_eq!(status, 409);
    assert!(body.is_none());
}

/// The same values with different expiries are a disagreement too.
#[test]
fn different_expiries_are_a_conflict() {
    let data = r#"{
        "k": {
            "a": { "color": { "values": ["red"], "expires_at": "2027-01-01T00:00:00Z" } },
            "b": { "color": { "values": ["red"], "expires_at": "2028-01-01T00:00:00Z" } },
            "c": { "color": { "values": ["red"], "expires_at": null } },
            "d": { "color": ["red"] }
        },
        "l": { "c": { "color": ["red"] } }
    }"#;
    let parsed = AttrData::from_json_str(data).unwrap();
    let pair = |k: &str, v: &str| (k.to_string(), v.to_string());
    let err = parsed.lookup(&vec![pair("k", "a"), pair("k", "b")]).unwrap_err();
    assert_eq!(err.name, "color");
    assert!(parsed.lookup(&vec![pair("k", "a"), pair("k", "c")]).is_err());
    // No expiry is no expiry, in either spelling.
    let same = parsed.lookup(&vec![pair("k", "c"), pair("l", "c"), pair("k", "d")]).unwrap();
    assert_eq!(same.len(), 1);
}

#[test]
fn test_query_expires_at_only_when_entry_carries_one() {
    let data = r#"{
        "user.sub": {
            "sub-123": {
                "plain":   ["x"],
                "stamped": { "values": ["y"], "expires_at": "2027-01-01T00:00:00Z" }
            }
        }
    }"#;
    let (status, body) = query(
        data,
        r#"{ "identities": { "user.sub": "sub-123" }, "attributes": ["plain", "stamped"] }"#,
    );
    assert_eq!(status, 200);
    assert_eq!(
        body.unwrap(),
        value(
            r#"{ "attributes": {
                "plain":   { "values": ["x"] },
                "stamped": { "values": ["y"], "expires_at": "2027-01-01T00:00:00Z" }
            } }"#
        )
    );
}

#[test]
fn test_query_unknown_actor_is_ok_empty() {
    let (status, body) = query(
        SPEC_DATA,
        r#"{ "identities": { "user.sub": "nobody" }, "attributes": ["dept"] }"#,
    );
    assert_eq!(status, 200);
    assert_eq!(body.unwrap(), value(r#"{ "attributes": {} }"#));
}

#[test]
fn test_missing_or_wrong_bearer_is_401() {
    let cases: Vec<Option<&str>> = vec![None, Some("wrong-token"), Some("")];
    for bearer in cases {
        let (status, _) =
            exchange(SPEC_DATA, Method::Post, "/query", bearer, Some(SPEC_QUERY_REQUEST));
        assert_eq!(status, 401, "bearer={bearer:?}");
        let (status, _) = exchange(SPEC_DATA, Method::Get, "/schema", bearer, None);
        assert_eq!(status, 401, "bearer={bearer:?}");
        // Before everything else, unknown paths and wrong methods too.
        let (status, _) = exchange(SPEC_DATA, Method::Get, "/nowhere", bearer, None);
        assert_eq!(status, 401, "bearer={bearer:?}");
        let (status, _) = exchange(SPEC_DATA, Method::Other, "/query", bearer, None);
        assert_eq!(status, 401, "bearer={bearer:?}");
    }
}

/// A server without a token admits nobody, and another scheme is no token.
#[test]
fn an_empty_token_admits_nobody() {
    let state = AppState {
        data: AttrData::from_json_str("{}").unwrap(),
        token: String::new(),
    };
    assert_eq!(respond(&state, Method::Get, "/schema", Some("Bearer "), None).status, 401);
    let state = AppState { data: AttrData::from_json_str("{}").unwrap(), token: "t".to_string() };
    assert_eq!(respond(&state, Method::Get, "/schema", Some("bearer t"), None).status, 401);
    assert_eq!(respond(&state, Method::Get, "/schema", Some("t"), None).status, 401);
    assert_eq!(respond(&state, Method::Get, "/schema", Some("Bearer t"), None).status, 200);
}

#[test]
fn test_query_malformed_is_400() {
    let cases = vec![
        r#"{ "attributes": ["dept"] }"#,
        r#"{ "identities": { "user.sub": "s" } }"#,
        r#"{ "identities": {}, "attributes": [] }"#,
        r#"{ "identities": { "user.sub": ["not", "a", "string"] }, "attributes": [] }"#,
        r#"{ "identities": { "user.sub": "s" }, "attributes": [], "tenant": "smuggled" }"#,
        "not json",
        r#"{ "identities": { "user.sub": "s" }, "attributes": [1] }"#,
    ];
    for body in cases {
        let (status, resp) = query(SPEC_DATA, body);
        assert_eq!(status, 400, "body={body}");
        assert!(resp.is_none());
    }
    // Bytes that are no text.
    let (status, _) = exchange(SPEC_DATA, Method::Post, "/query", Some(TOKEN), None);
    assert_eq!(status, 400);
}

fn sorted_keys(mut v: Value) -> Value {
    if let Some(keys) = v.get_mut("identityKeys").and_then(|k| k.as_array_mut()) {
        keys.sort_by(|a, b| a.as_str().cmp(&b.as_str()));
    }
    v
}

#[test]
fn test_schema_spec_example_byte_for_byte() {
    let (status, body) = exchange(SPEC_DATA, Method::Get, "/schema", Some(TOKEN), None);
    assert_eq!(status, 200);
    let body = body.expect("a 200 must carry a JSON body");
    assert_eq!(
        sorted_keys(body),
        sorted_keys(value(
            r#"{
                "identityKeys": ["user.sub", "device.zpr.adapter.cn"],
                "attributes": [
                    { "name": "dept", "type": "string", "multiValued": false,
                      "description": "Cost centre", "canonicalValues": ["eng", "sales", "ops"] },
                    { "name": "roles", "type": "string", "multiValued": true },
                    { "name": "contractor", "type": "boolean", "description": "Not an employee" }
                ]
            }"#
        ))
    );
}

#[test]
fn test_schema_derived_from_data_when_no_schema_key() {
    let data = r#"{
        "user.sub": {
            "sub-1": { "dept": ["eng"], "roles": ["a", "b"] },
            "sub-2": { "dept": ["sales"] }
        }
    }"#;
    let (status, body) = exchange(data, Method::Get, "/schema", Some(TOKEN), None);
    assert_eq!(status, 200);
    assert_eq!(
        body.unwrap(),
        value(
            r#"{
                "identityKeys": ["user.sub"],
                "attributes": [
                    { "name": "dept",  "type": "string", "multiValued": false },
                    { "name": "roles", "type": "string", "multiValued": true }
                ]
            }"#
        )
    );
}

#[test]
fn test_schema_identity_keys_from_top_level_keys() {
    let data = r#"{
        "_schema": [],
        "device.zpr.adapter.cn": { "dev": {} },
        "user.sub": { "s": {} },
        "user.upn": { "u": {} }
    }"#;
    let (status, body) = exchange(data, Method::Get, "/schema", Some(TOKEN), None);
    assert_eq!(status, 200);
    let keys: Vec<String> = body.unwrap()["identityKeys"]
        .as_array()
        .expect("identityKeys must be an array")
        .iter()
        .map(|k| k.as_str().unwrap().to_string())
        .collect();
    assert_eq!(
        keys,
        vec!["device.zpr.adapter.cn", "user.sub", "user.upn"],
        "all top-level keys, sorted, and never _schema"
    );
}

#[test]
fn test_reserved_paths_are_501() {
    let (status, _) = exchange(SPEC_DATA, Method::Get, "/stream", Some(TOKEN), None);
    assert_eq!(status, 501);
    let (status, _) = exchange(SPEC_DATA, Method::Post, "/satisfies", Some(TOKEN), Some("{}"));
    assert_eq!(status, 501);
}

#[test]
fn other_paths_and_methods() {
    let state =
        AppState { data: AttrData::from_json_str("{}").unwrap(), token: TOKEN.to_string() };
    let auth = Some("Bearer test-token");
    assert_eq!(respond(&state, Method::Get, "/", auth, None).status, 404);
    let a = respond(&state, Method::Get, "/query", auth, None);
    assert_eq!((a.status, a.allow.as_deref()), (405, Some("POST")));
    let a = respond(&state, Method::Post, "/schema", auth, None);
    assert_eq!((a.status, a.allow.as_deref()), (405, Some("GET,HEAD")));
    assert_eq!(respond(&state, Method::Head, "/schema", auth, None).status, 200);
}

fn entry<'a>(m: &'a AttrMap, name: &str) -> &'a StoredEntry {
    &m.iter().find(|(n, _)| n == name).unwrap().1
}

#[test]
fn test_spec_data_parses() {
    let data = AttrData::from_json_str(SPEC_DATA).expect("SPEC_DATA must parse");
    let identities = vec![(
        "user.sub".to_string(),
        "10769150350006150715113082367".to_string(),
    )];
    let matched = data.lookup(&identities).expect("no conflict in SPEC_DATA");
    assert_eq!(
        matched.len(),
        3,
        "the spec actor carries dept, roles, contractor"
    );
}

#[test]
fn test_entry_spellings() {
    let data = AttrData::from_json_str(
        r#"{"user.sub": {"s": {
                "plain": ["x"],
                "stamped": {"values": ["y"], "expires_at": "2027-01-01T00:00:00Z"}
            }}}"#,
    )
    .unwrap();
    let matched = data.lookup(&vec![("user.sub".to_string(), "s".to_string())]).unwrap();
    assert_eq!(entry(&matched, "plain").values(), &vec!["x".to_string()]);
    assert_eq!(entry(&matched, "plain").expires_at(), None);
    assert_eq!(
        entry(&matched, "stamped").expires_at(),
        Some("2027-01-01T00:00:00Z")
    );
}

#[test]
fn test_bad_shapes_rejected() {
    assert!(matches!(
        AttrData::from_json_str("[1, 2]"),
        Err(DataError::NotAnObject)
    ));
    assert!(matches!(
        AttrData::from_json_str(r#"{"_schema": {"not": "an array"}}"#),
        Err(DataError::SchemaNotAnArray)
    ));
    assert!(matches!(
        AttrData::from_json_str("not json"),
        Err(DataError::Parse(_))
    ));
}

#[test]
fn shapes_and_messages() {
    for text in [
        r#"{"k": []}"#,
        r#"{"k": {"v": []}}"#,
        r#"{"k": {"v": {"a": "x"}}}"#,
        r#"{"k": {"v": {"a": [1]}}}"#,
        r#"{"k": {"v": {"a": {"expires_at": "t"}}}}"#,
        r#"{"k": {"v": {"a": {"values": [], "expires_at": 3}}}}"#,
    ] {
        assert!(
            matches!(AttrData::from_json_str(text), Err(DataError::Parse(_))),
            "accepted: {text}"
        );
    }
    // Members that nobody knows are passed over.
    assert!(AttrData::from_json_str(r#"{"k": {"v": {"a": {"values": [], "x": 1}}}}"#).is_ok());
    assert_eq!(
        AttrData::load(Err("gone".to_string())).unwrap_err().message(),
        "failed to read data file: gone"
    );
    assert_eq!(
        AttrData::load(Ok("3".to_string())).unwrap_err().message(),
        "data file must be a JSON object keyed by identity attribute key"
    );
    assert_eq!(
        DataError::SchemaNotAnArray.message(),
        "'_schema' must be an array of SCIM attribute definitions"
    );
    assert!(AttrData::from_json_str("?")
        .unwrap_err()
        .message()
        .starts_with("data file does not parse as file-store JSON: "));
}
