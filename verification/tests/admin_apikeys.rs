//! The keys of the administration interface, and the tool that makes them.

use visa_service::admin_apikeys::{
    ApiKeyRecord, KeyStatus, KeysFile, Permission, ReloadableApiKeys,
};
use visa_service::apikey::{digest_text, hex, hex_of, sha256_hex, ApiKey};
use visa_service::error::ServiceError;
use visa_service::vsapikey::{
    add_key, cmd_create, cmd_revoke, is_free, parse_permission, pick_new_id, read_keys_file,
    validate_service_binding, KeyRequest, Revocation,
};

#[test]
fn test_keys_file_resolve_permission_parses() {
    let toml_src = r#"
            [keys.00000001]
            owner = "test"
            permission = "resolve"
            status = "active"
            created = "2026-09-15"
            secret_hash = "abc123"
            description = "resolve key"
        "#;
    let kf = KeysFile::parse(toml_src).unwrap();
    let record = kf.get("00000001").unwrap();
    assert_eq!(record.permission, Permission::Resolve);
    assert_eq!(record.status, KeyStatus::Active);
}

#[test]
fn test_keys_file_read_permission_still_parses() {
    let toml_src = r#"
            [keys.00000002]
            owner = "test"
            permission = "read"
            status = "active"
            created = "2026-01-01"
            secret_hash = "def456"
            description = "read key"
        "#;
    let kf = KeysFile::parse(toml_src).unwrap();
    let record = kf.get("00000002").unwrap();
    assert_eq!(record.permission, Permission::Read);
    // No `service` in the file: the binding is absent.
    assert_eq!(record.service, None);
}

#[test]
fn test_keys_file_notify_permission_parses_with_service() {
    let toml_src = r#"
            [keys.00000003]
            owner = "hr-connector"
            permission = "notify"
            status = "active"
            created = "2026-09-22"
            secret_hash = "abc789"
            description = "notify key for hr"
            service = "hr"
        "#;
    let kf = KeysFile::parse(toml_src).unwrap();
    let record = kf.get("00000003").unwrap();
    assert_eq!(record.permission, Permission::Notify);
    assert_eq!(record.service, Some("hr".to_string()));
}

#[test]
fn test_can_notify_true_for_notify_and_readwrite_only() {
    assert!(Permission::Notify.can_notify());
    assert!(Permission::ReadWrite.can_notify());
    assert!(!Permission::Read.can_notify());
    assert!(!Permission::Resolve.can_notify());
}

#[test]
fn test_existing_predicates_false_for_notify() {
    assert!(!Permission::Notify.can_resolve());
    assert!(!Permission::Notify.can_read());
    assert!(!Permission::Notify.can_write());
    // The other levels keep their resolve access.
    assert!(Permission::Resolve.can_resolve());
    assert!(Permission::Read.can_resolve());
    assert!(Permission::ReadWrite.can_resolve());
}

#[test]
fn levels_read_and_write() {
    assert!(Permission::Read.can_read());
    assert!(Permission::ReadWrite.can_read());
    assert!(!Permission::Resolve.can_read());
    assert!(Permission::ReadWrite.can_write());
    assert!(!Permission::Read.can_write());
}

#[test]
fn test_load_rejects_notify_key_without_service() {
    let toml_src = r#"
            [keys.00000004]
            owner = "test"
            permission = "notify"
            status = "active"
            created = "2026-09-22"
            secret_hash = "abc123"
            description = "unbound notify key"
        "#;
    let result = ReloadableApiKeys::new_from_file(
        "keys.toml".to_string(),
        Some(Ok(toml_src.to_string())),
        false,
    );
    let err = result.err().expect("load must reject unbound notify key");
    assert!(
        err.text().contains("notify"),
        "error should name the notify requirement, got: {err:?}"
    );
    assert_eq!(
        err.text(),
        "key 00000004: a notify key requires a service binding (`service = \"<id>\"`)"
    );
    assert!(matches!(err, ServiceError::AdminKey(_)));
}

#[test]
fn test_reload_rejects_notify_key_without_service() {
    let good = r#"
            [keys.00000005]
            owner = "test"
            permission = "notify"
            status = "active"
            created = "2026-09-22"
            secret_hash = "abc123"
            description = "bound notify key"
            service = "hr"
        "#;
    let bad = r#"
            [keys.00000005]
            owner = "test"
            permission = "notify"
            status = "active"
            created = "2026-09-22"
            secret_hash = "abc123"
            description = "unbound notify key"
        "#;
    let mut keys = ReloadableApiKeys::new_from_file(
        "keys.toml".to_string(),
        Some(Ok(good.to_string())),
        false,
    )
    .ok()
    .unwrap();
    assert_eq!(keys.size_active(), 1);
    let result = keys.reload(Ok(bad.to_string()));
    assert!(result.is_err(), "reload must reject unbound notify key");
    // No keys at all until the file is mended.
    assert!(keys.is_empty());
    assert_eq!(keys.size_active(), 0);
    keys.reload(Ok(good.to_string())).unwrap();
    assert!(!keys.is_empty());
    assert_eq!(keys.size_active(), 1);
}

#[test]
fn test_service_field_on_read_key_is_ignored() {
    let toml_src = r#"
            [keys.00000006]
            owner = "test"
            permission = "read"
            status = "active"
            created = "2026-09-22"
            secret_hash = "abc123"
            description = "read key with stray service"
            service = "hr"
        "#;
    let result = ReloadableApiKeys::new_from_file(
        "keys.toml".to_string(),
        Some(Ok(toml_src.to_string())),
        false,
    );
    assert!(
        result.is_ok(),
        "stray service on a read key must not fail the load"
    );
}

#[test]
fn missing_and_unreadable_files() {
    let none = ReloadableApiKeys::new_from_file("k.toml".to_string(), None, true).ok().unwrap();
    assert!(none.is_empty());
    assert_eq!(none.size_active(), 0);
    assert_eq!(none.get_path(), "k.toml");

    let err = ReloadableApiKeys::new_from_file("k.toml".to_string(), None, false).err().unwrap();
    assert_eq!(err.text(), "keys file not found: k.toml");

    let err =
        ReloadableApiKeys::new_from_file("k.toml".to_string(), Some(Err("denied".to_string())), true)
            .err()
            .unwrap();
    assert!(matches!(err, ServiceError::Io(ref m) if m == "denied"));

    let err = ReloadableApiKeys::new_from_file(
        "k.toml".to_string(),
        Some(Ok("not toml".to_string())),
        true,
    )
    .err()
    .unwrap();
    assert!(err.text().starts_with("failed to parse keys file: "), "{err:?}");

    let mut keys = ReloadableApiKeys::default();
    assert_eq!(keys.get_path(), "");
    let err = keys.reload(Err("gone".to_string())).unwrap_err();
    assert_eq!(err.text(), "failed to read keys file: gone");
}

#[test]
fn files_of_another_shape_are_refused() {
    for text in [
        "",
        "keys = 1",
        "[keys.a]\nowner = \"x\"",
        "[keys.a]\nowner=\"x\"\npermission=\"root\"\nstatus=\"active\"\ncreated=\"c\"\n\
         secret_hash=\"h\"\ndescription=\"d\"",
        "[keys.a]\nowner=\"x\"\npermission=\"read\"\nstatus=\"asleep\"\ncreated=\"c\"\n\
         secret_hash=\"h\"\ndescription=\"d\"",
        "[keys.a]\nowner=\"x\"\npermission=\"read\"\nstatus=\"active\"\ncreated=\"c\"\n\
         secret_hash=\"h\"\ndescription=\"d\"\nservice=3",
        "[keys.a]\nowner=\"x\"\npermission=\"read\"\nstatus=\"active\"\ncreated=2026-01-01\n\
         secret_hash=\"h\"\ndescription=\"d\"",
    ] {
        assert!(KeysFile::parse(text).is_err(), "accepted: {text}");
    }
    assert!(KeysFile::parse("[keys]").unwrap().keys.is_empty());
}

fn record(status: KeyStatus, secret: &[u8]) -> ApiKeyRecord {
    ApiKeyRecord {
        owner: "o".to_string(),
        permission: Permission::Notify,
        status,
        created: "2026-01-01".to_string(),
        secret_hash: sha256_hex(&secret.to_vec()).unwrap(),
        description: String::new(),
        service: Some("hr".to_string()),
    }
}

#[test]
fn lookup_needs_an_active_key_and_its_secret() {
    let mut keys = ReloadableApiKeys::default();
    keys.insert_for_test("000000ff".to_string(), record(KeyStatus::Active, b"secret"));
    keys.insert_for_test("00000001".to_string(), record(KeyStatus::Revoked, b"secret"));
    assert_eq!(keys.size_active(), 1);

    let good = ApiKey::new(0xff, b"secret".to_vec());
    assert_eq!(good.key_id_hex(), "000000ff");
    assert_eq!(good.secret_bytes(), b"secret");
    let (permission, service) = keys.lookup_permission_and_service(&good).unwrap().unwrap();
    assert_eq!(permission, Permission::Notify);
    assert_eq!(service.as_deref(), Some("hr"));

    let wrong = ApiKey::new(0xff, b"guess".to_vec());
    assert!(keys.lookup_permission_and_service(&wrong).unwrap().is_none());
    let revoked = ApiKey::new(1, b"secret".to_vec());
    assert!(keys.lookup_permission_and_service(&revoked).unwrap().is_none());
    let unknown = ApiKey::new(2, b"secret".to_vec());
    assert!(keys.lookup_permission_and_service(&unknown).unwrap().is_none());

    // Where no hash can be had, only an active key is an error.
    let no_hash = Err("no sha256".to_string());
    let err = keys.lookup_hashed("000000ff", &no_hash).unwrap_err();
    assert_eq!(err.text(), "failed to hash key: no sha256");
    assert!(keys.lookup_hashed("00000001", &no_hash).unwrap().is_none());
}

/// Only a key that may announce changes is bound to a service.
#[test]
fn a_stray_service_binds_nothing() {
    for permission in [Permission::Resolve, Permission::Read, Permission::ReadWrite] {
        let mut stray = record(KeyStatus::Active, b"secret");
        stray.permission = permission;
        let mut keys = ReloadableApiKeys::default();
        keys.insert_for_test("000000ff".to_string(), stray);
        let key = ApiKey::new(0xff, b"secret".to_vec());
        let (granted, service) = keys.lookup_permission_and_service(&key).unwrap().unwrap();
        assert_ne!(granted, Permission::Notify);
        assert_eq!(service, None);
    }
}

/// Without active keys the store counts none and grants nothing.
#[test]
fn revoked_keys_do_not_count() {
    let mut keys = ReloadableApiKeys::default();
    keys.insert_for_test("00000001".to_string(), record(KeyStatus::Revoked, b"secret"));
    assert_eq!(keys.size_active(), 0);
    assert!(keys.is_empty());
    let key = ApiKey::new(1, b"secret".to_vec());
    assert!(keys.lookup_permission_and_service(&key).unwrap().is_none());
    keys.insert_for_test("00000002".to_string(), record(KeyStatus::Active, b"secret"));
    assert!(!keys.is_empty());
}

#[test]
fn hashes_and_hexadecimal() {
    assert_eq!(
        sha256_hex(&b"abc".to_vec()).unwrap(),
        "ba7816bf8f01cfea414140de5dae2223b00361a396177a9cb410ff61f20015ad"
    );
    assert_eq!(hex(0xdead_beef, 8), "deadbeef");
    assert_eq!(hex(10, 8), "0000000a");
    assert_eq!(hex_of(&vec![0, 15, 16, 255]), "000f10ff");
}

#[test]
fn test_parse_permission_accepts_all_four_levels() {
    assert_eq!(parse_permission("resolve").unwrap(), Permission::Resolve);
    assert_eq!(parse_permission("read").unwrap(), Permission::Read);
    assert_eq!(
        parse_permission("readwrite").unwrap(),
        Permission::ReadWrite
    );
    assert_eq!(parse_permission("notify").unwrap(), Permission::Notify);
}

#[test]
fn test_parse_permission_rejects_invalid_naming_all_levels() {
    let err = parse_permission("bogus").unwrap_err();
    assert_eq!(
        err,
        "invalid permission 'bogus': must be resolve, read, readwrite or notify"
    );
}

#[test]
fn test_validate_service_binding_notify_requires_service() {
    let err = validate_service_binding(&Permission::Notify, None).unwrap_err();
    assert!(
        err.contains("--service"),
        "error should name the missing flag, got: {err}"
    );
    assert!(validate_service_binding(&Permission::Notify, Some("hr")).is_ok());
}

#[test]
fn test_validate_service_binding_rejected_for_non_notify() {
    for perm in [Permission::Resolve, Permission::Read, Permission::ReadWrite] {
        let err = validate_service_binding(&perm, Some("hr")).unwrap_err();
        assert!(
            err.contains("notify"),
            "error should say --service is notify-only, got: {err}"
        );
        assert!(validate_service_binding(&perm, None).is_ok());
    }
}

fn request<'a>(perms: &'a str, service: Option<&'a str>) -> KeyRequest<'a> {
    KeyRequest {
        perms,
        owner: "hr-connector",
        desc: Some("notify key for hr"),
        status: None,
        created: None,
        service,
    }
}

#[test]
fn test_create_notify_key_round_trips_service() {
    let (kf, key) = cmd_create(
        &request("notify", Some("hr")),
        "k.toml",
        &None,
        true,
        "2026-09-22",
        b"s3".to_vec(),
    )
    .unwrap();
    assert_eq!(kf.keys.len(), 1);
    let record = kf.get(&key.key_id_hex()).unwrap();
    assert_eq!(record.permission, Permission::Notify);
    assert_eq!(record.service, Some("hr".to_string()));
    assert_eq!(record.created, "2026-09-22");
    assert_eq!(record.owner, "hr-connector");
    assert_eq!(record.description, "notify key for hr");
    assert_eq!(record.status, KeyStatus::Active);
    assert_eq!(record.secret_hash, sha256_hex(&b"s3".to_vec()).unwrap());
    assert!(kf.validate().is_ok());
}

#[test]
fn test_create_read_key_has_no_service() {
    let (kf, key) =
        cmd_create(&request("read", None), "k.toml", &None, true, "2026-09-22", vec![1, 2])
            .unwrap();
    assert_eq!(kf.get(&key.key_id_hex()).unwrap().service, None);
}

#[test]
fn creating_refuses_what_it_must() {
    let make = |r: &KeyRequest, file: Option<Result<String, String>>, init: bool| {
        cmd_create(r, "k.toml", &file, init, "today", vec![7]).unwrap_err()
    };
    assert_eq!(
        make(&request("root", None), None, true),
        "invalid permission 'root': must be resolve, read, readwrite or notify"
    );
    assert_eq!(
        make(&request("notify", None), None, true),
        "a notify key must be bound to a service: pass --service <id>"
    );
    let mut r = request("read", None);
    r.status = Some("asleep");
    assert_eq!(make(&r, None, true), "invalid status 'asleep': must be active or revoked");
    assert_eq!(
        make(&request("read", None), Some(Ok(String::new())), true),
        "key file already exists: k.toml"
    );
    assert_eq!(
        make(&request("read", None), None, false),
        "key file not found: k.toml (use --init to create a new file)"
    );
    assert_eq!(
        make(&request("read", None), Some(Err("denied".to_string())), false),
        "failed to read k.toml: denied"
    );
    assert!(make(&request("read", None), Some(Ok("?".to_string())), false)
        .starts_with("failed to parse k.toml: "));
}

const TWO_KEYS: &str = r#"
    [keys.0000000a]
    owner = "a"
    permission = "read"
    status = "active"
    created = "c"
    secret_hash = "h"
    description = "d"

    [keys.0000000b]
    owner = "b"
    permission = "readwrite"
    status = "revoked"
    created = "c"
    secret_hash = "h"
    description = "d"
"#;

#[test]
fn new_keys_join_those_of_the_file() {
    let (kf, key) = cmd_create(
        &request("resolve", None),
        "k.toml",
        &Some(Ok(TWO_KEYS.to_string())),
        false,
        "today",
        vec![9],
    )
    .unwrap();
    assert_eq!(kf.keys.len(), 3);
    assert_ne!(key.key_id_hex(), "0000000a");
    assert_eq!(kf.get("0000000a").unwrap().owner, "a");
    assert_eq!(kf.get("0000000b").unwrap().status, KeyStatus::Revoked);
}

#[test]
fn ids_are_drawn_until_one_is_free() {
    let kf = KeysFile::parse(TWO_KEYS).unwrap();
    assert!(!is_free(&kf, 10));
    assert!(is_free(&kf, 12));
    let id = pick_new_id(&kf).unwrap();
    assert!(is_free(&kf, id));
    // Two draws are almost never the same.
    assert!((0..4).any(|_| pick_new_id(&kf).unwrap() != id));
}

#[test]
fn a_key_without_a_hash_is_not_added() {
    let mut kf = KeysFile::empty();
    let key = ApiKey::new(3, vec![1]);
    let r = request("read", None);
    let err = add_key(&r, &mut kf, "today", &key, Err("no sha256".to_string())).unwrap_err();
    assert_eq!(err, "failed to compute secret hash: no sha256");
    assert!(kf.keys.is_empty());
}

#[test]
fn revoking_is_final() {
    let file = Some(Ok(TWO_KEYS.to_string()));
    let Ok(Revocation::Revoked(kf)) = cmd_revoke("0000000a", "k.toml", &file) else {
        panic!("the key must be revoked");
    };
    assert_eq!(kf.get("0000000a").unwrap().status, KeyStatus::Revoked);
    assert_eq!(kf.get("0000000a").unwrap().owner, "a");
    assert_eq!(kf.keys.len(), 2);
    assert!(matches!(
        cmd_revoke("0000000b", "k.toml", &file),
        Ok(Revocation::AlreadyRevoked)
    ));
    assert!(matches!(cmd_revoke("0000000c", "k.toml", &file), Ok(Revocation::NotFound)));
    assert_eq!(cmd_revoke("x", "k.toml", &None).unwrap_err(), "key file not found: k.toml");
    assert!(read_keys_file("k.toml", &Err("denied".to_string())).is_err());
}

#[test]
fn a_digest_is_written_and_a_failure_stays() {
    assert_eq!(digest_text(Ok(vec![0x00, 0x9f, 0xa0])).unwrap(), "009fa0");
    assert_eq!(digest_text(Ok(vec![])).unwrap(), "");
    assert_eq!(digest_text(Err("no sha256".to_string())).unwrap_err(), "no sha256");
}
