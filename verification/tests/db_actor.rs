//! Actors in the state database.

use visa_service::actor::{
    decode_attr, decode_list, encode_attr, encode_list, Actor, CN, DEVICE_HOSTNAME, ROLE,
    ROLE_ADAPTER, ROLE_NODE, SERVICES, ZPR_ADDR,
};
use visa_service::attribute::Attribute;
use visa_service::db::actor::{is_valid_hostname_label, ActorRepo, Counters, Role};
use visa_service::db::addr::ZprAddr;
use visa_service::db::keys::{
    actor_key_for, actor_services_key_for, attrs_key_for, host_key_for, munge, service_key_for,
    unmunge, KEY_NODES,
};
use visa_service::db::lookup::{PublicKey, A2A_DH_PUBKEY};
use visa_service::db::store::{DbConnection, DbOp, MemoryDb, StoreError};
use visa_service::time::{Timestamp, NANOS_PER_SEC};

const TS: &str = "1800000000";

fn addr(s: &str) -> ZprAddr {
    ZprAddr::parse(s).unwrap()
}

fn text(a: &Option<ZprAddr>) -> Option<String> {
    a.as_ref().map(|a| a.as_str().to_string())
}

fn make_attr(key: &str, values: &[&str]) -> Attribute {
    Attribute {
        key: key.to_string(),
        values: values.iter().map(|v| v.to_string()).collect(),
        expires: 2_000_000_000 * NANOS_PER_SEC as Timestamp,
        source: "bas".to_string(),
    }
}

fn make_actor(attrs: &[(&str, &str)]) -> Actor {
    let mut actor = Actor::new();
    for (key, value) in attrs {
        actor.add_attribute(make_attr(key, &[value]));
    }
    actor
}

/// An actor has one attribute of a key: the last that it was given.
#[test]
fn attributes_of_a_key_replace_each_other() {
    let mut actor = make_actor(&[(CN, "a"), (ROLE, ROLE_ADAPTER), (CN, "b")]);
    assert_eq!(actor.get_cn().unwrap(), "b");
    actor.add_attribute(make_attr(CN, &["c", "d"]));
    assert_eq!(actor.get_values(CN), ["c", "d"]);
    assert_eq!(actor.attrs.iter().filter(|a| a.key == CN).count(), 1);
    assert_eq!(actor.attrs.len(), 2);
}

fn make_actor_with_services(role: &str, zpr_addr: &str, services: &[&str], cn: &str) -> Actor {
    let mut actor = make_actor(&[(ROLE, role), (CN, cn), (ZPR_ADDR, zpr_addr), ("id", "id-1")]);
    actor.add_attribute(make_attr(SERVICES, services));
    actor.add_identity_key("id");
    actor
}

fn make_adapter(zpr_addr: &str, cn: &str) -> Actor {
    make_actor(&[(ROLE, ROLE_ADAPTER), (CN, cn), (ZPR_ADDR, zpr_addr)])
}

fn repo() -> ActorRepo<MemoryDb> {
    ActorRepo::new(MemoryDb::new())
}

fn add(repo: &mut ActorRepo<MemoryDb>, actor: &Actor) {
    let mut counters = Counters::new();
    repo.add_actor(actor, &vec![], &mut counters, TS).unwrap();
}

fn update(repo: &mut ActorRepo<MemoryDb>, actor: &Actor) {
    let mut counters = Counters::new();
    repo.update_actor(actor, &vec![], &mut counters, TS).unwrap();
}

fn remove_attribute(actor: &mut Actor, key: &str) {
    actor.attrs.retain(|a| a.key != key);
}

fn listed(repo: &ActorRepo<MemoryDb>, role: Option<Role>) -> Vec<(String, Option<String>)> {
    let mut list: Vec<(String, Option<String>)> = repo
        .list_actors(role)
        .unwrap()
        .into_iter()
        .map(|(a, cn)| (a.as_str().to_string(), cn))
        .collect();
    list.sort();
    list
}

#[test]
fn test_add_and_get_actor_roundtrip() {
    let mut repo = repo();
    let actor =
        make_actor_with_services(ROLE_NODE, "fd5a:5052::1", &["svc:one", "svc%two"], "actor-1");
    let zpr_addr = addr("fd5a:5052::1");
    add(&mut repo, &actor);
    let loaded = repo.get_actor_by_zpr_addr(&zpr_addr).unwrap();
    assert!(loaded.is_node());
    assert_eq!(loaded.get_cn().map(|s| s.as_str()), Some("actor-1"));
    assert_eq!(text(&loaded.get_zpr_addr()).as_deref(), Some("fd5a:5052::1"));
    assert!(loaded.provides("svc:one"));
    assert!(loaded.provides("svc%two"));
    assert!(!loaded.provides("svc"));
    assert_eq!(loaded.identity_keys, vec!["id".to_string()]);
    assert_eq!(loaded.get_value("id").map(|s| s.as_str()), Some("id-1"));
    let cn = loaded.get_attribute(CN).unwrap();
    assert_eq!(cn.expires, 2_000_000_000 * NANOS_PER_SEC as Timestamp);
    assert_eq!(cn.source, "bas");
}

#[test]
fn test_list_services_decodes_names() {
    let mut repo = repo();
    let actor =
        make_actor_with_services(ROLE_ADAPTER, "fd5a:5052::2", &["svc:one", "svc%two"], "actor-1");
    add(&mut repo, &actor);
    let mut services = repo.list_services().unwrap();
    services.sort_by(|a, b| a.name.cmp(&b.name));
    let names: Vec<String> = services.iter().map(|s| s.name.clone()).collect();
    assert_eq!(names, vec!["svc%two".to_string(), "svc:one".to_string()]);
    for entry in services {
        assert_eq!(entry.zpr_addr.as_str(), "fd5a:5052::2");
    }
}

#[test]
fn test_rm_actor_cleans_up_keys() {
    let mut repo = repo();
    let actor = make_actor_with_services(ROLE_NODE, "fd5a:5052::3", &["svc:one"], "actor-1");
    let zpr_addr = addr("fd5a:5052::3");
    add(&mut repo, &actor);
    assert!(repo.db.key_exists(&service_key_for("svc:one")).unwrap());
    repo.rm_actor_by_zpr_addr(&zpr_addr).unwrap();
    assert!(!repo.db.key_exists(&actor_key_for(&zpr_addr)).unwrap());
    assert!(!repo.db.key_exists(&attrs_key_for(&zpr_addr)).unwrap());
    assert!(!repo.db.key_exists(&actor_services_key_for(&zpr_addr)).unwrap());
    assert!(!repo.db.key_exists(&service_key_for("svc:one")).unwrap());
    assert!(!repo.db.smembers(KEY_NODES).unwrap().contains(&"fd5a:5052::3".to_string()));
    assert!(repo.get_actor_by_zpr_addr(&zpr_addr).is_err());
}

#[test]
fn test_list_actors_with_role_filter() {
    let mut repo = repo();
    add(
        &mut repo,
        &make_actor_with_services(ROLE_NODE, "fd5a:5052::10", &["svc:one"], "node-cn"),
    );
    add(
        &mut repo,
        &make_actor_with_services(ROLE_ADAPTER, "fd5a:5052::20", &["svc:two"], "adapter-cn"),
    );
    let node = ("fd5a:5052::10".to_string(), Some("node-cn".to_string()));
    let adapter = ("fd5a:5052::20".to_string(), Some("adapter-cn".to_string()));
    assert_eq!(listed(&repo, None), vec![node.clone(), adapter.clone()]);
    assert_eq!(listed(&repo, Some(Role::Node)), vec![node]);
    assert_eq!(listed(&repo, Some(Role::Adapter)), vec![adapter]);
}

#[test]
fn test_list_actors_survives_malformed_cn_attribute() {
    let mut repo = repo();
    add(&mut repo, &make_adapter("fd5a:5052::41", "good-cn"));
    add(&mut repo, &make_adapter("fd5a:5052::42", "bad-cn"));
    repo.db.hset(&attrs_key_for(&addr("fd5a:5052::42")), CN, "{not json").unwrap();
    assert_eq!(
        listed(&repo, None),
        vec![
            ("fd5a:5052::41".to_string(), Some("good-cn".to_string())),
            ("fd5a:5052::42".to_string(), None)
        ]
    );
}

#[test]
fn test_get_zpr_addr_for_service_returns_addr_and_none() {
    let mut repo = repo();
    add(
        &mut repo,
        &make_actor_with_services(ROLE_NODE, "fd5a:5052::30", &["svc:one"], "actor-1"),
    );
    let found = repo.get_zpr_addr_for_service("svc:one").unwrap();
    assert_eq!(text(&found).as_deref(), Some("fd5a:5052::30"));
    assert!(repo.get_zpr_addr_for_service("svc:missing").unwrap().is_none());
}

#[test]
fn test_get_zpr_addr_for_service_invalid_addr() {
    let mut repo = repo();
    repo.db.hset(&service_key_for("svc:bad"), "zpr_addr", "not-an-ip").unwrap();
    match repo.get_zpr_addr_for_service("svc:bad").unwrap_err() {
        StoreError::InvalidData(_) => {}
        other => panic!("unexpected error: {other:?}"),
    }
}

#[test]
fn test_get_actor_attrs_returns_only_found() {
    let mut repo = repo();
    add(&mut repo, &make_adapter("fd5a:5052::40", "actor-attrs"));
    let attrs = repo
        .get_actor_attrs(
            &addr("fd5a:5052::40"),
            &vec![CN.to_string(), "missing.key".to_string(), ROLE.to_string()],
        )
        .unwrap();
    assert_eq!(attrs.len(), 2);
    assert_eq!(attrs[0].key, CN);
    assert_eq!(attrs[0].get_single_value().unwrap(), "actor-attrs");
    assert_eq!(attrs[1].key, ROLE);
    assert_eq!(attrs[1].get_single_value().unwrap(), ROLE_ADAPTER);
}

fn actor_with_pubkey(zpr_addr: &str, value: Option<&str>) -> Actor {
    let mut actor = make_adapter(zpr_addr, "keyed");
    if let Some(v) = value {
        actor.add_attribute(make_attr(A2A_DH_PUBKEY, &[v]));
    }
    actor
}

/// Decodes the stored text of a key.
fn decode(text: &str) -> Result<PublicKey, String> {
    let encoded = text.strip_prefix("ZprKF01:").ok_or("unknown key format")?;
    let public_key = openssl::base64::decode_block(encoded).map_err(|e| e.to_string())?;
    Ok(PublicKey { public_key })
}

/// Reads the stored text, decodes it, and hands in what came of it.
fn pubkey(repo: &ActorRepo<MemoryDb>, at: &str) -> Result<Option<PublicKey>, StoreError> {
    let at = addr(at);
    let decoded = match repo.stored_a2a_dh_pubkey(&at)? {
        Some(text) => decode(&text),
        None => Err("nothing is stored".to_string()),
    };
    repo.get_a2a_dh_pubkey_by_zpr_addr(&at, decoded)
}

#[test]
fn test_get_a2a_dh_pubkey_none_when_absent() {
    let mut repo = repo();
    add(&mut repo, &actor_with_pubkey("fd5a:5052::60", None));
    assert!(pubkey(&repo, "fd5a:5052::60").unwrap().is_none());
}

#[test]
fn test_get_a2a_dh_pubkey_decodes_stored_value() {
    let mut repo = repo();
    add(
        &mut repo,
        &actor_with_pubkey(
            "fd5a:5052::61",
            Some("ZprKF01:AAECAwQFBgcICQoLDA0ODxAREhMUFRYXGBkaGxwdHh8="),
        ),
    );
    let pubkey = pubkey(&repo, "fd5a:5052::61").unwrap().expect("actor has a stored key");
    assert_eq!(pubkey.public_key, (0..32u8).collect::<Vec<u8>>());
}

#[test]
fn test_get_a2a_dh_pubkey_rejects_unknown_format() {
    let mut repo = repo();
    add(&mut repo, &actor_with_pubkey("fd5a:5052::62", Some("ZprKF99:AAEC")));
    match pubkey(&repo, "fd5a:5052::62").unwrap_err() {
        StoreError::InvalidData(m) => assert_eq!(
            m,
            "invalid device.zpr.a2a.dh.pubkey for actor fd5a:5052::62: unknown key format"
        ),
        other => panic!("unexpected error: {other:?}"),
    }
}

/// A key with several values is refused before anything is decoded.
#[test]
fn public_keys_are_single_valued() {
    let mut repo = repo();
    let mut actor = make_adapter("fd5a:5052::63", "keyed");
    actor.add_attribute(make_attr(A2A_DH_PUBKEY, &["a", "b"]));
    add(&mut repo, &actor);
    let at = addr("fd5a:5052::63");
    assert!(matches!(repo.stored_a2a_dh_pubkey(&at), Err(StoreError::InvalidData(_))));
    let decoded = Ok(PublicKey { public_key: vec![1] });
    assert!(repo.get_a2a_dh_pubkey_by_zpr_addr(&at, decoded).is_err());
}

#[test]
fn test_list_services_for_actor_only_returns_actor_services() {
    let mut repo = repo();
    add(
        &mut repo,
        &make_actor_with_services(ROLE_NODE, "fd5a:5052::30", &["svc:one", "svc%two"], "cn.1"),
    );
    add(
        &mut repo,
        &make_actor_with_services(ROLE_ADAPTER, "fd5a:5052::40", &["svc:three"], "cn.2"),
    );
    let mut node = repo.list_services_for_actor(&addr("fd5a:5052::30")).unwrap();
    node.sort();
    assert_eq!(node, vec!["svc%two".to_string(), "svc:one".to_string()]);
    let adapter = repo.list_services_for_actor(&addr("fd5a:5052::40")).unwrap();
    assert_eq!(adapter, vec!["svc:three".to_string()]);
}

#[test]
fn test_update_actor_drops_removed_attributes() {
    let mut repo = repo();
    let mut actor = make_actor(&[
        (ROLE, ROLE_NODE),
        (CN, "drop-node"),
        (ZPR_ADDR, "fd5a:5052::10"),
        ("user.dept", "sales"),
    ]);
    add(&mut repo, &actor);
    remove_attribute(&mut actor, "user.dept");
    update(&mut repo, &actor);
    let loaded = repo.get_actor_by_zpr_addr(&addr("fd5a:5052::10")).unwrap();
    assert!(loaded.attrs.iter().all(|a| a.key != "user.dept"));
    assert_eq!(loaded.get_cn().map(|s| s.as_str()), Some("drop-node"));
}

fn service_at(repo: &ActorRepo<MemoryDb>, name: &str) -> Option<String> {
    text(&repo.get_zpr_addr_for_service(name).unwrap())
}

#[test]
fn test_update_actor_preserves_other_actors_service_entry() {
    let mut repo = repo();
    let actor_a = make_actor_with_services(ROLE_ADAPTER, "fd5a:5052::a1", &["web"], "actor-a");
    let actor_b = make_actor_with_services(ROLE_ADAPTER, "fd5a:5052::b1", &["web"], "actor-b");
    add(&mut repo, &actor_a);
    add(&mut repo, &actor_b);
    update(&mut repo, &actor_a);
    assert_eq!(
        service_at(&repo, "web").as_deref(),
        Some("fd5a:5052::b1"),
        "actor A's refresh must not clobber actor B's live service entry"
    );
}

#[test]
fn test_update_actor_keeps_own_service_entry() {
    let mut repo = repo();
    let actor_a = make_actor_with_services(ROLE_ADAPTER, "fd5a:5052::a2", &["web"], "actor-a");
    add(&mut repo, &actor_a);
    update(&mut repo, &actor_a);
    assert_eq!(service_at(&repo, "web").as_deref(), Some("fd5a:5052::a2"));
    let services = repo.db.smembers(&actor_services_key_for(&addr("fd5a:5052::a2"))).unwrap();
    assert!(services.contains(&"web".to_string()));
}

#[test]
fn test_update_actor_releases_dropped_service() {
    let mut repo = repo();
    let mut actor = make_actor_with_services(ROLE_ADAPTER, "fd5a:5052::a3", &["web"], "actor-a");
    add(&mut repo, &actor);
    remove_attribute(&mut actor, SERVICES);
    update(&mut repo, &actor);
    assert_eq!(service_at(&repo, "web"), None);
    let services = repo.db.smembers(&actor_services_key_for(&addr("fd5a:5052::a3"))).unwrap();
    assert!(!services.contains(&"web".to_string()));
}

#[test]
fn test_clean_up_promotes_surviving_claimant() {
    let mut repo = repo();
    add(
        &mut repo,
        &make_actor_with_services(ROLE_ADAPTER, "fd5a:5052::a4", &["web"], "actor-a"),
    );
    add(
        &mut repo,
        &make_actor_with_services(ROLE_ADAPTER, "fd5a:5052::b4", &["web"], "actor-b"),
    );
    repo.rm_actor_by_zpr_addr(&addr("fd5a:5052::b4")).unwrap();
    assert_eq!(
        service_at(&repo, "web").as_deref(),
        Some("fd5a:5052::a4"),
        "owner departure must promote the surviving claimant, not orphan the service"
    );
}

#[test]
fn test_update_actor_drop_promotes_other_claimant() {
    let mut repo = repo();
    add(
        &mut repo,
        &make_actor_with_services(ROLE_ADAPTER, "fd5a:5052::b5", &["web"], "actor-b"),
    );
    let mut actor_a = make_actor_with_services(ROLE_ADAPTER, "fd5a:5052::a5", &["web"], "actor-a");
    add(&mut repo, &actor_a);
    remove_attribute(&mut actor_a, SERVICES);
    update(&mut repo, &actor_a);
    assert_eq!(
        service_at(&repo, "web").as_deref(),
        Some("fd5a:5052::b5"),
        "dropping an owned service must promote the surviving claimant"
    );
}

#[test]
fn test_list_actors_includes_cn_less_actor() {
    let mut repo = repo();
    let cn_less = make_actor(&[(ROLE, ROLE_ADAPTER), (ZPR_ADDR, "fd5a:5052::71")]);
    add(&mut repo, &cn_less);
    add(&mut repo, &make_adapter("fd5a:5052::72", "adapter-with-cn"));
    assert_eq!(
        listed(&repo, None),
        vec![
            ("fd5a:5052::71".to_string(), None),
            ("fd5a:5052::72".to_string(), Some("adapter-with-cn".to_string())),
        ],
        "CN-less actor must appear as (addr, None)"
    );
}

#[test]
fn test_shared_cn_actors_remain_distinct() {
    let both = |gone: &str, survivor: &str| {
        let mut repo = repo();
        add(&mut repo, &make_adapter("fd5a:5052::81", "shared-cn"));
        add(&mut repo, &make_adapter("fd5a:5052::82", "shared-cn"));
        assert_eq!(
            listed(&repo, None),
            vec![
                ("fd5a:5052::81".to_string(), Some("shared-cn".to_string())),
                ("fd5a:5052::82".to_string(), Some("shared-cn".to_string())),
            ],
            "expected two distinct entries for the shared CN"
        );
        for a in ["fd5a:5052::81", "fd5a:5052::82"] {
            let loaded = repo.get_actor_by_zpr_addr(&addr(a)).unwrap();
            assert_eq!(loaded.get_cn().map(|s| s.as_str()), Some("shared-cn"));
            assert_eq!(text(&loaded.get_zpr_addr()).as_deref(), Some(a));
        }
        repo.rm_actor_by_zpr_addr(&addr(gone)).unwrap();
        let loaded = repo.get_actor_by_zpr_addr(&addr(survivor)).unwrap();
        assert_eq!(text(&loaded.get_zpr_addr()).as_deref(), Some(survivor));
        assert_eq!(
            listed(&repo, None),
            vec![(survivor.to_string(), Some("shared-cn".to_string()))],
            "only the survivor may remain listed"
        );
    };
    both("fd5a:5052::82", "fd5a:5052::81");
    both("fd5a:5052::81", "fd5a:5052::82");
}

#[test]
fn test_fresh_repo_resolves_persisted_actor() {
    let mut first = repo();
    add(&mut first, &make_adapter("fd5a:5052::91", "persisted-cn"));
    // Another repository over the same database.
    let second = ActorRepo::new(first.db);
    assert_eq!(
        listed(&second, None),
        vec![("fd5a:5052::91".to_string(), Some("persisted-cn".to_string()))]
    );
    let loaded = second.get_actor_by_zpr_addr(&addr("fd5a:5052::91")).unwrap();
    assert_eq!(text(&loaded.get_zpr_addr()).as_deref(), Some("fd5a:5052::91"));
}

fn make_actor_with_hostnames(zpr_addr: &str, cn: &str, hostnames: &[&str]) -> Actor {
    let mut actor = make_adapter(zpr_addr, cn);
    actor.add_attribute(make_attr(DEVICE_HOSTNAME, hostnames));
    actor
}

fn host_at(repo: &ActorRepo<MemoryDb>, name: &str) -> Option<String> {
    text(&repo.get_zpr_addr_for_hostname(name).unwrap())
}

#[test]
fn test_hostname_multi_value_claim() {
    let mut repo = repo();
    add(
        &mut repo,
        &make_actor_with_hostnames("fd5a:5052::c1", "host-cn-1", &["somename", "m-7f3a2b"]),
    );
    assert_eq!(host_at(&repo, "somename").as_deref(), Some("fd5a:5052::c1"));
    assert_eq!(host_at(&repo, "m-7f3a2b").as_deref(), Some("fd5a:5052::c1"));
    let mut names = repo.list_hostnames_for_actor(&addr("fd5a:5052::c1")).unwrap();
    names.sort();
    assert_eq!(names, vec!["m-7f3a2b".to_string(), "somename".to_string()]);
}

#[test]
fn test_hostname_first_claim_wins_per_value() {
    let mut repo = repo();
    let mut counters = Counters::new();
    let actor_1 = make_actor_with_hostnames("fd5a:5052::c2", "host-cn-1", &["somename"]);
    let actor_2 = make_actor_with_hostnames("fd5a:5052::c3", "host-cn-2", &["somename", "other"]);
    repo.add_actor(&actor_1, &vec![], &mut counters, TS).unwrap();
    repo.add_actor(&actor_2, &vec![], &mut counters, TS).unwrap();
    assert_eq!(
        host_at(&repo, "somename").as_deref(),
        Some("fd5a:5052::c2"),
        "first claim must win: somename stays with actor 1"
    );
    assert_eq!(
        host_at(&repo, "other").as_deref(),
        Some("fd5a:5052::c3"),
        "losing somename must not cost actor 2 its other claim"
    );
    assert_eq!(counters.hostname_claim_rejected, 1);
    let conflicts = repo
        .db
        .hget(&actor_key_for(&addr("fd5a:5052::c3")), "hostname_conflicts")
        .unwrap()
        .expect("hostname_conflicts field");
    let conflicts: Vec<String> = serde_json::from_str(&conflicts).unwrap();
    assert_eq!(conflicts, vec!["somename".to_string()]);
}

#[test]
fn test_hostname_update_actor_idempotent() {
    let mut repo = repo();
    let mut counters = Counters::new();
    let actor =
        make_actor_with_hostnames("fd5a:5052::c4", "host-cn-1", &["somename", "m-7f3a2b"]);
    repo.add_actor(&actor, &vec![], &mut counters, TS).unwrap();
    repo.update_actor(&actor, &vec![], &mut counters, TS).unwrap();
    assert_eq!(host_at(&repo, "somename").as_deref(), Some("fd5a:5052::c4"));
    assert_eq!(host_at(&repo, "m-7f3a2b").as_deref(), Some("fd5a:5052::c4"));
    assert_eq!(
        counters.hostname_claim_rejected, 0,
        "re-claiming a name the actor already holds is not a rejection"
    );
}

#[test]
fn test_hostname_release_on_disconnect_no_auto_reclaim() {
    let mut repo = repo();
    add(&mut repo, &make_actor_with_hostnames("fd5a:5052::c5", "holder", &["somename"]));
    add(&mut repo, &make_actor_with_hostnames("fd5a:5052::c6", "loser", &["somename"]));
    repo.rm_actor_by_zpr_addr(&addr("fd5a:5052::c5")).unwrap();
    assert_eq!(
        host_at(&repo, "somename"),
        None,
        "release must free the name; the loser does not inherit it automatically"
    );
}

#[test]
fn test_hostname_owner_checked_release() {
    let mut repo = repo();
    add(&mut repo, &make_actor_with_hostnames("fd5a:5052::c7", "holder", &["somename"]));
    add(&mut repo, &make_actor_with_hostnames("fd5a:5052::c8", "loser", &["somename"]));
    repo.rm_actor_by_zpr_addr(&addr("fd5a:5052::c8")).unwrap();
    assert_eq!(
        host_at(&repo, "somename").as_deref(),
        Some("fd5a:5052::c7"),
        "a non-holder's disconnect must not destroy the holder's entry"
    );
}

#[test]
fn test_hostname_validation_rejects_invalid_keeps_valid_siblings() {
    let mut repo = repo();
    let long_label = "x".repeat(64);
    let invalid = ["Some.Name", long_label.as_str(), "", "_x", "-x", "x-"];
    let mut values: Vec<&str> = invalid.to_vec();
    values.push("valid-name");
    add(&mut repo, &make_actor_with_hostnames("fd5a:5052::c9", "host-cn-v", &values));
    assert_eq!(host_at(&repo, "valid-name").as_deref(), Some("fd5a:5052::c9"));
    for name in invalid {
        if name.is_empty() {
            continue;
        }
        assert_eq!(
            host_at(&repo, name),
            None,
            "invalid value {name:?} must not be claimed"
        );
    }
    assert_eq!(
        host_at(&repo, "some.name"),
        None,
        "invalid values must never be transformed into valid ones"
    );
    let names = repo.list_hostnames_for_actor(&addr("fd5a:5052::c9")).unwrap();
    assert_eq!(names, vec!["valid-name".to_string()]);
}

#[test]
fn test_hostname_policy_service_name_wins() {
    let mut repo = repo();
    let mut counters = Counters::new();
    let actor = make_actor_with_hostnames("fd5a:5052::ca", "host-cn-p", &["web", "ok-name"]);
    repo.add_actor(&actor, &vec!["web".to_string()], &mut counters, TS).unwrap();
    assert_eq!(
        host_at(&repo, "web"),
        None,
        "a value equal to a policy service name must be rejected"
    );
    assert_eq!(host_at(&repo, "ok-name").as_deref(), Some("fd5a:5052::ca"));
    assert_eq!(counters.hostname_claim_rejected, 1);
}

#[test]
fn test_hset_nx_returns_true_only_for_setting_call() {
    let mut db = MemoryDb::new();
    assert!(
        db.hset_nx("host:x", "zpr_addr", "fd5a:5052::1").unwrap(),
        "first hset_nx must report it set the field"
    );
    assert!(
        !db.hset_nx("host:x", "zpr_addr", "fd5a:5052::2").unwrap(),
        "second hset_nx must report the field already existed"
    );
    assert_eq!(
        db.hget("host:x", "zpr_addr").unwrap(),
        Some("fd5a:5052::1".to_string()),
        "the losing call must not overwrite the value"
    );
}

#[test]
fn test_is_valid_hostname_label() {
    assert!(is_valid_hostname_label("a"));
    assert!(is_valid_hostname_label("m-7f3a2b"));
    assert!(is_valid_hostname_label("0name9"));
    assert!(is_valid_hostname_label(&"x".repeat(63)));
    assert!(!is_valid_hostname_label(""));
    assert!(!is_valid_hostname_label(&"x".repeat(64)));
    assert!(!is_valid_hostname_label("Some.Name"));
    assert!(!is_valid_hostname_label("UPPER"));
    assert!(!is_valid_hostname_label("_x"));
    assert!(!is_valid_hostname_label("-x"));
    assert!(!is_valid_hostname_label("x-"));
    assert!(!is_valid_hostname_label("a b"));
}

#[test]
fn actors_without_an_address_or_a_change_of_role_are_refused() {
    let mut repo = repo();
    let mut counters = Counters::new();
    let nowhere = make_actor(&[(ROLE, ROLE_NODE)]);
    match repo.add_actor(&nowhere, &vec![], &mut counters, TS).unwrap_err() {
        StoreError::MissingRequired(m) => assert_eq!(m, "attempt to add actor with no ZPR address"),
        other => panic!("unexpected error: {other:?}"),
    }
    assert!(listed(&repo, None).is_empty());

    let adapter = make_adapter("10.1.2.3", "cn");
    assert!(repo.update_actor(&adapter, &vec![], &mut counters, TS).is_err());
    add(&mut repo, &adapter);
    let node = make_actor(&[(ROLE, ROLE_NODE), (ZPR_ADDR, "10.1.2.3")]);
    assert!(repo.update_actor(&node, &vec![], &mut counters, TS).is_err());
    assert_eq!(listed(&repo, Some(Role::Adapter)).len(), 1);
}

#[test]
fn addresses_are_checked() {
    for good in ["1.2.3.4", "255.255.255.255", "::", "::1", "fd5a:5052::a1", "1:2:3:4:5:6:7:8"] {
        assert_eq!(ZprAddr::parse(good).unwrap().as_str(), good);
    }
    for bad in ["", "1.2.3", "256.1.1.1", "1.2.3.4.5", "01.2.3.4", "fd5a", "1::2::3", "g::", ":::",
        "1:2:3:4:5:6:7:8:9", "not-an-ip"]
    {
        assert!(ZprAddr::parse(bad).is_none(), "{bad}");
    }
    assert!(addr("::1").is_ipv6());
    assert!(!addr("1.2.3.4").is_ipv6());
}

/// However an address is spelled, it is written in one way.
#[test]
fn addresses_have_one_text() {
    for (spelled, written) in [
        ("FD5A:5052:0:0:0:0:0:1", "fd5a:5052::1"),
        ("fd5a:5052:0000::0001", "fd5a:5052::1"),
        ("0:0:0:0:0:0:0:0", "::"),
        ("::0", "::"),
        ("0:0:0:0:0:0:0:1", "::1"),
        ("1:0:0:0:0:0:0:0", "1::"),
        ("1:0:0:2:0:0:0:3", "1:0:0:2::3"),
        ("1:0:0:2:0:0:3:4", "1::2:0:0:3:4"),
        ("1:0:2:3:4:5:6:7", "1:0:2:3:4:5:6:7"),
        ("1::2:3:4:5:6:7", "1:0:2:3:4:5:6:7"),
        ("::FFFF:10.0.0.1", "::ffff:10.0.0.1"),
        ("0:0:0:0:0:ffff:a00:1", "::ffff:10.0.0.1"),
        ("::10.0.0.1", "::a00:1"),
        ("1:2:3:4:5:6:1.2.3.4", "1:2:3:4:5:6:102:304"),
        ("192.0.2.255", "192.0.2.255"),
    ] {
        assert_eq!(addr(spelled).as_str(), written, "{spelled}");
        assert_eq!(addr(written).as_str(), written);
        assert!(addr(spelled).same(&addr(written)));
    }
    for bad in [":::", "::1:", ":1::", "1::2::3", "1:2:3:4:5:6:7", "1:2:3:4:5:6:7:8:9",
        "1:2:3:4:5:6:7::8", "1.2.3.4::", "::1.2.3.4:5", "12345::", "1.2.3", "1.2.3.04", "-1::"] {
        assert!(ZprAddr::parse(bad).is_none(), "{bad}");
    }
}

/// IPv4 comes before IPv6, and within each the numbers decide, not the letters.
#[test]
fn addresses_are_ordered_by_number() {
    let sorted = ["2.0.0.0", "10.0.0.1", "10.0.0.2", "::1", "2::", "10::", "fd5a::9", "fd5a::10"];
    for (i, a) in sorted.iter().enumerate() {
        for (j, b) in sorted.iter().enumerate() {
            assert_eq!(addr(a).before(&addr(b)), i < j, "{a} {b}");
        }
    }
}

/// An actor is found under its address, however it was spelled when it connected.
#[test]
fn spelling_does_not_tell_actors_apart() {
    let mut repo = ActorRepo::new(MemoryDb::new());
    let mut counters = Counters::new();
    let actor = make_actor_with_services(ROLE_ADAPTER, "FD5A:5052:0:0::C1", &["svc"], "cn");
    assert_eq!(actor.get_zpr_addr().unwrap().as_str(), "fd5a:5052::c1");
    repo.add_actor(&actor, &vec![], &mut counters, "0").unwrap();
    let found = repo.get_zpr_addr_for_service("svc").unwrap();
    assert_eq!(text(&found).as_deref(), Some("fd5a:5052::c1"));
    assert!(repo.get_actor_by_zpr_addr(&addr("fd5a:5052::c1")).is_ok());
    repo.rm_actor_by_zpr_addr(&addr("fd5a:5052::0:c1")).unwrap();
    assert!(repo.get_zpr_addr_for_service("svc").unwrap().is_none());
}

#[test]
fn keys_and_their_names() {
    assert_eq!(host_key_for("somename"), "host:somename");
    assert_eq!(unmunge(&munge("svc:one%two/x")).as_deref(), Some("svc:one%two/x"));
    assert_ne!(service_key_for("a:b"), service_key_for("a%b"));
    assert!(actor_key_for(&addr("fd5a:5052::1")).starts_with("actor:"));
    assert_ne!(actor_key_for(&addr("::1")), attrs_key_for(&addr("::1")));
}

#[test]
fn memory_database_keeps_hashes_and_sets() {
    let mut db = MemoryDb::new();
    db.hset("h", "a", "1").unwrap();
    db.hset("h", "a", "2").unwrap();
    db.sadd("s", "x").unwrap();
    db.sadd("s", "x").unwrap();
    assert_eq!(db.hgetall("h").unwrap(), vec![("a".to_string(), "2".to_string())]);
    assert_eq!(db.smembers("s").unwrap(), vec!["x".to_string()]);
    assert!(db.sismember("s", "x").unwrap());
    assert_eq!(db.scan_match_all("h", "").unwrap(), vec!["h".to_string()]);
    db.srem("s", "x").unwrap();
    assert!(!db.key_exists("s").unwrap());
    db.atomic_pipeline(&vec![DbOp::Del("h".to_string())]).unwrap();
    assert!(!db.key_exists("h").unwrap());
}

#[test]
fn attributes_survive_their_json() {
    let a = make_attr("user.dept", &["sales \"x\"", "ops"]);
    let stored = encode_attr(&a).unwrap();
    let back = decode_attr(&stored).unwrap();
    assert_eq!((back.key, back.values), (a.key, a.values));
    assert_eq!((back.expires, back.source), (a.expires, a.source));
    assert!(decode_attr("{not json").is_none());
    let early = Attribute {
        key: "k".to_string(),
        values: vec![],
        expires: -1,
        source: "s".to_string(),
    };
    assert!(encode_attr(&early).is_none());
    let list = vec!["a".to_string(), "b,c".to_string()];
    assert_eq!(decode_list(&encode_list(&list)).unwrap(), list);
    assert!(decode_list("3").is_none());
}
