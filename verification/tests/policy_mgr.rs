//! Installing policies, and the sweep over expired adapters.

use visa_service::actor::{Actor, ROLE, ROLE_ADAPTER, SERVICES, ZPR_ADDR};
use visa_service::attribute::{Attribute, AttributeMapper};
use visa_service::auth_sweep::{
    Observation, Reload, RevokeRequest, Sweep, SweepStats, Verdict,
};
use visa_service::db::actor::{ActorRepo, Counters};
use visa_service::db::addr::ZprAddr;
use visa_service::db::store::{MemoryDb, StoreError};
use visa_service::error::ServiceError;
use visa_service::oidc::jwks::KeySource;
use visa_service::policy::{OidcConfig, Policy, PolicyService, TrustedService};
use visa_service::policy_mgr::{
    build_services, build_state, commit_refreshers, initial_vinst, next_vinst, proxy_for,
    proxy_url, resolve_netaddr, resolve_peers, resolve_topology, restored_vinst, NetAddr,
    NetworkHost, Peer, PolicyError, PolicyIdent, PolicyMgr, PolicySnapshot, RefreshPlan, Resolution,
    ResolverError, SockAddr, StoreStep, SystemResolver, TopologyError,
};
use visa_service::time::{Timestamp, NANOS_PER_SEC};
use visa_service::trusted_services::factory::{jwks_proxy_port_from_policy, StoreInput};
use visa_service::trusted_services::manager::{Asked, TrustedServicesMgr};
use visa_service::trusted_services::RevisionCounter;

fn addr(s: &str) -> ZprAddr {
    ZprAddr::parse(s).unwrap()
}

fn ident(phash: &str, vinst: u64) -> Option<PolicyIdent> {
    Some(PolicyIdent { phash: phash.to_string(), vinst })
}

#[test]
fn test_new_with_initial_policy_vinst_from_persisted_identifier() {
    // First start.
    assert_eq!(initial_vinst(&None, "h1").unwrap(), 1);
    // The same container again.
    assert_eq!(initial_vinst(&ident("h1", 1), "h1").unwrap(), 1);
    // Another one.
    assert_eq!(initial_vinst(&ident("h1", 1), "h2").unwrap(), 2);
    match initial_vinst(&ident("h1", u64::MAX), "h2").unwrap_err() {
        StoreError::InvalidData(m) => assert_eq!(m, "persisted vinst is u64::MAX; cannot advance"),
        other => panic!("unexpected error: {other:?}"),
    }
    assert_eq!(initial_vinst(&ident("h1", u64::MAX), "h1").unwrap(), u64::MAX);
    assert_eq!(next_vinst(2), 3);
}

#[test]
fn test_new_from_state_restores_vinst() {
    assert_eq!(restored_vinst(&Some("h".to_string()), Some(7)).unwrap(), 7);
    assert_eq!(restored_vinst(&None, None).unwrap(), 1);
}

#[test]
fn test_new_from_state_missing_vinst_errors() {
    assert!(restored_vinst(&Some("h".to_string()), None).is_err());
}

fn ip_peer(link: &str, ip: &str, port: u16) -> Peer {
    Peer {
        link_id: link.to_string(),
        remote_substrate: NetAddr { host: NetworkHost::Ip(addr(ip)), port },
    }
}

fn host_peer(link: &str, host: &str, port: u16) -> Peer {
    Peer {
        link_id: link.to_string(),
        remote_substrate: NetAddr { host: NetworkHost::Hostname(host.to_string()), port },
    }
}

fn no_answer() -> Result<SockAddr, ResolverError> {
    Err(ResolverError::NoAddresses("unused".to_string()))
}

fn sock(ip: &str, port: u16) -> SockAddr {
    SockAddr { ip: addr(ip), port }
}

#[test]
fn test_resolve_peers_empty() {
    assert!(resolve_peers(&vec![], &vec![]).unwrap().is_empty());
}

#[test]
fn test_resolve_peers_single_ip() {
    let out = resolve_peers(&vec![ip_peer("link-1", "10.0.0.1", 5000)], &vec![no_answer()]).unwrap();
    assert_eq!(out.len(), 1);
    assert_eq!(out[0].0, "link-1");
    assert_eq!((out[0].1.ip.as_str(), out[0].1.port), ("10.0.0.1", 5000));
}

#[test]
fn test_resolve_peers_multiple_ips() {
    let peers = vec![
        ip_peer("link-1", "10.0.0.1", 5000),
        ip_peer("link-2", "10.0.0.2", 5001),
        ip_peer("link-3", "fd5a::3", 5002),
    ];
    let out = resolve_peers(&peers, &vec![no_answer(), no_answer(), no_answer()]).unwrap();
    let ids: Vec<&str> = out.iter().map(|p| p.0.as_str()).collect();
    assert_eq!(ids, vec!["link-1", "link-2", "link-3"]);
}

#[test]
fn test_resolve_peers_bad_hostname_errors() {
    let peers = vec![
        ip_peer("link-1", "10.0.0.1", 5000),
        host_peer("link-2", "bad.invalid", 1),
        host_peer("link-3", "worse.invalid", 1),
    ];
    let answers = vec![
        no_answer(),
        SystemResolver.resolve("bad.invalid", Ok(vec![])),
        SystemResolver.resolve("worse.invalid", Err("no route".to_string())),
    ];
    match resolve_peers(&peers, &answers).unwrap_err() {
        ResolverError::NoAddresses(h) => assert_eq!(h, "bad.invalid"),
        other => panic!("unexpected error: {other:?}"),
    }
}

#[test]
fn test_resolve_peers_hostname_resolved() {
    let peer = host_peer("link-1", "node.example", 5000);
    match resolve_netaddr(&peer.remote_substrate) {
        Resolution::Lookup { host, port } => {
            assert_eq!((host.as_str(), port), ("node.example", 5000))
        }
        other => panic!("unexpected: {other:?}"),
    }
    let found = vec![sock("192.0.2.7", 5000), sock("192.0.2.8", 5000)];
    let answer = SystemResolver.resolve("node.example", Ok(found));
    let out = resolve_peers(&vec![peer], &vec![answer]).unwrap();
    assert_eq!(out[0].1.ip.as_str(), "192.0.2.7");
    assert!(matches!(
        SystemResolver.resolve("x", Err("down".to_string())),
        Err(ResolverError::Lookup(m)) if m == "down"
    ));
}

#[test]
fn topologies_are_resolved_node_by_node() {
    let nodes = vec![
        (addr("fd5a::1"), vec![ip_peer("a", "10.0.0.1", 1)]),
        (addr("fd5a::2"), vec![host_peer("b", "h", 2)]),
    ];
    let good = vec![vec![no_answer()], vec![Ok(sock("10.0.0.2", 2))]];
    let t = resolve_topology(&nodes, &good).unwrap();
    let snapshot = PolicySnapshot {
        policy: Policy { services: vec![], trusted: vec![] },
        vinst: 4,
        container: vec![1, 2],
        resolved_peers_by_node: t,
        stores: vec![],
    };
    assert_eq!(snapshot.resolved_peers_for_node(&addr("fd5a::2"))[0].0, "b");
    assert!(snapshot.resolved_peers_for_node(&addr("fd5a::3")).is_empty());
    assert_eq!((snapshot.vinst(), snapshot.container()), (4, vec![1, 2]));
    assert!(snapshot.policy().services.is_empty());
    assert_eq!(snapshot.describe_link(Some(3), &addr("::1"), &addr("::2")).unwrap(), 3);
    let TopologyError::LinkNotFound(m) =
        snapshot.describe_link::<u8>(None, &addr("::1"), &addr("::2")).unwrap_err();
    assert_eq!(m, "::1 <-> ::2");
    let bad = vec![vec![no_answer()], vec![no_answer()]];
    assert!(resolve_topology(&nodes, &bad).is_err());
}

fn attr(key: &str, value: &str) -> Attribute {
    Attribute {
        key: key.to_string(),
        values: vec![value.to_string()],
        expires: 2_000_000_000 * NANOS_PER_SEC as Timestamp,
        source: "t".to_string(),
    }
}

fn connect_provider(repo: &mut ActorRepo<MemoryDb>, at: &str, service: &str) {
    let mut actor = Actor::new();
    actor.add_attribute(attr(ROLE, ROLE_ADAPTER));
    actor.add_attribute(attr(ZPR_ADDR, at));
    actor.add_attribute(attr(SERVICES, service));
    let mut counters = Counters::new();
    repo.add_actor(&actor, &vec![], &mut counters, "0").unwrap();
}

#[test]
fn test_resolver_follows_provider_reconnect() {
    let mut repo = ActorRepo::new(MemoryDb::new());
    assert_eq!(proxy_for(&repo, Some("proxy"), Some(3128)), None);
    connect_provider(&mut repo, "10.0.0.1", "proxy");
    assert_eq!(proxy_for(&repo, Some("proxy"), Some(3128)).as_deref(), Some("http://10.0.0.1:3128/"));
    connect_provider(&mut repo, "fd5a::9", "proxy");
    assert_eq!(
        proxy_for(&repo, Some("proxy"), Some(3128)).as_deref(),
        Some("http://[fd5a::9]:3128/")
    );
    assert_eq!(proxy_for(&repo, Some("proxy"), None), None);
    assert_eq!(proxy_for(&repo, None, Some(3128)), None);
    assert_eq!(proxy_url(&addr("10.0.0.1"), 80), "http://10.0.0.1:80");
    assert_eq!(proxy_url(&addr("::1"), 80), "http://[::1]:80");
}

fn oidc_record(id: &str, issuer: &str, client: &str) -> TrustedService {
    TrustedService {
        service_id: id.to_string(),
        expiration_seconds: 300,
        returns_attrs: AttributeMapper { mappings: vec![] },
        identity_attrs: vec![],
        oidc: Some(OidcConfig {
            issuer: issuer.to_string(),
            client_id: client.to_string(),
            jwks_uri: "https://idp/jwks".to_string(),
            seed_jwks: String::new(),
            jwks_proxy_service: None,
            allowed_domains: vec!["*".to_string()],
            max_auth_age_seconds: 0,
            allow_offline_access: false,
        }),
        attr_query: None,
    }
}

fn oidc_policy(client_b: &str) -> Policy {
    let declared = |id: &str| PolicyService {
        id: id.to_string(),
        trusted_api: Some("oidc".to_string()),
        endpoint_ports: vec![],
    };
    Policy {
        services: vec![declared("a"), declared("b")],
        trusted: vec![oidc_record("a", "https://a", "ca"), oidc_record("b", "https://b", client_b)],
    }
}

fn keys() -> StoreInput {
    StoreInput::Keys(Ok(()))
}

#[test]
fn test_policy_update_reuses_unchanged_stores_per_service() {
    let mut counter = RevisionCounter::new();
    let mut ts = TrustedServicesMgr::new();
    let mut mgr = PolicyMgr::new();

    let first = build_state(
        oidc_policy("cb"),
        1,
        vec![1],
        &vec![],
        &vec![],
        &mgr.ts_definitions,
        ts.services(),
    )
    .unwrap();
    assert!(first.steps.iter().all(|s| matches!(s, StoreStep::Build)));
    let built = build_services(&first, vec![keys(), keys()], &mut counter).unwrap();
    let plan = mgr.commit(&mut ts, first, built, true);
    assert_eq!(plan.spawn, vec!["a", "b"]);
    assert!(plan.keep.is_empty() && plan.stop.is_empty());
    assert_eq!(mgr.refreshing, vec!["a", "b"]);
    assert_eq!(mgr.state.vinst, 1);
    let rev_a = ts.service(0).current_revision();
    let rev_b = ts.service(1).current_revision();

    // The configuration of b changes; a lives on with its store and its task.
    let second = build_state(
        oidc_policy("other"),
        next_vinst(mgr.state.vinst),
        vec![2],
        &vec![],
        &vec![],
        &mgr.ts_definitions,
        ts.services(),
    )
    .unwrap();
    assert!(matches!(second.steps[0], StoreStep::Reuse(0)));
    assert!(matches!(second.steps[1], StoreStep::Build));
    // Nothing in force is touched before the candidate is committed.
    assert_eq!(ts.service(1).current_revision(), rev_b);
    let built = build_services(&second, vec![keys()], &mut counter).unwrap();
    let plan = mgr.commit(&mut ts, second, built, true);
    assert_eq!(plan.keep, vec!["a"]);
    assert_eq!(plan.stop, vec!["b"]);
    assert_eq!(plan.spawn, vec!["b"]);
    assert_eq!(ts.service(0).current_revision(), rev_a);
    assert_ne!(ts.service(1).current_revision(), rev_b);
    assert_eq!((mgr.state.vinst, mgr.state.container.clone()), (2, vec![2]));
}

#[test]
fn test_refresher_disabled_when_period_none() {
    let mut counter = RevisionCounter::new();
    let mut ts = TrustedServicesMgr::new();
    let mut mgr = PolicyMgr::new();
    let c = build_state(
        oidc_policy("cb"),
        1,
        vec![],
        &vec![],
        &vec![],
        &mgr.ts_definitions,
        ts.services(),
    )
    .unwrap();
    let built = build_services(&c, vec![keys(), keys()], &mut counter).unwrap();
    let plan = mgr.commit(&mut ts, c, built, false);
    assert!(plan.spawn.is_empty());
    assert!(mgr.refreshing.is_empty());
}

#[test]
fn failing_policies_change_nothing() {
    let mut counter = RevisionCounter::new();
    let ts = TrustedServicesMgr::new();
    let mgr = PolicyMgr::new();
    let nodes = vec![(addr("fd5a::1"), vec![host_peer("l", "bad.invalid", 1)])];
    let answers = vec![vec![Err(ResolverError::NoAddresses("bad.invalid".to_string()))]];
    let err = build_state(
        oidc_policy("cb"),
        1,
        vec![],
        &nodes,
        &answers,
        &mgr.ts_definitions,
        ts.services(),
    )
    .unwrap_err();
    assert!(matches!(err, PolicyError::Resolver(ResolverError::NoAddresses(h)) if h == "bad.invalid"));

    let mut policy = oidc_policy("cb");
    policy.services[0].trusted_api = Some("ldap".to_string());
    let err = build_state(policy, 1, vec![], &vec![], &vec![], &mgr.ts_definitions, ts.services())
        .unwrap_err();
    assert!(matches!(err, PolicyError::Service(e)
        if e.text() == "trusted service 'a': unsupported api 'ldap'"));

    let c = build_state(
        oidc_policy("cb"),
        1,
        vec![],
        &vec![],
        &vec![],
        &mgr.ts_definitions,
        ts.services(),
    )
    .unwrap();
    let err = build_services(
        &c,
        vec![keys(), StoreInput::Keys(Err("no route".to_string()))],
        &mut counter,
    )
    .err()
    .unwrap();
    assert_eq!(err.text(), "TS 'b' failed to build JWKS key source: no route");
    assert_eq!(mgr.state.vinst, 0);
    assert_eq!(ts.len(), 0);
}

#[test]
fn refreshers_are_kept_stopped_or_started() {
    let list = |ids: &[&str]| -> Vec<String> { ids.iter().map(|s| s.to_string()).collect() };
    let plan = commit_refreshers(&list(&["a", "b", "c"]), &list(&["c", "a", "x"]), list(&["n"]), true);
    assert_eq!(plan.keep, vec!["a", "c"]);
    assert_eq!(plan.stop, vec!["b"]);
    assert_eq!(plan.spawn, vec!["n"]);
}

const NODE: &str = "fd5a:5052:3000::1";
const ADAPTER: &str = "fd5a:5052:4000::a";

fn at(n: i64) -> Timestamp {
    n as Timestamp * NANOS_PER_SEC as Timestamp
}

fn seen(who: &str, expiry: Option<i64>, node: Option<&str>) -> (ZprAddr, Observation) {
    (
        addr(who),
        Observation::Loaded {
            expiry: expiry.map(|t| (at(t), "device.zpr.authority".to_string())),
            node: node.map(addr),
        },
    )
}

fn named(request: &RevokeRequest) -> Vec<String> {
    request.addrs.iter().map(|a| a.as_str().to_string()).collect()
}

#[test]
fn test_sweep_revokes_and_drops_expired_actor() {
    let mut sweep = Sweep::collect(&vec![seen(ADAPTER, Some(100), Some(NODE))], at(100));
    let request = sweep.next_batch().unwrap();
    assert_eq!(request.node.as_str(), NODE);
    assert_eq!(named(&request), vec![ADAPTER.to_string()]);
    assert!(sweep.to_settle().is_none(), "nobody is settled before the node acknowledged");
    assert!(sweep.answered(true));
    assert_eq!(sweep.to_settle().unwrap().addr.as_str(), ADAPTER);
    let reload = Reload::Stored(Some(at(100)));
    assert_eq!(sweep.decide(&reload), Verdict::Remove);
    assert!(!sweep.settle(&reload, true, false));
    assert!(sweep.to_settle().is_none());
    assert!(sweep.next_batch().is_none());
    assert_eq!(sweep.stats, SweepStats { checked: 1, revoked: 1, deferred: 0 });
}

#[test]
fn test_sweep_leaves_in_window_actor_untouched() {
    let mut sweep = Sweep::collect(&vec![seen(ADAPTER, Some(101), Some(NODE))], at(100));
    assert!(sweep.next_batch().is_none());
    assert_eq!(sweep.stats, SweepStats { checked: 1, revoked: 0, deferred: 0 });
}

/// One pass over expired adapters, in which the node has no link, or answers whether it
/// took the batch. Whoever the library says is to be dropped leaves the list.
fn pass(
    world: &mut Vec<(ZprAddr, Observation)>,
    link: Option<bool>,
    sent: &mut Vec<Vec<String>>,
) -> SweepStats {
    let mut sweep = Sweep::collect(world, at(100));
    while let Some(request) = sweep.next_batch() {
        if link.is_some() {
            sent.push(named(&request));
        }
        sweep.answered(link == Some(true));
        while let Some(expired) = sweep.to_settle() {
            let who = expired.addr.copy();
            let reload = Reload::Stored(Some(expired.expiry));
            let removed = sweep.decide(&reload) == Verdict::Remove;
            if removed {
                world.retain(|(a, _)| !a.same(&who));
            }
            assert!(!sweep.settle(&reload, removed, false));
        }
    }
    sweep.stats
}

#[test]
fn test_sweep_vss_outage_leaves_actor_for_next_pass() {
    let mut world = vec![seen(ADAPTER, Some(1), Some(NODE))];
    let mut sent = vec![];

    // No link to the node at all.
    let stats = pass(&mut world, None, &mut sent);
    assert_eq!(stats.revoked, 0);
    assert_eq!(stats.deferred, 1, "a missing link must defer, not remove");
    assert_eq!(world.len(), 1);
    assert!(sent.is_empty());

    // The node answers with an error.
    let stats = pass(&mut world, Some(false), &mut sent);
    assert_eq!(stats.revoked, 0);
    assert_eq!(stats.deferred, 1, "a refusal must defer, not remove");
    assert_eq!(sent.len(), 1, "the batch was handed over");
    assert_eq!(world.len(), 1);

    // The node takes the batch.
    sent.clear();
    let stats = pass(&mut world, Some(true), &mut sent);
    assert_eq!(stats.revoked, 1);
    assert_eq!(sent, vec![vec![ADAPTER.to_string()]]);
    assert!(world.is_empty());
}

#[test]
fn test_sweep_skips_actor_without_expiration() {
    let mut sweep = Sweep::collect(&vec![seen(ADAPTER, None, Some(NODE))], at(100));
    assert!(sweep.next_batch().is_none());
    assert_eq!(sweep.stats, SweepStats { checked: 1, revoked: 0, deferred: 0 });
}

#[test]
fn test_sweep_batches_expired_actors_per_node() {
    let other = "fd5a:5052:4000::b";
    let mut world =
        vec![seen(ADAPTER, Some(1), Some(NODE)), seen(other, Some(1), Some(NODE))];
    let mut sent = vec![];
    let stats = pass(&mut world, Some(true), &mut sent);
    assert_eq!(stats.revoked, 2, "both expired actors must be revoked");
    assert_eq!(stats.deferred, 0);
    assert_eq!(sent.len(), 1, "one node sees exactly one batch");
    let mut batch = sent[0].clone();
    batch.sort();
    assert_eq!(batch, vec![ADAPTER.to_string(), other.to_string()]);
    assert!(world.is_empty());
}

#[test]
fn each_node_has_its_own_batch() {
    let found = vec![
        seen("fd5a::1", Some(1), Some(NODE)),
        seen("fd5a::2", Some(2), Some("fd5a:5052:3000::2")),
        (addr("fd5a::3"), Observation::Missing),
        (addr("fd5a::4"), Observation::Failed),
        seen("fd5a::5", Some(3), Some(NODE)),
        seen("fd5a::6", Some(3), None),
    ];
    let mut sweep = Sweep::collect(&found, at(100));
    assert_eq!(sweep.stats, SweepStats { checked: 4, revoked: 0, deferred: 1 });
    let first = sweep.next_batch().unwrap();
    assert_eq!(first.node.as_str(), NODE);
    assert_eq!(named(&first), vec!["fd5a::1".to_string(), "fd5a::5".to_string()]);
    assert_eq!(sweep.current[1].gate, "device.zpr.authority");
    assert!(!sweep.answered(false));
    let second = sweep.next_batch().unwrap();
    assert_eq!(second.addrs.len(), 1);
    assert!(!sweep.answered(false));
    assert!(sweep.next_batch().is_none());
    assert_eq!(sweep.stats.deferred, 4);
}

/// Nodes are asked in the order of their addresses.
#[test]
fn batches_come_in_the_order_of_nodes() {
    let found = vec![
        seen("fd5a::1", Some(1), Some("fd5a::10")),
        seen("fd5a::2", Some(1), Some("fd5a::9")),
        seen("fd5a::3", Some(1), Some("10.0.0.1")),
        seen("fd5a::4", Some(1), Some("FD5A:0::9")),
        seen("fd5a::5", Some(1), Some("9.0.0.1")),
    ];
    let mut sweep = Sweep::collect(&found, at(100));
    let mut nodes = vec![];
    while let Some(batch) = sweep.next_batch() {
        nodes.push((batch.node.as_str().to_string(), batch.addrs.len()));
        sweep.answered(false);
    }
    let expected = [("9.0.0.1", 1), ("10.0.0.1", 1), ("fd5a::9", 2), ("fd5a::10", 1)];
    assert_eq!(nodes.len(), expected.len());
    for (got, want) in nodes.iter().zip(expected) {
        assert_eq!((got.0.as_str(), got.1), want);
    }
}

#[test]
fn test_sweep_skips_actor_renewed_during_revoke() {
    let mut sweep = Sweep::collect(&vec![seen(ADAPTER, Some(50), Some(NODE))], at(100));
    sweep.next_batch().unwrap();
    assert!(sweep.answered(true));
    assert_eq!(sweep.decide(&Reload::Stored(None)), Verdict::Renewed);
    assert_eq!(sweep.decide(&Reload::Missing), Verdict::Gone);
    assert_eq!(sweep.decide(&Reload::Failed), Verdict::Defer);
    let renewed = Reload::Stored(Some(at(500)));
    assert_eq!(sweep.decide(&renewed), Verdict::Renewed);
    assert!(!sweep.settle(&renewed, true, true));
    assert_eq!(sweep.stats, SweepStats { checked: 1, revoked: 0, deferred: 0 });
    assert!(sweep.next_batch().is_none());
}

#[test]
fn test_sweep_records_auth_service_change_for_expired_provider() {
    let found = vec![seen("fd5a::1", Some(1), Some(NODE)), seen("fd5a::2", Some(1), Some(NODE)),
        seen("fd5a::3", Some(1), Some(NODE))];
    let mut sweep = Sweep::collect(&found, at(100));
    sweep.next_batch().unwrap();
    assert!(sweep.answered(true));
    let same = Reload::Stored(Some(at(1)));
    assert!(sweep.settle(&same, true, true), "nodes are told of a provider that goes");
    assert!(!sweep.settle(&same, false, true), "a failed removal changes nothing");
    assert!(!sweep.settle(&Reload::Failed, false, false));
    assert_eq!(sweep.stats, SweepStats { checked: 3, revoked: 1, deferred: 1 });
}

#[test]
fn what_is_installed_is_handed_out_as_one() {
    let mut counter = RevisionCounter::new();
    let mut ts = TrustedServicesMgr::new();
    let mut mgr = PolicyMgr::new();
    assert_eq!(mgr.get_current_snapshot().vinst(), 0);
    assert!(mgr.get_current().services.is_empty());
    assert!(mgr.get_current_container().is_empty());
    assert!(mgr.get_current_snapshot().resolved_peers_by_node.is_empty());
    let nodes = vec![(addr("fd5a::1"), vec![ip_peer("link-1", "10.0.0.1", 5000)])];
    let candidate = build_state(
        oidc_policy("cb"),
        1,
        vec![7, 8],
        &nodes,
        &vec![vec![no_answer()]],
        &mgr.ts_definitions,
        ts.services(),
    )
    .unwrap();
    let built = build_services(&candidate, vec![keys(), keys()], &mut counter).unwrap();
    mgr.commit(&mut ts, candidate, built, false);
    assert_eq!(mgr.get_current_snapshot().vinst(), 1);
    assert_eq!(mgr.get_current().services.len(), 2);
    assert_eq!(mgr.get_current_container(), [7, 8]);
    let peers = mgr.get_current_snapshot().resolved_peers_for_node(&addr("fd5a::1"));
    assert_eq!(peers.len(), 1);
    assert!(mgr.get_current_snapshot().resolved_peers_for_node(&addr("fd5a::2")).is_empty());
    assert_eq!(mgr.describe_link(Some(3), &addr("fd5a::1"), &addr("fd5a::2")).unwrap(), 3);
    let missing = mgr.describe_link(None::<u8>, &addr("fd5a::1"), &addr("fd5a::2"));
    assert!(matches!(missing, Err(TopologyError::LinkNotFound(m)) if m == "fd5a::1 <-> fd5a::2"));
}

fn file_policy(id: &str, lifetime: u32) -> Policy {
    Policy {
        services: vec![PolicyService {
            id: id.to_string(),
            trusted_api: Some("file".to_string()),
            endpoint_ports: vec![],
        }],
        trusted: vec![TrustedService {
            service_id: id.to_string(),
            expiration_seconds: lifetime,
            returns_attrs: AttributeMapper { mappings: vec![] },
            identity_attrs: vec![],
            oidc: None,
            attr_query: None,
        }],
    }
}

fn no_policy() -> Policy {
    Policy { services: vec![], trusted: vec![] }
}

fn google_policy(client: &str) -> Policy {
    Policy {
        services: vec![PolicyService {
            id: "google".to_string(),
            trusted_api: Some("oidc".to_string()),
            endpoint_ports: vec![],
        }],
        trusted: vec![oidc_record("google", "https://accounts.google.com", client)],
    }
}

/// A manager of policies with what it is installed over.
struct Installation {
    counter: RevisionCounter,
    ts: TrustedServicesMgr,
    mgr: PolicyMgr,
}

impl Installation {
    fn start(policy: Policy, container: Vec<u8>, inputs: Vec<StoreInput>) -> Installation {
        let mut counter = RevisionCounter::new();
        let mut ts = TrustedServicesMgr::new();
        let mut mgr = PolicyMgr::new();
        let proposed = mgr.propose(&ts, policy, 1, container, &vec![], &vec![]).unwrap();
        let ready = proposed.build(inputs, &mut counter).unwrap();
        mgr.conclude(&mut ts, ready, Ok(()), true).unwrap();
        Installation { counter, ts, mgr }
    }

    fn update(&mut self, policy: Policy, inputs: Vec<StoreInput>) -> RefreshPlan {
        let proposed =
            self.mgr.propose_update(&self.ts, policy, vec![], &vec![], &vec![]).unwrap();
        let ready = proposed.build(inputs, &mut self.counter).unwrap();
        self.mgr.conclude(&mut self.ts, ready, Ok(()), true).unwrap().1
    }
}

#[test]
fn test_update_swaps_policy_topology_and_container() {
    let mut i = Installation::start(no_policy(), vec![1], vec![]);
    assert_eq!(i.mgr.get_current_snapshot().vinst(), 1);
    let node = addr("fd5a:5052::1");
    assert!(i.mgr.get_current_snapshot().resolved_peers_for_node(&node).is_empty());

    let nodes = vec![
        (addr("fd5a:5052::1"), vec![ip_peer("link-1", "fd5a:5052::2", 5000)]),
        (addr("fd5a:5052::2"), vec![ip_peer("link-1", "fd5a:5052::1", 5000)]),
    ];
    let answers = vec![vec![no_answer()], vec![no_answer()]];
    let proposed =
        i.mgr.propose_update(&i.ts, no_policy(), vec![2, 3], &nodes, &answers).unwrap();
    let ready = proposed.build(vec![], &mut i.counter).unwrap();
    assert_eq!(ready.vinst(), 2);
    let (vinst, _) = i.mgr.conclude(&mut i.ts, ready, Ok(()), true).unwrap();

    assert_eq!(vinst, 2);
    assert_eq!(i.mgr.get_current_snapshot().vinst(), 2);
    assert!(!i.mgr.get_current_snapshot().resolved_peers_for_node(&node).is_empty());
    assert_eq!(i.mgr.get_current_container(), [2, 3]);
}

#[test]
fn test_update_resolver_failure_preserves_state() {
    let i = Installation::start(no_policy(), vec![1], vec![]);
    assert_eq!(i.mgr.get_current_snapshot().vinst(), 1);
    let nodes = vec![(addr("fd5a:5052::1"), vec![host_peer("link-1", "bad.invalid", 1)])];
    let answers = vec![vec![SystemResolver.resolve("bad.invalid", Ok(vec![]))]];
    assert!(i.mgr.propose_update(&i.ts, no_policy(), vec![2], &nodes, &answers).is_err());
    assert_eq!(i.mgr.get_current_snapshot().vinst(), 1);
    assert_eq!(i.mgr.get_current_container(), [1]);
}

#[test]
fn test_update_publishes_stores_and_preserves_state_on_failure() {
    let good = file_policy("attrfile", 3600);
    let mut i = Installation::start(good, vec![], vec![StoreInput::File(Ok(()))]);
    let alice = vec![("device.zpr.adapter.cn".to_string(), "alice".to_string())];
    assert!(matches!(
        i.ts.get_attributes_from_source_for_actor("attrfile", &alice, at(0)),
        Asked::File(0)
    ));

    let bad = file_policy("nosuchfile", 3600);
    let proposed = i.mgr.propose_update(&i.ts, bad, vec![9], &vec![], &vec![]).unwrap();
    let missing = ServiceError::Param("nosuchfile.json: not found".to_string());
    let err = proposed.build(vec![StoreInput::File(Err(missing))], &mut i.counter).err().unwrap();
    assert_eq!(err.text(), "nosuchfile.json: not found");

    assert_eq!(i.mgr.get_current_snapshot().vinst(), 1);
    assert!(matches!(
        i.ts.get_attributes_from_source_for_actor("attrfile", &alice, at(0)),
        Asked::File(0)
    ));
}

#[test]
fn test_policy_update_preserves_revisions_when_ts_config_unchanged() {
    let mut i = Installation::start(
        file_policy("attrfile", 3600),
        vec![],
        vec![StoreInput::File(Ok(()))],
    );
    let who = addr("fd5a:5052::a1");
    let stale = i.ts.stale_sources_for_actor(&who);
    assert_eq!(stale.len(), 1);
    i.ts.record_revision(&who, &stale[0].0, stale[0].1);
    assert!(i.ts.stale_sources_for_actor(&who).is_empty());

    // The same declarations: the store lives on, with its revision.
    i.update(file_policy("attrfile", 3600), vec![]);
    assert!(i.ts.stale_sources_for_actor(&who).is_empty());

    // A changed declaration has a new store, which the actor has not caught up with.
    i.update(file_policy("attrfile", 7200), vec![StoreInput::File(Ok(()))]);
    assert_eq!(i.ts.stale_sources_for_actor(&who).len(), 1);
}

#[test]
fn test_refresher_lifecycle_across_policy_updates() {
    let a = "client-a.apps.googleusercontent.com";
    let b = "client-b.apps.googleusercontent.com";
    let mut i = Installation::start(google_policy(a), vec![], vec![keys()]);
    assert_eq!(i.mgr.refreshing, vec!["google"]);

    // Unchanged: the same task goes on.
    let plan = i.update(google_policy(a), vec![]);
    assert_eq!(plan.keep, vec!["google"]);
    assert!(plan.stop.is_empty() && plan.spawn.is_empty());
    assert_eq!(i.mgr.refreshing, vec!["google"]);

    // Changed: the old task is stopped and a new one runs.
    let plan = i.update(google_policy(b), vec![keys()]);
    assert!(plan.keep.is_empty());
    assert_eq!(plan.stop, vec!["google"]);
    assert_eq!(plan.spawn, vec!["google"]);
    assert_eq!(i.mgr.refreshing, vec!["google"]);
}

#[test]
fn test_failed_update_keeps_live_refresher_after_reuse() {
    let mut i = Installation::start(google_policy("c"), vec![], vec![keys()]);
    let revision = i.ts.service(0).current_revision();
    for _ in 0..3 {
        let mut both = google_policy("c");
        let file = file_policy("nosuchfile", 3600);
        both.services.extend(file.services);
        both.trusted.extend(file.trusted);
        let proposed = i.mgr.propose_update(&i.ts, both, vec![], &vec![], &vec![]).unwrap();
        let missing = ServiceError::Param("not found".to_string());
        assert!(proposed.build(vec![StoreInput::File(Err(missing))], &mut i.counter).is_err());
        assert_eq!(i.mgr.refreshing, vec!["google"]);
        assert_eq!(i.ts.len(), 1);
        assert_eq!(i.ts.service(0).current_revision(), revision);
    }
}

#[test]
fn test_proxy_service_change_rebuilds_oidc_store() {
    let proxied = |port: u16| {
        let mut policy = google_policy("c");
        policy.trusted[0].oidc.as_mut().unwrap().jwks_proxy_service =
            Some("egress-proxy".to_string());
        policy.services.push(PolicyService {
            id: "egress-proxy".to_string(),
            trusted_api: None,
            endpoint_ports: vec![Some(port)],
        });
        policy
    };
    let mut repo = ActorRepo::new(MemoryDb::new());
    connect_provider(&mut repo, "127.0.0.1", "egress-proxy");
    let endpoint = |policy: &Policy| {
        proxy_for(
            &repo,
            Some("egress-proxy"),
            jwks_proxy_port_from_policy(policy, "egress-proxy"),
        )
    };
    let mut i = Installation::start(proxied(4001), vec![], vec![keys()]);
    let before = i.mgr.get_current_snapshot();
    let old_store = before.oidc_service_for_issuer("https://accounts.google.com").unwrap();
    assert_eq!(i.ts.place_of(old_store), Some(0));
    assert_eq!(endpoint(i.mgr.get_current()).as_deref(), Some("http://127.0.0.1:4001/"));

    // Only the port of the proxy changes.
    i.update(proxied(4002), vec![keys()]);
    let after = i.mgr.get_current_snapshot();
    let store = after.oidc_service_for_issuer("https://accounts.google.com").unwrap();
    assert_ne!(old_store.born, store.born, "the store must be rebuilt");
    assert_eq!(i.ts.place_of(store), Some(0));
    assert_eq!(i.ts.place_of(old_store), None);
    assert_eq!(endpoint(i.mgr.get_current()).as_deref(), Some("http://127.0.0.1:4002/"));
}

/// Where the new policy cannot be stored, nothing at all changes.
#[test]
fn a_policy_that_cannot_be_stored_changes_nothing() {
    let mut i = Installation::start(google_policy("c"), vec![1], vec![keys()]);
    let revision = i.ts.service(0).current_revision();
    let proposed =
        i.mgr.propose_update(&i.ts, google_policy("d"), vec![2], &vec![], &vec![]).unwrap();
    let ready = proposed.build(vec![keys()], &mut i.counter).unwrap();
    let down = StoreError::InvalidData("down".to_string());
    assert!(i.mgr.conclude(&mut i.ts, ready, Err(down), true).is_err());
    assert_eq!(i.mgr.get_current_snapshot().vinst(), 1);
    assert_eq!(i.mgr.get_current_container(), [1]);
    assert_eq!(i.mgr.refreshing, vec!["google"]);
    assert_eq!(i.ts.service(0).current_revision(), revision);
}

#[test]
fn test_snapshot_is_consistent_and_stable_across_update() {
    let a = addr("fd5a:5052::1");
    let mut counter = RevisionCounter::new();
    let mut ts = TrustedServicesMgr::new();
    let mut mgr = PolicyMgr::new();
    let nodes = vec![(addr("fd5a:5052::1"), vec![ip_peer("link-ab", "fd5a:5052::2", 5000)])];
    let answers = vec![vec![no_answer()]];
    let proposed = mgr.propose(&ts, no_policy(), 1, vec![1], &nodes, &answers).unwrap();
    let ready = proposed.build(vec![], &mut counter).unwrap();
    mgr.conclude(&mut ts, ready, Ok(()), true).unwrap();

    let snap = mgr.get_current_snapshot();
    assert_eq!(snap.vinst(), 1);
    assert!(!snap.resolved_peers_for_node(&a).is_empty());

    let proposed = mgr.propose_update(&ts, no_policy(), vec![2], &vec![], &vec![]).unwrap();
    let ready = proposed.build(vec![], &mut counter).unwrap();
    let (new_vinst, _) = mgr.conclude(&mut ts, ready, Ok(()), true).unwrap();
    assert_eq!(new_vinst, 2);

    // What was taken before shows what it showed.
    assert_eq!(snap.vinst(), 1);
    assert_eq!(snap.container(), [1]);
    assert!(!snap.resolved_peers_for_node(&a).is_empty());

    let snap2 = mgr.get_current_snapshot();
    assert_eq!(snap2.vinst(), 2);
    assert!(snap2.resolved_peers_for_node(&a).is_empty());
}

/// A view goes with the stores of its own policy, whatever is installed after it.
#[test]
fn views_keep_their_stores() {
    let issuer = "https://accounts.google.com";
    let mut both = google_policy("c");
    let file = file_policy("attrfile", 3600);
    both.services.extend(file.services);
    both.trusted.extend(file.trusted);
    assert!(PolicyMgr::new().get_current_snapshot().trusted_services().is_empty());
    let mut i = Installation::start(both, vec![], vec![keys(), StoreInput::File(Ok(()))]);

    let first = i.mgr.get_current_snapshot();
    let ids: Vec<&str> = first.trusted_services().iter().map(|m| m.definition.id()).collect();
    assert_eq!(ids, ["google", "attrfile"]);
    assert_eq!(first.oidc_service_for_issuer(issuer).unwrap().definition.id(), "google");
    assert!(first.oidc_service_for_issuer("https://other").is_none());
    let places = |ts: &TrustedServicesMgr, view: &PolicySnapshot| -> Vec<Option<usize>> {
        view.trusted_services().iter().map(|m| ts.place_of(m)).collect()
    };
    assert_eq!(places(&i.ts, &first), [Some(0), Some(1)]);

    // A flush changes a store's revision; it is the same store.
    let revision = i.ts.service(0).current_revision();
    i.ts.flush_one("google", &mut i.counter).unwrap();
    assert_ne!(i.ts.service(0).current_revision(), revision);
    assert_eq!(places(&i.ts, &first), [Some(0), Some(1)]);

    // The file is not declared any more, and the provider lives on.
    i.update(google_policy("c"), vec![]);
    let second = i.mgr.get_current_snapshot();
    assert_eq!(places(&i.ts, &first), [Some(0), None]);
    assert_eq!(places(&i.ts, &second), [Some(0)]);

    // The provider is built anew: the older views do not find it.
    i.update(google_policy("d"), vec![keys()]);
    let third = i.mgr.get_current_snapshot();
    assert_eq!(places(&i.ts, &first), [None, None]);
    assert_eq!(places(&i.ts, &second), [None]);
    assert_eq!(places(&i.ts, &third), [Some(0)]);

    // What was taken before shows what it showed.
    assert_eq!(first.trusted_services().len(), 2);
    assert_eq!(
        first.oidc_service_for_issuer(issuer).unwrap().born,
        second.oidc_service_for_issuer(issuer).unwrap().born
    );
}

/// Where an update fails, the view of what is installed has the stores that it had.
#[test]
fn failed_updates_leave_the_view() {
    let mut i = Installation::start(google_policy("c"), vec![1], vec![keys()]);
    let before = i.mgr.get_current_snapshot();
    let proposed =
        i.mgr.propose_update(&i.ts, google_policy("d"), vec![2], &vec![], &vec![]).unwrap();
    let ready = proposed.build(vec![keys()], &mut i.counter).unwrap();
    let down = StoreError::InvalidData("down".to_string());
    assert!(i.mgr.conclude(&mut i.ts, ready, Err(down), true).is_err());
    let after = i.mgr.get_current_snapshot();
    assert_eq!(before.trusted_services()[0].born, after.trusted_services()[0].born);
    assert_eq!(i.ts.place_of(&after.trusted_services()[0]), Some(0));
}

#[test]
fn test_rejected_policy_never_leaves_refresher_running() {
    let mut i = Installation::start(no_policy(), vec![], vec![]);
    for _ in 0..10 {
        let mut bad = google_policy("c");
        let file = file_policy("nosuchfile", 3600);
        bad.services.extend(file.services);
        bad.trusted.extend(file.trusted);
        let proposed = i.mgr.propose_update(&i.ts, bad, vec![], &vec![], &vec![]).unwrap();
        let missing = ServiceError::Param("not found".to_string());
        let inputs = vec![keys(), StoreInput::File(Err(missing))];
        assert!(proposed.build(inputs, &mut i.counter).is_err());
        // No task is started before a policy is taken in.
        assert!(i.mgr.refreshing.is_empty());
        assert_eq!(i.ts.len(), 0);
    }
}

#[test]
fn test_initial_policy_resolver_failure_does_not_write_db() {
    let mgr = PolicyMgr::new();
    let nodes = vec![(addr("fd5a:5052::1"), vec![host_peer("link-1", "bad.invalid", 1)])];
    let answers = vec![vec![SystemResolver.resolve("bad.invalid", Ok(vec![]))]];
    let ts = TrustedServicesMgr::new();
    // Only a policy that was proposed can be built, and only one that is built is stored.
    assert!(mgr.propose(&ts, no_policy(), 1, vec![1], &nodes, &answers).is_err());
    assert_eq!(mgr.get_current_snapshot().vinst(), 0);
    assert!(mgr.get_current_container().is_empty());
}

#[test]
fn test_proxied_provider_not_connected_keeps_seed() {
    let repo = ActorRepo::new(MemoryDb::new());
    let mut cfg = oidc_record("google", "https://accounts.google.com", "c").oidc.unwrap();
    cfg.jwks_uri = "https://idp.invalid/jwks".to_string();
    cfg.jwks_proxy_service = Some("egress-proxy".to_string());
    cfg.seed_jwks = r#"{"keys":[{"kty":"RSA","kid":"k1","n":"AQAB","e":"AQAB"}]}"#.to_string();
    let proxy = proxy_for(&repo, cfg.jwks_proxy_service.as_deref(), Some(3128));
    assert_eq!(proxy, None);
    let source = KeySource::from_policy(&cfg, proxy.is_some()).unwrap();
    let err = source.plan_refresh(proxy).unwrap_err();
    assert!(err.text().contains("proxy not reachable"), "{err:?}");
    assert!(source.knows("k1"));
    assert_eq!(source.current().keys.len(), 1);
}
