//! Installing a policy: the number of the installation, the addresses of peers, the
//! trusted services that live on, and the tasks that refresh signing keys.
use vstd::prelude::*;

use crate::attribute::clone_texts;
use crate::db::actor::{lemma_push_contains, ActorRepo};
use crate::db::addr::ZprAddr;
use crate::db::ip::is_v4;
use crate::db::keys::service_key;
use crate::db::lookup::pointed_at;
use crate::db::store::{DbConnection, StoreError, StoreErrorView};
use crate::error::{ServiceError, ServiceErrorView};
use crate::policy::{
    record_of, Policy, PolicyServiceView, PolicyView, TrustedServiceView,
};
use crate::text::{
    cat, cat3, contains_text, decimal, decimal_text, opt_text, text_eq, texts,
};
use crate::trusted_services::factory::{
    build_refusal, built_from, declared, definition_views, is_provider, mark_views,
    trusted_service_definitions, DefinitionView, MarkView, StoreInput, StoreMark,
    TrustedServiceDefinition,
};
use crate::trusted_services::manager::{
    is_marked, revision_after, source_views, SourceView, TrustedServicesMgr, TrustedStore,
};
use crate::trusted_services::RevisionCounter;

verus! {

/// The policy that is installed, as the administration interface names it.
pub const DEFAULT_POLICY_ID: u64 = 0;

/// What the database says of the policy that was installed last.
#[derive(Debug)]
pub struct PolicyIdent {
    /// The hash of its container.
    pub phash: String,
    /// The number of its installation.
    pub vinst: u64,
}

/// The number of an installation at start: that of the last one where the container is
/// the same, the next one where it is not, and 1 where there was none.
pub open spec fn installation(ident: Option<PolicyIdent>, phash: Seq<char>) -> Result<
    u64,
    StoreErrorView,
> {
    match ident {
        None => Ok(1),
        Some(i) => if i.phash@ == phash {
            Ok(i.vinst)
        } else if i.vinst == u64::MAX {
            Err(
                StoreErrorView::InvalidData("persisted vinst is u64::MAX; cannot advance"@),
            )
        } else {
            Ok((i.vinst + 1) as u64)
        },
    }
}

/// A number, or an error, as mathematical data.
pub open spec fn number_outcome(r: Result<u64, StoreError>) -> Result<u64, StoreErrorView> {
    match r {
        Ok(n) => Ok(n),
        Err(e) => Err(e@),
    }
}

/// The number of the installation of a policy at start.
pub fn initial_vinst(ident: &Option<PolicyIdent>, phash: &str) -> (r: Result<u64, StoreError>)
    ensures
        number_outcome(r) == installation(*ident, phash@),
{
    match ident {
        Some(i) => if text_eq(i.phash.as_str(), phash) {
            Ok(i.vinst)
        } else {
            match i.vinst.checked_add(1) {
                Some(n) => Ok(n),
                None => Err(
                    StoreError::InvalidData(
                        "persisted vinst is u64::MAX; cannot advance".to_owned(),
                    ),
                ),
            }
        },
        None => Ok(1),
    }
}

/// The number that a stored policy was installed under. A policy that is stored without
/// its number is an error; where nothing says what is stored, the number is 1.
pub fn restored_vinst(phash: &Option<String>, vinst: Option<u64>) -> (r: Result<u64, StoreError>)
    ensures
        match (*phash, vinst) {
            (None, _) => r matches Ok(n) && n == 1,
            (Some(_), Some(v)) => r matches Ok(n) && n == v,
            (Some(_), None) => r matches Err(e) && e@ == StoreErrorView::MissingRequired(
                "current policy has no vinst"@,
            ),
        },
{
    match (phash, vinst) {
        (None, _) => Ok(1),
        (Some(_), Some(v)) => Ok(v),
        (Some(_), None) => Err(
            StoreError::MissingRequired("current policy has no vinst".to_owned()),
        ),
    }
}

/// The number of the installation that follows another one.
pub fn next_vinst(current: u64) -> (r: u64)
    requires
        current < u64::MAX,
    ensures
        r == current + 1,
{
    current + 1
}

/// Installation numbers never go back, and stay only where the container is the same.
pub proof fn law_installations_count_up(ident: PolicyIdent, phash: Seq<char>)
    ensures
        installation(Some(ident), phash) matches Ok(n) ==> n >= ident.vinst && (n == ident.vinst
            <==> ident.phash@ == phash),
        installation(Some(ident), ident.phash@) == Ok::<u64, StoreErrorView>(ident.vinst),
{
}

/// Where a peer can be reached.
#[derive(Debug)]
pub enum NetworkHost {
    Ip(ZprAddr),
    Hostname(String),
}

/// A host and a port.
#[derive(Debug)]
pub struct NetAddr {
    pub host: NetworkHost,
    pub port: u16,
}

/// An address and a port.
#[derive(Debug)]
pub struct SockAddr {
    pub ip: ZprAddr,
    pub port: u16,
}

impl View for SockAddr {
    type V = (Seq<char>, u16);

    open spec fn view(&self) -> (Seq<char>, u16) {
        (self.ip@, self.port)
    }
}

impl SockAddr {
    /// A copy.
    pub fn copy(&self) -> (r: SockAddr)
        ensures
            r@ == self@,
    {
        SockAddr { ip: self.ip.copy(), port: self.port }
    }
}

/// A peer that a policy gives to a node.
#[derive(Debug)]
pub struct Peer {
    pub link_id: String,
    pub remote_substrate: NetAddr,
}

/// The id of a link, and the address of the peer at its other end.
pub type ResolvedPeer = (String, SockAddr);

/// Why a host name has no address.
#[derive(Debug)]
pub enum ResolverError {
    /// The resolver knows the name, and no address for it.
    NoAddresses(String),
    /// The resolver failed.
    Lookup(String),
}

/// A resolver error as mathematical data.
pub enum ResolverErrorView {
    NoAddresses(Seq<char>),
    Lookup(Seq<char>),
}

impl View for ResolverError {
    type V = ResolverErrorView;

    open spec fn view(&self) -> ResolverErrorView {
        match *self {
            ResolverError::NoAddresses(s) => ResolverErrorView::NoAddresses(s@),
            ResolverError::Lookup(s) => ResolverErrorView::Lookup(s@),
        }
    }
}

/// The resolver of the operating system.
pub struct SystemResolver;

impl SystemResolver {
    /// The address of a host, of those that a lookup found: the first one.
    pub fn resolve(&self, host: &str, found: Result<Vec<SockAddr>, String>) -> (r: Result<
        SockAddr,
        ResolverError,
    >)
        ensures
            match found {
                Err(m) => r matches Err(e) && e@ == ResolverErrorView::Lookup(m@),
                Ok(list) => if list@.len() == 0 {
                    r matches Err(e) && e@ == ResolverErrorView::NoAddresses(host@)
                } else {
                    r matches Ok(a) && a@ == list@[0]@
                },
            },
    {
        match found {
            Err(m) => Err(ResolverError::Lookup(m)),
            Ok(list) => {
                if list.len() == 0 {
                    Err(ResolverError::NoAddresses(host.to_owned()))
                } else {
                    Ok(list[0].copy())
                }
            },
        }
    }
}

/// What is needed to know the address of a peer.
#[derive(Debug)]
pub enum Resolution {
    /// The address is known.
    Known(SockAddr),
    /// The host is to be looked up.
    Lookup { host: String, port: u16 },
}

/// The address of a peer that is given by address, or the name to look up.
pub fn resolve_netaddr(naddr: &NetAddr) -> (r: Resolution)
    ensures
        match naddr.host {
            NetworkHost::Ip(ip) => r matches Resolution::Known(a) && a@ == (ip@, naddr.port),
            NetworkHost::Hostname(h) => r matches Resolution::Lookup { host, port } && host@ == h@
                && port == naddr.port,
        },
{
    match &naddr.host {
        NetworkHost::Ip(ip) => Resolution::Known(SockAddr { ip: ip.copy(), port: naddr.port }),
        NetworkHost::Hostname(h) => Resolution::Lookup { host: h.clone(), port: naddr.port },
    }
}

/// The outcome of resolving a host, as mathematical data.
pub open spec fn answer_view(r: Result<SockAddr, ResolverError>) -> Result<
    (Seq<char>, u16),
    ResolverErrorView,
> {
    match r {
        Ok(a) => Ok(a@),
        Err(e) => Err(e@),
    }
}

/// The outcome for one peer: its address where the policy gives it, else the answer
/// to the lookup.
pub open spec fn peer_outcome(peer: Peer, answer: Result<SockAddr, ResolverError>) -> Result<
    (Seq<char>, u16),
    ResolverErrorView,
> {
    match peer.remote_substrate.host {
        NetworkHost::Ip(ip) => Ok((ip@, peer.remote_substrate.port)),
        NetworkHost::Hostname(_) => answer_view(answer),
    }
}

/// The resolved peers of a node in the order of the policy, or the first error.
pub open spec fn peers_outcome(
    peers: Seq<Peer>,
    answers: Seq<Result<SockAddr, ResolverError>>,
) -> Result<Seq<(Seq<char>, (Seq<char>, u16))>, ResolverErrorView>
    decreases peers.len(),
{
    if peers.len() == 0 {
        Ok(Seq::empty())
    } else {
        match peers_outcome(peers.drop_last(), answers) {
            Err(e) => Err(e),
            Ok(before) => match peer_outcome(peers.last(), answers[peers.len() - 1]) {
                Err(e) => Err(e),
                Ok(a) => Ok(before.push((peers.last().link_id@, a))),
            },
        }
    }
}

/// Resolved peers as mathematical data.
pub open spec fn peer_views(list: Seq<ResolvedPeer>) -> Seq<(Seq<char>, (Seq<char>, u16))> {
    list.map_values(|p: ResolvedPeer| (p.0@, p.1@))
}

/// A copy of a list of resolved peers.
pub fn copy_peers(list: &Vec<ResolvedPeer>) -> (r: Vec<ResolvedPeer>)
    ensures
        peer_views(r@) == peer_views(list@),
{
    let mut out: Vec<ResolvedPeer> = Vec::new();
    let mut i: usize = 0;
    while i < list.len()
        invariant
            i <= list@.len(),
            out@.len() == i,
            forall|j: int|
                0 <= j < i ==> (#[trigger] out@[j]).0@ == list@[j].0@ && out@[j].1@ == list@[j].1@,
        decreases list@.len() - i,
    {
        out.push((list[i].0.clone(), list[i].1.copy()));
        i = i + 1;
    }
    assert(peer_views(out@) =~= peer_views(list@));
    out
}

proof fn lemma_first_error_stays(
    peers: Seq<Peer>,
    answers: Seq<Result<SockAddr, ResolverError>>,
    i: int,
)
    requires
        0 <= i <= peers.len(),
        peers_outcome(peers.take(i), answers) is Err,
    ensures
        peers_outcome(peers, answers) == peers_outcome(peers.take(i), answers),
    decreases peers.len(),
{
    if i == peers.len() {
        assert(peers.take(i) =~= peers);
    } else {
        let rest = peers.drop_last();
        assert(rest.take(i) =~= peers.take(i));
        lemma_first_error_stays(rest, answers, i);
    }
}

/// The resolved peers of a node, given the answers to the lookups, one for each peer;
/// the answer for a peer that is given by address is not read. The first error in the
/// order of the policy is the error of the whole.
pub fn resolve_peers(peers: &Vec<Peer>, answers: &Vec<Result<SockAddr, ResolverError>>) -> (r:
    Result<Vec<ResolvedPeer>, ResolverError>)
    requires
        answers@.len() == peers@.len(),
    ensures
        match peers_outcome(peers@, answers@) {
            Ok(list) => r matches Ok(out) && peer_views(out@) == list,
            Err(m) => r matches Err(e) && e@ == m,
        },
{
    let mut out: Vec<ResolvedPeer> = Vec::new();
    let mut i: usize = 0;
    assert(peer_views(out@) =~= Seq::empty());
    assert(peers@.take(0) =~= Seq::empty());
    while i < peers.len()
        invariant
            i <= peers@.len(),
            answers@.len() == peers@.len(),
            peers_outcome(peers@.take(i as int), answers@) == Ok::<
                Seq<(Seq<char>, (Seq<char>, u16))>,
                ResolverErrorView,
            >(peer_views(out@)),
        decreases peers@.len() - i,
    {
        let ghost upto = peers@.take(i + 1);
        proof {
            assert(upto.drop_last() =~= peers@.take(i as int));
            assert(upto.last() == peers@[i as int]);
        }
        let addr = match resolve_netaddr(&peers[i].remote_substrate) {
            Resolution::Known(a) => a,
            Resolution::Lookup { .. } => match &answers[i] {
                Ok(a) => a.copy(),
                Err(e) => {
                    proof {
                        lemma_first_error_stays(peers@, answers@, i + 1);
                    }
                    return Err(
                        match e {
                            ResolverError::NoAddresses(s) => ResolverError::NoAddresses(s.clone()),
                            ResolverError::Lookup(s) => ResolverError::Lookup(s.clone()),
                        },
                    );
                },
            },
        };
        let ghost before = out@;
        let ghost entry = (peers@[i as int].link_id@, addr@);
        out.push((peers[i].link_id.clone(), addr));
        assert(peer_views(out@) =~= peer_views(before).push(entry));
        i = i + 1;
    }
    assert(peers@.take(i as int) =~= peers@);
    Ok(out)
}

/// The peers of every node that a policy gives peers.
pub type Topology = Vec<(ZprAddr, Vec<ResolvedPeer>)>;

/// The topology as mathematical data.
pub open spec fn topology_view(t: Seq<(ZprAddr, Vec<ResolvedPeer>)>) -> Seq<
    (Seq<char>, Seq<(Seq<char>, (Seq<char>, u16))>),
> {
    t.map_values(|e: (ZprAddr, Vec<ResolvedPeer>)| (e.0@, peer_views(e.1@)))
}

/// The resolved topology of nodes in order, or the first error.
pub open spec fn topology_outcome(
    nodes: Seq<(ZprAddr, Vec<Peer>)>,
    answers: Seq<Vec<Result<SockAddr, ResolverError>>>,
) -> Result<Seq<(Seq<char>, Seq<(Seq<char>, (Seq<char>, u16))>)>, ResolverErrorView>
    decreases nodes.len(),
{
    if nodes.len() == 0 {
        Ok(Seq::empty())
    } else {
        match topology_outcome(nodes.drop_last(), answers) {
            Err(e) => Err(e),
            Ok(before) => match peers_outcome(nodes.last().1@, answers[nodes.len() - 1]@) {
                Err(e) => Err(e),
                Ok(list) => Ok(before.push((nodes.last().0@, list))),
            },
        }
    }
}

proof fn lemma_topology_error_stays(
    nodes: Seq<(ZprAddr, Vec<Peer>)>,
    answers: Seq<Vec<Result<SockAddr, ResolverError>>>,
    i: int,
)
    requires
        0 <= i <= nodes.len(),
        topology_outcome(nodes.take(i), answers) is Err,
    ensures
        topology_outcome(nodes, answers) == topology_outcome(nodes.take(i), answers),
    decreases nodes.len(),
{
    if i == nodes.len() {
        assert(nodes.take(i) =~= nodes);
    } else {
        let rest = nodes.drop_last();
        assert(rest.take(i) =~= nodes.take(i));
        lemma_topology_error_stays(rest, answers, i);
    }
}

/// The topology of a policy, given the answers to the lookups of every node's peers.
pub fn resolve_topology(
    nodes: &Vec<(ZprAddr, Vec<Peer>)>,
    answers: &Vec<Vec<Result<SockAddr, ResolverError>>>,
) -> (r: Result<Topology, ResolverError>)
    requires
        answers@.len() == nodes@.len(),
        forall|i: int|
            0 <= i < nodes@.len() ==> (#[trigger] answers@[i])@.len() == nodes@[i].1@.len(),
    ensures
        match topology_outcome(nodes@, answers@) {
            Ok(t) => r matches Ok(out) && topology_view(out@) == t,
            Err(m) => r matches Err(e) && e@ == m,
        },
{
    let mut out: Topology = Vec::new();
    let mut i: usize = 0;
    assert(topology_view(out@) =~= Seq::empty());
    assert(nodes@.take(0) =~= Seq::empty());
    while i < nodes.len()
        invariant
            i <= nodes@.len(),
            answers@.len() == nodes@.len(),
            forall|j: int|
                0 <= j < nodes@.len() ==> (#[trigger] answers@[j])@.len() == nodes@[j].1@.len(),
            topology_outcome(nodes@.take(i as int), answers@) == Ok::<
                Seq<(Seq<char>, Seq<(Seq<char>, (Seq<char>, u16))>)>,
                ResolverErrorView,
            >(topology_view(out@)),
        decreases nodes@.len() - i,
    {
        let ghost upto = nodes@.take(i + 1);
        proof {
            assert(upto.drop_last() =~= nodes@.take(i as int));
            assert(upto.last() == nodes@[i as int]);
        }
        match resolve_peers(&nodes[i].1, &answers[i]) {
            Ok(list) => {
                let ghost before = out@;
                let ghost entry = (nodes@[i as int].0@, peer_views(list@));
                out.push((nodes[i].0.copy(), list));
                assert(topology_view(out@) =~= topology_view(before).push(entry));
            },
            Err(e) => {
                proof {
                    lemma_topology_error_stays(nodes@, answers@, i + 1);
                }
                return Err(e);
            },
        }
        i = i + 1;
    }
    assert(nodes@.take(i as int) =~= nodes@);
    Ok(out)
}

/// Peers keep the order of the policy, one resolved peer for each of them.
pub proof fn law_resolved_peers_keep_their_order(
    peers: Seq<Peer>,
    answers: Seq<Result<SockAddr, ResolverError>>,
)
    ensures
        peers_outcome(peers, answers) matches Ok(list) ==> {
            &&& list.len() == peers.len()
            &&& forall|i: int|
                0 <= i < peers.len() ==> (#[trigger] list[i]).0 == peers[i].link_id@
                    && peer_outcome(peers[i], answers[i]) == Ok::<
                    (Seq<char>, u16),
                    ResolverErrorView,
                >(list[i].1)
        },
    decreases peers.len(),
{
    if peers.len() > 0 {
        let rest = peers.drop_last();
        law_resolved_peers_keep_their_order(rest, answers);
        if peers_outcome(peers, answers) is Ok {
            let list = peers_outcome(peers, answers)->Ok_0;
            let before = peers_outcome(rest, answers)->Ok_0;
            assert forall|i: int| 0 <= i < peers.len() implies (#[trigger] list[i]).0
                == peers[i].link_id@ && peer_outcome(peers[i], answers[i]) == Ok::<
                (Seq<char>, u16),
                ResolverErrorView,
            >(list[i].1) by {
                if i < rest.len() {
                    assert(list[i] == before[i]);
                    assert(rest[i] == peers[i]);
                }
            }
        }
    }
}

/// A policy is resolved exactly where every host name in it has an answer.
pub proof fn law_one_bad_host_fails_the_node(
    peers: Seq<Peer>,
    answers: Seq<Result<SockAddr, ResolverError>>,
)
    ensures
        peers_outcome(peers, answers) is Ok <==> forall|i: int|
            0 <= i < peers.len() ==> peer_outcome(#[trigger] peers[i], answers[i]) is Ok,
    decreases peers.len(),
{
    if peers.len() > 0 {
        let rest = peers.drop_last();
        law_one_bad_host_fails_the_node(rest, answers);
        if peers_outcome(peers, answers) is Ok {
            assert forall|i: int| 0 <= i < peers.len() implies peer_outcome(
                #[trigger] peers[i],
                answers[i],
            ) is Ok by {
                if i < rest.len() {
                    assert(rest[i] == peers[i]);
                }
            }
        } else if forall|i: int|
            0 <= i < peers.len() ==> peer_outcome(#[trigger] peers[i], answers[i]) is Ok {
            assert forall|i: int| 0 <= i < rest.len() implies peer_outcome(
                #[trigger] rest[i],
                answers[i],
            ) is Ok by {
                assert(rest[i] == peers[i]);
            }
            assert(peer_outcome(peers[peers.len() - 1], answers[peers.len() - 1]) is Ok);
        }
    }
}

/// The URL of a proxy. An address with colons stands in brackets.
pub open spec fn proxy_url_text(addr: Seq<char>, port: u16) -> Seq<char> {
    if is_v4(addr) {
        "http://"@ + addr + ":"@ + decimal_text(port as nat)
    } else {
        "http://["@ + addr + "]:"@ + decimal_text(port as nat)
    }
}

/// The URL of a proxy.
pub fn proxy_url(addr: &ZprAddr, port: u16) -> (r: String)
    ensures
        r@ == proxy_url_text(addr@, port),
{
    let number = decimal(port as u64);
    let head = if addr.is_ipv6() {
        cat3("http://[", addr.as_str(), "]:")
    } else {
        cat3("http://", addr.as_str(), ":")
    };
    cat(head.as_str(), number.as_str())
}

/// What `reqwest::Url::parse` makes of a text: the URL in its normal form, or nothing
/// where the text is no URL.
pub uninterp spec fn url_parsed(text: Seq<char>) -> Option<Seq<char>>;

/// Reads a URL with `reqwest::Url::parse`. The outcome depends on the text alone: the
/// printed form of the URL, or `None` where it is refused.
#[verifier::external_body]
fn parse_url(text: &str) -> (r: Option<String>)
    ensures
        match r {
            Some(url) => url_parsed(text@) == Some(url@),
            None => url_parsed(text@) is None,
        },
{
    reqwest::Url::parse(text).ok().map(|url| url.to_string())
}

/// The URL of the proxy that signing keys are fetched through, given its port and where
/// its service is now.
pub open spec fn proxy_at(port: Option<u16>, addr: Option<Seq<char>>) -> Option<Seq<char>> {
    match (port, addr) {
        (Some(p), Some(a)) => url_parsed(proxy_url_text(a, p)),
        _ => None,
    }
}

/// The proxy that signing keys are fetched through: of the service that the policy
/// names, at the address where the service is now and at the port that the policy
/// declares. There is none where the policy names none, declares no port, or where the
/// service is nowhere or cannot be looked up.
pub fn proxy_for<D: DbConnection>(
    repo: &ActorRepo<D>,
    proxy_service: Option<&str>,
    port: Option<u16>,
) -> (r: Option<String>)
    ensures
        proxy_service is None || port is None ==> r is None,
        r is Some || repo.reliable() ==> (proxy_service matches Some(service) ==> {
            let found = pointed_at(
                repo.state(),
                service_key(service@),
                "invalid zpr_addr in service entry "@,
            );
            opt_text(r) == (match found {
                Ok(addr) => proxy_at(port, addr),
                Err(_) => None,
            })
        }),
{
    let service = match proxy_service {
        Some(service) => service,
        None => {
            return None;
        },
    };
    let port: u16 = match port {
        Some(port) => port,
        None => {
            return None;
        },
    };
    match repo.get_zpr_addr_for_service(service) {
        Ok(Some(addr)) => parse_url(proxy_url(&addr, port).as_str()),
        _ => None,
    }
}

/// How a trusted service of a new policy comes by its store.
#[derive(Debug)]
pub enum StoreStep {
    /// It keeps the store at this place among those in force.
    Reuse(usize),
    /// Its store is built anew.
    Build,
}

/// The first declaration of an id among those in force.
pub open spec fn definition_named(defs: Seq<DefinitionView>, id: Seq<char>) -> Option<
    DefinitionView,
>
    decreases defs.len(),
{
    if defs.len() == 0 {
        None
    } else if defs[0].id == id {
        Some(defs[0])
    } else {
        definition_named(defs.drop_first(), id)
    }
}

/// The place of the first store of an id among those in force.
pub open spec fn store_named(stores: Seq<SourceView>, id: Seq<char>) -> Option<int>
    decreases stores.len(),
{
    if stores.len() == 0 {
        None
    } else if stores[0].id == id {
        Some(0)
    } else {
        match store_named(stores.drop_first(), id) {
            Some(i) => Some(i + 1),
            None => None,
        }
    }
}

/// The store that a declaration keeps: that of its id, where the declaration of that id
/// in force is the very same.
pub open spec fn kept_store(
    d: DefinitionView,
    in_force: Seq<DefinitionView>,
    stores: Seq<SourceView>,
) -> Option<int> {
    if definition_named(in_force, d.id) == Some(d) {
        store_named(stores, d.id)
    } else {
        None
    }
}

/// The step says which store is kept.
pub open spec fn step_says(step: StoreStep, kept: Option<int>) -> bool {
    match step {
        StoreStep::Reuse(i) => kept == Some(i as int),
        StoreStep::Build => kept is None,
    }
}

fn find_definition<'a>(defs: &'a Vec<TrustedServiceDefinition>, id: &str) -> (r: Option<
    &'a TrustedServiceDefinition,
>)
    ensures
        match r {
            Some(d) => definition_named(definition_views(defs@), id@) == Some(d@),
            None => definition_named(definition_views(defs@), id@) is None,
        },
{
    let ghost all = definition_views(defs@);
    let mut i: usize = 0;
    assert(all.skip(0) =~= all);
    while i < defs.len()
        invariant
            i <= defs@.len(),
            all == definition_views(defs@),
            definition_named(all, id@) == definition_named(all.skip(i as int), id@),
        decreases defs@.len() - i,
    {
        assert(all.skip(i as int)[0] == defs@[i as int]@);
        if text_eq(defs[i].id(), id) {
            return Some(&defs[i]);
        }
        assert(all.skip(i as int).drop_first() =~= all.skip(i + 1));
        i = i + 1;
    }
    assert(all.skip(i as int).len() == 0);
    None
}

fn find_store(stores: &Vec<TrustedStore>, id: &str) -> (r: Option<usize>)
    ensures
        match r {
            Some(i) => store_named(source_views(stores@), id@) == Some(i as int) && i
                < stores@.len(),
            None => store_named(source_views(stores@), id@) is None,
        },
{
    let ghost all = source_views(stores@);
    let mut i: usize = 0;
    assert(all.skip(0) =~= all);
    while i < stores.len()
        invariant
            i <= stores@.len(),
            all == source_views(stores@),
            match store_named(all.skip(i as int), id@) {
                Some(k) => store_named(all, id@) == Some(k + i),
                None => store_named(all, id@) is None,
            },
        decreases stores@.len() - i,
    {
        assert(all.skip(i as int)[0] == stores@[i as int].source());
        if text_eq(stores[i].get_source_id(), id) {
            return Some(i);
        }
        assert(all.skip(i as int).drop_first() =~= all.skip(i + 1));
        i = i + 1;
    }
    assert(all.skip(i as int).len() == 0);
    None
}

/// How each trusted service of a new policy comes by its store, given the declarations
/// and the stores in force. Nothing in force is touched.
pub fn plan_stores(
    definitions: &Vec<TrustedServiceDefinition>,
    in_force: &Vec<TrustedServiceDefinition>,
    stores: &Vec<TrustedStore>,
) -> (r: Vec<StoreStep>)
    ensures
        r@.len() == definitions@.len(),
        forall|i: int|
            0 <= i < r@.len() ==> step_says(
                #[trigger] r@[i],
                kept_store(
                    definitions@[i]@,
                    definition_views(in_force@),
                    source_views(stores@),
                ),
            ),
        forall|i: int|
            0 <= i < r@.len() ==> ((#[trigger] r@[i]) matches StoreStep::Reuse(k) ==> k
                < stores@.len()),
{
    let mut out: Vec<StoreStep> = Vec::new();
    let mut i: usize = 0;
    while i < definitions.len()
        invariant
            i <= definitions@.len(),
            out@.len() == i,
            forall|j: int|
                0 <= j < out@.len() ==> step_says(
                    #[trigger] out@[j],
                    kept_store(
                        definitions@[j]@,
                        definition_views(in_force@),
                        source_views(stores@),
                    ),
                ),
            forall|j: int|
                0 <= j < out@.len() ==> ((#[trigger] out@[j]) matches StoreStep::Reuse(k) ==> k
                    < stores@.len()),
        decreases definitions@.len() - i,
    {
        let definition = &definitions[i];
        let unchanged = match find_definition(in_force, definition.id()) {
            Some(d) => d.same(definition),
            None => false,
        };
        let step = if unchanged {
            match find_store(stores, definition.id()) {
                Some(k) => StoreStep::Reuse(k),
                None => StoreStep::Build,
            }
        } else {
            StoreStep::Build
        };
        out.push(step);
        i = i + 1;
    }
    out
}

proof fn lemma_store_named(stores: Seq<SourceView>, id: Seq<char>)
    ensures
        store_named(stores, id) matches Some(i) ==> 0 <= i < stores.len() && stores[i].id == id,
        store_named(stores, id) is None ==> forall|i: int|
            0 <= i < stores.len() ==> (#[trigger] stores[i]).id != id,
    decreases stores.len(),
{
    if stores.len() > 0 {
        let rest = stores.drop_first();
        lemma_store_named(rest, id);
        if stores[0].id != id {
            if store_named(rest, id) is Some {
                assert(rest[store_named(rest, id)->0] == stores[store_named(rest, id)->0 + 1]);
            } else {
                assert forall|i: int| 0 <= i < stores.len() implies (#[trigger] stores[i]).id
                    != id by {
                    if i > 0 {
                        assert(rest[i - 1] == stores[i]);
                    }
                }
            }
        }
    }
}

/// A trusted service whose declaration did not change keeps its store, with its
/// revision and all that it has cached.
pub proof fn law_unchanged_service_keeps_its_store(
    d: DefinitionView,
    in_force: Seq<DefinitionView>,
    stores: Seq<SourceView>,
)
    requires
        definition_named(in_force, d.id) == Some(d),
        exists|i: int| 0 <= i < stores.len() && (#[trigger] stores[i]).id == d.id,
    ensures
        kept_store(d, in_force, stores) matches Some(k) && 0 <= k < stores.len() && stores[k].id
            == d.id,
{
    lemma_store_named(stores, d.id);
}

/// A trusted service whose declaration changed in any way does not keep its store.
pub proof fn law_changed_service_is_rebuilt(
    d: DefinitionView,
    in_force: Seq<DefinitionView>,
    stores: Seq<SourceView>,
)
    requires
        definition_named(in_force, d.id) != Some(d),
    ensures
        kept_store(d, in_force, stores) is None,
{
}

/// Services of different ids never share a store.
pub proof fn law_stores_are_not_shared(
    a: DefinitionView,
    b: DefinitionView,
    in_force: Seq<DefinitionView>,
    stores: Seq<SourceView>,
)
    requires
        a.id != b.id,
    ensures
        !(kept_store(a, in_force, stores) is Some && kept_store(a, in_force, stores)
            == kept_store(b, in_force, stores)),
{
    lemma_store_named(stores, a.id);
    lemma_store_named(stores, b.id);
}

/// The stores of a new policy, in the order of its declarations: the kept ones out of
/// those in force, and the others out of those that were built, in order.
pub open spec fn assembled(
    steps: Seq<StoreStep>,
    stores: Seq<TrustedStore>,
    built: Seq<TrustedStore>,
    out: Seq<TrustedStore>,
) -> bool {
    &&& out.len() == steps.len()
    &&& forall|i: int|
        0 <= i < steps.len() ==> (match #[trigger] steps[i] {
            StoreStep::Reuse(k) => out[i] == stores[k as int],
            StoreStep::Build => out[i] == built[builds(steps.take(i)) as int],
        })
}

/// How many stores are built.
pub open spec fn builds(steps: Seq<StoreStep>) -> nat
    decreases steps.len(),
{
    if steps.len() == 0 {
        0
    } else {
        builds(steps.drop_last()) + if steps.last() is Build {
            1nat
        } else {
            0nat
        }
    }
}

/// No store is kept twice.
pub open spec fn keeps_once(steps: Seq<StoreStep>) -> bool {
    forall|i: int, j: int|
        0 <= i < j < steps.len() ==> !((#[trigger] steps[i]) is Reuse && steps[i]
            == #[trigger] steps[j])
}

fn take_at(list: &mut Vec<Option<TrustedStore>>, i: usize) -> (r: Option<TrustedStore>)
    requires
        i < old(list)@.len(),
    ensures
        r == old(list)@[i as int],
        final(list)@ == old(list)@.update(i as int, None),
{
    let mut taken: Option<TrustedStore> = None;
    std::mem::swap(&mut list[i], &mut taken);
    taken
}

fn as_options(stores: Vec<TrustedStore>) -> (r: Vec<Option<TrustedStore>>)
    ensures
        r@.len() == stores@.len(),
        forall|i: int| 0 <= i < r@.len() ==> (#[trigger] r@[i]) == Some(stores@[i]),
{
    let ghost all = stores@;
    let mut from = stores;
    let mut back: Vec<Option<TrustedStore>> = Vec::new();
    while from.len() > 0
        invariant
            from@.len() + back@.len() == all.len(),
            from@ == all.take(from@.len() as int),
            forall|j: int|
                0 <= j < back@.len() ==> (#[trigger] back@[j]) == Some(all[all.len() - 1 - j]),
        decreases from@.len(),
    {
        let ghost n = from@.len();
        if let Some(s) = from.pop() {
            back.push(Some(s));
        }
        assert(from@ =~= all.take(n - 1));
    }
    let mut out: Vec<Option<TrustedStore>> = Vec::new();
    while back.len() > 0
        invariant
            out@.len() + back@.len() == all.len(),
            forall|j: int|
                0 <= j < back@.len() ==> (#[trigger] back@[j]) == Some(all[all.len() - 1 - j]),
            forall|j: int| 0 <= j < out@.len() ==> (#[trigger] out@[j]) == Some(all[j]),
        decreases back@.len(),
    {
        if let Some(s) = back.pop() {
            out.push(s);
        }
    }
    out
}

/// Puts together the stores of a new policy.
pub fn assemble_stores(
    steps: &Vec<StoreStep>,
    stores: Vec<TrustedStore>,
    built: Vec<TrustedStore>,
) -> (r: Vec<TrustedStore>)
    requires
        keeps_once(steps@),
        builds(steps@) == built@.len(),
        forall|i: int|
            0 <= i < steps@.len() ==> ((#[trigger] steps@[i]) matches StoreStep::Reuse(k) ==> k
                < stores@.len()),
    ensures
        assembled(steps@, stores@, built@, r@),
{
    let ghost olds = stores@;
    let ghost news = built@;
    let mut kept = as_options(stores);
    let mut fresh = as_options(built);
    let count: usize = fresh.len();
    let mut out: Vec<TrustedStore> = Vec::new();
    let mut next: usize = 0;
    let mut i: usize = 0;
    while i < steps.len()
        invariant
            i <= steps@.len(),
            keeps_once(steps@),
            builds(steps@) == news.len(),
            next == builds(steps@.take(i as int)),
            next <= news.len(),
            count == news.len(),
            kept@.len() == olds.len(),
            fresh@.len() == news.len(),
            forall|j: int|
                0 <= j < steps@.len() ==> ((#[trigger] steps@[j]) matches StoreStep::Reuse(k) ==> k
                    < olds.len()),
            forall|j: int|
                i <= j < steps@.len() ==> ((#[trigger] steps@[j]) matches StoreStep::Reuse(k)
                    ==> kept@[k as int] == Some(olds[k as int])),
            forall|j: int| next <= j < news.len() ==> (#[trigger] fresh@[j]) == Some(news[j]),
            assembled(steps@.take(i as int), olds, news, out@),
        decreases steps@.len() - i,
    {
        let ghost upto = steps@.take(i + 1);
        let ghost before = out@;
        proof {
            assert(upto.drop_last() =~= steps@.take(i as int));
            lemma_builds_grow(steps@, i + 1);
        }
        match &steps[i] {
            StoreStep::Reuse(k) => {
                let k: usize = *k;
                let ghost old_kept = kept@;
                let taken = take_at(&mut kept, k);
                assert forall|j: int| i + 1 <= j < steps@.len() implies ((
                #[trigger] steps@[j]) matches StoreStep::Reuse(m) ==> kept@[m as int] == Some(
                    olds[m as int],
                )) by {
                    assert(!(steps@[i as int] is Reuse && steps@[i as int] == steps@[j]));
                }
                match taken {
                    Some(s) => out.push(s),
                    None => {},
                }
            },
            StoreStep::Build => {
                let taken = take_at(&mut fresh, next);
                match taken {
                    Some(s) => out.push(s),
                    None => {},
                }
                next = next + 1;
            },
        }
        proof {
            assert(out@.drop_last() =~= before);
            assert forall|j: int| 0 <= j < upto.len() implies (match #[trigger] upto[j] {
                StoreStep::Reuse(k) => out@[j] == olds[k as int],
                StoreStep::Build => out@[j] == news[builds(upto.take(j)) as int],
            }) by {
                assert(upto.take(j) =~= steps@.take(i as int).take(j));
                if j < i {
                    assert(upto[j] == steps@.take(i as int)[j]);
                    assert(out@[j] == before[j]);
                } else {
                    assert(upto.take(j) =~= steps@.take(i as int));
                }
            }
        }
        i = i + 1;
    }
    assert(steps@.take(i as int) =~= steps@);
    out
}

proof fn lemma_builds_grow(steps: Seq<StoreStep>, i: int)
    requires
        0 <= i <= steps.len(),
    ensures
        builds(steps.take(i)) <= builds(steps),
    decreases steps.len(),
{
    if i < steps.len() {
        let rest = steps.drop_last();
        assert(rest.take(i) =~= steps.take(i));
        lemma_builds_grow(rest, i);
    } else {
        assert(steps.take(i) =~= steps);
    }
}

/// What becomes of the tasks that refresh signing keys when a policy is committed.
#[derive(Debug)]
pub struct RefreshPlan {
    /// Running tasks that go on, under the new policy.
    pub keep: Vec<String>,
    /// Services whose task is started.
    pub spawn: Vec<String>,
    /// Running tasks that are stopped.
    pub stop: Vec<String>,
}

/// The texts of one list that are also on the other, in order.
pub open spec fn both(list: Seq<Seq<char>>, other: Seq<Seq<char>>) -> Seq<Seq<char>> {
    list.filter(|s: Seq<char>| other.contains(s))
}

/// The texts of one list that are not on the other, in order.
pub open spec fn without(list: Seq<Seq<char>>, other: Seq<Seq<char>>) -> Seq<Seq<char>> {
    list.filter(|s: Seq<char>| !other.contains(s))
}

fn pick(list: &Vec<String>, other: &Vec<String>, wanted: bool) -> (r: Vec<String>)
    ensures
        wanted ==> texts(r@) == both(texts(list@), texts(other@)),
        !wanted ==> texts(r@) == without(texts(list@), texts(other@)),
{
    let ghost all = texts(list@);
    let ghost o = texts(other@);
    let mut out: Vec<String> = Vec::new();
    let mut i: usize = 0;
    proof {
        reveal(Seq::filter);
        assert(texts(out@) =~= Seq::empty());
        assert(all.take(0) =~= Seq::empty());
        assert(both(all.take(0), o) =~= Seq::empty());
        assert(without(all.take(0), o) =~= Seq::empty());
    }
    while i < list.len()
        invariant
            i <= list@.len(),
            all == texts(list@),
            o == texts(other@),
            wanted ==> texts(out@) == both(all.take(i as int), o),
            !wanted ==> texts(out@) == without(all.take(i as int), o),
        decreases list@.len() - i,
    {
        proof {
            reveal(Seq::filter);
            assert(all.take(i + 1).drop_last() =~= all.take(i as int));
            assert(all.take(i + 1).last() == list@[i as int]@);
        }
        if contains_text(other, list[i].as_str()) == wanted {
            let ghost before = out@;
            out.push(list[i].clone());
            assert(texts(out@) =~= texts(before).push(list@[i as int]@));
        }
        i = i + 1;
    }
    assert(all.take(i as int) =~= all);
    out
}

/// What becomes of the tasks that refresh signing keys when a policy is committed:
/// those of kept stores go on, all others are stopped, and one is started for every
/// store that was built, unless refreshing is switched off.
pub fn commit_refreshers(
    running: &Vec<String>,
    carried_over: &Vec<String>,
    to_spawn: Vec<String>,
    refresh: bool,
) -> (r: RefreshPlan)
    ensures
        texts(r.keep@) == both(texts(running@), texts(carried_over@)),
        texts(r.stop@) == without(texts(running@), texts(carried_over@)),
        texts(r.spawn@) == (if refresh {
            texts(to_spawn@)
        } else {
            Seq::empty()
        }),
{
    let keep = pick(running, carried_over, true);
    let stop = pick(running, carried_over, false);
    let spawn = if refresh {
        to_spawn
    } else {
        let none: Vec<String> = Vec::new();
        assert(texts(none@) =~= Seq::empty());
        none
    };
    RefreshPlan { keep, spawn, stop }
}

/// No task is left without an owner: every running task either goes on for a kept store
/// or is stopped, and none is both.
pub proof fn law_no_refresher_is_orphaned(
    running: Seq<Seq<char>>,
    carried_over: Seq<Seq<char>>,
    id: Seq<char>,
)
    ensures
        running.contains(id) <==> both(running, carried_over).contains(id) || without(
            running,
            carried_over,
        ).contains(id),
        !(both(running, carried_over).contains(id) && without(running, carried_over).contains(
            id,
        )),
        both(running, carried_over).contains(id) ==> carried_over.contains(id),
    decreases running.len(),
{
    reveal(Seq::filter);
    if running.len() > 0 {
        let rest = running.drop_last();
        law_no_refresher_is_orphaned(rest, carried_over, id);
        let last = running.last();
        let b = both(rest, carried_over);
        let w = without(rest, carried_over);
        assert(running =~= rest.push(last));
        lemma_push_contains(rest, last, id);
        lemma_push_contains(b, last, id);
        lemma_push_contains(w, last, id);
    } else {
        assert(both(running, carried_over) =~= Seq::empty());
        assert(without(running, carried_over) =~= Seq::empty());
    }
}

/// Why the topology has no answer.
#[derive(Debug)]
pub enum TopologyError {
    /// No link connects the two nodes.
    LinkNotFound(String),
}

/// One coherent view of what is installed: the policy, the number of its installation,
/// the container it came in, its resolved topology, and which stores serve it. Whoever holds
/// it is bound to one policy and to its stores, whatever is installed meanwhile.
#[derive(Debug)]
pub struct PolicySnapshot {
    pub policy: Policy,
    pub vinst: u64,
    pub container: Vec<u8>,
    pub resolved_peers_by_node: Topology,
    /// The stores of its trusted services, in the order of their declarations. A policy that
    /// is not installed yet has none.
    pub stores: Vec<StoreMark>,
}

/// What is installed as mathematical data.
pub struct SnapshotView {
    pub policy: PolicyView,
    pub vinst: u64,
    pub container: Seq<u8>,
    pub peers: Seq<(Seq<char>, Seq<(Seq<char>, (Seq<char>, u16))>)>,
    pub stores: Seq<MarkView>,
}

impl View for PolicySnapshot {
    type V = SnapshotView;

    open spec fn view(&self) -> SnapshotView {
        SnapshotView {
            policy: self.policy@,
            vinst: self.vinst,
            container: self.container@,
            peers: topology_view(self.resolved_peers_by_node@),
            stores: mark_views(self.stores@),
        }
    }
}

/// The resolved peers of a node: none where the policy gives it none.
pub open spec fn peers_of(
    t: Seq<(Seq<char>, Seq<(Seq<char>, (Seq<char>, u16))>)>,
    node: Seq<char>,
) -> Seq<(Seq<char>, (Seq<char>, u16))>
    decreases t.len(),
{
    if t.len() == 0 {
        Seq::empty()
    } else if t[0].0 == node {
        t[0].1
    } else {
        peers_of(t.drop_first(), node)
    }
}

impl PolicySnapshot {
    /// A copy, which shows the same whatever is installed later.
    pub fn copy(&self) -> (r: PolicySnapshot)
        ensures
            r@ == self@,
    {
        let mut resolved_peers_by_node: Topology = Vec::new();
        let mut i: usize = 0;
        while i < self.resolved_peers_by_node.len()
            invariant
                i <= self.resolved_peers_by_node@.len(),
                resolved_peers_by_node@.len() == i,
                forall|j: int|
                    0 <= j < i ==> (#[trigger] resolved_peers_by_node@[j]).0@
                        == self.resolved_peers_by_node@[j].0@ && peer_views(
                        resolved_peers_by_node@[j].1@,
                    ) == peer_views(self.resolved_peers_by_node@[j].1@),
            decreases self.resolved_peers_by_node@.len() - i,
        {
            let node = self.resolved_peers_by_node[i].0.copy();
            let peers = copy_peers(&self.resolved_peers_by_node[i].1);
            resolved_peers_by_node.push((node, peers));
            i = i + 1;
        }
        let mut stores: Vec<StoreMark> = Vec::new();
        let mut k: usize = 0;
        while k < self.stores.len()
            invariant
                k <= self.stores@.len(),
                stores@.len() == k,
                forall|j: int| 0 <= j < k ==> (#[trigger] stores@[j])@ == self.stores@[j]@,
            decreases self.stores@.len() - k,
        {
            stores.push(self.stores[k].copy());
            k = k + 1;
        }
        let out = PolicySnapshot {
            policy: self.policy.copy(),
            vinst: self.vinst,
            container: self.container(),
            resolved_peers_by_node,
            stores,
        };
        assert(out@.peers =~= self@.peers);
        assert(out@.stores =~= self@.stores);
        out
    }

    /// The stores of the trusted services that the policy declares. Whoever authenticates an
    /// actor goes by these and not by those in force, so that it does not straddle an update.
    pub fn trusted_services(&self) -> (r: &Vec<StoreMark>)
        ensures
            mark_views(r@) == self@.stores,
    {
        &self.stores
    }

    /// The store of the provider with an issuer, if the policy declares one.
    pub fn oidc_service_for_issuer(&self, issuer: &str) -> (r: Option<&StoreMark>)
        ensures
            match r {
                Some(m) => exists|i: int|
                    0 <= i < self@.stores.len() && #[trigger] self@.stores[i] == m@ && is_provider(
                        m@.definition,
                        issuer@,
                    ) && forall|j: int|
                        0 <= j < i ==> !is_provider(
                            (#[trigger] self@.stores[j]).definition,
                            issuer@,
                        ),
                None => forall|j: int|
                    0 <= j < self@.stores.len() ==> !is_provider(
                        (#[trigger] self@.stores[j]).definition,
                        issuer@,
                    ),
            },
    {
        let ghost all = self@.stores;
        let mut i: usize = 0;
        while i < self.stores.len()
            invariant
                all == mark_views(self.stores@),
                i <= self.stores@.len(),
                forall|j: int|
                    0 <= j < i ==> !is_provider((#[trigger] all[j]).definition, issuer@),
            decreases self.stores@.len() - i,
        {
            assert(all[i as int] == self.stores@[i as int]@);
            if self.stores[i].definition.provides_for(issuer) {
                return Some(&self.stores[i]);
            }
            i = i + 1;
        }
        None
    }

    /// The policy.
    pub fn policy(&self) -> (r: &Policy)
        ensures
            *r == self.policy,
    {
        &self.policy
    }

    /// The number of the installation.
    pub fn vinst(&self) -> (r: u64)
        ensures
            r == self.vinst,
    {
        self.vinst
    }

    /// A copy of the container.
    pub fn container(&self) -> (r: Vec<u8>)
        ensures
            r@ == self.container@,
    {
        let mut out: Vec<u8> = Vec::new();
        let mut i: usize = 0;
        while i < self.container.len()
            invariant
                i <= self.container@.len(),
                out@ == self.container@.take(i as int),
            decreases self.container@.len() - i,
        {
            out.push(self.container[i]);
            assert(self.container@.take(i + 1) =~= self.container@.take(i as int).push(
                self.container@[i as int],
            ));
            i = i + 1;
        }
        assert(self.container@.take(i as int) =~= self.container@);
        out
    }

    /// The resolved peers of a node.
    pub fn resolved_peers_for_node(&self, node: &ZprAddr) -> (r: Vec<ResolvedPeer>)
        ensures
            peer_views(r@) == peers_of(topology_view(self.resolved_peers_by_node@), node@),
    {
        let ghost all = topology_view(self.resolved_peers_by_node@);
        let mut i: usize = 0;
        assert(all.skip(0) =~= all);
        while i < self.resolved_peers_by_node.len()
            invariant
                i <= self.resolved_peers_by_node@.len(),
                all == topology_view(self.resolved_peers_by_node@),
                peers_of(all, node@) == peers_of(all.skip(i as int), node@),
            decreases self.resolved_peers_by_node@.len() - i,
        {
            assert(all.skip(i as int)[0] == (
                self.resolved_peers_by_node@[i as int].0@,
                peer_views(self.resolved_peers_by_node@[i as int].1@),
            ));
            if self.resolved_peers_by_node[i].0.same(node) {
                return copy_peers(&self.resolved_peers_by_node[i].1);
            }
            assert(all.skip(i as int).drop_first() =~= all.skip(i + 1));
            i = i + 1;
        }
        assert(all.skip(i as int).len() == 0);
        let none: Vec<ResolvedPeer> = Vec::new();
        assert(peer_views(none@) =~= Seq::empty());
        none
    }

    /// The description of the link between two nodes, of what the policy says of it.
    pub fn describe_link<T>(&self, found: Option<T>, node_a: &ZprAddr, node_b: &ZprAddr) -> (r:
        Result<T, TopologyError>)
        ensures
            match found {
                Some(t) => r matches Ok(x) && x == t,
                None => r matches Err(TopologyError::LinkNotFound(m)) && m@ == node_a@ + " <-> "@
                    + node_b@,
            },
    {
        match found {
            Some(t) => Ok(t),
            None => Err(
                TopologyError::LinkNotFound(cat3(node_a.as_str(), " <-> ", node_b.as_str())),
            ),
        }
    }
}

/// Why a policy cannot be installed.
#[derive(Debug)]
pub enum PolicyError {
    /// A peer's host name has no address.
    Resolver(ResolverError),
    /// A trusted service cannot be accepted or built.
    Service(ServiceError),
}

/// A policy that was checked and is ready to be installed. Nothing in force has been
/// touched for it: to drop it undoes nothing.
#[derive(Debug)]
pub struct CandidateState {
    pub snapshot: PolicySnapshot,
    pub definitions: Vec<TrustedServiceDefinition>,
    pub steps: Vec<StoreStep>,
}

/// The ids of the declarations are those of their records.
pub open spec fn own_records(defs: Seq<DefinitionView>) -> bool {
    forall|i: int| 0 <= i < defs.len() ==> (#[trigger] defs[i]).record.service_id == defs[i].id
}

proof fn lemma_record_of_id(records: Seq<TrustedServiceView>, id: Seq<char>)
    ensures
        record_of(records, id) matches Some(r) ==> r.service_id == id,
    decreases records.len(),
{
    if records.len() > 0 {
        lemma_record_of_id(records.drop_first(), id);
    }
}

proof fn lemma_own_records(policy: PolicyView, services: Seq<PolicyServiceView>)
    ensures
        declared(policy, services) matches Ok(defs) ==> own_records(defs),
    decreases services.len(),
{
    if services.len() > 0 {
        lemma_own_records(policy, services.drop_last());
        lemma_record_of_id(policy.trusted, services.last().id);
        if declared(policy, services) is Ok {
            let before = declared(policy, services.drop_last())->Ok_0;
            let defs = declared(policy, services)->Ok_0;
            assert forall|i: int| 0 <= i < defs.len() implies (
            #[trigger] defs[i]).record.service_id == defs[i].id by {
                if i < before.len() {
                    assert(defs[i] == before[i]);
                }
            }
        }
    }
}

/// Checks a policy that is to be installed: resolves its topology with the answers to the
/// lookups, takes in its trusted services, and plans which stores live on.
pub fn build_state(
    policy: Policy,
    vinst: u64,
    container: Vec<u8>,
    nodes: &Vec<(ZprAddr, Vec<Peer>)>,
    answers: &Vec<Vec<Result<SockAddr, ResolverError>>>,
    in_force: &Vec<TrustedServiceDefinition>,
    stores: &Vec<TrustedStore>,
) -> (r: Result<CandidateState, PolicyError>)
    requires
        answers@.len() == nodes@.len(),
        forall|i: int|
            0 <= i < nodes@.len() ==> (#[trigger] answers@[i])@.len() == nodes@[i].1@.len(),
    ensures
        match topology_outcome(nodes@, answers@) {
            Err(m) => r matches Err(PolicyError::Resolver(e)) && e@ == m,
            Ok(t) => match declared(policy@, policy@.services) {
                Err(m) => r matches Err(PolicyError::Service(e)) && e@ == ServiceErrorView::Param(
                    m,
                ),
                Ok(defs) => {
                    &&& r matches Ok(c)
                    &&& c.snapshot.policy == policy
                    &&& c.snapshot.vinst == vinst
                    &&& c.snapshot.container == container
                    &&& topology_view(c.snapshot.resolved_peers_by_node@) == t
                    &&& c.snapshot.stores@.len() == 0
                    &&& definition_views(c.definitions@) == defs
                    &&& own_records(defs)
                    &&& c.steps@.len() == defs.len()
                    &&& forall|i: int|
                        0 <= i < c.steps@.len() ==> step_says(
                            #[trigger] c.steps@[i],
                            kept_store(defs[i], definition_views(in_force@), source_views(stores@)),
                        )
                    &&& forall|i: int|
                        0 <= i < c.steps@.len() ==> ((
                        #[trigger] c.steps@[i]) matches StoreStep::Reuse(k) ==> k < stores@.len())
                },
            },
        },
{
    let topology = match resolve_topology(nodes, answers) {
        Ok(t) => t,
        Err(e) => {
            return Err(PolicyError::Resolver(e));
        },
    };
    let definitions = match trusted_service_definitions(&policy) {
        Ok(d) => d,
        Err(e) => {
            return Err(PolicyError::Service(e));
        },
    };
    let steps = plan_stores(&definitions, in_force, stores);
    proof {
        lemma_own_records(policy@, policy@.services);
        let defs = definition_views(definitions@);
        assert forall|i: int| 0 <= i < steps@.len() implies step_says(
            #[trigger] steps@[i],
            kept_store(defs[i], definition_views(in_force@), source_views(stores@)),
        ) by {
            assert(defs[i] == definitions@[i]@);
        }
    }
    Ok(
        CandidateState {
            snapshot: PolicySnapshot {
                policy,
                vinst,
                container,
                resolved_peers_by_node: topology,
                stores: Vec::new(),
            },
            definitions,
            steps,
        },
    )
}

/// The inputs are those that the plans of the stores to be built ask for, in order.
pub open spec fn inputs_fit(
    definitions: Seq<TrustedServiceDefinition>,
    steps: Seq<StoreStep>,
    inputs: Seq<StoreInput>,
) -> bool {
    &&& definitions.len() == steps.len()
    &&& inputs.len() == builds(steps)
    &&& forall|i: int|
        0 <= i < steps.len() && (#[trigger] steps[i]) is Build ==> definitions[i].takes(
            inputs[builds(steps.take(i)) as int],
        )
}

/// What the plan of the store at a place asked for.
pub open spec fn input_at(steps: Seq<StoreStep>, inputs: Seq<StoreInput>, i: int) -> StoreInput {
    inputs[builds(steps.take(i)) as int]
}

/// Why the store at a place cannot be built, where it is to be built and cannot.
pub open spec fn refusal_at(
    defs: Seq<DefinitionView>,
    steps: Seq<StoreStep>,
    inputs: Seq<StoreInput>,
    i: int,
) -> Option<ServiceErrorView> {
    if steps[i] is Build {
        build_refusal(defs[i], input_at(steps, inputs, i))
    } else {
        None
    }
}

/// The store at a place is the first that cannot be built.
pub open spec fn first_refused(
    defs: Seq<DefinitionView>,
    steps: Seq<StoreStep>,
    inputs: Seq<StoreInput>,
    i: int,
) -> bool {
    &&& 0 <= i < steps.len()
    &&& refusal_at(defs, steps, inputs, i) is Some
    &&& forall|j: int| 0 <= j < i ==> (#[trigger] refusal_at(defs, steps, inputs, j)) is None
}

/// Every store that is to be built was built from its declaration and from what its plan
/// asked for, with revisions in turn.
pub open spec fn all_built(
    defs: Seq<DefinitionView>,
    steps: Seq<StoreStep>,
    inputs: Seq<StoreInput>,
    first: u64,
    built: Seq<TrustedStore>,
) -> bool {
    &&& built.len() == builds(steps)
    &&& forall|i: int|
        0 <= i < steps.len() ==> (#[trigger] refusal_at(defs, steps, inputs, i)) is None
    &&& forall|i: int|
        0 <= i < steps.len() && (#[trigger] steps[i]) is Build ==> built_from(
            defs[i],
            input_at(steps, inputs, i),
            built[builds(steps.take(i)) as int],
            revision_after(first, builds(steps.take(i))),
        )
}

/// Builds the stores of a candidate that do not live on, in order. The first that cannot
/// be built fails the policy.
pub fn build_services(
    candidate: &CandidateState,
    inputs: Vec<StoreInput>,
    counter: &mut RevisionCounter,
) -> (r: Result<Vec<TrustedStore>, ServiceError>)
    requires
        inputs_fit(candidate.definitions@, candidate.steps@, inputs@),
    ensures
        match r {
            Ok(built) => {
                &&& all_built(
                    definition_views(candidate.definitions@),
                    candidate.steps@,
                    inputs@,
                    old(counter).next,
                    built@,
                )
                &&& final(counter).next == revision_after(
                    old(counter).next,
                    builds(candidate.steps@),
                )
            },
            Err(e) => exists|i: int|
                {
                    &&& #[trigger] first_refused(
                        definition_views(candidate.definitions@),
                        candidate.steps@,
                        inputs@,
                        i,
                    )
                    &&& refusal_at(
                        definition_views(candidate.definitions@),
                        candidate.steps@,
                        inputs@,
                        i,
                    ) == Some(e@)
                    &&& final(counter).next == revision_after(
                        old(counter).next,
                        builds(candidate.steps@.take(i)),
                    )
                },
        },
{
    let ghost all = inputs@;
    let ghost steps = candidate.steps@;
    let ghost views = definition_views(candidate.definitions@);
    let ghost first = counter.next;
    let mut pending = inputs;
    let mut built: Vec<TrustedStore> = Vec::new();
    let mut i: usize = 0;
    while i < candidate.steps.len()
        invariant
            i <= candidate.steps@.len(),
            steps == candidate.steps@,
            views == definition_views(candidate.definitions@),
            all == inputs@,
            first == old(counter).next,
            inputs_fit(candidate.definitions@, steps, all),
            built@.len() == builds(steps.take(i as int)),
            built@.len() <= all.len(),
            pending@ == all.skip(built@.len() as int),
            counter.next == revision_after(first, built@.len()),
            forall|j: int|
                0 <= j < i ==> (#[trigger] refusal_at(views, steps, all, j)) is None,
            forall|j: int|
                0 <= j < i && (#[trigger] steps[j]) is Build ==> builds(steps.take(j))
                    < built@.len() && built_from(
                    views[j],
                    input_at(steps, all, j),
                    built@[builds(steps.take(j)) as int],
                    revision_after(first, builds(steps.take(j))),
                ),
        decreases candidate.steps@.len() - i,
    {
        proof {
            assert(steps.take(i + 1).drop_last() =~= steps.take(i as int));
            lemma_builds_grow(steps, i + 1);
        }
        if let StoreStep::Build = &candidate.steps[i] {
            let ghost k = built@.len() as int;
            let ghost before = built@;
            let input = pending.remove(0);
            proof {
                assert(views[i as int] == candidate.definitions@[i as int]@);
                assert(input == all[k]);
                assert(input_at(steps, all, i as int) == input);
                assert(pending@ =~= all.skip(k + 1));
            }
            match candidate.definitions[i].build(input, counter) {
                Ok(store) => {
                    built.push(store);
                    assert(refusal_at(views, steps, all, i as int) is None);
                    assert forall|j: int| 0 <= j < i + 1 && (
                    #[trigger] steps[j]) is Build implies builds(steps.take(j)) < built@.len()
                        && built_from(
                        views[j],
                        input_at(steps, all, j),
                        built@[builds(steps.take(j)) as int],
                        revision_after(first, builds(steps.take(j))),
                    ) by {
                        if j < i {
                            assert(built@[builds(steps.take(j)) as int] == before[builds(
                                steps.take(j),
                            ) as int]);
                        }
                    }
                },
                Err(e) => {
                    assert(first_refused(views, steps, all, i as int));
                    return Err(e);
                },
            }
        }
        i = i + 1;
    }
    assert(steps.take(i as int) =~= steps);
    Ok(built)
}

/// The ids of the OIDC services whose stores live on.
pub open spec fn carried_ids(
    defs: Seq<DefinitionView>,
    steps: Seq<StoreStep>,
    stores: Seq<TrustedStore>,
) -> Seq<Seq<char>>
    decreases steps.len(),
{
    if steps.len() == 0 {
        Seq::empty()
    } else {
        let before = carried_ids(defs, steps.drop_last(), stores);
        match steps.last() {
            StoreStep::Reuse(k) if stores[k as int] is Oidc => before.push(
                defs[steps.len() - 1].id,
            ),
            _ => before,
        }
    }
}

/// The ids of the OIDC services whose stores were built.
pub open spec fn spawned_ids(
    defs: Seq<DefinitionView>,
    steps: Seq<StoreStep>,
    built: Seq<TrustedStore>,
) -> Seq<Seq<char>>
    decreases steps.len(),
{
    if steps.len() == 0 {
        Seq::empty()
    } else {
        let before = spawned_ids(defs, steps.drop_last(), built);
        if steps.last() is Build && built[builds(steps.drop_last()) as int] is Oidc {
            before.push(defs[steps.len() - 1].id)
        } else {
            before
        }
    }
}

fn oidc_ids(
    definitions: &Vec<TrustedServiceDefinition>,
    steps: &Vec<StoreStep>,
    stores: &Vec<TrustedStore>,
    built: &Vec<TrustedStore>,
) -> (r: (Vec<String>, Vec<String>))
    requires
        definitions@.len() == steps@.len(),
        builds(steps@) == built@.len(),
        forall|i: int|
            0 <= i < steps@.len() ==> ((#[trigger] steps@[i]) matches StoreStep::Reuse(k) ==> k
                < stores@.len()),
    ensures
        texts(r.0@) == carried_ids(definition_views(definitions@), steps@, stores@),
        texts(r.1@) == spawned_ids(definition_views(definitions@), steps@, built@),
{
    let ghost defs = definition_views(definitions@);
    let mut carried: Vec<String> = Vec::new();
    let mut spawned: Vec<String> = Vec::new();
    let count: usize = built.len();
    let mut next: usize = 0;
    let mut i: usize = 0;
    proof {
        assert(texts(carried@) =~= Seq::empty());
        assert(texts(spawned@) =~= Seq::empty());
    }
    while i < steps.len()
        invariant
            i <= steps@.len(),
            definitions@.len() == steps@.len(),
            defs == definition_views(definitions@),
            builds(steps@) == built@.len(),
            count == built@.len(),
            next == builds(steps@.take(i as int)),
            forall|j: int|
                0 <= j < steps@.len() ==> ((#[trigger] steps@[j]) matches StoreStep::Reuse(k) ==> k
                    < stores@.len()),
            texts(carried@) == carried_ids(defs, steps@.take(i as int), stores@),
            texts(spawned@) == spawned_ids(defs, steps@.take(i as int), built@),
        decreases steps@.len() - i,
    {
        proof {
            assert(steps@.take(i + 1).drop_last() =~= steps@.take(i as int));
            assert(defs[i as int] == definitions@[i as int]@);
            lemma_builds_grow(steps@, i + 1);
        }
        let ghost c = carried@;
        let ghost s = spawned@;
        match &steps[i] {
            StoreStep::Reuse(k) => {
                if let TrustedStore::Oidc(_) = &stores[*k] {
                    carried.push(definitions[i].id().to_owned());
                    assert(texts(carried@) =~= texts(c).push(defs[i as int].id));
                }
            },
            StoreStep::Build => {
                if let TrustedStore::Oidc(_) = &built[next] {
                    spawned.push(definitions[i].id().to_owned());
                    assert(texts(spawned@) =~= texts(s).push(defs[i as int].id));
                }
                assert(builds(steps@.take(i + 1)) == next + 1);
                next = next + 1;
            },
        }
        i = i + 1;
    }
    assert(steps@.take(i as int) =~= steps@);
    (carried, spawned)
}

/// What is installed: one coherent view, the declarations of its trusted services, and
/// the services whose signing keys are being refreshed.
#[derive(Debug)]
pub struct PolicyMgr {
    pub state: PolicySnapshot,
    pub ts_definitions: Vec<TrustedServiceDefinition>,
    pub refreshing: Vec<String>,
}

impl PolicyMgr {
    /// Nothing is installed.
    pub fn new() -> (r: PolicyMgr)
        ensures
            r.state.vinst == 0,
            r.state.policy@.services == Seq::<PolicyServiceView>::empty(),
            r.state.policy@.trusted == Seq::<TrustedServiceView>::empty(),
            r.state.container@ == Seq::<u8>::empty(),
            r.state.resolved_peers_by_node@.len() == 0,
            r.state.stores@.len() == 0,
            r.ts_definitions@.len() == 0,
            texts(r.refreshing@) == Seq::<Seq<char>>::empty(),
    {
        let policy = Policy { services: Vec::new(), trusted: Vec::new() };
        assert(policy@.services =~= Seq::empty());
        assert(policy@.trusted =~= Seq::empty());
        let refreshing: Vec<String> = Vec::new();
        assert(texts(refreshing@) =~= Seq::empty());
        PolicyMgr {
            state: PolicySnapshot {
                policy,
                vinst: 0,
                container: Vec::new(),
                resolved_peers_by_node: Vec::new(),
                stores: Vec::new(),
            },
            ts_definitions: Vec::new(),
            refreshing,
        }
    }

    /// The view of what is installed. It stays as it is when another policy is installed.
    pub fn get_current_snapshot(&self) -> (r: PolicySnapshot)
        ensures
            r@ == self.state@,
    {
        self.state.copy()
    }

    /// The policy that is installed.
    pub fn get_current(&self) -> (r: &Policy)
        ensures
            *r == self.state.policy,
    {
        self.state.policy()
    }

    /// A copy of the container that the installed policy came in.
    pub fn get_current_container(&self) -> (r: Vec<u8>)
        ensures
            r@ == self.state.container@,
    {
        self.state.container()
    }

    /// The description of the link between two nodes, of what the installed policy says
    /// of it.
    pub fn describe_link<T>(&self, found: Option<T>, node_a: &ZprAddr, node_b: &ZprAddr) -> (r:
        Result<T, TopologyError>)
        ensures
            match found {
                Some(t) => r matches Ok(x) && x == t,
                None => r matches Err(TopologyError::LinkNotFound(m)) && m@ == node_a@ + " <-> "@
                    + node_b@,
            },
    {
        self.state.describe_link(found, node_a, node_b)
    }

    /// Installs the candidate: the policy, its number, its container, its topology and its
    /// declarations all at once, and its stores in the place of those in force. Says what
    /// becomes of the tasks that refresh signing keys. All that can fail has been done
    /// before.
    pub fn commit(
        &mut self,
        ts_mgr: &mut TrustedServicesMgr,
        candidate: CandidateState,
        built: Vec<TrustedStore>,
        refresh: bool,
    ) -> (r: RefreshPlan)
        requires
            candidate.definitions@.len() == candidate.steps@.len(),
            keeps_once(candidate.steps@),
            builds(candidate.steps@) == built@.len(),
            forall|i: int|
                0 <= i < candidate.steps@.len() ==> ((
                #[trigger] candidate.steps@[i]) matches StoreStep::Reuse(k) ==> k < old(
                    ts_mgr,
                ).stores().len()),
        ensures
            final(self).state.policy == candidate.snapshot.policy,
            final(self).state@ == installed_as(candidate, final(ts_mgr).stores()),
            final(self).ts_definitions == candidate.definitions,
            assembled(
                candidate.steps@,
                old(ts_mgr).stores(),
                built@,
                final(ts_mgr).stores(),
            ),
            forall|a: Seq<char>, s: Seq<char>| #[trigger]
                final(ts_mgr).state(a, s) == old(ts_mgr).state(a, s),
            texts(r.keep@) == both(
                texts(old(self).refreshing@),
                carried_ids(
                    definition_views(candidate.definitions@),
                    candidate.steps@,
                    old(ts_mgr).stores(),
                ),
            ),
            texts(r.stop@) == without(
                texts(old(self).refreshing@),
                carried_ids(
                    definition_views(candidate.definitions@),
                    candidate.steps@,
                    old(ts_mgr).stores(),
                ),
            ),
            texts(r.spawn@) == (if refresh {
                spawned_ids(
                    definition_views(candidate.definitions@),
                    candidate.steps@,
                    built@,
                )
            } else {
                Seq::empty()
            }),
            texts(final(self).refreshing@) == texts(r.keep@) + texts(r.spawn@),
    {
        let (carried, spawned) = oidc_ids(
            &candidate.definitions,
            &candidate.steps,
            ts_mgr.services(),
            &built,
        );
        let plan = commit_refreshers(&self.refreshing, &carried, spawned, refresh);
        let old_stores = ts_mgr.take_services();
        let stores = assemble_stores(&candidate.steps, old_stores, built);
        let marks = mark_stores(&candidate.definitions, &stores);
        ts_mgr.update_services(stores);
        let mut refreshing = clone_texts(&plan.keep);
        let started = clone_texts(&plan.spawn);
        append_texts(&mut refreshing, started);
        self.state = PolicySnapshot {
            policy: candidate.snapshot.policy,
            vinst: candidate.snapshot.vinst,
            container: candidate.snapshot.container,
            resolved_peers_by_node: candidate.snapshot.resolved_peers_by_node,
            stores: marks,
        };
        self.ts_definitions = candidate.definitions;
        self.refreshing = refreshing;
        plan
    }
}

/// The marks of stores, each with its declaration.
pub open spec fn marks_of(defs: Seq<DefinitionView>, stores: Seq<TrustedStore>) -> Seq<MarkView> {
    Seq::new(defs.len(), |i: int| MarkView { definition: defs[i], born: stores[i].birth() })
}

/// What shows of a candidate once it is installed with its stores.
pub open spec fn installed_as(
    candidate: CandidateState,
    stores: Seq<TrustedStore>,
) -> SnapshotView {
    SnapshotView {
        stores: marks_of(definition_views(candidate.definitions@), stores),
        ..candidate.snapshot@
    }
}

fn mark_stores(definitions: &Vec<TrustedServiceDefinition>, stores: &Vec<TrustedStore>) -> (r: Vec<
    StoreMark,
>)
    requires
        definitions@.len() == stores@.len(),
    ensures
        mark_views(r@) == marks_of(definition_views(definitions@), stores@),
{
    let mut out: Vec<StoreMark> = Vec::new();
    let mut i: usize = 0;
    while i < stores.len()
        invariant
            definitions@.len() == stores@.len(),
            i <= stores@.len(),
            out@.len() == i,
            forall|j: int|
                0 <= j < i ==> (#[trigger] out@[j])@ == (MarkView {
                    definition: definitions@[j]@,
                    born: stores@[j].birth(),
                }),
        decreases stores@.len() - i,
    {
        let mark = StoreMark { definition: definitions[i].copy(), born: stores[i].born() };
        out.push(mark);
        i = i + 1;
    }
    assert(mark_views(out@) =~= marks_of(definition_views(definitions@), stores@));
    out
}

fn append_texts(list: &mut Vec<String>, more: Vec<String>)
    ensures
        texts(final(list)@) == texts(old(list)@) + texts(more@),
{
    let ghost before = list@;
    let mut i: usize = 0;
    assert(texts(list@) =~= texts(before) + texts(more@.take(0)));
    while i < more.len()
        invariant
            i <= more@.len(),
            texts(list@) == texts(before) + texts(more@.take(i as int)),
        decreases more@.len() - i,
    {
        let ghost now = list@;
        list.push(more[i].clone());
        assert(texts(list@) =~= texts(now).push(more@[i as int]@));
        assert(texts(more@.take(i + 1)) =~= texts(more@.take(i as int)).push(more@[i as int]@));
        assert(texts(list@) =~= texts(before) + texts(more@.take(i + 1)));
        i = i + 1;
    }
    assert(more@.take(i as int) =~= more@);
}

/// Where the declarations have different ids, the plan keeps no store twice.
pub proof fn law_plan_keeps_each_store_once(
    defs: Seq<DefinitionView>,
    in_force: Seq<DefinitionView>,
    stores: Seq<SourceView>,
    steps: Seq<StoreStep>,
)
    requires
        steps.len() == defs.len(),
        forall|i: int, j: int|
            0 <= i < j < defs.len() ==> (#[trigger] defs[i]).id != (#[trigger] defs[j]).id,
        forall|i: int|
            0 <= i < steps.len() ==> step_says(
                #[trigger] steps[i],
                kept_store(defs[i], in_force, stores),
            ),
    ensures
        keeps_once(steps),
{
    assert forall|i: int, j: int| 0 <= i < j < steps.len() implies !((
    #[trigger] steps[i]) is Reuse && steps[i] == #[trigger] steps[j]) by {
        assert(defs[i].id != defs[j].id);
        law_stores_are_not_shared(defs[i], defs[j], in_force, stores);
    }
}

/// The store of an unchanged service is the very same after the installation, and so is
/// its revision: no actor has to be asked about anew.
pub proof fn law_installation_keeps_unchanged_stores(
    steps: Seq<StoreStep>,
    stores: Seq<TrustedStore>,
    built: Seq<TrustedStore>,
    out: Seq<TrustedStore>,
    i: int,
    k: usize,
)
    requires
        assembled(steps, stores, built, out),
        0 <= i < steps.len(),
        steps[i] == StoreStep::Reuse(k),
    ensures
        out[i] == stores[k as int],
        out[i].source().revision == stores[k as int].source().revision,
{
}

/// The services of a policy have different ids.
pub open spec fn distinct_services(services: Seq<PolicyServiceView>) -> bool {
    forall|i: int, j: int|
        0 <= i < j < services.len() ==> (#[trigger] services[i]).id != (#[trigger] services[j]).id
}

proof fn lemma_declared_ids(policy: PolicyView, services: Seq<PolicyServiceView>)
    requires
        distinct_services(services),
    ensures
        declared(policy, services) matches Ok(defs) ==> (forall|i: int, j: int|
            0 <= i < j < defs.len() ==> (#[trigger] defs[i]).id != (#[trigger] defs[j]).id) && (
        forall|i: int|
            0 <= i < defs.len() ==> exists|k: int|
                0 <= k < services.len() && (#[trigger] services[k]).id == (
                #[trigger] defs[i]).id),
    decreases services.len(),
{
    if services.len() > 0 && declared(policy, services) is Ok {
        let init = services.drop_last();
        assert forall|i: int, j: int| 0 <= i < j < init.len() implies (#[trigger] init[i]).id != (
        #[trigger] init[j]).id by {
            assert(init[i] == services[i] && init[j] == services[j]);
        }
        lemma_declared_ids(policy, init);
        let before = declared(policy, init)->Ok_0;
        let defs = declared(policy, services)->Ok_0;
        assert(services.last() == services[services.len() - 1]);
        assert forall|i: int| 0 <= i < before.len() implies (#[trigger] before[i]).id
            != services.last().id && exists|k: int|
            0 <= k < services.len() && (#[trigger] services[k]).id == before[i].id by {
            let k = choose|k: int| 0 <= k < init.len() && (#[trigger] init[k]).id == before[i].id;
            assert(services[k].id == before[i].id);
        }
        assert forall|i: int| 0 <= i < defs.len() implies exists|k: int|
            0 <= k < services.len() && (#[trigger] services[k]).id == (#[trigger] defs[i]).id by {
            if i < before.len() {
                assert(defs[i] == before[i]);
            } else {
                assert(services[services.len() - 1].id == defs[i].id);
            }
        }
        assert forall|i: int, j: int| 0 <= i < j < defs.len() implies (#[trigger] defs[i]).id != (
        #[trigger] defs[j]).id by {
            assert(defs[i] == before[i]);
            if j < before.len() {
                assert(defs[j] == before[j]);
            }
        }
    }
}

/// The candidate was made for a policy against the declarations and stores in force.
pub open spec fn candidate_for(
    c: CandidateState,
    policy: Policy,
    vinst: u64,
    container: Vec<u8>,
    topology: Seq<(Seq<char>, Seq<(Seq<char>, (Seq<char>, u16))>)>,
    in_force: Seq<DefinitionView>,
    stores: Seq<SourceView>,
) -> bool {
    &&& c.snapshot.policy == policy
    &&& c.snapshot.vinst == vinst
    &&& c.snapshot.container == container
    &&& topology_view(c.snapshot.resolved_peers_by_node@) == topology
    &&& c.snapshot.stores@.len() == 0
    &&& declared(policy@, policy@.services) == Ok::<Seq<DefinitionView>, Seq<char>>(
        definition_views(c.definitions@),
    )
    &&& own_records(definition_views(c.definitions@))
    &&& c.steps@.len() == c.definitions@.len()
    &&& forall|i: int|
        0 <= i < c.steps@.len() ==> step_says(
            #[trigger] c.steps@[i],
            kept_store(definition_views(c.definitions@)[i], in_force, stores),
        )
}

/// The steps can be taken with this many stores in force: no store is kept twice, and
/// each that is kept is there.
pub open spec fn steps_fit(steps: Seq<StoreStep>, stores: nat) -> bool {
    &&& keeps_once(steps)
    &&& forall|i: int|
        0 <= i < steps.len() ==> ((#[trigger] steps[i]) matches StoreStep::Reuse(k) ==> k < stores)
}

/// A policy that was found acceptable, on its way to be installed.
pub struct ProposedPolicy {
    candidate: CandidateState,
    stores: usize,
}

impl ProposedPolicy {
    #[verifier::type_invariant]
    closed spec fn wf(self) -> bool {
        &&& self.candidate.definitions@.len() == self.candidate.steps@.len()
        &&& steps_fit(self.candidate.steps@, self.stores as nat)
    }

    /// What is proposed.
    pub closed spec fn candidate(self) -> CandidateState {
        self.candidate
    }

    /// How many stores were in force when it was proposed.
    pub closed spec fn base(self) -> nat {
        self.stores as nat
    }

    /// What is proposed: its declarations and steps say what is to be gathered.
    pub fn state(&self) -> (r: &CandidateState)
        ensures
            *r == self.candidate(),
            r.definitions@.len() == r.steps@.len(),
    {
        proof {
            use_type_invariant(self);
        }
        &self.candidate
    }

    /// Builds the stores that do not live on. The first that cannot be built fails the
    /// policy.
    pub fn build(self, inputs: Vec<StoreInput>, counter: &mut RevisionCounter) -> (r: Result<
        BuiltPolicy,
        ServiceError,
    >)
        requires
            inputs_fit(self.candidate().definitions@, self.candidate().steps@, inputs@),
        ensures
            match r {
                Ok(b) => {
                    &&& b.candidate() == self.candidate()
                    &&& b.base() == self.base()
                    &&& all_built(
                        definition_views(self.candidate().definitions@),
                        self.candidate().steps@,
                        inputs@,
                        old(counter).next,
                        b.built(),
                    )
                    &&& final(counter).next == revision_after(
                        old(counter).next,
                        builds(self.candidate().steps@),
                    )
                },
                Err(e) => exists|i: int|
                    {
                        &&& #[trigger] first_refused(
                            definition_views(self.candidate().definitions@),
                            self.candidate().steps@,
                            inputs@,
                            i,
                        )
                        &&& refusal_at(
                            definition_views(self.candidate().definitions@),
                            self.candidate().steps@,
                            inputs@,
                            i,
                        ) == Some(e@)
                    },
            },
    {
        proof {
            use_type_invariant(&self);
        }
        let built = build_services(&self.candidate, inputs, counter)?;
        Ok(BuiltPolicy { candidate: self.candidate, stores: self.stores, built })
    }
}

/// A policy whose stores are built. All that is left is to store it, and to take it in.
pub struct BuiltPolicy {
    candidate: CandidateState,
    stores: usize,
    built: Vec<TrustedStore>,
}

impl BuiltPolicy {
    #[verifier::type_invariant]
    closed spec fn wf(self) -> bool {
        &&& self.candidate.definitions@.len() == self.candidate.steps@.len()
        &&& steps_fit(self.candidate.steps@, self.stores as nat)
        &&& builds(self.candidate.steps@) == self.built@.len()
    }

    /// What is proposed.
    pub closed spec fn candidate(self) -> CandidateState {
        self.candidate
    }

    /// How many stores were in force when it was proposed.
    pub closed spec fn base(self) -> nat {
        self.stores as nat
    }

    /// The stores that were built for it.
    pub closed spec fn built(self) -> Seq<TrustedStore> {
        self.built@
    }

    /// The number of the installation.
    pub fn vinst(&self) -> (r: u64)
        ensures
            r == self.candidate().snapshot.vinst,
    {
        self.candidate.snapshot.vinst
    }
}

/// What is installed after a candidate was taken in, and what becomes of the tasks that
/// refresh signing keys.
pub open spec fn taken_in(
    before: PolicyMgr,
    stores: Seq<TrustedStore>,
    candidate: CandidateState,
    built: Seq<TrustedStore>,
    refresh: bool,
    after: PolicyMgr,
    after_stores: Seq<TrustedStore>,
    plan: RefreshPlan,
) -> bool {
    let defs = definition_views(candidate.definitions@);
    let carried = carried_ids(defs, candidate.steps@, stores);
    &&& after.state.policy == candidate.snapshot.policy
    &&& after.state@ == installed_as(candidate, after_stores)
    &&& after.ts_definitions == candidate.definitions
    &&& assembled(candidate.steps@, stores, built, after_stores)
    &&& texts(plan.keep@) == both(texts(before.refreshing@), carried)
    &&& texts(plan.stop@) == without(texts(before.refreshing@), carried)
    &&& texts(plan.spawn@) == (if refresh {
        spawned_ids(defs, candidate.steps@, built)
    } else {
        Seq::empty()
    })
    &&& texts(after.refreshing@) == texts(plan.keep@) + texts(plan.spawn@)
}

/// What an update comes to once everything but the writing has succeeded.
pub open spec fn update_ends(
    before: PolicyMgr,
    stores: Seq<TrustedStore>,
    candidate: CandidateState,
    built: Seq<TrustedStore>,
    written: Result<(), StoreError>,
    refresh: bool,
    after: PolicyMgr,
    after_stores: Seq<TrustedStore>,
    r: Result<(u64, RefreshPlan), StoreError>,
) -> bool {
    match written {
        Err(e) => r == Err::<(u64, RefreshPlan), StoreError>(e) && after == before && after_stores
            == stores,
        Ok(()) => r matches Ok((v, plan)) && v == candidate.snapshot.vinst && taken_in(
            before,
            stores,
            candidate,
            built,
            refresh,
            after,
            after_stores,
            plan,
        ),
    }
}

impl PolicyMgr {
    /// Proposes a policy to be installed under a number, with the answers to the lookups of
    /// its topology. What is installed is not touched.
    pub fn propose(
        &self,
        ts_mgr: &TrustedServicesMgr,
        policy: Policy,
        vinst: u64,
        container: Vec<u8>,
        nodes: &Vec<(ZprAddr, Vec<Peer>)>,
        answers: &Vec<Vec<Result<SockAddr, ResolverError>>>,
    ) -> (r: Result<ProposedPolicy, PolicyError>)
        requires
            distinct_services(policy@.services),
            answers@.len() == nodes@.len(),
            forall|i: int|
                0 <= i < nodes@.len() ==> (#[trigger] answers@[i])@.len() == nodes@[i].1@.len(),
        ensures
            match topology_outcome(nodes@, answers@) {
                Err(m) => r matches Err(PolicyError::Resolver(e)) && e@ == m,
                Ok(t) => match declared(policy@, policy@.services) {
                    Err(m) => r matches Err(PolicyError::Service(e)) && e@
                        == ServiceErrorView::Param(m),
                    Ok(_) => r matches Ok(p) && p.base() == ts_mgr.stores().len() && candidate_for(
                        p.candidate(),
                        policy,
                        vinst,
                        container,
                        t,
                        definition_views(self.ts_definitions@),
                        ts_mgr.sources(),
                    ),
                },
            },
    {
        let candidate = build_state(
            policy,
            vinst,
            container,
            nodes,
            answers,
            &self.ts_definitions,
            ts_mgr.services(),
        )?;
        let stores: usize = ts_mgr.len();
        proof {
            lemma_declared_ids(policy@, policy@.services);
            law_plan_keeps_each_store_once(
                definition_views(candidate.definitions@),
                definition_views(self.ts_definitions@),
                ts_mgr.sources(),
                candidate.steps@,
            );
        }
        Ok(ProposedPolicy { candidate, stores })
    }

    /// Proposes a policy in the place of the one that is installed, under the next number.
    pub fn propose_update(
        &self,
        ts_mgr: &TrustedServicesMgr,
        policy: Policy,
        container: Vec<u8>,
        nodes: &Vec<(ZprAddr, Vec<Peer>)>,
        answers: &Vec<Vec<Result<SockAddr, ResolverError>>>,
    ) -> (r: Result<ProposedPolicy, PolicyError>)
        requires
            self.state.vinst < u64::MAX,
            distinct_services(policy@.services),
            answers@.len() == nodes@.len(),
            forall|i: int|
                0 <= i < nodes@.len() ==> (#[trigger] answers@[i])@.len() == nodes@[i].1@.len(),
        ensures
            match topology_outcome(nodes@, answers@) {
                Err(m) => r matches Err(PolicyError::Resolver(e)) && e@ == m,
                Ok(t) => match declared(policy@, policy@.services) {
                    Err(m) => r matches Err(PolicyError::Service(e)) && e@
                        == ServiceErrorView::Param(m),
                    Ok(_) => r matches Ok(p) && p.base() == ts_mgr.stores().len() && candidate_for(
                        p.candidate(),
                        policy,
                        (self.state.vinst + 1) as u64,
                        container,
                        t,
                        definition_views(self.ts_definitions@),
                        ts_mgr.sources(),
                    ),
                },
            },
    {
        self.propose(ts_mgr, policy, next_vinst(self.state.vinst), container, nodes, answers)
    }

    /// Ends an installation, given what came of storing the policy. Where that failed,
    /// everything stays as it is. Otherwise the policy is taken in as a whole.
    pub fn conclude(
        &mut self,
        ts_mgr: &mut TrustedServicesMgr,
        ready: BuiltPolicy,
        written: Result<(), StoreError>,
        refresh: bool,
    ) -> (r: Result<(u64, RefreshPlan), StoreError>)
        requires
            ready.base() == old(ts_mgr).stores().len(),
        ensures
            update_ends(
                *old(self),
                old(ts_mgr).stores(),
                ready.candidate(),
                ready.built(),
                written,
                refresh,
                *final(self),
                final(ts_mgr).stores(),
                r,
            ),
            forall|a: Seq<char>, s: Seq<char>| #[trigger]
                final(ts_mgr).state(a, s) == old(ts_mgr).state(a, s),
    {
        proof {
            use_type_invariant(&ready);
        }
        match written {
            Err(e) => Err(e),
            Ok(()) => {
                let vinst: u64 = ready.candidate.snapshot.vinst;
                let plan = self.commit(ts_mgr, ready.candidate, ready.built, refresh);
                Ok((vinst, plan))
            },
        }
    }
}

/// An update is all or nothing. Nothing that is installed is touched before the policy has
/// been stored: to propose it only reads, and to build its stores touches none in force.
/// Where it succeeds, the number has gone up by one, and the new policy, its container,
/// its peers, its declarations and its stores show together: the mark at each place stands
/// for the store in force at that place. Where storing it fails, number, policy, container,
/// peers, stores and refreshing tasks are as they were. A view that was taken before shows
/// what it showed in both cases: the older policy with its number and its stores.
pub proof fn law_update_is_all_or_nothing(
    before: PolicyMgr,
    stores: Seq<TrustedStore>,
    policy: Policy,
    container: Vec<u8>,
    topology: Seq<(Seq<char>, Seq<(Seq<char>, (Seq<char>, u16))>)>,
    candidate: CandidateState,
    inputs: Seq<StoreInput>,
    first: u64,
    built: Seq<TrustedStore>,
    written: Result<(), StoreError>,
    refresh: bool,
    after: PolicyMgr,
    after_stores: Seq<TrustedStore>,
    r: Result<(u64, RefreshPlan), StoreError>,
    taken: PolicySnapshot,
)
    requires
        before.state.vinst < u64::MAX,
        taken@ == before.state@,
        candidate_for(
            candidate,
            policy,
            (before.state.vinst + 1) as u64,
            container,
            topology,
            definition_views(before.ts_definitions@),
            source_views(stores),
        ),
        all_built(
            definition_views(candidate.definitions@),
            candidate.steps@,
            inputs,
            first,
            built,
        ),
        update_ends(
            before,
            stores,
            candidate,
            built,
            written,
            refresh,
            after,
            after_stores,
            r,
        ),
    ensures
        r is Ok <==> written is Ok,
        r matches Ok((v, _)) ==> {
            &&& v == before.state.vinst + 1
            &&& after.state.vinst == v
            &&& after.state.policy == policy
            &&& after.state.container@ == container@
            &&& topology_view(after.state.resolved_peers_by_node@) == topology
            &&& declared(policy@, policy@.services) == Ok::<Seq<DefinitionView>, Seq<char>>(
                definition_views(after.ts_definitions@),
            )
            &&& assembled(candidate.steps@, stores, built, after_stores)
            &&& after.state@.stores == marks_of(
                definition_views(after.ts_definitions@),
                after_stores,
            )
            &&& forall|i: int|
                0 <= i < after_stores.len() ==> is_marked(
                    #[trigger] after_stores[i],
                    after.state@.stores[i],
                )
            &&& taken@ == before.state@ && taken@.vinst < after.state@.vinst
        },
        r is Err ==> after == before && after_stores == stores && taken@ == after.state@,
{
    let defs = definition_views(candidate.definitions@);
    let steps = candidate.steps@;
    if r is Ok {
        assert forall|i: int| 0 <= i < after_stores.len() implies is_marked(
            #[trigger] after_stores[i],
            after.state@.stores[i],
        ) by {
            match steps[i] {
                StoreStep::Reuse(k) => {
                    lemma_store_named(source_views(stores), defs[i].id);
                    assert(source_views(stores)[k as int] == stores[k as int].source());
                },
                StoreStep::Build => {
                    let n = builds(steps.take(i));
                    assert(built_from(
                        defs[i],
                        input_at(steps, inputs, i),
                        built[n as int],
                        revision_after(first, n),
                    ));
                },
            }
        }
    }
}

/// A view of an older policy is bound to its own stores: of the stores that an update puts in
/// force, the mark of an older store stands for that store alone, where it lives on, and never
/// for one that was built in its place.
pub proof fn law_older_view_is_bound_to_its_stores(
    defs: Seq<DefinitionView>,
    steps: Seq<StoreStep>,
    inputs: Seq<StoreInput>,
    first: u64,
    stores: Seq<TrustedStore>,
    built: Seq<TrustedStore>,
    after_stores: Seq<TrustedStore>,
    mark: MarkView,
    i: int,
)
    requires
        defs.len() == steps.len(),
        all_built(defs, steps, inputs, first, built),
        assembled(steps, stores, built, after_stores),
        mark.born < first,
        first + builds(steps) <= u64::MAX,
        0 <= i < after_stores.len(),
        is_marked(after_stores[i], mark),
    ensures
        steps[i] matches StoreStep::Reuse(k) && after_stores[i] == stores[k as int] && is_marked(
            stores[k as int],
            mark,
        ),
{
    if steps[i] is Build {
        let n = builds(steps.take(i));
        lemma_builds_grow(steps, i);
        lemma_revision_after(first, n);
        assert(built_from(
            defs[i],
            input_at(steps, inputs, i),
            built[n as int],
            revision_after(first, n),
        ));
        assert(after_stores[i] == built[n as int]);
    }
}

/// Every store in force was built with a revision that has been used up, and an update keeps
/// it so: hence the marks in a view are older than all that is built after it was taken.
pub proof fn law_marks_are_used_up(
    defs: Seq<DefinitionView>,
    steps: Seq<StoreStep>,
    inputs: Seq<StoreInput>,
    first: u64,
    stores: Seq<TrustedStore>,
    built: Seq<TrustedStore>,
    after_stores: Seq<TrustedStore>,
)
    requires
        defs.len() == steps.len(),
        all_built(defs, steps, inputs, first, built),
        assembled(steps, stores, built, after_stores),
        steps_fit(steps, stores.len()),
        first + builds(steps) <= u64::MAX,
        forall|k: int| 0 <= k < stores.len() ==> (#[trigger] stores[k]).birth() < first,
    ensures
        forall|i: int|
            0 <= i < after_stores.len() ==> (#[trigger] after_stores[i]).birth() < revision_after(
                first,
                builds(steps),
            ),
        forall|i: int|
            0 <= i < after_stores.len() ==> (#[trigger] marks_of(defs, after_stores)[i]).born
                < revision_after(first, builds(steps)),
{
    lemma_revision_after(first, builds(steps));
    assert forall|i: int| 0 <= i < after_stores.len() implies (
    #[trigger] after_stores[i]).birth() < revision_after(first, builds(steps)) by {
        if steps[i] is Build {
            let n = builds(steps.take(i));
            assert(steps.take(i + 1).drop_last() =~= steps.take(i));
            lemma_builds_grow(steps, i + 1);
            lemma_revision_after(first, n);
            assert(built_from(
                defs[i],
                input_at(steps, inputs, i),
                built[n as int],
                revision_after(first, n),
            ));
        }
    }
    assert forall|i: int| 0 <= i < after_stores.len() implies (#[trigger] marks_of(
        defs,
        after_stores,
    )[i]).born < revision_after(first, builds(steps)) by {
        assert(after_stores[i].birth() < revision_after(first, builds(steps)));
    }
}

proof fn lemma_revision_after(first: u64, n: nat)
    requires
        first + n <= u64::MAX,
    ensures
        revision_after(first, n) == first + n,
    decreases n,
{
    if n > 0 {
        lemma_revision_after(first, (n - 1) as nat);
    }
}

/// The number of an installation is one for the first, the recorded one for the same policy, and
/// the next for another; past the last number there is none.
pub proof fn law_number_of_an_installation(ident: Option<PolicyIdent>, phash: Seq<char>)
    ensures
        ident is None ==> (installation(ident, phash) matches Ok(n) && n == 1),
        ident matches Some(i) ==> (i.phash@ == phash ==> (installation(ident, phash) matches Ok(n)
            && n == i.vinst)),
        ident matches Some(i) ==> (i.phash@ != phash && i.vinst < u64::MAX ==> (installation(
            ident,
            phash,
        ) matches Ok(n) && n == i.vinst + 1)),
        ident matches Some(i) ==> (i.phash@ != phash && i.vinst == u64::MAX ==> installation(
            ident,
            phash,
        ) is Err),
{
}

/// A peer is reached at its own address and port, or, where it has a host name, at the address
/// that was found for it; where none was found the node fails.
pub proof fn law_peer_is_reached_where_it_is(
    peers: Seq<Peer>,
    answers: Seq<Result<SockAddr, ResolverError>>,
    i: int,
)
    requires
        0 <= i < peers.len(),
    ensures
        peers_outcome(peers, answers) matches Ok(list) ==> {
            &&& list.len() == peers.len()
            &&& list[i].0 == peers[i].link_id@
            &&& peers[i].remote_substrate.host matches NetworkHost::Ip(ip) ==> list[i].1 == (
                ip@,
                peers[i].remote_substrate.port,
            )
            &&& peers[i].remote_substrate.host is Hostname ==> (answers[i] matches Ok(a)
                && list[i].1 == a@)
        },
        peers[i].remote_substrate.host is Hostname && answers[i] is Err ==> peers_outcome(
            peers,
            answers,
        ) is Err,
        (forall|j: int|
            0 <= j < peers.len() ==> (#[trigger] peers[j]).remote_substrate.host is Ip || answers[j]
                is Ok) ==> peers_outcome(peers, answers) is Ok,
{
    law_resolved_peers_keep_their_order(peers, answers);
    law_one_bad_host_fails_the_node(peers, answers);
    assert(peer_outcome(peers[i], answers[i]) is Ok || peer_outcome(peers[i], answers[i]) is Err);
    if forall|j: int|
        0 <= j < peers.len() ==> (#[trigger] peers[j]).remote_substrate.host is Ip || answers[j]
            is Ok {
        assert forall|j: int| 0 <= j < peers.len() implies peer_outcome(
            #[trigger] peers[j],
            answers[j],
        ) is Ok by {}
    }
}

/// The topology has every node, in order, with all its peers, and fails where the peers of one
/// node do.
pub proof fn law_topology_has_every_node(
    nodes: Seq<(ZprAddr, Vec<Peer>)>,
    answers: Seq<Vec<Result<SockAddr, ResolverError>>>,
    i: int,
)
    requires
        0 <= i < nodes.len(),
    ensures
        topology_outcome(nodes, answers) matches Ok(t) ==> t.len() == nodes.len() && t[i].0
            == nodes[i].0@ && (peers_outcome(nodes[i].1@, answers[i]@) matches Ok(list) && list
            == t[i].1),
        peers_outcome(nodes[i].1@, answers[i]@) is Err ==> topology_outcome(nodes, answers) is Err,
    decreases nodes.len(),
{
    let init = nodes.drop_last();
    let last = nodes.len() - 1;
    assert(nodes.last() == nodes[last]);
    if i < last {
        assert(init[i] == nodes[i]);
        law_topology_has_every_node(init, answers, i);
        if topology_outcome(nodes, answers) is Ok {
            let before = topology_outcome(init, answers)->Ok_0;
            assert(topology_outcome(nodes, answers)->Ok_0[i] == before[i]);
        }
    } else if topology_outcome(nodes, answers) is Ok {
        lemma_topology_len(init, answers);
    }
}

proof fn lemma_topology_len(
    nodes: Seq<(ZprAddr, Vec<Peer>)>,
    answers: Seq<Vec<Result<SockAddr, ResolverError>>>,
)
    ensures
        topology_outcome(nodes, answers) matches Ok(t) ==> t.len() == nodes.len(),
    decreases nodes.len(),
{
    if nodes.len() > 0 {
        lemma_topology_len(nodes.drop_last(), answers);
    }
}

/// The peers of a node are those of its first entry, and none where it has no entry.
pub proof fn law_peers_of_a_node_are_those_of_its_entry(
    t: Seq<(Seq<char>, Seq<(Seq<char>, (Seq<char>, u16))>)>,
    node: Seq<char>,
    i: int,
)
    ensures
        0 <= i < t.len() && t[i].0 == node && (forall|j: int|
            0 <= j < i ==> (#[trigger] t[j]).0 != node) ==> peers_of(t, node) == t[i].1,
        (forall|j: int| 0 <= j < t.len() ==> (#[trigger] t[j]).0 != node) ==> peers_of(
            t,
            node,
        ).len() == 0,
    decreases t.len(),
{
    if t.len() > 0 {
        let rest = t.drop_first();
        law_peers_of_a_node_are_those_of_its_entry(rest, node, i - 1);
        if t[0].0 != node {
            if 0 < i < t.len() {
                assert(rest[i - 1] == t[i]);
                if forall|j: int| 0 <= j < i ==> (#[trigger] t[j]).0 != node {
                    assert forall|j: int| 0 <= j < i - 1 implies (#[trigger] rest[j]).0 != node by {
                        assert(rest[j] == t[j + 1]);
                    }
                }
            }
            if forall|j: int| 0 <= j < t.len() ==> (#[trigger] t[j]).0 != node {
                assert forall|j: int| 0 <= j < rest.len() implies (#[trigger] rest[j]).0 != node by {
                    assert(rest[j] == t[j + 1]);
                }
            }
        } else {
            assert(t[0].0 == node);
        }
    }
}

/// A proxy is reached over HTTP at its address and port, with an IPv6 address in brackets.
pub proof fn law_proxy_is_reached_at_its_address(addr: Seq<char>, port: u16)
    ensures
        is_v4(addr) ==> proxy_url_text(addr, port) == "http://"@ + addr + ":"@ + decimal_text(
            port as nat,
        ),
        !is_v4(addr) ==> proxy_url_text(addr, port) == "http://["@ + addr + "]:"@ + decimal_text(
            port as nat,
        ),
        proxy_at(Some(port), Some(addr)) == url_parsed(proxy_url_text(addr, port)),
        proxy_at(None, Some(addr)) is None,
        proxy_at(Some(port), None) is None,
{
}

/// A service keeps its store just where the first definition in force of its id is the same in
/// all and there is a store of that id; then it keeps the first of these.
pub proof fn law_store_is_kept_where_nothing_changed(
    d: DefinitionView,
    in_force: Seq<DefinitionView>,
    stores: Seq<SourceView>,
    i: int,
    k: int,
)
    ensures
        0 <= i < in_force.len() && in_force[i] == d && (forall|j: int|
            0 <= j < i ==> (#[trigger] in_force[j]).id != d.id) && 0 <= k < stores.len()
            && stores[k].id == d.id && (forall|j: int|
            0 <= j < k ==> (#[trigger] stores[j]).id != d.id) ==> kept_store(d, in_force, stores)
            == Some(k),
        (forall|j: int| 0 <= j < in_force.len() ==> #[trigger] in_force[j] != d) ==> kept_store(
            d,
            in_force,
            stores,
        ) is None,
        (forall|j: int| 0 <= j < stores.len() ==> (#[trigger] stores[j]).id != d.id) ==> kept_store(
            d,
            in_force,
            stores,
        ) is None,
{
    lemma_definition_at(in_force, d.id, i);
    lemma_store_at(stores, d.id, k);
    lemma_store_named(stores, d.id);
}

proof fn lemma_definition_at(defs: Seq<DefinitionView>, id: Seq<char>, i: int)
    ensures
        0 <= i < defs.len() && defs[i].id == id && (forall|j: int|
            0 <= j < i ==> (#[trigger] defs[j]).id != id) ==> definition_named(defs, id) == Some(
            defs[i],
        ),
        definition_named(defs, id) matches Some(d) ==> defs.contains(d),
    decreases defs.len(),
{
    if defs.len() > 0 {
        let rest = defs.drop_first();
        lemma_definition_at(rest, id, i - 1);
        if defs[0].id != id {
            if 0 < i < defs.len() {
                assert(rest[i - 1] == defs[i]);
                if forall|j: int| 0 <= j < i ==> (#[trigger] defs[j]).id != id {
                    assert forall|j: int| 0 <= j < i - 1 implies (#[trigger] rest[j]).id != id by {
                        assert(rest[j] == defs[j + 1]);
                    }
                }
            }
            if let Some(d) = definition_named(rest, id) {
                let k = choose|k: int| 0 <= k < rest.len() && rest[k] == d;
                assert(defs[k + 1] == d);
            }
        } else {
            assert(defs[0].id == id);
            assert(defs.contains(defs[0]));
        }
    }
}

proof fn lemma_store_at(stores: Seq<SourceView>, id: Seq<char>, k: int)
    ensures
        0 <= k < stores.len() && stores[k].id == id && (forall|j: int|
            0 <= j < k ==> (#[trigger] stores[j]).id != id) ==> store_named(stores, id) == Some(k),
    decreases stores.len(),
{
    if stores.len() > 0 {
        let rest = stores.drop_first();
        lemma_store_at(rest, id, k - 1);
        if stores[0].id != id {
            if 0 < k < stores.len() {
                assert(rest[k - 1] == stores[k]);
                if forall|j: int| 0 <= j < k ==> (#[trigger] stores[j]).id != id {
                    assert forall|j: int| 0 <= j < k - 1 implies (#[trigger] rest[j]).id != id by {
                        assert(rest[j] == stores[j + 1]);
                    }
                }
            }
        } else {
            assert(stores[0].id == id);
        }
    }
}

/// A running task goes on just where its store is carried over, and is stopped otherwise.
pub proof fn law_tasks_go_on_with_their_stores(
    running: Seq<Seq<char>>,
    carried_over: Seq<Seq<char>>,
    id: Seq<char>,
)
    ensures
        both(running, carried_over).contains(id) <==> running.contains(id) && carried_over.contains(
            id,
        ),
        without(running, carried_over).contains(id) <==> running.contains(id)
            && !carried_over.contains(id),
{
    law_no_refresher_is_orphaned(running, carried_over, id);
    lemma_stopped_not_carried(running, carried_over, id);
}

proof fn lemma_stopped_not_carried(
    running: Seq<Seq<char>>,
    carried_over: Seq<Seq<char>>,
    id: Seq<char>,
)
    ensures
        without(running, carried_over).contains(id) ==> !carried_over.contains(id),
    decreases running.len(),
{
    reveal(Seq::filter);
    if running.len() > 0 {
        let rest = running.drop_last();
        lemma_stopped_not_carried(rest, carried_over, id);
        let w = without(rest, carried_over);
        assert(running =~= rest.push(running.last()));
        lemma_push_contains(w, running.last(), id);
    } else {
        assert(without(running, carried_over) =~= Seq::empty());
    }
}

/// The tasks that are carried over are those of the providers whose store is kept.
pub proof fn law_carried_tasks_are_those_of_kept_providers(
    defs: Seq<DefinitionView>,
    steps: Seq<StoreStep>,
    stores: Seq<TrustedStore>,
    id: Seq<char>,
)
    ensures
        carried_ids(defs, steps, stores).contains(id) <==> exists|i: int|
            0 <= i < steps.len() && defs[i].id == id && ((
            #[trigger] steps[i]) matches StoreStep::Reuse(k) && stores[k as int] is Oidc),
    decreases steps.len(),
{
    if steps.len() > 0 {
        let init = steps.drop_last();
        let last = steps.len() - 1;
        law_carried_tasks_are_those_of_kept_providers(defs, init, stores, id);
        assert(steps.last() == steps[last]);
        lemma_push_contains(carried_ids(defs, init, stores), defs[last].id, id);
        if exists|i: int|
            0 <= i < init.len() && defs[i].id == id && ((
            #[trigger] init[i]) matches StoreStep::Reuse(k) && stores[k as int] is Oidc) {
            let i = choose|i: int|
                0 <= i < init.len() && defs[i].id == id && ((
                #[trigger] init[i]) matches StoreStep::Reuse(k) && stores[k as int] is Oidc);
            assert(steps[i] == init[i]);
        }
        if exists|i: int|
            0 <= i < steps.len() && defs[i].id == id && ((
            #[trigger] steps[i]) matches StoreStep::Reuse(k) && stores[k as int] is Oidc) {
            let i = choose|i: int|
                0 <= i < steps.len() && defs[i].id == id && ((
                #[trigger] steps[i]) matches StoreStep::Reuse(k) && stores[k as int] is Oidc);
            if i < last {
                assert(init[i] == steps[i]);
            }
        }
    }
}

/// The tasks that are started are those of the providers whose store was built, each with the
/// store that was built at its turn.
pub proof fn law_started_tasks_are_those_of_built_providers(
    defs: Seq<DefinitionView>,
    steps: Seq<StoreStep>,
    built: Seq<TrustedStore>,
    id: Seq<char>,
)
    ensures
        spawned_ids(defs, steps, built).contains(id) <==> exists|i: int|
            0 <= i < steps.len() && defs[i].id == id && (#[trigger] steps[i]) is Build
                && built[builds(steps.take(i)) as int] is Oidc,
    decreases steps.len(),
{
    if steps.len() > 0 {
        let init = steps.drop_last();
        let last = steps.len() - 1;
        law_started_tasks_are_those_of_built_providers(defs, init, built, id);
        assert(steps.last() == steps[last]);
        assert(steps.take(last) =~= init);
        lemma_push_contains(spawned_ids(defs, init, built), defs[last].id, id);
        if exists|i: int|
            0 <= i < init.len() && defs[i].id == id && (#[trigger] init[i]) is Build
                && built[builds(init.take(i)) as int] is Oidc {
            let i = choose|i: int|
                0 <= i < init.len() && defs[i].id == id && (#[trigger] init[i]) is Build
                    && built[builds(init.take(i)) as int] is Oidc;
            assert(init.take(i) =~= steps.take(i));
            assert(steps[i] == init[i]);
        }
        if exists|i: int|
            0 <= i < steps.len() && defs[i].id == id && (#[trigger] steps[i]) is Build
                && built[builds(steps.take(i)) as int] is Oidc {
            let i = choose|i: int|
                0 <= i < steps.len() && defs[i].id == id && (#[trigger] steps[i]) is Build
                    && built[builds(steps.take(i)) as int] is Oidc;
            if i < last {
                assert(init.take(i) =~= steps.take(i));
                assert(init[i] == steps[i]);
            }
        }
    }
}

/// The stores that are built are counted one by one, and kept ones are not counted.
pub proof fn law_built_stores_are_counted(steps: Seq<StoreStep>, k: usize)
    ensures
        builds(Seq::empty()) == 0,
        builds(steps.push(StoreStep::Build)) == builds(steps) + 1,
        builds(steps.push(StoreStep::Reuse(k))) == builds(steps),
{
    assert(steps.push(StoreStep::Build).drop_last() =~= steps);
    assert(steps.push(StoreStep::Reuse(k)).drop_last() =~= steps);
}

} // verus!
