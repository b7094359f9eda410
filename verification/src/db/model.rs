//! What the records of actors become: the model of releasing, claiming and
//! writing them.
use vstd::prelude::*;

use crate::actor::{attr_text, list_text, storable, ActorView};
use crate::attribute::AttrView;
use crate::db::addr::{address_in, is_address, law_addresses_have_one_text};
use crate::db::keys::{
    actor_key, attrs_key, host_key, hostnames_key, service_key, services_key, KEY_ADAPTERS,
    KEY_NODES,
};
use crate::db::store::Keyspace;
use crate::text::{lemma_text_le_antisymmetric, text_le};

verus! {

/// What stands under one key.
#[verifier::ext_equal]
pub struct Entry {
    pub hash: Map<Seq<char>, Seq<char>>,
    pub set: Set<Seq<char>>,
}

impl Entry {
    /// Nothing.
    pub open spec fn none() -> Entry {
        Entry { hash: Map::empty(), set: Set::empty() }
    }

    /// With a field set.
    pub open spec fn put(self, field: Seq<char>, value: Seq<char>) -> Entry {
        Entry { hash: self.hash.insert(field, value), ..self }
    }

    /// With a member.
    pub open spec fn with(self, member: Seq<char>) -> Entry {
        Entry { set: self.set.insert(member), ..self }
    }

    /// Without a member.
    pub open spec fn without(self, member: Seq<char>) -> Entry {
        Entry { set: self.set.remove(member), ..self }
    }

    /// The value of a field.
    pub open spec fn get(self, field: Seq<char>) -> Option<Seq<char>> {
        if self.hash.contains_key(field) {
            Some(self.hash[field])
        } else {
            None
        }
    }
}

impl Keyspace {
    /// What stands under a key.
    pub open spec fn at(self, key: Seq<char>) -> Entry {
        Entry {
            hash: Map::new(
                |f: Seq<char>| self.fields.contains_key((key, f)),
                |f: Seq<char>| self.fields[(key, f)],
            ),
            set: Set::new(|m: Seq<char>| self.members.contains((key, m))),
        }
    }
}

/// Two databases that hold the same under every key are the same.
pub proof fn lemma_same(a: Keyspace, b: Keyspace)
    requires
        forall|k: Seq<char>| #[trigger] a.at(k) == b.at(k),
    ensures
        a == b,
{
    assert forall|p: (Seq<char>, Seq<char>)| #[trigger]
        a.fields.contains_key(p) == b.fields.contains_key(p) by {
        assert(a.at(p.0) == b.at(p.0));
        assert(a.at(p.0).hash.contains_key(p.1) == b.at(p.0).hash.contains_key(p.1));
    }
    assert forall|p: (Seq<char>, Seq<char>)| #[trigger] a.fields.contains_key(p) implies a.fields[p]
        == b.fields[p] by {
        assert(a.at(p.0) == b.at(p.0));
        assert(a.at(p.0).hash.contains_key(p.1));
        assert(a.at(p.0).hash[p.1] == b.at(p.0).hash[p.1]);
    }
    assert forall|p: (Seq<char>, Seq<char>)| #[trigger]
        a.members.contains(p) == b.members.contains(p) by {
        assert(a.at(p.0) == b.at(p.0));
        assert(a.at(p.0).set.contains(p.1) == b.at(p.0).set.contains(p.1));
    }
    assert(a.fields =~= b.fields);
    assert(a.members =~= b.members);
}

pub broadcast proof fn at_hset(ks: Keyspace, k: Seq<char>, f: Seq<char>, v: Seq<char>, q: Seq<char>)
    ensures
        #[trigger] ks.hset(k, f, v).at(q) == (if q == k {
            ks.at(q).put(f, v)
        } else {
            ks.at(q)
        }),
{
    let after = ks.hset(k, f, v).at(q);
    if q == k {
        assert(after =~= ks.at(q).put(f, v));
    } else {
        assert(after =~= ks.at(q));
    }
}

pub broadcast proof fn at_hset_nx(
    ks: Keyspace,
    k: Seq<char>,
    f: Seq<char>,
    v: Seq<char>,
    q: Seq<char>,
)
    ensures
        #[trigger] ks.hset_nx(k, f, v).at(q) == (if q == k && ks.at(k).get(f) is None {
            ks.at(q).put(f, v)
        } else {
            ks.at(q)
        }),
{
    at_hset(ks, k, f, v, q);
}

pub broadcast proof fn at_del(ks: Keyspace, k: Seq<char>, q: Seq<char>)
    ensures
        #[trigger] ks.del(k).at(q) == (if q == k {
            Entry::none()
        } else {
            ks.at(q)
        }),
{
    let after = ks.del(k).at(q);
    if q == k {
        assert(after =~= Entry::none());
    } else {
        assert(after =~= ks.at(q));
    }
}

pub broadcast proof fn at_sadd(ks: Keyspace, k: Seq<char>, m: Seq<char>, q: Seq<char>)
    ensures
        #[trigger] ks.sadd(k, m).at(q) == (if q == k {
            ks.at(q).with(m)
        } else {
            ks.at(q)
        }),
{
    let after = ks.sadd(k, m).at(q);
    if q == k {
        assert(after =~= ks.at(q).with(m));
    } else {
        assert(after =~= ks.at(q));
    }
}

pub broadcast proof fn at_srem(ks: Keyspace, k: Seq<char>, m: Seq<char>, q: Seq<char>)
    ensures
        #[trigger] ks.srem(k, m).at(q) == (if q == k {
            ks.at(q).without(m)
        } else {
            ks.at(q)
        }),
{
    let after = ks.srem(k, m).at(q);
    if q == k {
        assert(after =~= ks.at(q).without(m));
    } else {
        assert(after =~= ks.at(q));
    }
}

/// Reading a field, a member or the presence of a key goes by what stands under
/// the key.
pub broadcast proof fn reads_by_entry(ks: Keyspace, k: Seq<char>)
    ensures
        #![trigger ks.at(k)]
        forall|f: Seq<char>| #[trigger] ks.hget(k, f) == ks.at(k).get(f),
        forall|m: Seq<char>| #[trigger] ks.has(k, m) == ks.at(k).set.contains(m),
        ks.set(k) == ks.at(k).set,
        ks.present(k) == (ks.at(k) != Entry::none()),
{
    let e = ks.at(k);
    assert(ks.set(k) =~= e.set);
    if ks.present(k) {
        if exists|f: Seq<char>| ks.fields.contains_key((k, f)) {
            let f = choose|f: Seq<char>| ks.fields.contains_key((k, f));
            assert(e.hash.contains_key(f));
            assert(!Entry::none().hash.contains_key(f));
        } else {
            let m = choose|m: Seq<char>| ks.has(k, m);
            assert(e.set.contains(m));
            assert(!Entry::none().set.contains(m));
        }
    } else {
        assert forall|f: Seq<char>| !e.hash.contains_key(f) by {
            assert(!ks.fields.contains_key((k, f)));
        }
        assert forall|m: Seq<char>| !e.set.contains(m) by {
            assert(!ks.has(k, m));
        }
        assert(e =~= Entry::none());
    }
}

pub broadcast group group_entries {
    at_hset,
    at_hset_nx,
    at_del,
    at_sadd,
    at_srem,
    reads_by_entry,
}

/// The owner of a service.
pub open spec fn service_owner(ks: Keyspace, name: Seq<char>) -> Option<Seq<char>> {
    ks.hget(service_key(name), "zpr_addr"@)
}

/// The holder of a host name.
pub open spec fn host_owner(ks: Keyspace, name: Seq<char>) -> Option<Seq<char>> {
    ks.hget(host_key(name), "zpr_addr"@)
}

/// Another live actor than `addr` claims the service, under a text `c` of its address.
pub open spec fn claims(ks: Keyspace, name: Seq<char>, addr: Seq<char>, c: Seq<char>) -> bool {
    address_in(c) is Some && c != addr && ks.has(services_key(c), name) && ks.present(actor_key(c))
}

/// The claimant whose address is written first in order.
pub open spec fn first_claimant(
    ks: Keyspace,
    name: Seq<char>,
    addr: Seq<char>,
    c: Seq<char>,
) -> bool {
    claims(ks, name, addr, c) && forall|d: Seq<char>|
        #[trigger] claims(ks, name, addr, d) ==> text_le(address_in(c)->0, address_in(d)->0)
}

/// The actor that takes a service over from `addr`: of the other live actors that
/// claim it, the one whose address comes first.
pub open spec fn successor(ks: Keyspace, name: Seq<char>, addr: Seq<char>) -> Option<Seq<char>> {
    if exists|c: Seq<char>| first_claimant(ks, name, addr, c) {
        address_in(choose|c: Seq<char>| first_claimant(ks, name, addr, c))
    } else {
        None
    }
}

pub proof fn lemma_successor_some(ks: Keyspace, name: Seq<char>, addr: Seq<char>, c: Seq<char>)
    requires
        first_claimant(ks, name, addr, c),
    ensures
        successor(ks, name, addr) == address_in(c),
{
    let d = choose|d: Seq<char>| first_claimant(ks, name, addr, d);
    assert(first_claimant(ks, name, addr, d));
    assert(claims(ks, name, addr, c) && claims(ks, name, addr, d));
    lemma_text_le_antisymmetric(address_in(c)->0, address_in(d)->0);
}

pub proof fn lemma_successor_none(ks: Keyspace, name: Seq<char>, addr: Seq<char>)
    requires
        forall|c: Seq<char>| !#[trigger] claims(ks, name, addr, c),
    ensures
        successor(ks, name, addr) is None,
{
    assert forall|c: Seq<char>| !first_claimant(ks, name, addr, c) by {
        assert(!claims(ks, name, addr, c));
    }
}

pub proof fn lemma_successor_claims(ks: Keyspace, name: Seq<char>, addr: Seq<char>)
    ensures
        successor(ks, name, addr) matches Some(a) ==> is_address(a) && exists|c: Seq<char>|
            #[trigger] claims(ks, name, addr, c) && address_in(c) == Some(a),
{
    if successor(ks, name, addr) is Some {
        let c = choose|c: Seq<char>| first_claimant(ks, name, addr, c);
        assert(first_claimant(ks, name, addr, c));
        law_addresses_have_one_text(c);
    }
}

/// Successors depend on the records and the services of the other actors alone.
pub proof fn lemma_successor_frame(a: Keyspace, b: Keyspace, name: Seq<char>, addr: Seq<char>)
    requires
        forall|c: Seq<char>|
            address_in(c) is Some && c != addr ==> #[trigger] a.at(services_key(c)) == b.at(
                services_key(c),
            ) && a.at(actor_key(c)) == b.at(actor_key(c)),
    ensures
        successor(a, name, addr) == successor(b, name, addr),
{
    broadcast use group_entries;

    assert forall|c: Seq<char>| #[trigger] claims(a, name, addr, c) == claims(b, name, addr, c) by {
        if address_in(c) is Some && c != addr {
            assert(a.at(services_key(c)) == b.at(services_key(c)));
            assert(a.at(actor_key(c)) == b.at(actor_key(c)));
        }
    }
    assert forall|c: Seq<char>| #[trigger]
        first_claimant(a, name, addr, c) == first_claimant(b, name, addr, c) by {
        if first_claimant(a, name, addr, c) {
            assert forall|d: Seq<char>| #[trigger] claims(b, name, addr, d) implies text_le(
                address_in(c)->0,
                address_in(d)->0,
            ) by {
                assert(claims(a, name, addr, d));
            }
        }
        if first_claimant(b, name, addr, c) {
            assert forall|d: Seq<char>| #[trigger] claims(a, name, addr, d) implies text_le(
                address_in(c)->0,
                address_in(d)->0,
            ) by {
                assert(claims(b, name, addr, d));
            }
        }
    }
    if exists|c: Seq<char>| first_claimant(a, name, addr, c) {
        let c = choose|c: Seq<char>| first_claimant(a, name, addr, c);
        lemma_successor_some(a, name, addr, c);
        lemma_successor_some(b, name, addr, c);
    } else {
        assert forall|c: Seq<char>| !first_claimant(b, name, addr, c) by {
            assert(first_claimant(a, name, addr, c) == first_claimant(b, name, addr, c));
        }
    }
}

/// What stands under the key of a service once `addr` has let it go: nothing
/// changes unless `addr` owns it; then the successor takes it over, and without one
/// nothing is left.
pub open spec fn let_go(ks: Keyspace, name: Seq<char>, addr: Seq<char>) -> Entry {
    if service_owner(ks, name) == Some(addr) {
        match successor(ks, name, addr) {
            Some(c) => ks.at(service_key(name)).put("zpr_addr"@, c),
            None => Entry::none(),
        }
    } else {
        ks.at(service_key(name))
    }
}

/// `addr` has let the named services go, and nothing else has changed.
pub open spec fn services_released(
    ks: Keyspace,
    after: Keyspace,
    addr: Seq<char>,
    names: Set<Seq<char>>,
) -> bool {
    &&& forall|n: Seq<char>|
        names.contains(n) ==> #[trigger] after.at(service_key(n)) == let_go(ks, n, addr)
    &&& forall|k: Seq<char>|
        (forall|n: Seq<char>| names.contains(n) ==> k != #[trigger] service_key(n))
            ==> #[trigger] after.at(k) == ks.at(k)
}

/// What stands under the key of a host name once `addr` has let it go: nothing
/// changes unless `addr` holds it, and then nothing is left.
pub open spec fn let_host_go(ks: Keyspace, name: Seq<char>, addr: Seq<char>) -> Entry {
    if host_owner(ks, name) == Some(addr) {
        Entry::none()
    } else {
        ks.at(host_key(name))
    }
}

/// `addr` has let the named host names go, and nothing else has changed.
pub open spec fn hosts_released(
    ks: Keyspace,
    after: Keyspace,
    addr: Seq<char>,
    names: Set<Seq<char>>,
) -> bool {
    &&& forall|n: Seq<char>|
        names.contains(n) ==> #[trigger] after.at(host_key(n)) == let_host_go(ks, n, addr)
    &&& forall|k: Seq<char>|
        (forall|n: Seq<char>| names.contains(n) ==> k != #[trigger] host_key(n))
            ==> #[trigger] after.at(k) == ks.at(k)
}

/// The key is one of the four under which an actor's own records stand.
pub open spec fn own_key(addr: Seq<char>, k: Seq<char>) -> bool {
    k == actor_key(addr) || k == attrs_key(addr) || k == services_key(addr) || k == hostnames_key(
        addr,
    )
}

/// The key is that of a service which the actor offers.
pub open spec fn offered_key(ks: Keyspace, addr: Seq<char>, k: Seq<char>) -> bool {
    exists|n: Seq<char>| ks.has(services_key(addr), n) && k == #[trigger] service_key(n)
}

/// The key is that of a host name which the actor has claimed.
pub open spec fn claimed_key(ks: Keyspace, addr: Seq<char>, k: Seq<char>) -> bool {
    exists|n: Seq<char>| ks.has(hostnames_key(addr), n) && k == #[trigger] host_key(n)
}

/// Everything about the actor at `addr` is gone: its own records, its place in the
/// role sets, the services that it owned (taken over by their successors) and the
/// host names that it held. Nothing else has changed.
pub open spec fn cleaned(ks: Keyspace, after: Keyspace, addr: Seq<char>) -> bool {
    &&& forall|k: Seq<char>| own_key(addr, k) ==> #[trigger] after.at(k) == Entry::none()
    &&& after.at(KEY_NODES@) == ks.at(KEY_NODES@).without(addr)
    &&& after.at(KEY_ADAPTERS@) == ks.at(KEY_ADAPTERS@).without(addr)
    &&& forall|n: Seq<char>|
        ks.has(services_key(addr), n) ==> #[trigger] after.at(service_key(n)) == let_go(
            ks,
            n,
            addr,
        )
    &&& forall|n: Seq<char>|
        ks.has(hostnames_key(addr), n) ==> #[trigger] after.at(host_key(n)) == let_host_go(
            ks,
            n,
            addr,
        )
    &&& forall|k: Seq<char>|
        !own_key(addr, k) && k != KEY_NODES@ && k != KEY_ADAPTERS@ && !offered_key(ks, addr, k)
            && !claimed_key(ks, addr, k) ==> #[trigger] after.at(k) == ks.at(k)
}

/// With the attributes written under a key. One that cannot be stored leaves an
/// empty text.
pub open spec fn with_attrs(ks: Keyspace, key: Seq<char>, attrs: Seq<AttrView>) -> Keyspace
    decreases attrs.len(),
{
    if attrs.len() == 0 {
        ks
    } else {
        with_attrs(ks, key, attrs.drop_last()).hset(
            key,
            attrs.last().key,
            if storable(attrs.last()) {
                attr_text(attrs.last())
            } else {
                ""@
            },
        )
    }
}

/// With the record of an actor written: which keys identify it, when it was
/// created and when it was last updated.
pub open spec fn with_record(
    ks: Keyspace,
    addr: Seq<char>,
    identity_keys: Seq<Seq<char>>,
    ts: Seq<char>,
) -> Keyspace {
    let key = actor_key(addr);
    ks.hset(key, "identity_keys"@, list_text(identity_keys)).hset_nx(key, "ctime"@, ts).hset(
        key,
        "utime"@,
        ts,
    )
}

/// With the services of an actor that connects: it becomes the owner of each.
pub open spec fn with_services(ks: Keyspace, addr: Seq<char>, names: Seq<Seq<char>>) -> Keyspace
    decreases names.len(),
{
    if names.len() == 0 {
        ks
    } else {
        with_services(ks, addr, names.drop_last()).hset(
            service_key(names.last()),
            "zpr_addr"@,
            addr,
        ).sadd(services_key(addr), names.last())
    }
}

/// With one service of an actor that is refreshed: it becomes the owner only where
/// no other actor is.
pub open spec fn with_refreshed(ks: Keyspace, addr: Seq<char>, name: Seq<char>) -> Keyspace {
    let claimed = if service_owner(ks, name) matches Some(o) && o != addr {
        ks
    } else {
        ks.hset(service_key(name), "zpr_addr"@, addr)
    };
    claimed.sadd(services_key(addr), name)
}

/// With the services of an actor that is refreshed.
pub open spec fn with_refreshed_services(
    ks: Keyspace,
    addr: Seq<char>,
    names: Seq<Seq<char>>,
) -> Keyspace
    decreases names.len(),
{
    if names.len() == 0 {
        ks
    } else {
        with_refreshed(with_refreshed_services(ks, addr, names.drop_last()), addr, names.last())
    }
}

/// A lower-case letter or a digit.
pub open spec fn edge_char(c: char) -> bool {
    'a' <= c <= 'z' || '0' <= c <= '9'
}

/// A host name label: 1 to 63 lower-case letters, digits and dashes, with no dash
/// at either end.
pub open spec fn valid_label(s: Seq<char>) -> bool {
    &&& 1 <= s.len() <= 63
    &&& edge_char(s[0])
    &&& edge_char(s.last())
    &&& forall|i: int| 0 <= i < s.len() ==> edge_char(#[trigger] s[i]) || s[i] == '-'
}

/// The name may be claimed at all: it is a label, and no service of the policy is
/// called so.
pub open spec fn claimable(name: Seq<char>, policy: Set<Seq<char>>) -> bool {
    valid_label(name) && !policy.contains(name)
}

/// What has come of claims so far.
pub struct Claims {
    pub ks: Keyspace,
    /// Names that another actor or a service of the policy keeps.
    pub lost: Seq<Seq<char>>,
    /// How many claims were rejected.
    pub rejected: nat,
}

/// One more claim. The first claim of a name wins, and claiming a name again that
/// one holds changes nothing.
pub open spec fn claim(
    so_far: Claims,
    addr: Seq<char>,
    policy: Set<Seq<char>>,
    name: Seq<char>,
) -> Claims {
    if !valid_label(name) {
        Claims { rejected: so_far.rejected + 1, ..so_far }
    } else if policy.contains(name) || (host_owner(so_far.ks, name) matches Some(o) && o != addr) {
        Claims { rejected: so_far.rejected + 1, lost: so_far.lost.push(name), ..so_far }
    } else {
        Claims {
            ks: so_far.ks.hset_nx(host_key(name), "zpr_addr"@, addr).sadd(
                hostnames_key(addr),
                name,
            ),
            ..so_far
        }
    }
}

/// What comes of claims, one after the other.
pub open spec fn claim_all(
    ks: Keyspace,
    addr: Seq<char>,
    policy: Set<Seq<char>>,
    names: Seq<Seq<char>>,
) -> Claims
    decreases names.len(),
{
    if names.len() == 0 {
        Claims { ks, lost: Seq::empty(), rejected: 0 }
    } else {
        claim(claim_all(ks, addr, policy, names.drop_last()), addr, policy, names.last())
    }
}

/// The host names that an actor has claimed and may no longer keep: those that it
/// stopped claiming, and those that may not be claimed any more.
pub open spec fn given_up(
    ks: Keyspace,
    addr: Seq<char>,
    policy: Set<Seq<char>>,
    names: Seq<Seq<char>>,
) -> Set<Seq<char>> {
    Set::new(
        |n: Seq<char>|
            ks.has(hostnames_key(addr), n) && !(names.contains(n) && claimable(n, policy)),
    )
}

/// The actor's claims to host names have been brought up to date: names given up
/// are released, the others claimed, the lost ones noted in its record, and the
/// rejected ones counted.
pub open spec fn hosts_claimed(
    ks: Keyspace,
    after: Keyspace,
    addr: Seq<char>,
    policy: Set<Seq<char>>,
    names: Seq<Seq<char>>,
    rejected: nat,
) -> bool {
    exists|mid: Keyspace| #[trigger]
        hosts_released(ks, mid, addr, given_up(ks, addr, policy, names)) && noted(
            claim_all(mid.del(hostnames_key(addr)), addr, policy, names),
            after,
            addr,
            rejected,
        )
}

/// The outcome of claims, with the lost names noted in the actor's record.
pub open spec fn noted(c: Claims, after: Keyspace, addr: Seq<char>, rejected: nat) -> bool {
    after == c.ks.hset(actor_key(addr), "hostname_conflicts"@, list_text(c.lost)) && rejected
        == c.rejected
}

/// Whether every attribute can be stored.
pub open spec fn all_storable(attrs: Seq<AttrView>) -> bool {
    forall|i: int| 0 <= i < attrs.len() ==> storable(#[trigger] attrs[i])
}

/// The role set that an actor belongs to.
pub open spec fn role_key(actor: ActorView) -> Seq<char> {
    if actor.is_node() {
        KEY_NODES@
    } else {
        KEY_ADAPTERS@
    }
}

/// The records of an actor as they stand before its host names are claimed on
/// connecting, where `ks` holds nothing about it.
pub open spec fn connected(ks: Keyspace, actor: ActorView, addr: Seq<char>, ts: Seq<char>) -> Keyspace {
    with_services(
        with_record(
            with_attrs(ks, attrs_key(addr), actor.attrs),
            addr,
            actor.identity_keys,
            ts,
        ),
        addr,
        actor.services(),
    )
}

/// The actor has been added: whatever stood at its address is cleaned up, and its
/// records are written anew.
pub open spec fn added(
    ks: Keyspace,
    after: Keyspace,
    actor: ActorView,
    addr: Seq<char>,
    policy: Set<Seq<char>>,
    ts: Seq<char>,
    rejected: nat,
) -> bool {
    exists|clean: Keyspace, claimed: Keyspace|
        #![trigger cleaned(ks, clean, addr), hosts_claimed(
            connected(clean, actor, addr, ts),
            claimed,
            addr,
            policy,
            actor.hostnames(),
            rejected,
        )]
        cleaned(ks, clean, addr) && hosts_claimed(
            connected(clean, actor, addr, ts),
            claimed,
            addr,
            policy,
            actor.hostnames(),
            rejected,
        ) && after == claimed.sadd(role_key(actor), addr)
}

/// The records of an actor as they stand before it lets services go on a refresh.
pub open spec fn rewritten(ks: Keyspace, actor: ActorView, addr: Seq<char>, ts: Seq<char>) -> Keyspace {
    with_record(
        with_attrs(ks.del(attrs_key(addr)), attrs_key(addr), actor.attrs),
        addr,
        actor.identity_keys,
        ts,
    )
}

/// The services that an actor no longer offers.
pub open spec fn dropped_services(ks: Keyspace, addr: Seq<char>, current: Seq<Seq<char>>) -> Set<
    Seq<char>,
> {
    Set::new(|n: Seq<char>| ks.has(services_key(addr), n) && !current.contains(n))
}

/// The actor has been refreshed: its records are rewritten, the services that it
/// no longer offers are let go, and the others kept or claimed where they are free.
pub open spec fn refreshed(
    ks: Keyspace,
    after: Keyspace,
    actor: ActorView,
    addr: Seq<char>,
    policy: Set<Seq<char>>,
    ts: Seq<char>,
    rejected: nat,
) -> bool {
    exists|mid: Keyspace|
        #![trigger services_released(
            rewritten(ks, actor, addr, ts),
            mid,
            addr,
            dropped_services(ks, addr, actor.services()),
        )]
        services_released(
            rewritten(ks, actor, addr, ts),
            mid,
            addr,
            dropped_services(ks, addr, actor.services()),
        ) && hosts_claimed(
            with_refreshed_services(mid.del(services_key(addr)), addr, actor.services()),
            after,
            addr,
            policy,
            actor.hostnames(),
            rejected,
        )
}

/// A label has one to 63 characters, all of them letters of lower case, digits or dashes, and
/// neither begins nor ends with a dash; and whatever is so is a label.
pub proof fn law_label_is_letters_digits_and_inner_dashes(s: Seq<char>)
    ensures
        valid_label(s) <==> {
            &&& s.len() > 0
            &&& s.len() < 64
            &&& s[0] != '-'
            &&& s[s.len() - 1] != '-'
            &&& forall|i: int|
                0 <= i < s.len() ==> (97 <= (#[trigger] s[i]) as int <= 122) || (48 <= s[i] as int
                    <= 57) || s[i] == '-'
        },
{
    if s.len() > 0 && (forall|i: int|
        0 <= i < s.len() ==> (97 <= (#[trigger] s[i]) as int <= 122) || (48 <= s[i] as int <= 57)
            || s[i] == '-') {
        assert(s.last() == s[s.len() - 1]);
        assert forall|i: int| 0 <= i < s.len() implies edge_char(#[trigger] s[i]) || s[i]
            == '-' by {}
    }
}

} // verus!
