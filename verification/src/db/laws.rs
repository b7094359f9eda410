//! What holds of the records of actors, whatever happens to them.
use vstd::prelude::*;

use crate::actor::{
    attr_of, attr_text, distinct_keys, list_text, storable, stored_attr, with_attr, ActorView,
};
use crate::attribute::AttrView;
use crate::db::actor::{
    lemma_push_contains, lemma_released_frame, lemma_rewritten_frame, reads_back,
};
use crate::db::addr::{address_in, is_address};
use crate::db::keys::{
    actor_key, attrs_key, host_key, hostnames_key, lemma_actor_keys_differ, lemma_kinds_differ,
    lemma_name_keys_differ, of_actor, service_key, services_key, KEY_ADAPTERS, KEY_NODES,
};
use crate::db::lookup::{loaded, loaded_attrs};
use crate::db::model::{
    added, all_storable, claim_all, claimable, claimed_key, claims, cleaned, connected,
    dropped_services, given_up, group_entries, host_owner, hosts_claimed, hosts_released,
    lemma_successor_claims, lemma_successor_frame, let_go, let_host_go, noted, offered_key, own_key, refreshed, rewritten,
    role_key, service_owner, services_released, successor, valid_label, with_attrs, with_record,
    with_refreshed_services, with_services, Entry,
};
use crate::db::store::{lists_fields, Keyspace};

verus! {

broadcast use group_entries;

/// Every service belongs to an actor that offers it, and every host name to one
/// that has claimed it. Services are offered under addresses as they are written.
pub open spec fn consistent(ks: Keyspace) -> bool {
    &&& forall|c: Seq<char>, n: Seq<char>|
        address_in(c) is Some && #[trigger] ks.has(services_key(c), n) ==> is_address(c)
    &&& forall|n: Seq<char>|
        #![trigger service_owner(ks, n)]
        service_owner(ks, n) matches Some(a) ==> is_address(a) && ks.has(services_key(a), n)
    &&& forall|n: Seq<char>|
        #![trigger host_owner(ks, n)]
        host_owner(ks, n) matches Some(a) ==> is_address(a) && ks.has(hostnames_key(a), n)
}

/// The database that holds nothing is consistent.
pub proof fn law_empty_database_is_consistent()
    ensures
        consistent(Keyspace::empty()),
{
}

proof fn lemma_cleaned_service(ks: Keyspace, after: Keyspace, addr: Seq<char>, n: Seq<char>)
    requires
        is_address(addr),
        cleaned(ks, after, addr),
    ensures
        service_owner(after, n) == (if ks.has(services_key(addr), n) && service_owner(ks, n)
            == Some(addr) {
            successor(ks, n, addr)
        } else {
            service_owner(ks, n)
        }),
{
    let q = service_key(n);
    lemma_kinds_differ(addr, n);
    assert(after.at(q).get("zpr_addr"@) == service_owner(after, n));
    assert(ks.at(q).get("zpr_addr"@) == service_owner(ks, n));
    if ks.has(services_key(addr), n) {
        assert(after.at(q) == let_go(ks, n, addr));
    } else {
        assert(!offered_key(ks, addr, q)) by {
            assert forall|m: Seq<char>| ks.has(services_key(addr), m) implies q != #[trigger] service_key(
                m,
            ) by {
                lemma_name_keys_differ(m, n);
            }
        }
        assert(!claimed_key(ks, addr, q)) by {
            assert forall|m: Seq<char>| q != #[trigger] host_key(m) by {
                lemma_name_keys_differ(n, m);
            }
        }
        assert(after.at(q) == ks.at(q));
    }
}

proof fn lemma_cleaned_host(ks: Keyspace, after: Keyspace, addr: Seq<char>, n: Seq<char>)
    requires
        is_address(addr),
        cleaned(ks, after, addr),
    ensures
        host_owner(after, n) == (if ks.has(hostnames_key(addr), n) && host_owner(ks, n) == Some(
            addr,
        ) {
            None
        } else {
            host_owner(ks, n)
        }),
{
    let q = host_key(n);
    lemma_kinds_differ(addr, n);
    assert(after.at(q).get("zpr_addr"@) == host_owner(after, n));
    assert(ks.at(q).get("zpr_addr"@) == host_owner(ks, n));
    if ks.has(hostnames_key(addr), n) {
        assert(after.at(q) == let_host_go(ks, n, addr));
    } else {
        assert(!claimed_key(ks, addr, q)) by {
            assert forall|m: Seq<char>| ks.has(hostnames_key(addr), m) implies q
                != #[trigger] host_key(m) by {
                lemma_name_keys_differ(m, n);
            }
        }
        assert(!offered_key(ks, addr, q)) by {
            assert forall|m: Seq<char>| q != #[trigger] service_key(m) by {
                lemma_name_keys_differ(m, n);
            }
        }
        assert(after.at(q) == ks.at(q));
    }
}

/// The records of every other actor are untouched by a clean-up.
proof fn lemma_cleaned_other(ks: Keyspace, after: Keyspace, addr: Seq<char>, other: Seq<char>)
    requires
        is_address(addr),
        address_in(other) is Some,
        other != addr,
        cleaned(ks, after, addr),
    ensures
        after.at(services_key(other)) == ks.at(services_key(other)),
        after.at(hostnames_key(other)) == ks.at(hostnames_key(other)),
        after.at(actor_key(other)) == ks.at(actor_key(other)),
        after.at(attrs_key(other)) == ks.at(attrs_key(other)),
{
    lemma_actor_keys_differ(addr, other);
    lemma_actor_keys_differ(other, addr);
    lemma_kinds_differ(other, addr);
    assert forall|k: Seq<char>| of_actor(k) && !own_key(addr, k) implies #[trigger] after.at(k)
        == ks.at(k) by {
        lemma_kinds_differ(addr, addr);
        assert(!offered_key(ks, addr, k)) by {
            assert forall|m: Seq<char>| k != #[trigger] service_key(m) by {
                lemma_kinds_differ(addr, m);
            }
        }
        assert(!claimed_key(ks, addr, k)) by {
            assert forall|m: Seq<char>| k != #[trigger] host_key(m) by {
                lemma_kinds_differ(addr, m);
            }
        }
    }
}

/// An actor that leaves takes nothing from the others: services and host names
/// that another actor has stay with it, and so do its records.
pub proof fn law_departure_spares_the_others(
    ks: Keyspace,
    after: Keyspace,
    addr: Seq<char>,
    other: Seq<char>,
    name: Seq<char>,
)
    requires
        is_address(addr),
        is_address(other),
        other != addr,
        cleaned(ks, after, addr),
    ensures
        service_owner(ks, name) == Some(other) ==> service_owner(after, name) == Some(other),
        host_owner(ks, name) == Some(other) ==> host_owner(after, name) == Some(other),
        after.at(actor_key(other)) == ks.at(actor_key(other)),
        after.at(attrs_key(other)) == ks.at(attrs_key(other)),
        after.at(services_key(other)) == ks.at(services_key(other)),
        after.at(hostnames_key(other)) == ks.at(hostnames_key(other)),
{
    lemma_cleaned_service(ks, after, addr, name);
    lemma_cleaned_host(ks, after, addr, name);
    lemma_cleaned_other(ks, after, addr, other);
}

/// A service that the leaving actor owned goes to another live actor that claims
/// it, the one whose address comes first; without one it is nowhere. A host name
/// that it held is free, whoever else had asked for it.
pub proof fn law_departure_hands_services_over(
    ks: Keyspace,
    after: Keyspace,
    addr: Seq<char>,
    name: Seq<char>,
)
    requires
        is_address(addr),
        cleaned(ks, after, addr),
    ensures
        ks.has(services_key(addr), name) && service_owner(ks, name) == Some(addr)
            ==> service_owner(after, name) == successor(ks, name, addr),
        ks.has(hostnames_key(addr), name) && host_owner(ks, name) == Some(addr) ==> host_owner(
            after,
            name,
        ) is None,
{
    lemma_cleaned_service(ks, after, addr, name);
    lemma_cleaned_host(ks, after, addr, name);
}

/// In a consistent database whoever takes a service over offers it.
proof fn lemma_successor_offers(ks: Keyspace, n: Seq<char>, addr: Seq<char>)
    requires
        consistent(ks),
    ensures
        successor(ks, n, addr) matches Some(a) ==> a != addr && is_address(a) && ks.has(
            services_key(a),
            n,
        ),
{
    lemma_successor_claims(ks, n, addr);
    if let Some(a) = successor(ks, n, addr) {
        let c = choose|c: Seq<char>| #[trigger]
            claims(ks, n, addr, c) && address_in(c) == Some(a);
        assert(ks.has(services_key(c), n));
    }
}

/// After an actor has left nothing of it remains, and the database is still
/// consistent.
pub proof fn law_departure_leaves_nothing_behind(ks: Keyspace, after: Keyspace, addr: Seq<char>)
    requires
        is_address(addr),
        consistent(ks),
        cleaned(ks, after, addr),
    ensures
        consistent(after),
        !after.present(actor_key(addr)),
        !after.present(attrs_key(addr)),
        !after.present(services_key(addr)),
        !after.present(hostnames_key(addr)),
        !after.has(KEY_NODES@, addr),
        !after.has(KEY_ADAPTERS@, addr),
        forall|n: Seq<char>| #[trigger] service_owner(after, n) != Some(addr),
        forall|n: Seq<char>| #[trigger] host_owner(after, n) != Some(addr),
{
    assert(after.at(actor_key(addr)) == Entry::none());
    assert(after.at(attrs_key(addr)) == Entry::none());
    assert(after.at(services_key(addr)) == Entry::none());
    assert(after.at(hostnames_key(addr)) == Entry::none());
    assert(!after.at(KEY_NODES@).set.contains(addr));
    assert(!after.at(KEY_ADAPTERS@).set.contains(addr));
    assert forall|n: Seq<char>| (#[trigger] service_owner(after, n)) is Some implies service_owner(
        after,
        n,
    )->0 != addr && is_address(service_owner(after, n)->0) && after.has(
        services_key(service_owner(after, n)->0),
        n,
    ) by {
        let a = service_owner(after, n)->0;
        lemma_cleaned_service(ks, after, addr, n);
        lemma_successor_offers(ks, n, addr);
        assert(service_owner(ks, n) is Some);
        assert(a != addr && is_address(a) && ks.has(services_key(a), n));
        lemma_cleaned_other(ks, after, addr, a);
        assert(after.at(services_key(a)).set.contains(n));
    }
    assert forall|n: Seq<char>| (#[trigger] host_owner(after, n)) is Some implies host_owner(
        after,
        n,
    )->0 != addr && is_address(host_owner(after, n)->0) && after.has(
        hostnames_key(host_owner(after, n)->0),
        n,
    ) by {
        let a = host_owner(after, n)->0;
        lemma_cleaned_host(ks, after, addr, n);
        assert(host_owner(ks, n) is Some);
        lemma_cleaned_other(ks, after, addr, a);
        assert(after.at(hostnames_key(a)).set.contains(n));
    }
    assert forall|c: Seq<char>, n: Seq<char>|
        address_in(c) is Some && #[trigger] after.has(services_key(c), n) implies is_address(c) by {
        assert(after.at(services_key(c)).set.contains(n));
        if c != addr {
            lemma_cleaned_other(ks, after, addr, c);
            assert(ks.has(services_key(c), n));
        }
    }
}

proof fn lemma_with_attrs_at(ks: Keyspace, key: Seq<char>, attrs: Seq<AttrView>, k: Seq<char>)
    ensures
        k != key ==> with_attrs(ks, key, attrs).at(k) == ks.at(k),
        with_attrs(ks, key, attrs).at(key).set == ks.at(key).set,
        forall|f: Seq<char>| #[trigger]
            with_attrs(ks, key, attrs).at(key).hash.contains_key(f) <==> ks.at(
                key,
            ).hash.contains_key(f) || (exists|i: int|
                0 <= i < attrs.len() && (#[trigger] attrs[i]).key == f),
    decreases attrs.len(),
{
    if attrs.len() > 0 {
        let init = attrs.drop_last();
        lemma_with_attrs_at(ks, key, init, k);
        let before = with_attrs(ks, key, init);
        let after = with_attrs(ks, key, attrs);
        assert forall|f: Seq<char>| #[trigger]
            after.at(key).hash.contains_key(f) <==> ks.at(key).hash.contains_key(f) || (exists|
                i: int,
            | 0 <= i < attrs.len() && (#[trigger] attrs[i]).key == f) by {
            assert(before.at(key).hash.contains_key(f) <==> ks.at(key).hash.contains_key(f) || (
            exists|i: int| 0 <= i < init.len() && (#[trigger] init[i]).key == f));
            if exists|i: int| 0 <= i < init.len() && (#[trigger] init[i]).key == f {
                let i = choose|i: int| 0 <= i < init.len() && (#[trigger] init[i]).key == f;
                assert(attrs[i].key == f);
            }
            if exists|i: int| 0 <= i < attrs.len() && (#[trigger] attrs[i]).key == f {
                let i = choose|i: int| 0 <= i < attrs.len() && (#[trigger] attrs[i]).key == f;
                if i < init.len() {
                    assert(init[i].key == f);
                }
            }
            assert(attrs[attrs.len() - 1] == attrs.last());
        }
    }
}

/// Attributes with distinct keys are all found under their keys.
proof fn lemma_with_attrs_value(ks: Keyspace, key: Seq<char>, attrs: Seq<AttrView>, i: int)
    requires
        distinct_keys(attrs),
        0 <= i < attrs.len(),
        storable(attrs[i]),
    ensures
        with_attrs(ks, key, attrs).at(key).get(attrs[i].key) == Some(attr_text(attrs[i])),
    decreases attrs.len(),
{
    let init = attrs.drop_last();
    if i < attrs.len() - 1 {
        assert(init[i] == attrs[i]);
        assert forall|a: int, b: int| 0 <= a < b < init.len() implies (#[trigger] init[a]).key != (
        #[trigger] init[b]).key by {
            assert(attrs[a] == init[a] && attrs[b] == init[b]);
        }
        lemma_with_attrs_value(ks, key, init, i);
        assert(attrs.last() == attrs[attrs.len() - 1]);
    } else {
        assert(attrs.last() == attrs[i]);
    }
}

proof fn lemma_with_services(ks: Keyspace, addr: Seq<char>, names: Seq<Seq<char>>)
    requires
        is_address(addr),
    ensures
        forall|n: Seq<char>| #[trigger]
            service_owner(with_services(ks, addr, names), n) == (if names.contains(n) {
                Some(addr)
            } else {
                service_owner(ks, n)
            }),
        forall|n: Seq<char>| #[trigger]
            with_services(ks, addr, names).has(services_key(addr), n) <==> ks.has(
                services_key(addr),
                n,
            ) || names.contains(n),
        with_services(ks, addr, names).at(services_key(addr)).hash == ks.at(
            services_key(addr),
        ).hash,
        forall|k: Seq<char>|
            k != services_key(addr) && (forall|n: Seq<char>| k != #[trigger] service_key(n))
                ==> #[trigger] with_services(ks, addr, names).at(k) == ks.at(k),
    decreases names.len(),
{
    let after = with_services(ks, addr, names);
    if names.len() > 0 {
        let init = names.drop_last();
        let x = names.last();
        let before = with_services(ks, addr, init);
        lemma_with_services(ks, addr, init);
        lemma_kinds_differ(addr, x);
        assert forall|n: Seq<char>| #[trigger] names.contains(n) <==> init.contains(n) || n
            == x by {
            lemma_push_contains(init, x, n);
            assert(names =~= init.push(x));
        }
        assert forall|n: Seq<char>| #[trigger]
            service_owner(after, n) == (if names.contains(n) {
                Some(addr)
            } else {
                service_owner(ks, n)
            }) by {
            lemma_kinds_differ(addr, n);
            lemma_name_keys_differ(n, x);
            assert(after.at(service_key(n)).get("zpr_addr"@) == service_owner(after, n));
            assert(before.at(service_key(n)).get("zpr_addr"@) == service_owner(before, n));
            assert(service_owner(before, n) == (if init.contains(n) {
                Some(addr)
            } else {
                service_owner(ks, n)
            }));
            assert(names.contains(n) <==> init.contains(n) || n == x);
        }
        assert forall|n: Seq<char>| #[trigger]
            after.has(services_key(addr), n) <==> ks.has(services_key(addr), n) || names.contains(
                n,
            ) by {
            assert(after.at(services_key(addr)).set.contains(n) == after.has(
                services_key(addr),
                n,
            ));
            assert(before.at(services_key(addr)).set.contains(n) == before.has(
                services_key(addr),
                n,
            ));
            assert(before.has(services_key(addr), n) <==> ks.has(services_key(addr), n)
                || init.contains(n));
            assert(names.contains(n) <==> init.contains(n) || n == x);
        }
        assert forall|k: Seq<char>|
            k != services_key(addr) && (forall|n: Seq<char>| k != #[trigger] service_key(
                n,
            )) implies #[trigger] after.at(k) == ks.at(k) by {
            assert(k != service_key(x));
            assert(before.at(k) == ks.at(k));
        }
    }
}

proof fn lemma_with_refreshed(ks: Keyspace, addr: Seq<char>, names: Seq<Seq<char>>)
    requires
        is_address(addr),
    ensures
        forall|n: Seq<char>| #[trigger]
            service_owner(with_refreshed_services(ks, addr, names), n) == (if names.contains(n)
                && !(service_owner(ks, n) matches Some(o) && o != addr) {
                Some(addr)
            } else {
                service_owner(ks, n)
            }),
        forall|n: Seq<char>| #[trigger]
            with_refreshed_services(ks, addr, names).has(services_key(addr), n) <==> ks.has(
                services_key(addr),
                n,
            ) || names.contains(n),
        forall|k: Seq<char>|
            k != services_key(addr) && (forall|n: Seq<char>| k != #[trigger] service_key(n))
                ==> #[trigger] with_refreshed_services(ks, addr, names).at(k) == ks.at(k),
    decreases names.len(),
{
    let after = with_refreshed_services(ks, addr, names);
    if names.len() > 0 {
        let init = names.drop_last();
        let x = names.last();
        let before = with_refreshed_services(ks, addr, init);
        lemma_with_refreshed(ks, addr, init);
        lemma_kinds_differ(addr, x);
        assert forall|n: Seq<char>| #[trigger] names.contains(n) <==> init.contains(n) || n
            == x by {
            lemma_push_contains(init, x, n);
            assert(names =~= init.push(x));
        }
        assert forall|n: Seq<char>| #[trigger]
            service_owner(after, n) == (if names.contains(n) && !(service_owner(ks, n) matches Some(
                o,
            ) && o != addr) {
                Some(addr)
            } else {
                service_owner(ks, n)
            }) by {
            lemma_kinds_differ(addr, n);
            lemma_name_keys_differ(n, x);
            assert(after.at(service_key(n)).get("zpr_addr"@) == service_owner(after, n));
            assert(before.at(service_key(n)).get("zpr_addr"@) == service_owner(before, n));
            assert(service_owner(before, n) == (if init.contains(n) && !(service_owner(
                ks,
                n,
            ) matches Some(o) && o != addr) {
                Some(addr)
            } else {
                service_owner(ks, n)
            }));
            assert(names.contains(n) <==> init.contains(n) || n == x);
        }
        assert forall|n: Seq<char>| #[trigger]
            after.has(services_key(addr), n) <==> ks.has(services_key(addr), n) || names.contains(
                n,
            ) by {
            assert(after.at(services_key(addr)).set.contains(n) == after.has(
                services_key(addr),
                n,
            ));
            assert(before.at(services_key(addr)).set.contains(n) == before.has(
                services_key(addr),
                n,
            ));
            assert(before.has(services_key(addr), n) <==> ks.has(services_key(addr), n)
                || init.contains(n));
            assert(names.contains(n) <==> init.contains(n) || n == x);
        }
        assert forall|k: Seq<char>|
            k != services_key(addr) && (forall|n: Seq<char>| k != #[trigger] service_key(
                n,
            )) implies #[trigger] after.at(k) == ks.at(k) by {
            assert(k != service_key(x));
            assert(before.at(k) == ks.at(k));
        }
    }
}

/// Nobody else holds the name.
pub open spec fn free_for(ks: Keyspace, addr: Seq<char>, n: Seq<char>) -> bool {
    !(host_owner(ks, n) matches Some(o) && o != addr)
}

proof fn lemma_claim_all(
    ks: Keyspace,
    addr: Seq<char>,
    policy: Set<Seq<char>>,
    names: Seq<Seq<char>>,
)
    requires
        is_address(addr),
    ensures
        forall|n: Seq<char>| #[trigger]
            host_owner(claim_all(ks, addr, policy, names).ks, n) == (if names.contains(n)
                && claimable(n, policy) && free_for(ks, addr, n) {
                Some(addr)
            } else {
                host_owner(ks, n)
            }),
        forall|n: Seq<char>| #[trigger]
            claim_all(ks, addr, policy, names).ks.has(hostnames_key(addr), n) <==> ks.has(
                hostnames_key(addr),
                n,
            ) || (names.contains(n) && claimable(n, policy) && free_for(ks, addr, n)),
        forall|k: Seq<char>|
            k != hostnames_key(addr) && (forall|n: Seq<char>| k != #[trigger] host_key(n))
                ==> #[trigger] claim_all(ks, addr, policy, names).ks.at(k) == ks.at(k),
    decreases names.len(),
{
    let after = claim_all(ks, addr, policy, names).ks;
    let hk = hostnames_key(addr);
    if names.len() > 0 {
        let init = names.drop_last();
        let x = names.last();
        let before = claim_all(ks, addr, policy, init).ks;
        lemma_claim_all(ks, addr, policy, init);
        lemma_kinds_differ(addr, x);
        assert forall|n: Seq<char>| #[trigger] names.contains(n) <==> init.contains(n) || n
            == x by {
            lemma_push_contains(init, x, n);
            assert(names =~= init.push(x));
        }
        assert(host_owner(before, x) == (if init.contains(x) && claimable(x, policy) && free_for(
            ks,
            addr,
            x,
        ) {
            Some(addr)
        } else {
            host_owner(ks, x)
        }));
        assert(free_for(before, addr, x) == free_for(ks, addr, x));
        assert forall|n: Seq<char>| #[trigger]
            host_owner(after, n) == (if names.contains(n) && claimable(n, policy) && free_for(
                ks,
                addr,
                n,
            ) {
                Some(addr)
            } else {
                host_owner(ks, n)
            }) by {
            lemma_kinds_differ(addr, n);
            lemma_name_keys_differ(n, x);
            assert(after.at(host_key(n)).get("zpr_addr"@) == host_owner(after, n));
            assert(before.at(host_key(n)).get("zpr_addr"@) == host_owner(before, n));
            assert(host_owner(before, n) == (if init.contains(n) && claimable(n, policy)
                && free_for(ks, addr, n) {
                Some(addr)
            } else {
                host_owner(ks, n)
            }));
            assert(names.contains(n) <==> init.contains(n) || n == x);
        }
        assert forall|n: Seq<char>| #[trigger]
            after.has(hk, n) <==> ks.has(hk, n) || (names.contains(n) && claimable(n, policy)
                && free_for(ks, addr, n)) by {
            assert(after.at(hk).set.contains(n) == after.has(hk, n));
            assert(before.at(hk).set.contains(n) == before.has(hk, n));
            assert(before.has(hk, n) <==> ks.has(hk, n) || (init.contains(n) && claimable(
                n,
                policy,
            ) && free_for(ks, addr, n)));
            assert(names.contains(n) <==> init.contains(n) || n == x);
        }
        assert forall|k: Seq<char>|
            k != hk && (forall|n: Seq<char>| k != #[trigger] host_key(n)) implies #[trigger] after.at(
            k,
        ) == ks.at(k) by {
            assert(k != host_key(x));
            assert(before.at(k) == ks.at(k));
        }
    }
}

/// What bringing an actor's host name claims up to date amounts to.
proof fn lemma_hosts_claimed(
    ks: Keyspace,
    after: Keyspace,
    addr: Seq<char>,
    policy: Set<Seq<char>>,
    names: Seq<Seq<char>>,
    rejected: nat,
)
    requires
        is_address(addr),
        hosts_claimed(ks, after, addr, policy, names, rejected),
    ensures
        forall|n: Seq<char>| #[trigger]
            host_owner(after, n) == (if names.contains(n) && claimable(n, policy) && free_for(
                ks,
                addr,
                n,
            ) {
                Some(addr)
            } else if ks.has(hostnames_key(addr), n) && !(names.contains(n) && claimable(
                n,
                policy,
            )) && host_owner(ks, n) == Some(addr) {
                None
            } else {
                host_owner(ks, n)
            }),
        forall|n: Seq<char>| #[trigger]
            after.has(hostnames_key(addr), n) <==> names.contains(n) && claimable(n, policy)
                && free_for(ks, addr, n),
        forall|k: Seq<char>|
            k != actor_key(addr) && k != hostnames_key(addr) && (forall|n: Seq<char>|
                k != #[trigger] host_key(n)) ==> #[trigger] after.at(k) == ks.at(k),
        forall|f: Seq<char>|
            f != "hostname_conflicts"@ ==> #[trigger] after.hget(actor_key(addr), f) == ks.hget(
                actor_key(addr),
                f,
            ),
        after.present(actor_key(addr)),
{
    let hk = hostnames_key(addr);
    let gone = given_up(ks, addr, policy, names);
    let mid = choose|mid: Keyspace| #[trigger]
        hosts_released(ks, mid, addr, gone) && noted(
            claim_all(mid.del(hk), addr, policy, names),
            after,
            addr,
            rejected,
        );
    let start = mid.del(hk);
    let c = claim_all(start, addr, policy, names);
    lemma_claim_all(start, addr, policy, names);
    lemma_actor_keys_differ(addr, addr);
    assert(start.at(hk) == Entry::none());
    assert forall|n: Seq<char>| #[trigger]
        host_owner(start, n) == (if gone.contains(n) && host_owner(ks, n) == Some(addr) {
            None
        } else {
            host_owner(ks, n)
        }) by {
        lemma_kinds_differ(addr, n);
        let q = host_key(n);
        assert(start.at(q).get("zpr_addr"@) == host_owner(start, n));
        assert(ks.at(q).get("zpr_addr"@) == host_owner(ks, n));
        if gone.contains(n) {
            assert(mid.at(q) == let_host_go(ks, n, addr));
        } else {
            assert forall|m: Seq<char>| gone.contains(m) implies q != #[trigger] host_key(m) by {
                lemma_name_keys_differ(m, n);
            }
            assert(mid.at(q) == ks.at(q));
        }
    }
    assert forall|n: Seq<char>| #[trigger] host_owner(after, n) == host_owner(c.ks, n) by {
        lemma_kinds_differ(addr, n);
        assert(after.at(host_key(n)) == c.ks.at(host_key(n)));
        assert(after.at(host_key(n)).get("zpr_addr"@) == host_owner(after, n));
    }
    assert forall|n: Seq<char>| #[trigger] free_for(start, addr, n) == free_for(ks, addr, n) by {
        assert(host_owner(start, n) == (if gone.contains(n) && host_owner(ks, n) == Some(addr) {
            None
        } else {
            host_owner(ks, n)
        }));
    }
    assert forall|n: Seq<char>| #[trigger]
        after.has(hk, n) <==> names.contains(n) && claimable(n, policy) && free_for(
            ks,
            addr,
            n,
        ) by {
        assert(after.at(hk).set.contains(n) == after.has(hk, n));
        assert(c.ks.at(hk).set.contains(n) == c.ks.has(hk, n));
        assert(start.at(hk).set.contains(n) == start.has(hk, n));
        assert(c.ks.has(hk, n) <==> start.has(hk, n) || (names.contains(n) && claimable(n, policy)
            && free_for(start, addr, n)));
        assert(free_for(start, addr, n) == free_for(ks, addr, n));
    }
    assert forall|n: Seq<char>| #[trigger]
        host_owner(after, n) == (if names.contains(n) && claimable(n, policy) && free_for(
            ks,
            addr,
            n,
        ) {
            Some(addr)
        } else if ks.has(hk, n) && !(names.contains(n) && claimable(n, policy)) && host_owner(ks, n)
            == Some(addr) {
            None
        } else {
            host_owner(ks, n)
        }) by {
        assert(host_owner(after, n) == host_owner(c.ks, n));
        assert(free_for(start, addr, n) == free_for(ks, addr, n));
        assert(host_owner(start, n) == (if gone.contains(n) && host_owner(ks, n) == Some(addr) {
            None
        } else {
            host_owner(ks, n)
        }));
    }
    assert forall|k: Seq<char>| k != hk && (forall|n: Seq<char>| k != #[trigger] host_key(
        n,
    )) implies #[trigger] c.ks.at(k) == ks.at(k) by {
        assert(start.at(k) == mid.at(k));
        assert(mid.at(k) == ks.at(k));
    }
    assert forall|n: Seq<char>| actor_key(addr) != #[trigger] host_key(n) by {
        lemma_kinds_differ(addr, n);
    }
    assert(c.ks.at(actor_key(addr)) == ks.at(actor_key(addr)));
    assert forall|f: Seq<char>| f != "hostname_conflicts"@ implies #[trigger] after.hget(
        actor_key(addr),
        f,
    ) == ks.hget(actor_key(addr), f) by {
        assert(after.at(actor_key(addr)).get(f) == ks.at(actor_key(addr)).get(f));
    }
    assert(after.at(actor_key(addr)).hash.contains_key("hostname_conflicts"@));
    assert(after.at(actor_key(addr)) != Entry::none());
}

/// What stands at `q` after an actor's records are written, before its host names.
proof fn lemma_connected(ks: Keyspace, actor: ActorView, addr: Seq<char>, ts: Seq<char>)
    requires
        is_address(addr),
    ensures
        forall|n: Seq<char>| #[trigger]
            service_owner(connected(ks, actor, addr, ts), n) == (if actor.services().contains(n) {
                Some(addr)
            } else {
                service_owner(ks, n)
            }),
        forall|n: Seq<char>| #[trigger]
            connected(ks, actor, addr, ts).has(services_key(addr), n) <==> ks.has(
                services_key(addr),
                n,
            ) || actor.services().contains(n),
        forall|k: Seq<char>|
            k != services_key(addr) && k != actor_key(addr) && k != attrs_key(addr) && (forall|
                n: Seq<char>,
            |
                k != #[trigger] service_key(n)) ==> #[trigger] connected(ks, actor, addr, ts).at(k)
                == ks.at(k),
        connected(ks, actor, addr, ts).at(attrs_key(addr)) == with_attrs(
            ks,
            attrs_key(addr),
            actor.attrs,
        ).at(attrs_key(addr)),
        connected(ks, actor, addr, ts).hget(actor_key(addr), "identity_keys"@) == Some(
            list_text(actor.identity_keys),
        ),
        connected(ks, actor, addr, ts).at(actor_key(addr)) == with_record(
            with_attrs(ks, attrs_key(addr), actor.attrs),
            addr,
            actor.identity_keys,
            ts,
        ).at(actor_key(addr)),
{
    let ak = attrs_key(addr);
    let bk = actor_key(addr);
    let sk = services_key(addr);
    let k1 = with_attrs(ks, ak, actor.attrs);
    let k2 = with_record(k1, addr, actor.identity_keys, ts);
    let k3 = connected(ks, actor, addr, ts);
    lemma_with_services(k2, addr, actor.services());
    lemma_actor_keys_differ(addr, addr);
    reveal_strlit("identity_keys");
    reveal_strlit("ctime");
    reveal_strlit("utime");
    assert forall|k: Seq<char>| k != bk && k != ak implies #[trigger] k2.at(k) == ks.at(k) by {
        lemma_with_attrs_at(ks, ak, actor.attrs, k);
    }
    assert forall|n: Seq<char>| ak != #[trigger] service_key(n) && bk != service_key(n) && sk
        != service_key(n) by {
        lemma_kinds_differ(addr, n);
    }
    assert(k3.at(ak) == k2.at(ak));
    assert(k3.at(bk) == k2.at(bk));
    assert("identity_keys"@.len() != "ctime"@.len());
    assert("identity_keys"@.len() != "utime"@.len());
    assert(k2.at(bk).get("identity_keys"@) == Some(list_text(actor.identity_keys)));
    assert(k3.at(bk).get("identity_keys"@) == k3.hget(bk, "identity_keys"@));
    assert forall|n: Seq<char>| #[trigger]
        service_owner(k3, n) == (if actor.services().contains(n) {
            Some(addr)
        } else {
            service_owner(ks, n)
        }) by {
        assert(k2.at(service_key(n)) == ks.at(service_key(n)));
        assert(k2.at(service_key(n)).get("zpr_addr"@) == service_owner(k2, n));
        assert(ks.at(service_key(n)).get("zpr_addr"@) == service_owner(ks, n));
    }
    assert(k2.at(sk) == ks.at(sk));
    assert forall|n: Seq<char>| #[trigger]
        k3.has(sk, n) <==> ks.has(sk, n) || actor.services().contains(n) by {
        assert(k2.at(sk).set.contains(n) == k2.has(sk, n));
        assert(ks.at(sk).set.contains(n) == ks.has(sk, n));
    }
}

/// The records of other actors, and what belongs to whom, after an actor was added.
proof fn lemma_added(
    ks: Keyspace,
    after: Keyspace,
    actor: ActorView,
    addr: Seq<char>,
    policy: Set<Seq<char>>,
    ts: Seq<char>,
    rejected: nat,
)
    requires
        is_address(addr),
        added(ks, after, actor, addr, policy, ts, rejected),
    ensures
        forall|n: Seq<char>| #[trigger]
            service_owner(after, n) == (if actor.services().contains(n) {
                Some(addr)
            } else if ks.has(services_key(addr), n) && service_owner(ks, n) == Some(addr) {
                successor(ks, n, addr)
            } else {
                service_owner(ks, n)
            }),
        forall|n: Seq<char>| #[trigger]
            after.has(services_key(addr), n) <==> actor.services().contains(n),
        forall|n: Seq<char>| #[trigger]
            host_owner(after, n) == (if actor.hostnames().contains(n) && claimable(n, policy)
                && free_for(ks, addr, n) {
                Some(addr)
            } else if ks.has(hostnames_key(addr), n) && host_owner(ks, n) == Some(addr) {
                None
            } else {
                host_owner(ks, n)
            }),
        forall|n: Seq<char>| #[trigger]
            after.has(hostnames_key(addr), n) <==> actor.hostnames().contains(n) && claimable(
                n,
                policy,
            ) && free_for(ks, addr, n),
        forall|c: Seq<char>|
            address_in(c) is Some && c != addr ==> #[trigger] after.at(services_key(c)) == ks.at(
                services_key(c),
            ) && after.at(hostnames_key(c)) == ks.at(hostnames_key(c)) && after.at(actor_key(c))
                == ks.at(actor_key(c)) && after.at(attrs_key(c)) == ks.at(attrs_key(c)),
        exists|clean: Keyspace|
            #![trigger with_attrs(clean, attrs_key(addr), actor.attrs)]
            clean.at(attrs_key(addr)) == Entry::none() && after.at(attrs_key(addr)) == with_attrs(
                clean,
                attrs_key(addr),
                actor.attrs,
            ).at(attrs_key(addr)),
        after.hget(actor_key(addr), "identity_keys"@) == Some(list_text(actor.identity_keys)),
        after.present(actor_key(addr)),
        after.has(role_key(actor), addr),
{
    let (clean, claimed) = choose|clean: Keyspace, claimed: Keyspace|
        #![trigger cleaned(ks, clean, addr), hosts_claimed(
            connected(clean, actor, addr, ts),
            claimed,
            addr,
            policy,
            actor.hostnames(),
            rejected,
        )]
        cleaned(ks, clean, addr) && hosts_claimed(
            connected(clean, actor, addr, ts),
            claimed,
            addr,
            policy,
            actor.hostnames(),
            rejected,
        ) && after == claimed.sadd(role_key(actor), addr);
    let k = connected(clean, actor, addr, ts);
    let sk = services_key(addr);
    let hk = hostnames_key(addr);
    let bk = actor_key(addr);
    let ak = attrs_key(addr);
    lemma_connected(clean, actor, addr, ts);
    lemma_hosts_claimed(k, claimed, addr, policy, actor.hostnames(), rejected);
    lemma_actor_keys_differ(addr, addr);
    lemma_kinds_differ(addr, addr);
    assert(clean.at(sk) == Entry::none());
    assert(clean.at(hk) == Entry::none());
    assert(clean.at(ak) == Entry::none());
    assert forall|q: Seq<char>| q != KEY_NODES@ && q != KEY_ADAPTERS@ implies #[trigger] after.at(q)
        == claimed.at(q) by {}
    reveal_strlit("hostname_conflicts");
    reveal_strlit("identity_keys");
    assert("hostname_conflicts"@.len() != "identity_keys"@.len());
    assert forall|n: Seq<char>| sk != #[trigger] host_key(n) && bk != host_key(n) && ak != host_key(
        n,
    ) by {
        lemma_kinds_differ(addr, n);
    }
    assert(after.at(sk) == claimed.at(sk));
    assert(claimed.at(sk) == k.at(sk));
    assert(after.at(ak) == k.at(ak));
    assert(after.at(bk) == claimed.at(bk));
    assert(after.at(bk).get("identity_keys"@) == after.hget(bk, "identity_keys"@));
    assert(claimed.at(bk).get("identity_keys"@) == claimed.hget(bk, "identity_keys"@));
    assert(after.at(role_key(actor)).set.contains(addr));
    assert forall|n: Seq<char>| #[trigger]
        service_owner(after, n) == (if actor.services().contains(n) {
            Some(addr)
        } else if ks.has(sk, n) && service_owner(ks, n) == Some(addr) {
            successor(ks, n, addr)
        } else {
            service_owner(ks, n)
        }) by {
        let q = service_key(n);
        lemma_kinds_differ(addr, n);
        assert forall|m: Seq<char>| q != #[trigger] host_key(m) by {
            lemma_name_keys_differ(n, m);
        }
        assert(after.at(q) == k.at(q));
        assert(after.at(q).get("zpr_addr"@) == service_owner(after, n));
        assert(k.at(q).get("zpr_addr"@) == service_owner(k, n));
        lemma_cleaned_service(ks, clean, addr, n);
    }
    assert forall|n: Seq<char>| #[trigger] after.has(sk, n) <==> actor.services().contains(n) by {
        assert(after.at(sk).set.contains(n) == after.has(sk, n));
        assert(k.at(sk).set.contains(n) == k.has(sk, n));
        assert(clean.at(sk).set.contains(n) == clean.has(sk, n));
    }
    assert forall|n: Seq<char>| #[trigger] k.has(hk, n) == false by {
        assert forall|m: Seq<char>| hk != #[trigger] service_key(m) by {
            lemma_kinds_differ(addr, m);
        }
        assert(k.at(hk) == clean.at(hk));
        assert(k.at(hk).set.contains(n) == k.has(hk, n));
    }
    assert forall|n: Seq<char>| #[trigger] host_owner(k, n) == (if ks.has(hk, n) && host_owner(ks, n)
        == Some(addr) {
        None
    } else {
        host_owner(ks, n)
    }) by {
        let q = host_key(n);
        lemma_kinds_differ(addr, n);
        assert forall|m: Seq<char>| q != #[trigger] service_key(m) by {
            lemma_name_keys_differ(m, n);
        }
        assert(k.at(q) == clean.at(q));
        assert(k.at(q).get("zpr_addr"@) == host_owner(k, n));
        assert(clean.at(q).get("zpr_addr"@) == host_owner(clean, n));
        lemma_cleaned_host(ks, clean, addr, n);
    }
    assert forall|n: Seq<char>| #[trigger] host_owner(after, n) == host_owner(claimed, n) by {
        lemma_kinds_differ(addr, n);
        assert(after.at(host_key(n)) == claimed.at(host_key(n)));
        assert(after.at(host_key(n)).get("zpr_addr"@) == host_owner(after, n));
        assert(claimed.at(host_key(n)).get("zpr_addr"@) == host_owner(claimed, n));
    }
    assert forall|n: Seq<char>| #[trigger] free_for(k, addr, n) == free_for(
        ks,
        addr,
        n,
    ) by {
        assert(host_owner(k, n) == (if ks.has(hk, n) && host_owner(ks, n) == Some(addr) {
            None
        } else {
            host_owner(ks, n)
        }));
    }
    assert forall|n: Seq<char>| #[trigger]
        host_owner(after, n) == (if actor.hostnames().contains(n) && claimable(n, policy)
            && free_for(ks, addr, n) {
            Some(addr)
        } else if ks.has(hk, n) && host_owner(ks, n) == Some(addr) {
            None
        } else {
            host_owner(ks, n)
        }) by {
        assert(host_owner(after, n) == host_owner(claimed, n));
        assert(free_for(k, addr, n) == free_for(ks, addr, n));
        assert(k.has(hk, n) == false);
        assert(host_owner(k, n) == (if ks.has(hk, n) && host_owner(ks, n) == Some(addr) {
            None
        } else {
            host_owner(ks, n)
        }));
    }
    assert forall|n: Seq<char>| #[trigger]
        after.has(hk, n) <==> actor.hostnames().contains(n) && claimable(n, policy)
            && free_for(ks, addr, n) by {
        assert(after.at(hk).set.contains(n) == after.has(hk, n));
        assert(claimed.at(hk).set.contains(n) == claimed.has(hk, n));
        assert(free_for(k, addr, n) == free_for(ks, addr, n));
    }
    assert forall|c: Seq<char>| address_in(c) is Some && c != addr implies #[trigger] after.at(
        services_key(c),
    ) == ks.at(services_key(c)) && after.at(hostnames_key(c)) == ks.at(hostnames_key(c))
        && after.at(actor_key(c)) == ks.at(actor_key(c)) && after.at(attrs_key(c)) == ks.at(
        attrs_key(c),
    ) by {
        lemma_cleaned_other(ks, clean, addr, c);
        lemma_actor_keys_differ(addr, c);
        lemma_actor_keys_differ(c, addr);
        lemma_kinds_differ(c, c);
        assert forall|q: Seq<char>| of_actor(q) && !own_key(addr, q) implies #[trigger] after.at(q)
            == clean.at(q) by {
            lemma_kinds_differ(addr, addr);
            assert forall|m: Seq<char>| q != #[trigger] service_key(m) by {
                lemma_kinds_differ(addr, m);
            }
            assert forall|m: Seq<char>| q != #[trigger] host_key(m) by {
                lemma_kinds_differ(addr, m);
            }
            assert(claimed.at(q) == k.at(q));
        }
    }
    assert(after.at(ak) == with_attrs(clean, ak, actor.attrs).at(ak));
}

/// What belongs to whom after an actor was refreshed.
proof fn lemma_refreshed(
    ks: Keyspace,
    after: Keyspace,
    actor: ActorView,
    addr: Seq<char>,
    policy: Set<Seq<char>>,
    ts: Seq<char>,
    rejected: nat,
)
    requires
        is_address(addr),
        refreshed(ks, after, actor, addr, policy, ts, rejected),
    ensures
        forall|n: Seq<char>| #[trigger]
            service_owner(after, n) == ({
                let let_go = if ks.has(services_key(addr), n) && !actor.services().contains(n)
                    && service_owner(ks, n) == Some(addr) {
                    successor(ks, n, addr)
                } else {
                    service_owner(ks, n)
                };
                if actor.services().contains(n) && !(service_owner(ks, n) matches Some(o) && o
                    != addr) {
                    Some(addr)
                } else {
                    let_go
                }
            }),
        forall|n: Seq<char>| #[trigger]
            after.has(services_key(addr), n) <==> actor.services().contains(n),
        forall|n: Seq<char>| #[trigger]
            host_owner(after, n) == (if actor.hostnames().contains(n) && claimable(n, policy)
                && free_for(ks, addr, n) {
                Some(addr)
            } else if ks.has(hostnames_key(addr), n) && !(actor.hostnames().contains(n)
                && claimable(n, policy)) && host_owner(ks, n) == Some(addr) {
                None
            } else {
                host_owner(ks, n)
            }),
        forall|n: Seq<char>| #[trigger]
            after.has(hostnames_key(addr), n) <==> actor.hostnames().contains(n) && claimable(
                n,
                policy,
            ) && free_for(ks, addr, n),
        forall|c: Seq<char>|
            address_in(c) is Some && c != addr ==> #[trigger] after.at(services_key(c)) == ks.at(
                services_key(c),
            ) && after.at(hostnames_key(c)) == ks.at(hostnames_key(c)) && after.at(actor_key(c))
                == ks.at(actor_key(c)) && after.at(attrs_key(c)) == ks.at(attrs_key(c)),
        exists|clean: Keyspace|
            #![trigger with_attrs(clean, attrs_key(addr), actor.attrs)]
            clean.at(attrs_key(addr)) == Entry::none() && after.at(attrs_key(addr)) == with_attrs(
                clean,
                attrs_key(addr),
                actor.attrs,
            ).at(attrs_key(addr)),
        after.hget(actor_key(addr), "identity_keys"@) == Some(list_text(actor.identity_keys)),
        after.present(actor_key(addr)),
        after.at(KEY_NODES@) == ks.at(KEY_NODES@),
        after.at(KEY_ADAPTERS@) == ks.at(KEY_ADAPTERS@),
{
    let sk = services_key(addr);
    let hk = hostnames_key(addr);
    let bk = actor_key(addr);
    let ak = attrs_key(addr);
    let names = actor.services();
    let dropped = dropped_services(ks, addr, names);
    let k1 = rewritten(ks, actor, addr, ts);
    let mid = choose|mid: Keyspace|
        #![trigger services_released(k1, mid, addr, dropped)]
        services_released(k1, mid, addr, dropped) && hosts_claimed(
            with_refreshed_services(mid.del(sk), addr, names),
            after,
            addr,
            policy,
            actor.hostnames(),
            rejected,
        );
    let k3 = mid.del(sk);
    let k4 = with_refreshed_services(k3, addr, names);
    lemma_released_frame(k1, mid, addr, dropped);
    lemma_with_refreshed(k3, addr, names);
    lemma_hosts_claimed(k4, after, addr, policy, actor.hostnames(), rejected);
    lemma_actor_keys_differ(addr, addr);
    lemma_kinds_differ(addr, addr);
    assert forall|q: Seq<char>| q != ak && q != bk implies #[trigger] k1.at(q) == ks.at(q) by {
        lemma_rewritten_frame(ks, actor, addr, ts, q);
    }
    reveal_strlit("hostname_conflicts");
    reveal_strlit("identity_keys");
    reveal_strlit("ctime");
    reveal_strlit("utime");
    assert("hostname_conflicts"@.len() != "identity_keys"@.len());
    assert("identity_keys"@.len() != "ctime"@.len());
    assert("identity_keys"@.len() != "utime"@.len());
    // Keys that are neither of a service nor of a host name, nor the actor's own.
    assert forall|q: Seq<char>|
        q != sk && q != hk && q != bk && (forall|m: Seq<char>| q != #[trigger] service_key(m)) && (
        forall|m: Seq<char>| q != #[trigger] host_key(m)) implies #[trigger] after.at(q) == k1.at(
        q,
    ) by {
        assert(after.at(q) == k4.at(q));
        assert(k4.at(q) == k3.at(q));
        assert(mid.at(q) == k1.at(q));
    }
    assert forall|q: Seq<char>| of_actor(q) implies (forall|m: Seq<char>|
        q != #[trigger] service_key(m)) && (forall|m: Seq<char>| q != #[trigger] host_key(m)) by {
        assert forall|m: Seq<char>| q != #[trigger] service_key(m) by {
            lemma_kinds_differ(addr, m);
        }
        assert forall|m: Seq<char>| q != #[trigger] host_key(m) by {
            lemma_kinds_differ(addr, m);
        }
    }
    assert(after.at(ak) == k1.at(ak));
    assert(of_actor(bk));
    assert(k4.at(bk) == k1.at(bk)) by {
        assert(k4.at(bk) == k3.at(bk));
        assert(mid.at(bk) == k1.at(bk));
    }
    assert(k1.at(bk).get("identity_keys"@) == Some(list_text(actor.identity_keys)));
    assert(k4.at(bk).get("identity_keys"@) == k4.hget(bk, "identity_keys"@));
    assert forall|r: Seq<char>| r == KEY_NODES@ || r == KEY_ADAPTERS@ implies #[trigger] after.at(r)
        == ks.at(r) by {
        assert forall|m: Seq<char>| r != #[trigger] service_key(m) by {
            lemma_kinds_differ(addr, m);
        }
        assert forall|m: Seq<char>| r != #[trigger] host_key(m) by {
            lemma_kinds_differ(addr, m);
        }
    }
    assert(k3.at(sk) == Entry::none());
    assert forall|n: Seq<char>| #[trigger] after.has(sk, n) <==> names.contains(n) by {
        assert(of_actor(sk));
        assert(after.at(sk) == k4.at(sk));
        assert(after.at(sk).set.contains(n) == after.has(sk, n));
        assert(k4.at(sk).set.contains(n) == k4.has(sk, n));
        assert(k3.at(sk).set.contains(n) == k3.has(sk, n));
    }
    assert forall|n: Seq<char>| #[trigger]
        service_owner(k3, n) == (if ks.has(sk, n) && !names.contains(n) && service_owner(ks, n)
            == Some(addr) {
            successor(ks, n, addr)
        } else {
            service_owner(ks, n)
        }) by {
        let q = service_key(n);
        lemma_kinds_differ(addr, n);
        assert(k3.at(q).get("zpr_addr"@) == service_owner(k3, n));
        assert(ks.at(q).get("zpr_addr"@) == service_owner(ks, n));
        assert(k1.at(q) == ks.at(q));
        assert(k1.at(q).get("zpr_addr"@) == service_owner(k1, n));
        if dropped.contains(n) {
            assert(mid.at(q) == let_go(k1, n, addr));
            assert forall|c: Seq<char>|
                address_in(c) is Some && c != addr implies #[trigger] k1.at(services_key(c)) == ks.at(
                services_key(c),
            ) && k1.at(actor_key(c)) == ks.at(actor_key(c)) by {
                lemma_actor_keys_differ(c, addr);
                lemma_actor_keys_differ(addr, c);
            }
            lemma_successor_frame(k1, ks, n, addr);
        } else {
            assert forall|m: Seq<char>| dropped.contains(m) implies q != #[trigger] service_key(
                m,
            ) by {
                lemma_name_keys_differ(m, n);
            }
            assert(mid.at(q) == k1.at(q));
        }
    }
    assert forall|n: Seq<char>| #[trigger]
        service_owner(after, n) == ({
            let let_go = if ks.has(sk, n) && !names.contains(n) && service_owner(ks, n) == Some(
                addr,
            ) {
                successor(ks, n, addr)
            } else {
                service_owner(ks, n)
            };
            if names.contains(n) && !(service_owner(ks, n) matches Some(o) && o != addr) {
                Some(addr)
            } else {
                let_go
            }
        }) by {
        let q = service_key(n);
        lemma_kinds_differ(addr, n);
        assert forall|m: Seq<char>| q != #[trigger] host_key(m) by {
            lemma_name_keys_differ(n, m);
        }
        assert(after.at(q) == k4.at(q));
        assert(after.at(q).get("zpr_addr"@) == service_owner(after, n));
        assert(k4.at(q).get("zpr_addr"@) == service_owner(k4, n));
        assert(service_owner(k3, n) == (if ks.has(sk, n) && !names.contains(n) && service_owner(
            ks,
            n,
        ) == Some(addr) {
            successor(ks, n, addr)
        } else {
            service_owner(ks, n)
        }));
    }
    assert forall|n: Seq<char>| #[trigger] host_owner(k4, n) == host_owner(ks, n) by {
        let q = host_key(n);
        lemma_kinds_differ(addr, n);
        assert forall|m: Seq<char>| q != #[trigger] service_key(m) by {
            lemma_name_keys_differ(m, n);
        }
        assert(k4.at(q) == k3.at(q));
        assert(mid.at(q) == k1.at(q));
        assert(k4.at(q) == ks.at(q));
        assert(k4.at(q).get("zpr_addr"@) == host_owner(k4, n));
        assert(ks.at(q).get("zpr_addr"@) == host_owner(ks, n));
    }
    assert(k4.at(hk) == ks.at(hk)) by {
        assert(of_actor(hk));
        assert(k4.at(hk) == k3.at(hk));
        assert(mid.at(hk) == k1.at(hk));
    }
    assert forall|n: Seq<char>| #[trigger] free_for(k4, addr, n) == free_for(ks, addr, n) by {
        assert(host_owner(k4, n) == host_owner(ks, n));
    }
    assert forall|n: Seq<char>| #[trigger] k4.has(hk, n) == ks.has(hk, n) by {
        assert(k4.at(hk).set.contains(n) == k4.has(hk, n));
        assert(ks.at(hk).set.contains(n) == ks.has(hk, n));
    }
    assert forall|n: Seq<char>| #[trigger]
        host_owner(after, n) == (if actor.hostnames().contains(n) && claimable(n, policy)
            && free_for(ks, addr, n) {
            Some(addr)
        } else if ks.has(hk, n) && !(actor.hostnames().contains(n) && claimable(n, policy))
            && host_owner(ks, n) == Some(addr) {
            None
        } else {
            host_owner(ks, n)
        }) by {
        assert(host_owner(k4, n) == host_owner(ks, n));
        assert(free_for(k4, addr, n) == free_for(ks, addr, n));
        assert(k4.has(hk, n) == ks.has(hk, n));
    }
    assert forall|n: Seq<char>| #[trigger]
        after.has(hk, n) <==> actor.hostnames().contains(n) && claimable(n, policy) && free_for(
            ks,
            addr,
            n,
        ) by {
        assert(free_for(k4, addr, n) == free_for(ks, addr, n));
    }
    assert forall|c: Seq<char>| address_in(c) is Some && c != addr implies #[trigger] after.at(
        services_key(c),
    ) == ks.at(services_key(c)) && after.at(hostnames_key(c)) == ks.at(hostnames_key(c))
        && after.at(actor_key(c)) == ks.at(actor_key(c)) && after.at(attrs_key(c)) == ks.at(
        attrs_key(c),
    ) by {
        lemma_actor_keys_differ(addr, c);
        lemma_actor_keys_differ(c, addr);
        lemma_kinds_differ(c, c);
        assert(of_actor(services_key(c)) && of_actor(hostnames_key(c)) && of_actor(actor_key(c))
            && of_actor(attrs_key(c)));
    }
    let clean = ks.del(ak);
    assert(k1.at(ak) == with_attrs(clean, ak, actor.attrs).at(ak));
    assert(after.at(ak) == with_attrs(clean, ak, actor.attrs).at(ak));
}

/// The last actor to connect owns the services that it offers, and it is in the
/// set of its role.
pub proof fn law_last_to_connect_owns_its_services(
    ks: Keyspace,
    after: Keyspace,
    actor: ActorView,
    addr: Seq<char>,
    policy: Set<Seq<char>>,
    ts: Seq<char>,
    rejected: nat,
    name: Seq<char>,
)
    requires
        is_address(addr),
        added(ks, after, actor, addr, policy, ts, rejected),
    ensures
        actor.services().contains(name) ==> service_owner(after, name) == Some(addr) && after.has(
            services_key(addr),
            name,
        ),
        after.has(role_key(actor), addr),
        after.present(actor_key(addr)),
{
    lemma_added(ks, after, actor, addr, policy, ts, rejected);
}

/// Refreshing an actor takes no service from another one.
pub proof fn law_refresh_never_steals_a_service(
    ks: Keyspace,
    after: Keyspace,
    actor: ActorView,
    addr: Seq<char>,
    policy: Set<Seq<char>>,
    ts: Seq<char>,
    rejected: nat,
    name: Seq<char>,
    other: Seq<char>,
)
    requires
        is_address(addr),
        refreshed(ks, after, actor, addr, policy, ts, rejected),
        other != addr,
        service_owner(ks, name) == Some(other),
    ensures
        service_owner(after, name) == Some(other),
{
    lemma_refreshed(ks, after, actor, addr, policy, ts, rejected);
}

/// Refreshing an actor keeps the services that it owns and still offers. Those that
/// it owned and no longer offers go to their successors.
pub proof fn law_refresh_keeps_or_hands_over_services(
    ks: Keyspace,
    after: Keyspace,
    actor: ActorView,
    addr: Seq<char>,
    policy: Set<Seq<char>>,
    ts: Seq<char>,
    rejected: nat,
    name: Seq<char>,
)
    requires
        is_address(addr),
        refreshed(ks, after, actor, addr, policy, ts, rejected),
        service_owner(ks, name) == Some(addr),
        ks.has(services_key(addr), name),
    ensures
        service_owner(after, name) == (if actor.services().contains(name) {
            Some(addr)
        } else {
            successor(ks, name, addr)
        }),
        after.has(services_key(addr), name) == actor.services().contains(name),
{
    lemma_refreshed(ks, after, actor, addr, policy, ts, rejected);
}

/// The first claim of a host name wins: neither adding nor refreshing an actor takes
/// a name from the one that holds it.
pub proof fn law_first_host_name_claim_wins(
    ks: Keyspace,
    after: Keyspace,
    actor: ActorView,
    addr: Seq<char>,
    policy: Set<Seq<char>>,
    ts: Seq<char>,
    rejected: nat,
    name: Seq<char>,
    holder: Seq<char>,
)
    requires
        is_address(addr),
        added(ks, after, actor, addr, policy, ts, rejected) || refreshed(
            ks,
            after,
            actor,
            addr,
            policy,
            ts,
            rejected,
        ),
        holder != addr,
        host_owner(ks, name) == Some(holder),
    ensures
        host_owner(after, name) == Some(holder),
        !after.has(hostnames_key(addr), name),
{
    if added(ks, after, actor, addr, policy, ts, rejected) {
        lemma_added(ks, after, actor, addr, policy, ts, rejected);
    } else {
        lemma_refreshed(ks, after, actor, addr, policy, ts, rejected);
    }
}

/// An actor holds exactly those of the names it claims that are labels, that no
/// service of the policy is called, and that nobody else holds. So a name that it
/// held already stays with it, and losing one name never costs it another.
pub proof fn law_actor_holds_what_it_may_claim(
    ks: Keyspace,
    after: Keyspace,
    actor: ActorView,
    addr: Seq<char>,
    policy: Set<Seq<char>>,
    ts: Seq<char>,
    rejected: nat,
    name: Seq<char>,
)
    requires
        is_address(addr),
        added(ks, after, actor, addr, policy, ts, rejected) || refreshed(
            ks,
            after,
            actor,
            addr,
            policy,
            ts,
            rejected,
        ),
    ensures
        after.has(hostnames_key(addr), name) <==> actor.hostnames().contains(name) && valid_label(
            name,
        ) && !policy.contains(name) && free_for(ks, addr, name),
        after.has(hostnames_key(addr), name) ==> host_owner(after, name) == Some(addr),
{
    if added(ks, after, actor, addr, policy, ts, rejected) {
        lemma_added(ks, after, actor, addr, policy, ts, rejected);
    } else {
        lemma_refreshed(ks, after, actor, addr, policy, ts, rejected);
    }
}

/// Adding and refreshing actors keeps the database consistent.
pub proof fn law_writing_actors_keeps_consistency(
    ks: Keyspace,
    after: Keyspace,
    actor: ActorView,
    addr: Seq<char>,
    policy: Set<Seq<char>>,
    ts: Seq<char>,
    rejected: nat,
)
    requires
        is_address(addr),
        consistent(ks),
        added(ks, after, actor, addr, policy, ts, rejected) || refreshed(
            ks,
            after,
            actor,
            addr,
            policy,
            ts,
            rejected,
        ),
    ensures
        consistent(after),
{
    let is_added = added(ks, after, actor, addr, policy, ts, rejected);
    if is_added {
        lemma_added(ks, after, actor, addr, policy, ts, rejected);
    } else {
        lemma_refreshed(ks, after, actor, addr, policy, ts, rejected);
    }
    assert forall|n: Seq<char>| (#[trigger] service_owner(after, n)) is Some implies is_address(
        service_owner(after, n)->0,
    ) && after.has(services_key(service_owner(after, n)->0), n) by {
        let a = service_owner(after, n)->0;
        lemma_successor_offers(ks, n, addr);
        if a == addr {
            assert(actor.services().contains(n)) by {
                assert(service_owner(ks, n) == Some(addr) ==> ks.has(services_key(addr), n));
            }
            assert(after.has(services_key(addr), n));
        } else {
            assert(service_owner(ks, n) is Some);
            assert(is_address(a) && ks.has(services_key(a), n));
            assert(after.at(services_key(a)) == ks.at(services_key(a)));
            assert(after.at(services_key(a)).set.contains(n));
        }
    }
    assert forall|n: Seq<char>| (#[trigger] host_owner(after, n)) is Some implies is_address(
        host_owner(after, n)->0,
    ) && after.has(hostnames_key(host_owner(after, n)->0), n) by {
        let a = host_owner(after, n)->0;
        assert(host_owner(ks, n) == Some(addr) ==> ks.has(hostnames_key(addr), n));
        if a == addr {
            assert(after.has(hostnames_key(addr), n));
        } else {
            assert(is_address(a) && ks.has(hostnames_key(a), n));
            assert(after.at(services_key(a)) == ks.at(services_key(a)));
            assert(after.at(hostnames_key(a)) == ks.at(hostnames_key(a)));
            assert(after.at(hostnames_key(a)).set.contains(n));
        }
    }
    assert forall|c: Seq<char>, n: Seq<char>|
        address_in(c) is Some && #[trigger] after.has(services_key(c), n) implies is_address(c) by {
        if c != addr {
            assert(after.at(services_key(c)) == ks.at(services_key(c)));
            assert(after.at(services_key(c)).set.contains(n));
            assert(ks.has(services_key(c), n));
        }
    }
}

proof fn lemma_attr_of_at(attrs: Seq<AttrView>, i: int)
    requires
        distinct_keys(attrs),
        0 <= i < attrs.len(),
    ensures
        attr_of(attrs, attrs[i].key) == Some(attrs[i]),
    decreases attrs.len(),
{
    if i > 0 {
        let rest = attrs.drop_first();
        assert(rest[i - 1] == attrs[i]);
        assert forall|a: int, b: int| 0 <= a < b < rest.len() implies (#[trigger] rest[a]).key != (
        #[trigger] rest[b]).key by {
            assert(rest[a] == attrs[a + 1] && rest[b] == attrs[b + 1]);
        }
        lemma_attr_of_at(rest, i - 1);
        assert(attrs[0].key != attrs[i].key);
    }
}

proof fn lemma_attr_of_none(attrs: Seq<AttrView>, key: Seq<char>)
    requires
        forall|i: int| 0 <= i < attrs.len() ==> (#[trigger] attrs[i]).key != key,
    ensures
        attr_of(attrs, key) is None,
    decreases attrs.len(),
{
    if attrs.len() > 0 {
        let rest = attrs.drop_first();
        assert forall|i: int| 0 <= i < rest.len() implies (#[trigger] rest[i]).key != key by {
            assert(rest[i] == attrs[i + 1]);
        }
        assert(attrs[0].key != key);
        lemma_attr_of_none(rest, key);
    }
}

proof fn lemma_with_attr_of(attrs: Seq<AttrView>, a: AttrView, key: Seq<char>)
    ensures
        attr_of(with_attr(attrs, a), key) == (if key == a.key {
            Some(a)
        } else {
            attr_of(attrs, key)
        }),
    decreases attrs.len(),
{
    let after = with_attr(attrs, a);
    if attrs.len() == 0 {
        assert(after[0] == a && after.drop_first() =~= attrs);
    } else if attrs[0].key == a.key {
        assert(after[0] == a && after.drop_first() =~= attrs.drop_first());
    } else {
        lemma_with_attr_of(attrs.drop_first(), a, key);
        assert(after[0] == attrs[0]);
        assert(after.drop_first() =~= with_attr(attrs.drop_first(), a));
    }
}

/// Where every stored text reads back as the attribute of its field, loading gives
/// every field its attribute.
proof fn lemma_loaded(list: Seq<(String, String)>, attrs: Seq<AttrView>, n: int)
    requires
        0 <= n <= list.len(),
        forall|i: int, j: int|
            0 <= i < j < list.len() ==> (#[trigger] list[i]).0@ != (#[trigger] list[j]).0@,
        forall|i: int|
            0 <= i < list.len() ==> (stored_attr((#[trigger] list[i]).1@) matches Some(a) && a.key
                == list[i].0@ && attr_of(attrs, list[i].0@) == Some(a)),
    ensures
        loaded_attrs(list.take(n)) is Some,
        forall|key: Seq<char>| #[trigger]
            attr_of(loaded_attrs(list.take(n))->0, key) == (if exists|i: int|
                0 <= i < n && (#[trigger] list[i]).0@ == key {
                attr_of(attrs, key)
            } else {
                None
            }),
    decreases n,
{
    if n > 0 {
        lemma_loaded(list, attrs, n - 1);
        assert(list.take(n).drop_last() =~= list.take(n - 1));
        assert(list.take(n).last() == list[n - 1]);
        let before = loaded_attrs(list.take(n - 1))->0;
        let a = stored_attr(list[n - 1].1@)->0;
        assert(loaded_attrs(list.take(n)) == Some(with_attr(before, a)));
        assert forall|key: Seq<char>| #[trigger]
            attr_of(with_attr(before, a), key) == (if exists|i: int|
                0 <= i < n && (#[trigger] list[i]).0@ == key {
                attr_of(attrs, key)
            } else {
                None
            }) by {
            lemma_with_attr_of(before, a, key);
            assert(attr_of(before, key) == (if exists|i: int|
                0 <= i < n - 1 && (#[trigger] list[i]).0@ == key {
                attr_of(attrs, key)
            } else {
                None
            }));
            if key == a.key {
                assert(list[n - 1].0@ == key);
            } else if exists|i: int| 0 <= i < n && (#[trigger] list[i]).0@ == key {
                let i = choose|i: int| 0 <= i < n && (#[trigger] list[i]).0@ == key;
                assert(i < n - 1);
            }
        }
    } else {
        assert(list.take(0) =~= Seq::empty());
    }
}

/// What is written of an actor is read back: after adding or refreshing an actor
/// whose attributes can all be stored, loading the actor at its address gives
/// exactly its attributes and its identity keys, whatever was stored there before.
pub proof fn law_written_actor_is_read_back(
    ks: Keyspace,
    after: Keyspace,
    actor: ActorView,
    addr: Seq<char>,
    policy: Set<Seq<char>>,
    ts: Seq<char>,
    rejected: nat,
    list: Seq<(String, String)>,
)
    requires
        is_address(addr),
        added(ks, after, actor, addr, policy, ts, rejected) || refreshed(
            ks,
            after,
            actor,
            addr,
            policy,
            ts,
            rejected,
        ),
        all_storable(actor.attrs),
        distinct_keys(actor.attrs),
        reads_back(actor),
        lists_fields(list, after, attrs_key(addr)),
    ensures
        loaded(after, addr, list) is Ok,
        loaded(after, addr, list)->Ok_0.identity_keys == actor.identity_keys,
        forall|key: Seq<char>| #[trigger]
            attr_of(loaded(after, addr, list)->Ok_0.attrs, key) == attr_of(actor.attrs, key),
{
    let ak = attrs_key(addr);
    let attrs = actor.attrs;
    if added(ks, after, actor, addr, policy, ts, rejected) {
        lemma_added(ks, after, actor, addr, policy, ts, rejected);
    } else {
        lemma_refreshed(ks, after, actor, addr, policy, ts, rejected);
    }
    let clean = choose|clean: Keyspace|
        #![trigger with_attrs(clean, ak, attrs)]
        clean.at(ak) == Entry::none() && after.at(ak) == with_attrs(clean, ak, attrs).at(ak);
    lemma_with_attrs_at(clean, ak, attrs, ak);
    let e = after.at(ak);
    assert forall|f: Seq<char>| #[trigger] after.fields.contains_key((ak, f)) <==> exists|i: int|
        0 <= i < attrs.len() && (#[trigger] attrs[i]).key == f by {
        assert(e.hash.contains_key(f) == after.fields.contains_key((ak, f)));
        assert(with_attrs(clean, ak, attrs).at(ak).hash.contains_key(f) <==> clean.at(
            ak,
        ).hash.contains_key(f) || (exists|i: int|
            0 <= i < attrs.len() && (#[trigger] attrs[i]).key == f));
    }
    assert forall|i: int| 0 <= i < list.len() implies (stored_attr((#[trigger] list[i]).1@) matches Some(a)
        && a.key == list[i].0@ && attr_of(attrs, list[i].0@) == Some(a)) by {
        let f = list[i].0@;
        assert(after.hget(ak, f) == Some(list[i].1@));
        assert(after.fields.contains_key((ak, f)));
        let j = choose|j: int| 0 <= j < attrs.len() && (#[trigger] attrs[j]).key == f;
        lemma_with_attrs_value(clean, ak, attrs, j);
        assert(e.get(f) == after.hget(ak, f));
        lemma_attr_of_at(attrs, j);
        assert(storable(attrs[j]));
    }
    lemma_loaded(list, attrs, list.len() as int);
    assert(list.take(list.len() as int) =~= list);
    let got = loaded_attrs(list)->0;
    assert forall|key: Seq<char>| #[trigger] attr_of(got, key) == attr_of(attrs, key) by {
        if exists|i: int| 0 <= i < list.len() && (#[trigger] list[i]).0@ == key {
        } else {
            assert(!after.fields.contains_key((ak, key)));
            assert forall|i: int| 0 <= i < attrs.len() implies (#[trigger] attrs[i]).key != key by {
                if attrs[i].key == key {
                    assert(after.fields.contains_key((ak, key)));
                }
            }
            lemma_attr_of_none(attrs, key);
        }
    }
}

/// An actor that was added is in the set of its own role and not in the other, whatever
/// stood at its address before. The places of all other actors are as they were.
pub proof fn law_added_actor_is_in_its_role_alone(
    ks: Keyspace,
    after: Keyspace,
    actor: ActorView,
    addr: Seq<char>,
    policy: Set<Seq<char>>,
    ts: Seq<char>,
    rejected: nat,
    other: Seq<char>,
)
    requires
        is_address(addr),
        added(ks, after, actor, addr, policy, ts, rejected),
        other != addr,
    ensures
        after.has(KEY_NODES@, addr) == actor.is_node(),
        after.has(KEY_ADAPTERS@, addr) == !actor.is_node(),
        after.has(KEY_NODES@, other) == ks.has(KEY_NODES@, other),
        after.has(KEY_ADAPTERS@, other) == ks.has(KEY_ADAPTERS@, other),
{
    let (clean, claimed) = choose|clean: Keyspace, claimed: Keyspace|
        #![trigger cleaned(ks, clean, addr), hosts_claimed(
            connected(clean, actor, addr, ts),
            claimed,
            addr,
            policy,
            actor.hostnames(),
            rejected,
        )]
        cleaned(ks, clean, addr) && hosts_claimed(
            connected(clean, actor, addr, ts),
            claimed,
            addr,
            policy,
            actor.hostnames(),
            rejected,
        ) && after == claimed.sadd(role_key(actor), addr);
    let k = connected(clean, actor, addr, ts);
    lemma_connected(clean, actor, addr, ts);
    lemma_hosts_claimed(k, claimed, addr, policy, actor.hostnames(), rejected);
    lemma_kinds_differ(addr, addr);
    assert forall|r: Seq<char>| r == KEY_NODES@ || r == KEY_ADAPTERS@ implies #[trigger] claimed.at(
        r,
    ) == clean.at(r) by {
        assert forall|m: Seq<char>| r != #[trigger] service_key(m) by {
            lemma_kinds_differ(addr, m);
        }
        assert forall|m: Seq<char>| r != #[trigger] host_key(m) by {
            lemma_kinds_differ(addr, m);
        }
        assert(claimed.at(r) == k.at(r));
    }
    reveal_strlit("nodes");
    reveal_strlit("adapters");
    assert("nodes"@.len() != "adapters"@.len());
    assert forall|r: Seq<char>, x: Seq<char>|
        (r == KEY_NODES@ || r == KEY_ADAPTERS@) implies #[trigger] after.has(r, x) == ((x == addr
        && r == role_key(actor)) || (x != addr && ks.has(r, x))) by {
        assert(after.at(r).set.contains(x) == after.has(r, x));
        assert(claimed.at(r).set.contains(x) == claimed.has(r, x));
        assert(clean.at(r).set.contains(x) == clean.has(r, x));
        assert(ks.at(r).set.contains(x) == ks.has(r, x));
        assert(clean.at(r) == ks.at(r).without(addr));
    }
}

/// Adding or refreshing an actor leaves it with exactly the services that it offers, and
/// leaves the records of every other actor as they were: its attributes, its identity, its
/// services and its host names. A refresh leaves the roles as they were too.
pub proof fn law_writing_an_actor_spares_the_others(
    ks: Keyspace,
    after: Keyspace,
    actor: ActorView,
    addr: Seq<char>,
    policy: Set<Seq<char>>,
    ts: Seq<char>,
    rejected: nat,
    other: Seq<char>,
)
    requires
        is_address(addr),
        is_address(other),
        other != addr,
        added(ks, after, actor, addr, policy, ts, rejected) || refreshed(
            ks,
            after,
            actor,
            addr,
            policy,
            ts,
            rejected,
        ),
    ensures
        after.set(services_key(addr)) == actor.services().to_set(),
        after.at(attrs_key(other)) == ks.at(attrs_key(other)),
        after.at(actor_key(other)) == ks.at(actor_key(other)),
        after.at(services_key(other)) == ks.at(services_key(other)),
        after.at(hostnames_key(other)) == ks.at(hostnames_key(other)),
        refreshed(ks, after, actor, addr, policy, ts, rejected) ==> after.at(KEY_NODES@) == ks.at(
            KEY_NODES@,
        ) && after.at(KEY_ADAPTERS@) == ks.at(KEY_ADAPTERS@),
{
    if refreshed(ks, after, actor, addr, policy, ts, rejected) {
        lemma_refreshed(ks, after, actor, addr, policy, ts, rejected);
    } else {
        lemma_added(ks, after, actor, addr, policy, ts, rejected);
    }
    assert(after.at(services_key(other)) == ks.at(services_key(other)));
    assert forall|n: Seq<char>| #[trigger] after.set(services_key(addr)).contains(n)
        == actor.services().to_set().contains(n) by {
        assert(after.has(services_key(addr), n) <==> actor.services().contains(n));
    }
    assert(after.set(services_key(addr)) =~= actor.services().to_set());
}

/// Every host name that an actor holds after it was added or refreshed is a single label of
/// letters of lower case, digits and dashes, with no dash at either end and at most 63 long. It
/// is one of the names that the actor claims and no service of the policy is called so.
pub proof fn law_held_host_names_are_labels(
    ks: Keyspace,
    after: Keyspace,
    actor: ActorView,
    addr: Seq<char>,
    policy: Set<Seq<char>>,
    ts: Seq<char>,
    rejected: nat,
    name: Seq<char>,
)
    requires
        is_address(addr),
        added(ks, after, actor, addr, policy, ts, rejected) || refreshed(
            ks,
            after,
            actor,
            addr,
            policy,
            ts,
            rejected,
        ),
        after.has(hostnames_key(addr), name),
    ensures
        1 <= name.len() <= 63,
        forall|i: int|
            0 <= i < name.len() ==> ('a' <= (#[trigger] name[i]) <= 'z') || ('0' <= name[i] <= '9')
                || name[i] == '-',
        forall|i: int| 0 <= i < name.len() ==> (#[trigger] name[i]) != '.' && name[i] != '_',
        name[0] != '-',
        name[name.len() - 1] != '-',
        actor.hostnames().contains(name),
        !policy.contains(name),
        after.hget(host_key(name), "zpr_addr"@) == Some(addr),
{
    law_actor_holds_what_it_may_claim(ks, after, actor, addr, policy, ts, rejected, name);
    assert forall|i: int| 0 <= i < name.len() implies (#[trigger] name[i]) != '.' && name[i]
        != '_' by {}
}

/// An actor that claims a name holds it after it was added or refreshed where the name is a
/// label, no service of the policy is called so, and nobody else has it.
pub proof fn law_free_label_is_held(
    ks: Keyspace,
    after: Keyspace,
    actor: ActorView,
    addr: Seq<char>,
    policy: Set<Seq<char>>,
    ts: Seq<char>,
    rejected: nat,
    name: Seq<char>,
)
    requires
        is_address(addr),
        added(ks, after, actor, addr, policy, ts, rejected) || refreshed(
            ks,
            after,
            actor,
            addr,
            policy,
            ts,
            rejected,
        ),
        actor.hostnames().contains(name),
        1 <= name.len() <= 63,
        forall|i: int|
            0 <= i < name.len() ==> ('a' <= (#[trigger] name[i]) <= 'z') || ('0' <= name[i] <= '9')
                || name[i] == '-',
        name[0] != '-',
        name[name.len() - 1] != '-',
        !policy.contains(name),
        ks.hget(host_key(name), "zpr_addr"@) is None || ks.hget(host_key(name), "zpr_addr"@)
            == Some(addr),
    ensures
        after.has(hostnames_key(addr), name),
        after.hget(host_key(name), "zpr_addr"@) == Some(addr),
{
    assert(valid_label(name));
    law_actor_holds_what_it_may_claim(ks, after, actor, addr, policy, ts, rejected, name);
}

/// The claimed names that an actor does not hold, in the order of the claims.
pub open spec fn not_held(after: Keyspace, addr: Seq<char>, names: Seq<Seq<char>>) -> Seq<Seq<char>>
    decreases names.len(),
{
    if names.len() == 0 {
        Seq::empty()
    } else {
        let before = not_held(after, addr, names.drop_last());
        if after.has(hostnames_key(addr), names.last()) {
            before
        } else {
            before.push(names.last())
        }
    }
}

/// Those of some names that are labels.
pub open spec fn labels_among(names: Seq<Seq<char>>) -> Seq<Seq<char>>
    decreases names.len(),
{
    if names.len() == 0 {
        Seq::empty()
    } else {
        let before = labels_among(names.drop_last());
        if valid_label(names.last()) {
            before.push(names.last())
        } else {
            before
        }
    }
}

proof fn lemma_claims_noted(
    start: Keyspace,
    after: Keyspace,
    addr: Seq<char>,
    policy: Set<Seq<char>>,
    names: Seq<Seq<char>>,
    all: Seq<Seq<char>>,
)
    requires
        is_address(addr),
        forall|n: Seq<char>| #[trigger]
            after.has(hostnames_key(addr), n) <==> all.contains(n) && claimable(n, policy)
                && free_for(start, addr, n),
        forall|i: int| 0 <= i < names.len() ==> all.contains(#[trigger] names[i]),
    ensures
        claim_all(start, addr, policy, names).rejected == not_held(after, addr, names).len(),
        claim_all(start, addr, policy, names).lost == labels_among(not_held(after, addr, names)),
    decreases names.len(),
{
    if names.len() > 0 {
        let init = names.drop_last();
        let x = names.last();
        assert forall|i: int| 0 <= i < init.len() implies all.contains(#[trigger] init[i]) by {
            assert(init[i] == names[i]);
        }
        lemma_claims_noted(start, after, addr, policy, init, all);
        lemma_claim_all(start, addr, policy, init);
        let so_far = claim_all(start, addr, policy, init);
        assert(names[names.len() - 1] == x);
        assert(all.contains(x));
        assert(free_for(so_far.ks, addr, x) == free_for(start, addr, x)) by {
            assert(host_owner(so_far.ks, x) == (if init.contains(x) && claimable(x, policy)
                && free_for(start, addr, x) {
                Some(addr)
            } else {
                host_owner(start, x)
            }));
        }
        let missing = not_held(after, addr, init);
        assert(after.has(hostnames_key(addr), x) <==> claimable(x, policy) && free_for(
            start,
            addr,
            x,
        ));
        if !after.has(hostnames_key(addr), x) {
            assert(missing.push(x).drop_last() =~= missing);
            assert(missing.push(x).last() == x);
        }
    }
}

proof fn lemma_hosts_noted(
    ks: Keyspace,
    after: Keyspace,
    addr: Seq<char>,
    policy: Set<Seq<char>>,
    names: Seq<Seq<char>>,
    rejected: nat,
)
    requires
        is_address(addr),
        hosts_claimed(ks, after, addr, policy, names, rejected),
    ensures
        rejected == not_held(after, addr, names).len(),
        after.hget(actor_key(addr), "hostname_conflicts"@) == Some(
            list_text(labels_among(not_held(after, addr, names))),
        ),
{
    let hk = hostnames_key(addr);
    let gone = given_up(ks, addr, policy, names);
    let mid = choose|mid: Keyspace| #[trigger]
        hosts_released(ks, mid, addr, gone) && noted(
            claim_all(mid.del(hk), addr, policy, names),
            after,
            addr,
            rejected,
        );
    let start = mid.del(hk);
    lemma_hosts_claimed(ks, after, addr, policy, names, rejected);
    assert forall|n: Seq<char>| #[trigger] free_for(start, addr, n) == free_for(ks, addr, n) by {
        lemma_kinds_differ(addr, n);
        let q = host_key(n);
        assert(start.at(q).get("zpr_addr"@) == host_owner(start, n));
        assert(ks.at(q).get("zpr_addr"@) == host_owner(ks, n));
        if gone.contains(n) {
            assert(mid.at(q) == let_host_go(ks, n, addr));
        } else {
            assert forall|m: Seq<char>| gone.contains(m) implies q != #[trigger] host_key(m) by {
                lemma_name_keys_differ(m, n);
            }
            assert(mid.at(q) == ks.at(q));
        }
    }
    assert forall|n: Seq<char>| #[trigger]
        after.has(hk, n) <==> names.contains(n) && claimable(n, policy) && free_for(
            start,
            addr,
            n,
        ) by {
        assert(free_for(start, addr, n) == free_for(ks, addr, n));
    }
    lemma_claims_noted(start, after, addr, policy, names, names);
}

proof fn lemma_not_held_same(
    a: Keyspace,
    b: Keyspace,
    addr: Seq<char>,
    names: Seq<Seq<char>>,
)
    requires
        forall|n: Seq<char>| #[trigger]
            a.has(hostnames_key(addr), n) == b.has(hostnames_key(addr), n),
    ensures
        not_held(a, addr, names) == not_held(b, addr, names),
    decreases names.len(),
{
    if names.len() > 0 {
        lemma_not_held_same(a, b, addr, names.drop_last());
    }
}

/// As many claims are counted as rejected as name something that the actor does not hold
/// afterwards, and those of them that are labels are noted with the actor, in order.
pub proof fn law_rejected_claims_are_those_not_held(
    ks: Keyspace,
    after: Keyspace,
    actor: ActorView,
    addr: Seq<char>,
    policy: Set<Seq<char>>,
    ts: Seq<char>,
    rejected: nat,
)
    requires
        is_address(addr),
        added(ks, after, actor, addr, policy, ts, rejected) || refreshed(
            ks,
            after,
            actor,
            addr,
            policy,
            ts,
            rejected,
        ),
    ensures
        rejected == not_held(after, addr, actor.hostnames()).len(),
        after.hget(actor_key(addr), "hostname_conflicts"@) == Some(
            list_text(labels_among(not_held(after, addr, actor.hostnames()))),
        ),
{
    let names = actor.hostnames();
    if added(ks, after, actor, addr, policy, ts, rejected) {
        let (clean, claimed) = choose|clean: Keyspace, claimed: Keyspace|
            #![trigger cleaned(ks, clean, addr), hosts_claimed(
                connected(clean, actor, addr, ts),
                claimed,
                addr,
                policy,
                actor.hostnames(),
                rejected,
            )]
            cleaned(ks, clean, addr) && hosts_claimed(
                connected(clean, actor, addr, ts),
                claimed,
                addr,
                policy,
                actor.hostnames(),
                rejected,
            ) && after == claimed.sadd(role_key(actor), addr);
        let k = connected(clean, actor, addr, ts);
        lemma_hosts_noted(k, claimed, addr, policy, names, rejected);
        lemma_kinds_differ(addr, addr);
        let hk = hostnames_key(addr);
        assert forall|n: Seq<char>| #[trigger] after.has(hk, n) == claimed.has(hk, n) by {
            assert(after.at(hk) == claimed.at(hk));
            assert(after.at(hk).set.contains(n) == after.has(hk, n));
            assert(claimed.at(hk).set.contains(n) == claimed.has(hk, n));
        }
        lemma_not_held_same(after, claimed, addr, names);
    } else {
        let mid = choose|mid: Keyspace|
            #![trigger services_released(
                rewritten(ks, actor, addr, ts),
                mid,
                addr,
                dropped_services(ks, addr, actor.services()),
            )]
            services_released(
                rewritten(ks, actor, addr, ts),
                mid,
                addr,
                dropped_services(ks, addr, actor.services()),
            ) && hosts_claimed(
                with_refreshed_services(mid.del(services_key(addr)), addr, actor.services()),
                after,
                addr,
                policy,
                actor.hostnames(),
                rejected,
            );
        let k = with_refreshed_services(mid.del(services_key(addr)), addr, actor.services());
        lemma_hosts_noted(k, after, addr, policy, names, rejected);
    }
}

/// A service whose owner leaves or drops it goes to a connected actor that offers it and is not
/// the one that lets it go, the one whose address comes first among these. Without any it goes
/// to nobody.
pub proof fn law_successor_is_the_first_that_offers(
    ks: Keyspace,
    name: Seq<char>,
    addr: Seq<char>,
    c: Seq<char>,
)
    ensures
        successor(ks, name, addr) matches Some(a) ==> exists|d: Seq<char>|
            address_in(d) == Some(a) && d != addr && #[trigger] ks.has(services_key(d), name)
                && ks.present(actor_key(d)),
        successor(ks, name, addr) matches Some(a) ==> forall|d: Seq<char>|
            address_in(d) is Some && d != addr && #[trigger] ks.has(services_key(d), name)
                && ks.present(actor_key(d)) ==> crate::text::text_le(a, address_in(d)->0),
        address_in(c) is Some && c != addr && ks.has(services_key(c), name) && ks.present(
            actor_key(c),
        ) && (forall|d: Seq<char>|
            address_in(d) is Some && d != addr && #[trigger] ks.has(services_key(d), name)
                && ks.present(actor_key(d)) ==> crate::text::text_le(
                address_in(c)->0,
                address_in(d)->0,
            )) ==> successor(ks, name, addr) == address_in(c),
{
    if successor(ks, name, addr) is Some {
        let f = choose|f: Seq<char>| crate::db::model::first_claimant(ks, name, addr, f);
        assert(crate::db::model::first_claimant(ks, name, addr, f));
        assert(ks.has(services_key(f), name));
        assert forall|d: Seq<char>|
            address_in(d) is Some && d != addr && #[trigger] ks.has(services_key(d), name)
                && ks.present(actor_key(d)) implies crate::text::text_le(
            successor(ks, name, addr)->0,
            address_in(d)->0,
        ) by {
            assert(claims(ks, name, addr, d));
        }
    }
    if address_in(c) is Some && c != addr && ks.has(services_key(c), name) && ks.present(
        actor_key(c),
    ) && (forall|d: Seq<char>|
        address_in(d) is Some && d != addr && #[trigger] ks.has(services_key(d), name)
            && ks.present(actor_key(d)) ==> crate::text::text_le(
            address_in(c)->0,
            address_in(d)->0,
        )) {
        assert forall|d: Seq<char>| #[trigger] claims(ks, name, addr, d) implies crate::text::text_le(
            address_in(c)->0,
            address_in(d)->0,
        ) by {
            assert(ks.has(services_key(d), name));
        }
        crate::db::model::lemma_successor_some(ks, name, addr, c);
    }
}

/// An actor that was added carries the moment of its addition, as made and as changed.
pub proof fn law_added_actor_carries_the_moment(
    ks: Keyspace,
    after: Keyspace,
    actor: ActorView,
    addr: Seq<char>,
    policy: Set<Seq<char>>,
    ts: Seq<char>,
    rejected: nat,
)
    requires
        is_address(addr),
        added(ks, after, actor, addr, policy, ts, rejected),
    ensures
        after.hget(actor_key(addr), "ctime"@) == Some(ts),
        after.hget(actor_key(addr), "utime"@) == Some(ts),
{
    let (clean, claimed) = choose|clean: Keyspace, claimed: Keyspace|
        #![trigger cleaned(ks, clean, addr), hosts_claimed(
            connected(clean, actor, addr, ts),
            claimed,
            addr,
            policy,
            actor.hostnames(),
            rejected,
        )]
        cleaned(ks, clean, addr) && hosts_claimed(
            connected(clean, actor, addr, ts),
            claimed,
            addr,
            policy,
            actor.hostnames(),
            rejected,
        ) && after == claimed.sadd(role_key(actor), addr);
    let k = connected(clean, actor, addr, ts);
    let bk = actor_key(addr);
    lemma_connected(clean, actor, addr, ts);
    lemma_hosts_claimed(k, claimed, addr, policy, actor.hostnames(), rejected);
    lemma_actor_keys_differ(addr, addr);
    reveal_strlit("hostname_conflicts");
    reveal_strlit("identity_keys");
    reveal_strlit("ctime");
    reveal_strlit("utime");
    assert("hostname_conflicts"@.len() == 18);
    assert("identity_keys"@.len() == 13);
    assert("ctime"@.len() == 5 && "utime"@.len() == 5);
    assert("ctime"@[0] != "utime"@[0]);
    assert(clean.at(bk) == Entry::none());
    lemma_with_attrs_at(clean, attrs_key(addr), actor.attrs, bk);
    let k1 = with_attrs(clean, attrs_key(addr), actor.attrs);
    assert(k1.at(bk) == clean.at(bk));
    assert(!k1.at(bk).hash.contains_key("ctime"@));
    assert(!k1.fields.contains_key((bk, "ctime"@)));
    let k2 = with_record(k1, addr, actor.identity_keys, ts);
    assert(k.at(bk) == k2.at(bk));
    assert(k.at(bk).get("ctime"@) == k.hget(bk, "ctime"@));
    assert(k.at(bk).get("utime"@) == k.hget(bk, "utime"@));
    assert(k2.at(bk).get("ctime"@) == k2.hget(bk, "ctime"@));
    assert(k2.at(bk).get("utime"@) == k2.hget(bk, "utime"@));
    assert(claimed.hget(bk, "ctime"@) == k.hget(bk, "ctime"@));
    assert(claimed.hget(bk, "utime"@) == k.hget(bk, "utime"@));
}

} // verus!
