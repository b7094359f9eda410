//! The records of connected actors in the state database.
//!
//! - `actor:<ADDR>`: the record of an actor
//! - `actor:<ADDR>:attrs`: its attributes, each as JSON under its key
//! - `actor:<ADDR>:services`: the services it offers
//! - `actor:<ADDR>:hostnames`: the host names it has claimed
//! - `service:<NAME>`: where a service is
//! - `host:<NAME>`: who holds a host name
//! - `nodes`, `adapters`: the addresses of all nodes and of all adapters
use vstd::prelude::*;

use crate::actor::{
    attr_text, encode_attr, encode_list, list_text, storable, stored_attr, stored_list, Actor,
    ActorView,
};
use crate::attribute::{attr_views, AttrView, Attribute};
use crate::db::addr::{address_in, is_address, ZprAddr};
use crate::db::keys::{
    actor_hostnames_key_for, actor_key, actor_key_for, actor_services_key_for, attrs_key,
    attrs_key_for, decoded, encoded, host_key, host_key_for, hostnames_key,
    lemma_actor_keys_differ, lemma_decode_encoded, lemma_kinds_differ, lemma_name_keys_differ,
    of_actor, replace_char, service_key, service_key_for, services_key,
    KEY_ADAPTERS, KEY_NODES,
};
use crate::db::model::{
    added, all_storable, claim, claim_all, claimable, claimed_key, claims, cleaned, connected,
    dropped_services, edge_char, first_claimant, given_up, group_entries, host_owner, hosts_claimed,
    hosts_released, lemma_same, lemma_successor_frame, lemma_successor_none, lemma_successor_some,
    let_go, let_host_go, noted, offered_key, own_key, refreshed, rewritten, service_owner,
    services_released, successor, valid_label, with_attrs, with_record, with_refreshed,
    with_refreshed_services, with_services, Entry,
};
use crate::db::store::{
    apply_op, apply_ops, distinct, fits, DbConnection, DbOp, Keyspace, StoreError,
    StoreErrorView,
};
use crate::text::{
    cat, contains_text, lemma_text_le_reflexive, lemma_text_le_total,
    lemma_text_le_transitive, not_after, opt_text, slice_text, text_eq, text_le, texts, to_chars,
};

verus! {

broadcast use group_entries;

/// The role of an actor.
pub enum Role {
    Node,
    Adapter,
}

/// Where a service is.
#[derive(Debug)]
pub struct ServiceEntry {
    pub name: String,
    pub zpr_addr: ZprAddr,
}

impl ServiceEntry {
    /// The entry of a service.
    pub fn new(name: String, zpr_addr: ZprAddr) -> (r: ServiceEntry)
        ensures
            r.name == name,
            r.zpr_addr == zpr_addr,
    {
        ServiceEntry { name, zpr_addr }
    }
}

/// Counts of what happens.
#[derive(Debug)]
pub struct Counters {
    /// Host name claims that were rejected.
    pub hostname_claim_rejected: u64,
}

/// A counter after `n` more events; it stops at its greatest value.
pub open spec fn counted(before: u64, n: nat) -> u64 {
    if before + n <= u64::MAX {
        (before + n) as u64
    } else {
        u64::MAX
    }
}

/// Whether a value is a host name label: 1 to 63 lower-case letters, digits and
/// dashes, with no dash at either end.
pub fn is_valid_hostname_label(value: &str) -> (r: bool)
    ensures
        r == valid_label(value@),
{
    let chars = to_chars(value);
    if chars.len() == 0 || chars.len() > 63 {
        return false;
    }
    if !label_edge(chars[0]) || !label_edge(chars[chars.len() - 1]) {
        return false;
    }
    let mut i: usize = 0;
    while i < chars.len()
        invariant
            chars@ == value@,
            i <= chars@.len(),
            forall|j: int| 0 <= j < i ==> edge_char(#[trigger] chars@[j]) || chars@[j] == '-',
        decreases chars@.len() - i,
    {
        if !label_edge(chars[i]) && chars[i] != '-' {
            return false;
        }
        i = i + 1;
    }
    true
}

fn label_edge(c: char) -> (r: bool)
    ensures
        r == edge_char(c),
{
    ('a' <= c && c <= 'z') || ('0' <= c && c <= '9')
}

/// The actors in a state database.
pub struct ActorRepo<D: DbConnection> {
    pub db: D,
}

proof fn lemma_take_set(list: Seq<Seq<char>>, i: int)
    requires
        0 <= i < list.len(),
    ensures
        list.take(i + 1).to_set() == list.take(i).to_set().insert(list[i]),
        distinct(list) ==> !list.take(i).to_set().contains(list[i]),
{
    let more = list.take(i + 1);
    let few = list.take(i);
    let a = more.to_set();
    let b = few.to_set().insert(list[i]);
    assert forall|x: Seq<char>| a.contains(x) <==> b.contains(x) by {
        if a.contains(x) {
            let j = choose|j: int| 0 <= j < more.len() && more[j] == x;
            if j < i {
                assert(few[j] == x);
            }
        }
        if few.to_set().contains(x) {
            let j = choose|j: int| 0 <= j < few.len() && few[j] == x;
            assert(more[j] == x);
        }
        assert(more[i] == list[i]);
    }
    assert(a =~= b);
    if distinct(list) && few.to_set().contains(list[i]) {
        let j = choose|j: int| 0 <= j < few.len() && few[j] == list[i];
        assert(list[j] == list[i]);
    }
}

proof fn lemma_host_step(
    ks: Keyspace,
    mid: Keyspace,
    next: Keyspace,
    addr: Seq<char>,
    done: Set<Seq<char>>,
    n: Seq<char>,
)
    requires
        hosts_released(ks, mid, addr, done),
        !done.contains(n),
        next == (if host_owner(mid, n) == Some(addr) {
            mid.del(host_key(n))
        } else {
            mid
        }),
    ensures
        hosts_released(ks, next, addr, done.insert(n)),
{
    assert forall|m: Seq<char>| done.contains(m) implies #[trigger] host_key(m) != host_key(n) by {
        lemma_name_keys_differ(m, n);
    }
    assert(mid.at(host_key(n)) == ks.at(host_key(n)));
    assert(next.at(host_key(n)) == let_host_go(ks, n, addr));
    assert forall|m: Seq<char>| done.insert(n).contains(m) implies #[trigger] next.at(host_key(m))
        == let_host_go(ks, m, addr) by {
        if m != n {
            assert(host_key(m) != host_key(n));
            assert(mid.at(host_key(m)) == let_host_go(ks, m, addr));
            assert(next.at(host_key(m)) == mid.at(host_key(m)));
        }
    }
    assert forall|k: Seq<char>|
        (forall|m: Seq<char>| done.insert(n).contains(m) ==> k != #[trigger] host_key(
            m,
        )) implies #[trigger] next.at(k) == ks.at(k) by {
        assert(done.insert(n).contains(n));
        assert(k != host_key(n));
        assert forall|m: Seq<char>| done.contains(m) implies k != #[trigger] host_key(m) by {
            assert(done.insert(n).contains(m));
        }
        assert(mid.at(k) == ks.at(k));
    }
}

proof fn lemma_service_step(
    ks: Keyspace,
    mid: Keyspace,
    next: Keyspace,
    addr: Seq<char>,
    done: Set<Seq<char>>,
    n: Seq<char>,
)
    requires
        services_released(ks, mid, addr, done),
        !done.contains(n),
        next == (if service_owner(mid, n) == Some(addr) {
            match successor(mid, n, addr) {
                Some(c) => mid.hset(service_key(n), "zpr_addr"@, c),
                None => mid.del(service_key(n)),
            }
        } else {
            mid
        }),
    ensures
        services_released(ks, next, addr, done.insert(n)),
{
    assert forall|m: Seq<char>| done.contains(m) implies #[trigger] service_key(m) != service_key(
        n,
    ) by {
        lemma_name_keys_differ(m, n);
    }
    assert(mid.at(service_key(n)) == ks.at(service_key(n)));
    lemma_released_frame(ks, mid, addr, done);
    lemma_successor_frame(mid, ks, n, addr);
    assert(next.at(service_key(n)) == let_go(ks, n, addr));
    assert forall|m: Seq<char>| done.insert(n).contains(m) implies #[trigger] next.at(
        service_key(m),
    ) == let_go(ks, m, addr) by {
        if m != n {
            assert(service_key(m) != service_key(n));
            assert(mid.at(service_key(m)) == let_go(ks, m, addr));
            assert(next.at(service_key(m)) == mid.at(service_key(m)));
        }
    }
    assert forall|k: Seq<char>|
        (forall|m: Seq<char>| done.insert(n).contains(m) ==> k != #[trigger] service_key(
            m,
        )) implies #[trigger] next.at(k) == ks.at(k) by {
        assert(done.insert(n).contains(n));
        assert(k != service_key(n));
        assert forall|m: Seq<char>| done.contains(m) implies k != #[trigger] service_key(m) by {
            assert(done.insert(n).contains(m));
        }
        assert(mid.at(k) == ks.at(k));
    }
}

/// Letting services go touches no key of an actor.
pub proof fn lemma_released_frame(
    ks: Keyspace,
    mid: Keyspace,
    addr: Seq<char>,
    names: Set<Seq<char>>,
)
    requires
        services_released(ks, mid, addr, names),
    ensures
        forall|k: Seq<char>| of_actor(k) ==> #[trigger] mid.at(k) == ks.at(k),
        forall|c: Seq<char>|
            #![trigger mid.at(services_key(c))]
            #![trigger mid.at(actor_key(c))]
            mid.at(services_key(c)) == ks.at(services_key(c)) && mid.at(actor_key(c)) == ks.at(
                actor_key(c),
            ),
{
    assert forall|k: Seq<char>| of_actor(k) implies #[trigger] mid.at(k) == ks.at(k) by {
        assert forall|m: Seq<char>| names.contains(m) implies k != #[trigger] service_key(m) by {
            lemma_kinds_differ(k, m);
        }
    }
    assert forall|c: Seq<char>|
        #![trigger mid.at(services_key(c))]
        #![trigger mid.at(actor_key(c))]
        mid.at(services_key(c)) == ks.at(services_key(c)) && mid.at(actor_key(c)) == ks.at(
            actor_key(c),
        ) by {
        lemma_kinds_differ(c, c);
    }
}

/// The key of an actor's services, taken apart.
proof fn lemma_services_key_parts(k: Seq<char>, enc: Seq<char>)
    requires
        fits(k, "actor:"@, ":services"@),
        enc == k.subrange(6, k.len() - 9),
    ensures
        k == "actor:"@ + enc + ":services"@,
        forall|c: Seq<char>| address_in(c) is Some && k == services_key(c) ==> enc == encoded(c),
        (forall|i: int| 0 <= i < enc.len() ==> enc[i] != ':') ==> k == services_key(decoded(enc)),
        (forall|i: int| 0 <= i < enc.len() ==> enc[i] != ':') ==> "actor:"@ + enc == actor_key(
            decoded(enc),
        ),
{
    reveal_strlit("actor:");
    reveal_strlit(":services");
    assert(k.subrange(0, 6) =~= "actor:"@);
    assert(k.subrange(k.len() - 9, k.len() as int) =~= ":services"@);
    assert(k =~= "actor:"@ + enc + ":services"@);
    assert forall|c: Seq<char>| address_in(c) is Some && k == services_key(c) implies enc
        == encoded(c) by {
        assert(services_key(c).subrange(6, services_key(c).len() - 9) =~= encoded(c));
    }
    if forall|i: int| 0 <= i < enc.len() ==> enc[i] != ':' {
        assert(encoded(decoded(enc)) =~= enc);
    }
}

proof fn lemma_services_key_fits(c: Seq<char>)
    ensures
        fits(services_key(c), "actor:"@, ":services"@),
{
    reveal_strlit("actor:");
    reveal_strlit(":services");
    let k = services_key(c);
    assert(k.subrange(0, 6) =~= "actor:"@);
    assert(k.subrange(k.len() - 9, k.len() as int) =~= ":services"@);
}

/// The address that the key of an actor's services names, if it names one, and the text
/// that it is named by.
fn addr_of_services_key(key: &str) -> (r: Option<(ZprAddr, String)>)
    requires
        fits(key@, "actor:"@, ":services"@),
    ensures
        match r {
            Some((a, text)) => address_in(text@) == Some(a@) && key@ == services_key(text@),
            None => forall|c: Seq<char>|
                address_in(c) is Some ==> key@ != #[trigger] services_key(c),
        },
{
    let chars = to_chars(key);
    proof {
        reveal_strlit("actor:");
        reveal_strlit(":services");
    }
    let enc = slice_text(&chars, 6, chars.len() - 9);
    let enc_chars = to_chars(enc.as_str());
    proof {
        lemma_services_key_parts(key@, enc@);
    }
    let mut i: usize = 0;
    while i < enc_chars.len()
        invariant
            enc_chars@ == enc@,
            i <= enc_chars@.len(),
            forall|j: int| 0 <= j < i ==> enc@[j] != ':',
            forall|c: Seq<char>|
                address_in(c) is Some && key@ == services_key(c) ==> enc@ == encoded(c),
        decreases enc_chars@.len() - i,
    {
        if enc_chars[i] == ':' {
            proof {
                assert forall|c: Seq<char>| address_in(c) is Some implies key@
                    != #[trigger] services_key(c) by {
                    lemma_decode_encoded(c);
                }
            }
            return None;
        }
        i = i + 1;
    }
    let text = replace_char(enc.as_str(), '-', ':');
    proof {
        assert forall|c: Seq<char>| address_in(c) is Some && key@ == #[trigger] services_key(
            c,
        ) implies text@ == c by {
            lemma_decode_encoded(c);
        }
    }
    match ZprAddr::parse(text.as_str()) {
        Some(addr) => Some((addr, text)),
        None => None,
    }
}

impl<D: DbConnection> ActorRepo<D> {
    /// What the database holds.
    pub open spec fn state(&self) -> Keyspace {
        self.db.contents()
    }

    /// No operation of the database fails.
    pub open spec fn reliable(&self) -> bool {
        self.db.reliable()
    }

    /// The actors in a database.
    pub fn new(db_handle: D) -> (r: ActorRepo<D>)
        ensures
            r.db == db_handle,
    {
        ActorRepo { db: db_handle }
    }

    /// Lets each of the named host names go that the actor at `addr` still holds.
    /// Nobody takes it over: whoever lost it claims it anew on its next refresh.
    fn release_owned_host_entries(&mut self, addr: &str, names: &Vec<String>) -> (r: Result<
        (),
        StoreError,
    >)
        requires
            distinct(texts(names@)),
        ensures
            final(self).reliable() == old(self).reliable(),
            old(self).reliable() ==> r is Ok,
            r is Ok ==> hosts_released(
                old(self).state(),
                final(self).state(),
                addr@,
                texts(names@).to_set(),
            ),
    {
        let ghost ks = self.state();
        let ghost all = texts(names@);
        let mut i: usize = 0;
        assert(all.take(0).to_set() =~= Set::empty());
        while i < names.len()
            invariant
                ks == old(self).state(),
                all == texts(names@),
                distinct(all),
                i <= names@.len(),
                self.reliable() == old(self).reliable(),
                hosts_released(ks, self.state(), addr@, all.take(i as int).to_set()),
            decreases names@.len() - i,
        {
            let ghost mid = self.state();
            let key = host_key_for(names[i].as_str());
            let owner = self.db.hget(key.as_str(), "zpr_addr")?;
            let mine = match &owner {
                Some(o) => text_eq(o.as_str(), addr),
                None => false,
            };
            if mine {
                self.db.del(key.as_str())?;
            }
            proof {
                lemma_take_set(all, i as int);
                lemma_host_step(
                    ks,
                    mid,
                    self.state(),
                    addr@,
                    all.take(i as int).to_set(),
                    all[i as int],
                );
            }
            i = i + 1;
        }
        assert(all.take(i as int) =~= all);
        Ok(())
    }

    /// The live actor that takes a service over from the one at `addr`: of the
    /// others that claim it and whose record still exists, the one whose address
    /// comes first.
    fn find_surviving_claimant(&self, service_name: &str, addr: &str) -> (r: Result<
        Option<String>,
        StoreError,
    >)
        requires
            is_address(addr@),
        ensures
            self.reliable() ==> r is Ok,
            r matches Ok(found) ==> opt_text(found) == successor(
                self.state(),
                service_name@,
                addr@,
            ),
    {
        let ghost ks = self.state();
        let keys = self.db.scan_match_all("actor:", ":services")?;
        let ghost all = texts(keys@);
        let mut best: Option<String> = None;
        let ghost mut holder: Seq<char> = addr@;
        let mut i: usize = 0;
        while i < keys.len()
            invariant
                ks == self.state(),
                all == texts(keys@),
                is_address(addr@),
                forall|k: Seq<char>| #[trigger]
                    all.contains(k) <==> ks.present(k) && fits(k, "actor:"@, ":services"@),
                i <= keys@.len(),
                best matches Some(b) ==> claims(ks, service_name@, addr@, holder) && address_in(
                    holder,
                ) == Some(b@),
                forall|c: Seq<char>, j: int|
                    #![trigger claims(ks, service_name@, addr@, c), all[j]]
                    0 <= j < i && claims(ks, service_name@, addr@, c) && all[j] == services_key(c)
                        ==> (best matches Some(b) && text_le(b@, address_in(c)->0)),
            decreases keys@.len() - i,
        {
            let key = &keys[i];
            assert(all[i as int] == key@);
            assert(all.contains(key@));
            let ghost before = best;
            if let Some((cand, text)) = addr_of_services_key(key.as_str()) {
                let base = cat("actor:", replace_char(text.as_str(), ':', '-').as_str());
                if !text_eq(text.as_str(), addr) && self.db.sismember(key.as_str(), service_name)?
                    && self.db.key_exists(base.as_str())? {
                    assert(claims(ks, service_name@, addr@, text@));
                    let better = match &best {
                        Some(b) => !not_after(b.as_str(), cand.as_str()),
                        None => true,
                    };
                    if better {
                        proof {
                            if before is Some {
                                lemma_text_le_total(before->0@, cand@);
                            }
                            lemma_text_le_reflexive(cand@);
                        }
                        best = Some(cand.as_str().to_owned());
                        proof {
                            holder = text@;
                        }
                    }
                }
                proof {
                    assert forall|c: Seq<char>|
                        claims(ks, service_name@, addr@, c) && all[i as int] == services_key(
                            c,
                        ) implies (best matches Some(b) && text_le(b@, address_in(c)->0)) by {
                        if c != text@ {
                            lemma_actor_keys_differ(c, text@);
                        }
                    }
                }
            }
            proof {
                assert forall|c: Seq<char>, j: int|
                    #![trigger claims(ks, service_name@, addr@, c), all[j]]
                    0 <= j < i + 1 && claims(ks, service_name@, addr@, c) && all[j] == services_key(
                        c,
                    ) implies (best matches Some(b) && text_le(b@, address_in(c)->0)) by {
                    if j < i {
                        if before != best {
                            if before is Some {
                                lemma_text_le_transitive(
                                    best->0@,
                                    before->0@,
                                    address_in(c)->0,
                                );
                            }
                        }
                    }
                }
            }
            i = i + 1;
        }
        proof {
            assert forall|c: Seq<char>| #[trigger] claims(ks, service_name@, addr@, c) implies (
            best matches Some(b) && text_le(b@, address_in(c)->0)) by {
                let k = services_key(c);
                lemma_services_key_fits(c);
                assert(ks.has(k, service_name@));
                assert(ks.at(k).set.contains(service_name@));
                assert(ks.present(k));
                assert(all.contains(k));
                let j = choose|j: int| 0 <= j < all.len() && all[j] == k;
                assert(all[j] == services_key(c));
            }
            if best is Some {
                assert(first_claimant(ks, service_name@, addr@, holder));
                lemma_successor_some(ks, service_name@, addr@, holder);
            } else {
                lemma_successor_none(ks, service_name@, addr@);
            }
        }
        Ok(best)
    }

    /// Lets each of the named services go that the actor at `addr` still owns.
    /// Another live actor that claims the service takes it over; only where there is
    /// none does the entry go away.
    fn release_owned_service_entries(&mut self, addr: &str, names: &Vec<String>) -> (r: Result<
        (),
        StoreError,
    >)
        requires
            is_address(addr@),
            distinct(texts(names@)),
        ensures
            final(self).reliable() == old(self).reliable(),
            old(self).reliable() ==> r is Ok,
            r is Ok ==> services_released(
                old(self).state(),
                final(self).state(),
                addr@,
                texts(names@).to_set(),
            ),
    {
        let ghost ks = self.state();
        let ghost all = texts(names@);
        let mut i: usize = 0;
        assert(all.take(0).to_set() =~= Set::empty());
        while i < names.len()
            invariant
                is_address(addr@),
                ks == old(self).state(),
                all == texts(names@),
                distinct(all),
                i <= names@.len(),
                self.reliable() == old(self).reliable(),
                services_released(ks, self.state(), addr@, all.take(i as int).to_set()),
            decreases names@.len() - i,
        {
            let ghost mid = self.state();
            let key = service_key_for(names[i].as_str());
            let owner = self.db.hget(key.as_str(), "zpr_addr")?;
            let mine = match &owner {
                Some(o) => text_eq(o.as_str(), addr),
                None => false,
            };
            if mine {
                match self.find_surviving_claimant(names[i].as_str(), addr)? {
                    Some(claimant) => {
                        self.db.hset(key.as_str(), "zpr_addr", claimant.as_str())?;
                    },
                    None => {
                        self.db.del(key.as_str())?;
                    },
                }
            }
            proof {
                lemma_take_set(all, i as int);
                lemma_service_step(
                    ks,
                    mid,
                    self.state(),
                    addr@,
                    all.take(i as int).to_set(),
                    all[i as int],
                );
            }
            i = i + 1;
        }
        assert(all.take(i as int) =~= all);
        Ok(())
    }
}

proof fn lemma_ops_push(ks: Keyspace, ops: Seq<DbOp>, op: DbOp)
    ensures
        apply_ops(ks, ops.push(op)) == apply_op(apply_ops(ks, ops), op),
{
    assert(ops.push(op).drop_last() =~= ops);
}

/// What the first step of a clean-up leaves.
spec fn without_own_record(ks: Keyspace, addr: Seq<char>) -> Keyspace {
    ks.del(actor_key(addr)).del(attrs_key(addr)).srem(KEY_NODES@, addr).srem(KEY_ADAPTERS@, addr)
}

proof fn lemma_no_services_left(ks: Keyspace, k: Seq<char>)
    requires
        !ks.present(k),
    ensures
        ks.del(k) == ks,
        ks.set(k) == Set::<Seq<char>>::empty(),
{
    assert(ks.at(k) == Entry::none());
    assert forall|q: Seq<char>| #[trigger] ks.del(k).at(q) == ks.at(q) by {}
    lemma_same(ks.del(k), ks);
    assert(ks.set(k) =~= Set::<Seq<char>>::empty());
}

/// The steps of a clean-up add up to it.
proof fn lemma_cleaned(
    ks: Keyspace,
    k1: Keyspace,
    k2: Keyspace,
    k3: Keyspace,
    k4: Keyspace,
    k5: Keyspace,
    addr: Seq<char>,
)
    requires
        is_address(addr),
        k1 == without_own_record(ks, addr),
        services_released(k1, k2, addr, k1.set(services_key(addr))),
        k3 == k2.del(services_key(addr)),
        hosts_released(k3, k4, addr, k3.set(hostnames_key(addr))),
        k5 == k4.del(hostnames_key(addr)),
    ensures
        cleaned(ks, k5, addr),
{
    lemma_actor_keys_differ(addr, addr);
    lemma_kinds_differ(addr, addr);
    let sk = services_key(addr);
    let hk = hostnames_key(addr);
    lemma_released_frame(k1, k2, addr, k1.set(sk));
    assert(k1.at(sk) == ks.at(sk));
    assert(k3.at(hk) == ks.at(hk));
    assert forall|k: Seq<char>| own_key(addr, k) implies #[trigger] k5.at(k) == Entry::none() by {
        assert(of_actor(k));
        assert forall|n: Seq<char>| k3.set(hk).contains(n) implies k != #[trigger] host_key(n) by {
            lemma_kinds_differ(addr, n);
        }
        assert(k4.at(k) == k3.at(k));
        assert(k2.at(k) == k1.at(k));
    }
    assert forall|n: Seq<char>| ks.has(sk, n) implies #[trigger] k5.at(service_key(n)) == let_go(
        ks,
        n,
        addr,
    ) by {
        let q = service_key(n);
        lemma_kinds_differ(addr, n);
        assert forall|m: Seq<char>| k3.set(hk).contains(m) implies q != #[trigger] host_key(m) by {
            lemma_name_keys_differ(n, m);
        }
        assert(k4.at(q) == k3.at(q));
        assert(ks.at(sk).set.contains(n));
        assert(k1.set(sk).contains(n));
        assert(k2.at(q) == let_go(k1, n, addr));
        assert(k1.at(q) == ks.at(q));
        assert forall|c: Seq<char>|
            address_in(c) is Some && c != addr implies #[trigger] k1.at(services_key(c)) == ks.at(
            services_key(c),
        ) && k1.at(actor_key(c)) == ks.at(actor_key(c)) by {
            lemma_actor_keys_differ(c, addr);
            lemma_actor_keys_differ(addr, c);
            lemma_kinds_differ(c, n);
        }
        lemma_successor_frame(k1, ks, n, addr);
    }
    assert forall|n: Seq<char>| ks.has(hk, n) implies #[trigger] k5.at(host_key(n)) == let_host_go(
        ks,
        n,
        addr,
    ) by {
        let q = host_key(n);
        lemma_kinds_differ(addr, n);
        assert(ks.at(hk).set.contains(n));
        assert(k3.set(hk).contains(n));
        assert(k4.at(q) == let_host_go(k3, n, addr));
        assert forall|m: Seq<char>| k1.set(sk).contains(m) implies q != #[trigger] service_key(m) by {
            lemma_name_keys_differ(m, n);
        }
        assert(k2.at(q) == k1.at(q));
        assert(k3.at(q) == ks.at(q));
    }
    assert forall|k: Seq<char>|
        !own_key(addr, k) && !offered_key(ks, addr, k) && !claimed_key(
            ks,
            addr,
            k,
        ) implies #[trigger] k5.at(k) == k1.at(k) by {
        assert forall|n: Seq<char>| k3.set(hk).contains(n) implies k != #[trigger] host_key(n) by {
            assert(ks.has(hk, n));
        }
        assert forall|n: Seq<char>| k1.set(sk).contains(n) implies k != #[trigger] service_key(
            n,
        ) by {
            assert(ks.has(sk, n));
        }
        assert(k4.at(k) == k3.at(k));
        assert(k2.at(k) == k1.at(k));
    }
    assert forall|r: Seq<char>|
        r == KEY_NODES@ || r == KEY_ADAPTERS@ implies !own_key(addr, r) && !offered_key(
        ks,
        addr,
        r,
    ) && !claimed_key(ks, addr, r) by {
        assert forall|n: Seq<char>| r != #[trigger] service_key(n) by {
            lemma_kinds_differ(addr, n);
        }
        assert forall|n: Seq<char>| r != #[trigger] host_key(n) by {
            lemma_kinds_differ(addr, n);
        }
    }
    assert(k5.at(KEY_NODES@) == k1.at(KEY_NODES@));
    assert(k5.at(KEY_ADAPTERS@) == k1.at(KEY_ADAPTERS@));
}

/// Cleaning up twice is cleaning up once.
pub proof fn law_cleaning_up_twice_changes_nothing(
    ks: Keyspace,
    once: Keyspace,
    twice: Keyspace,
    addr: Seq<char>,
)
    requires
        is_address(addr),
        cleaned(ks, once, addr),
        cleaned(once, twice, addr),
    ensures
        twice == once,
{
    let sk = services_key(addr);
    let hk = hostnames_key(addr);
    lemma_kinds_differ(addr, addr);
    assert(once.at(sk) == Entry::none());
    assert(once.at(hk) == Entry::none());
    assert forall|k: Seq<char>| #[trigger] twice.at(k) == once.at(k) by {
        if own_key(addr, k) {
            assert(once.at(k) == Entry::none());
        } else if k == KEY_NODES@ {
            assert(twice.at(k) =~= once.at(k));
        } else if k == KEY_ADAPTERS@ {
            assert(twice.at(k) =~= once.at(k));
        } else {
            assert forall|n: Seq<char>| !once.has(sk, n) by {
                assert(!once.at(sk).set.contains(n));
            }
            assert forall|n: Seq<char>| !once.has(hk, n) by {
                assert(!once.at(hk).set.contains(n));
            }
            assert(!offered_key(once, addr, k));
            assert(!claimed_key(once, addr, k));
        }
    }
    lemma_same(twice, once);
}

impl<D: DbConnection> ActorRepo<D> {
    /// Removes everything about the actor at an address.
    fn clean_up(&mut self, zpraddr: &ZprAddr) -> (r: Result<(), StoreError>)
        ensures
            final(self).reliable() == old(self).reliable(),
            old(self).reliable() ==> r is Ok,
            r is Ok ==> cleaned(old(self).state(), final(self).state(), zpraddr@),
    {
        let ghost ks = self.state();
        let addr = zpraddr.as_str();
        let services_key = actor_services_key_for(zpraddr);
        let hostnames_key = actor_hostnames_key_for(zpraddr);
        let mut ops: Vec<DbOp> = Vec::new();
        ops.push(DbOp::Del(actor_key_for(zpraddr)));
        let ghost o1 = ops@;
        ops.push(DbOp::Del(attrs_key_for(zpraddr)));
        let ghost o2 = ops@;
        ops.push(DbOp::SRem { set_key: KEY_NODES.to_owned(), member: addr.to_owned() });
        let ghost o3 = ops@;
        ops.push(DbOp::SRem { set_key: KEY_ADAPTERS.to_owned(), member: addr.to_owned() });
        proof {
            lemma_ops_push(ks, Seq::empty(), o1[0]);
            assert(o1 =~= Seq::empty().push(o1[0]));
            lemma_ops_push(ks, o1, o2[1]);
            lemma_ops_push(ks, o2, o3[2]);
            lemma_ops_push(ks, o3, ops@[3]);
            assert(ops@ =~= o3.push(ops@[3]));
            assert(apply_ops(ks, ops@) == without_own_record(ks, addr@));
        }
        self.db.atomic_pipeline(&ops)?;
        let ghost k1 = self.state();
        if self.db.key_exists(services_key.as_str())? {
            let names = self.db.smembers(services_key.as_str())?;
            self.release_owned_service_entries(addr, &names)?;
        } else {
            proof {
                lemma_no_services_left(k1, services_key@);
            }
        }
        let ghost k2 = self.state();
        self.db.del(services_key.as_str())?;
        let ghost k3 = self.state();
        if self.db.key_exists(hostnames_key.as_str())? {
            let names = self.db.smembers(hostnames_key.as_str())?;
            self.release_owned_host_entries(addr, &names)?;
        } else {
            proof {
                lemma_no_services_left(k3, hostnames_key@);
            }
        }
        let ghost k4 = self.state();
        self.db.del(hostnames_key.as_str())?;
        proof {
            lemma_cleaned(ks, k1, k2, k3, k4, self.state(), addr@);
        }
        Ok(())
    }

    /// Removes the actor at an address, with all its services and host names.
    pub fn rm_actor_by_zpr_addr(&mut self, zpra: &ZprAddr) -> (r: Result<(), StoreError>)
        ensures
            final(self).reliable() == old(self).reliable(),
            old(self).reliable() ==> r is Ok,
            r is Ok ==> cleaned(old(self).state(), final(self).state(), zpra@),
    {
        self.clean_up(zpra)
    }

    /// Brings the host name claims of an actor up to date.
    ///
    /// The first claim of a name wins; claiming again a name that one holds changes
    /// nothing. A value that is no label, that is called like a service of the
    /// policy, or that another actor holds is rejected and counted. Names no longer
    /// claimed are let go. The names lost to others are noted in the actor's record.
    fn claim_hostnames_for_actor(
        &mut self,
        actor: &Actor,
        zpraddr: &ZprAddr,
        policy_service_names: &Vec<String>,
    ) -> (r: Result<u64, StoreError>)
        ensures
            final(self).reliable() == old(self).reliable(),
            old(self).reliable() ==> r is Ok,
            r matches Ok(n) ==> hosts_claimed(
                old(self).state(),
                final(self).state(),
                zpraddr@,
                texts(policy_service_names@).to_set(),
                actor@.hostnames(),
                n as nat,
            ),
    {
        let ghost ks = self.state();
        let ghost policy = texts(policy_service_names@).to_set();
        let addr = zpraddr.as_str();
        let base_key = actor_key_for(zpraddr);
        let hostnames_key = actor_hostnames_key_for(zpraddr);
        let wanted = actor.hostnames();
        let ghost names = actor@.hostnames();
        let held = self.db.smembers(hostnames_key.as_str())?;
        let ghost all = texts(held@);
        let mut gone: Vec<String> = Vec::new();
        let mut i: usize = 0;
        while i < held.len()
            invariant
                all == texts(held@),
                distinct(all),
                names == texts(wanted@),
                policy == texts(policy_service_names@).to_set(),
                i <= held@.len(),
                distinct(texts(gone@)),
                forall|n: Seq<char>| #[trigger]
                    texts(gone@).contains(n) <==> all.take(i as int).contains(n) && !(
                    names.contains(n) && claimable(n, policy)),
            decreases held@.len() - i,
        {
            let name = &held[i];
            let keep = contains_text(&wanted, name.as_str()) && is_valid_hostname_label(
                name.as_str(),
            ) && !contains_text(policy_service_names, name.as_str());
            let ghost before = texts(gone@);
            proof {
                lemma_take_set(all, i as int);
                assert(all[i as int] == name@);
                assert forall|n: Seq<char>| #[trigger]
                    all.take(i + 1).contains(n) <==> all.take(i as int).contains(n) || n
                        == name@ by {
                    assert(all.take(i + 1).to_set().contains(n) == all.take(i + 1).contains(n));
                    assert(all.take(i as int).to_set().contains(n) == all.take(i as int).contains(
                        n,
                    ));
                }
                assert(keep == (names.contains(name@) && claimable(name@, policy)));
            }
            if !keep {
                gone.push(name.clone());
                proof {
                    assert(texts(gone@) =~= before.push(name@));
                    assert(!before.contains(name@)) by {
                        assert(all.take(i as int).to_set().contains(name@) == all.take(
                            i as int,
                        ).contains(name@));
                    }
                    lemma_push_keeps_distinct(before, name@);
                }
            }
            proof {
                assert forall|n: Seq<char>| #[trigger]
                    texts(gone@).contains(n) <==> all.take(i + 1).contains(n) && !(names.contains(n)
                        && claimable(n, policy)) by {
                    if !keep {
                        lemma_push_contains(before, name@, n);
                    }
                    assert(before.contains(n) <==> all.take(i as int).contains(n) && !(
                    names.contains(n) && claimable(n, policy)));
                    assert(all.take(i + 1).contains(n) <==> all.take(i as int).contains(n) || n
                        == name@);
                }
            }
            i = i + 1;
        }
        proof {
            assert(all.take(i as int) =~= all);
            let want = given_up(ks, addr@, policy, names);
            assert forall|n: Seq<char>| texts(gone@).to_set().contains(n) <==> want.contains(n) by {
                assert(texts(gone@).contains(n) == texts(gone@).to_set().contains(n));
                assert(all.contains(n) == all.to_set().contains(n));
                assert(all.to_set().contains(n) == ks.has(hostnames_key@, n));
            }
            assert(texts(gone@).to_set() =~= want);
        }
        self.release_owned_host_entries(addr, &gone)?;
        let ghost mid = self.state();
        self.db.del(hostnames_key.as_str())?;
        let ghost start = self.state();
        let mut lost: Vec<String> = Vec::new();
        let mut rejected: u64 = 0;
        let mut j: usize = 0;
        assert(texts(lost@) =~= Seq::empty());
        while j < wanted.len()
            invariant
                self.reliable() == old(self).reliable(),
                names == texts(wanted@),
                policy == texts(policy_service_names@).to_set(),
                addr@ == zpraddr@,
                hostnames_key@ == crate::db::keys::hostnames_key(addr@),
                j <= wanted@.len(),
                rejected <= j,
                ({
                    let c = claim_all(start, addr@, policy, names.take(j as int));
                    &&& c.ks == self.state()
                    &&& c.lost == texts(lost@)
                    &&& c.rejected == rejected
                }),
            decreases wanted@.len() - j,
        {
            let name = &wanted[j];
            let ghost so_far = claim_all(start, addr@, policy, names.take(j as int));
            let ghost lost_before = lost@;
            let ghost at = self.state();
            proof {
                assert(names.take(j + 1).drop_last() =~= names.take(j as int));
                assert(names.take(j + 1).last() == name@);
            }
            if !is_valid_hostname_label(name.as_str()) {
                rejected = rejected + 1;
            } else if contains_text(policy_service_names, name.as_str()) {
                rejected = rejected + 1;
                lost.push(name.clone());
                assert(texts(lost@) =~= texts(lost_before).push(name@));
            } else {
                let key = host_key_for(name.as_str());
                let mine = if self.db.hset_nx(key.as_str(), "zpr_addr", addr)? {
                    true
                } else {
                    match self.db.hget(key.as_str(), "zpr_addr")? {
                        Some(o) => text_eq(o.as_str(), addr),
                        None => false,
                    }
                };
                if mine {
                    self.db.sadd(hostnames_key.as_str(), name.as_str())?;
                } else {
                    rejected = rejected + 1;
                    lost.push(name.clone());
                    assert(texts(lost@) =~= texts(lost_before).push(name@));
                }
            }
            proof {
                assert(claim_all(start, addr@, policy, names.take(j + 1)) == claim(
                    so_far,
                    addr@,
                    policy,
                    name@,
                ));
            }
            j = j + 1;
        }
        assert(names.take(j as int) =~= names);
        let ghost done = self.state();
        let text = encode_list(&lost);
        self.db.hset(base_key.as_str(), "hostname_conflicts", text.as_str())?;
        proof {
            let c = claim_all(mid.del(hostnames_key@), addr@, policy, names);
            assert(noted(c, self.state(), addr@, rejected as nat));
            assert(hosts_released(ks, mid, addr@, given_up(ks, addr@, policy, names)));
        }
        Ok(rejected)
    }
}

/// What is stored of an actor's attributes and identity keys can be read back.
pub open spec fn reads_back(actor: ActorView) -> bool {
    &&& forall|i: int|
        0 <= i < actor.attrs.len() && storable(#[trigger] actor.attrs[i]) ==> stored_attr(
            attr_text(actor.attrs[i]),
        ) == Some(actor.attrs[i])
    &&& stored_list(list_text(actor.identity_keys)) == Some(actor.identity_keys)
}

/// The texts of attributes, with the empty text for one that cannot be stored.
spec fn stored_texts(attrs: Seq<AttrView>) -> Seq<(Seq<char>, Seq<char>)> {
    attrs.map_values(
        |a: AttrView|
            (
                a.key,
                if storable(a) {
                    attr_text(a)
                } else {
                    ""@
                },
            ),
    )
}

/// The texts that store attributes, and whether all of them can be stored.
fn encode_attrs(attrs: &Vec<Attribute>) -> (r: (Vec<(String, String)>, bool))
    ensures
        r.0@.len() == attrs@.len(),
        forall|i: int|
            0 <= i < attrs@.len() ==> ((#[trigger] r.0@[i]).0@, r.0@[i].1@) == stored_texts(
                attr_views(attrs@),
            )[i],
        r.1 == all_storable(attr_views(attrs@)),
        forall|i: int|
            0 <= i < attrs@.len() && storable(#[trigger] attr_views(attrs@)[i]) ==> stored_attr(
                attr_text(attr_views(attrs@)[i]),
            ) == Some(attr_views(attrs@)[i]),
{
    let ghost views = attr_views(attrs@);
    let mut out: Vec<(String, String)> = Vec::new();
    let mut ok = true;
    let mut i: usize = 0;
    while i < attrs.len()
        invariant
            views == attr_views(attrs@),
            i <= attrs@.len(),
            out@.len() == i,
            forall|j: int|
                0 <= j < i ==> ((#[trigger] out@[j]).0@, out@[j].1@) == stored_texts(views)[j],
            ok == forall|j: int| 0 <= j < i ==> storable(#[trigger] views[j]),
            forall|j: int|
                0 <= j < i && storable(#[trigger] views[j]) ==> stored_attr(attr_text(views[j]))
                    == Some(views[j]),
        decreases attrs@.len() - i,
    {
        assert(views[i as int] == attrs@[i as int]@);
        let text = match encode_attr(&attrs[i]) {
            Some(t) => t,
            None => {
                ok = false;
                "".to_owned()
            },
        };
        out.push((attrs[i].key.clone(), text));
        i = i + 1;
    }
    (out, ok)
}

proof fn lemma_with_attrs_step(ks: Keyspace, key: Seq<char>, attrs: Seq<AttrView>, i: int)
    requires
        0 <= i < attrs.len(),
    ensures
        with_attrs(ks, key, attrs.take(i + 1)) == with_attrs(ks, key, attrs.take(i)).hset(
            key,
            stored_texts(attrs)[i].0,
            stored_texts(attrs)[i].1,
        ),
{
    assert(attrs.take(i + 1).drop_last() =~= attrs.take(i));
    assert(attrs.take(i + 1).last() == attrs[i]);
}

impl<D: DbConnection> ActorRepo<D> {
    /// Writes the record of an actor: the keys that identify it, when it was
    /// created and when it was updated.
    fn write_record(&mut self, actor: &Actor, zpraddr: &ZprAddr, ts: &str) -> (r: Result<
        (),
        StoreError,
    >)
        ensures
            final(self).reliable() == old(self).reliable(),
            old(self).reliable() ==> r is Ok,
            r is Ok ==> final(self).state() == with_record(
                old(self).state(),
                zpraddr@,
                actor@.identity_keys,
                ts@,
            ),
            stored_list(list_text(actor@.identity_keys)) == Some(actor@.identity_keys),
    {
        let base_key = actor_key_for(zpraddr);
        let text = encode_list(&actor.identity_keys);
        self.db.hset(base_key.as_str(), "identity_keys", text.as_str())?;
        self.db.hset_nx(base_key.as_str(), "ctime", ts)?;
        self.db.hset(base_key.as_str(), "utime", ts)?;
        Ok(())
    }

    /// Writes the records of an actor that connects. Whatever stood at its address
    /// is removed first.
    fn try_add_actor(
        &mut self,
        actor: &Actor,
        zpraddr: &ZprAddr,
        policy_service_names: &Vec<String>,
        ts: &str,
    ) -> (r: Result<u64, StoreError>)
        ensures
            final(self).reliable() == old(self).reliable(),
            r is Ok ==> reads_back(actor@),
            r matches Ok(n) ==> all_storable(actor@.attrs) && added(
                old(self).state(),
                final(self).state(),
                actor@,
                zpraddr@,
                texts(policy_service_names@).to_set(),
                ts@,
                n as nat,
            ),
            old(self).reliable() ==> (r is Ok <==> all_storable(actor@.attrs)),
            old(self).reliable() && r is Err ==> cleaned(
                old(self).state(),
                final(self).state(),
                zpraddr@,
            ) && r->Err_0@ == StoreErrorView::InvalidData("attribute cannot be stored"@),
    {
        let ghost ks = self.state();
        self.clean_up(zpraddr)?;
        let ghost clean = self.state();
        let addr = zpraddr.as_str();
        let attrs_key = attrs_key_for(zpraddr);
        let services_key = actor_services_key_for(zpraddr);
        let ghost views = actor@.attrs;
        let (encoded_attrs, ok) = encode_attrs(&actor.attrs);
        if !ok {
            return Err(StoreError::InvalidData("attribute cannot be stored".to_owned()));
        }
        let mut i: usize = 0;
        while i < encoded_attrs.len()
            invariant
                self.reliable() == old(self).reliable(),
                all_storable(views),
                views == actor@.attrs,
                forall|j: int|
                    0 <= j < views.len() && storable(#[trigger] views[j]) ==> stored_attr(
                        attr_text(views[j]),
                    ) == Some(views[j]),
                encoded_attrs@.len() == views.len(),
                forall|j: int|
                    0 <= j < views.len() ==> ((#[trigger] encoded_attrs@[j]).0@,
                        encoded_attrs@[j].1@) == stored_texts(views)[j],
                i <= encoded_attrs@.len(),
                self.state() == with_attrs(clean, attrs_key@, views.take(i as int)),
            decreases encoded_attrs@.len() - i,
        {
            let pair = &encoded_attrs[i];
            proof {
                lemma_with_attrs_step(clean, attrs_key@, views, i as int);
                assert((encoded_attrs@[i as int].0@, encoded_attrs@[i as int].1@) == stored_texts(
                    views,
                )[i as int]);
            }
            self.db.hset(attrs_key.as_str(), pair.0.as_str(), pair.1.as_str())?;
            i = i + 1;
        }
        assert(views.take(i as int) =~= views);
        self.write_record(actor, zpraddr, ts)?;
        let ghost recorded = self.state();
        let services = actor.services();
        let ghost names = actor@.services();
        let mut k: usize = 0;
        while k < services.len()
            invariant
                self.reliable() == old(self).reliable(),
                names == texts(services@),
                reads_back(actor@),
                addr@ == zpraddr@,
                services_key@ == crate::db::keys::services_key(addr@),
                k <= services@.len(),
                self.state() == with_services(recorded, addr@, names.take(k as int)),
                all_storable(views),
                views == actor@.attrs,
            decreases services@.len() - k,
        {
            proof {
                assert(names.take(k + 1).drop_last() =~= names.take(k as int));
                assert(names.take(k + 1).last() == services@[k as int]@);
            }
            let key = service_key_for(services[k].as_str());
            self.db.hset(key.as_str(), "zpr_addr", addr)?;
            self.db.sadd(services_key.as_str(), services[k].as_str())?;
            k = k + 1;
        }
        assert(names.take(k as int) =~= names);
        assert(self.state() == connected(clean, actor@, addr@, ts@));
        let n: u64 = self.claim_hostnames_for_actor(actor, zpraddr, policy_service_names)?;
        if actor.is_node() {
            self.db.sadd(KEY_NODES, addr)?;
        } else {
            self.db.sadd(KEY_ADAPTERS, addr)?;
        }
        Ok(n)
    }

    /// Adds an actor that has connected, and claims its host names. A service that
    /// it offers becomes its own, even if another actor had it: the last to connect
    /// wins. If anything fails, what was written is removed again.
    ///
    /// `policy_service_names` are the services of the current policy; a host name
    /// called like one of them is rejected. Rejected claims are counted. `ts` is the
    /// time to note in the record.
    pub fn add_actor(
        &mut self,
        actor: &Actor,
        policy_service_names: &Vec<String>,
        counters: &mut Counters,
        ts: &str,
    ) -> (r: Result<(), StoreError>)
        ensures
            final(self).reliable() == old(self).reliable(),
            match actor@.addr() {
                None => {
                    &&& r matches Err(e) && e@ == StoreErrorView::MissingRequired(
                        "attempt to add actor with no ZPR address"@,
                    )
                    &&& final(self).state() == old(self).state()
                    &&& *final(counters) == *old(counters)
                },
                Some(addr) => {
                    &&& r is Ok ==> reads_back(actor@)
                    &&& r is Ok ==> all_storable(actor@.attrs) && exists|n: nat|
                        #![trigger counted(old(counters).hostname_claim_rejected, n)]
                        added(
                            old(self).state(),
                            final(self).state(),
                            actor@,
                            addr,
                            texts(policy_service_names@).to_set(),
                            ts@,
                            n,
                        ) && final(counters).hostname_claim_rejected == counted(
                            old(counters).hostname_claim_rejected,
                            n,
                        )
                    &&& old(self).reliable() ==> (r is Ok <==> all_storable(actor@.attrs))
                    &&& old(self).reliable() && r is Err ==> r->Err_0@
                        == StoreErrorView::InvalidData("attribute cannot be stored"@) && cleaned(
                        old(self).state(),
                        final(self).state(),
                        addr,
                    )
                    &&& r is Err ==> *final(counters) == *old(counters)
                },
            },
    {
        let zpraddr = match actor.get_zpr_addr() {
            Some(a) => a,
            None => {
                return Err(
                    StoreError::MissingRequired(
                        "attempt to add actor with no ZPR address".to_owned(),
                    ),
                );
            },
        };
        let ghost ks = self.state();
        match self.try_add_actor(actor, &zpraddr, policy_service_names, ts) {
            Ok(n) => {
                counters.record_rejections(n);
                Ok(())
            },
            Err(e) => {
                let ghost once = self.state();
                let undone = self.clean_up(&zpraddr);
                proof {
                    if old(self).reliable() {
                        assert(undone is Ok);
                        law_cleaning_up_twice_changes_nothing(ks, once, self.state(), zpraddr@);
                    }
                }
                Err(e)
            },
        }
    }

    /// Updates an actor that is connected already. What is passed replaces what is
    /// stored: attributes that the actor no longer carries are dropped, services
    /// that it no longer offers are let go. A service that another actor owns stays
    /// that actor's. The actor cannot change its role.
    pub fn update_actor(
        &mut self,
        actor: &Actor,
        policy_service_names: &Vec<String>,
        counters: &mut Counters,
        ts: &str,
    ) -> (r: Result<(), StoreError>)
        ensures
            final(self).reliable() == old(self).reliable(),
            r is Err ==> *final(counters) == *old(counters),
            r is Ok ==> reads_back(actor@),
            r is Ok ==> update_refusal(old(self).state(), actor@) is None && exists|n: nat|
                #![trigger counted(old(counters).hostname_claim_rejected, n)]
                refreshed(
                    old(self).state(),
                    final(self).state(),
                    actor@,
                    actor@.addr()->0,
                    texts(policy_service_names@).to_set(),
                    ts@,
                    n,
                ) && final(counters).hostname_claim_rejected == counted(
                    old(counters).hostname_claim_rejected,
                    n,
                ),
            old(self).reliable() ==> match update_refusal(old(self).state(), actor@) {
                Some(e) => (r matches Err(x) && x@ == e) && final(self).state() == old(
                    self,
                ).state(),
                None => r is Ok,
            },
    {
        let ghost ks = self.state();
        let zpraddr = match actor.get_zpr_addr() {
            Some(a) => a,
            None => {
                return Err(
                    StoreError::MissingRequired(
                        "attempt to update actor with no ZPR address".to_owned(),
                    ),
                );
            },
        };
        let addr = zpraddr.as_str();
        let base_key = actor_key_for(&zpraddr);
        let attrs_key = attrs_key_for(&zpraddr);
        let services_key = actor_services_key_for(&zpraddr);
        if !self.db.key_exists(base_key.as_str())? {
            return Err(
                StoreError::NotFound(cat("update called on non-existant actor: ", addr)),
            );
        }
        if actor.is_node() {
            if !self.db.sismember(KEY_NODES, addr)? {
                return Err(
                    StoreError::InvalidData(
                        cat("update fails since node actor not already in node role: ", addr),
                    ),
                );
            }
        } else if !self.db.sismember(KEY_ADAPTERS, addr)? {
            return Err(
                StoreError::InvalidData(
                    cat("update fails since adapter actor not already in adapter role: ", addr),
                ),
            );
        }
        assert(update_refusal(ks, actor@) is None);
        let ghost views = actor@.attrs;
        let (encoded_attrs, _) = encode_attrs(&actor.attrs);
        let mut ops: Vec<DbOp> = Vec::new();
        ops.push(DbOp::Del(attrs_key.clone()));
        let ghost emptied = ks.del(attrs_key@);
        proof {
            lemma_ops_push(ks, Seq::empty(), ops@[0]);
            assert(ops@ =~= Seq::empty().push(ops@[0]));
        }
        let mut i: usize = 0;
        while i < encoded_attrs.len()
            invariant
                *self == *old(self),
                ks == old(self).state(),
                update_refusal(ks, actor@) is None,
                forall|j: int|
                    0 <= j < views.len() && storable(#[trigger] views[j]) ==> stored_attr(
                        attr_text(views[j]),
                    ) == Some(views[j]),
                emptied == ks.del(attrs_key@),
                views == actor@.attrs,
                encoded_attrs@.len() == views.len(),
                forall|j: int|
                    0 <= j < views.len() ==> ((#[trigger] encoded_attrs@[j]).0@,
                        encoded_attrs@[j].1@) == stored_texts(views)[j],
                i <= encoded_attrs@.len(),
                apply_ops(ks, ops@) == with_attrs(emptied, attrs_key@, views.take(i as int)),
            decreases encoded_attrs@.len() - i,
        {
            let pair = &encoded_attrs[i];
            let ghost before = ops@;
            ops.push(
                DbOp::HSet {
                    hash_key: attrs_key.clone(),
                    field: pair.0.clone(),
                    value: pair.1.clone(),
                },
            );
            proof {
                lemma_with_attrs_step(emptied, attrs_key@, views, i as int);
                assert((encoded_attrs@[i as int].0@, encoded_attrs@[i as int].1@) == stored_texts(
                    views,
                )[i as int]);
                lemma_ops_push(ks, before, ops@.last());
                assert(ops@ =~= before.push(ops@.last()));
            }
            i = i + 1;
        }
        assert(views.take(i as int) =~= views);
        self.db.atomic_pipeline(&ops)?;
        self.write_record(actor, &zpraddr, ts)?;
        let ghost written = self.state();
        assert(written == rewritten(ks, actor@, addr@, ts@));
        let existing = self.db.smembers(services_key.as_str())?;
        let current = actor.services();
        let ghost names = actor@.services();
        let dropped = names_not_in(&existing, &current);
        proof {
            lemma_rewritten_services(ks, actor@, addr@, ts@);
            let want = dropped_services(ks, addr@, names);
            assert forall|n: Seq<char>| texts(dropped@).to_set().contains(n) <==> want.contains(
                n,
            ) by {
                assert(texts(dropped@).contains(n) == texts(dropped@).to_set().contains(n));
                assert(texts(existing@).contains(n) == texts(existing@).to_set().contains(n));
                assert(texts(existing@).to_set().contains(n) == ks.has(services_key@, n));
            }
            assert(texts(dropped@).to_set() =~= want);
        }
        self.release_owned_service_entries(addr, &dropped)?;
        let ghost mid = self.state();
        self.db.del(services_key.as_str())?;
        let ghost start = self.state();
        let mut k: usize = 0;
        while k < current.len()
            invariant
                self.reliable() == old(self).reliable(),
                update_refusal(ks, actor@) is None,
                names == texts(current@),
                reads_back(actor@),
                addr@ == zpraddr@,
                services_key@ == crate::db::keys::services_key(addr@),
                k <= current@.len(),
                self.state() == with_refreshed_services(start, addr@, names.take(k as int)),
            decreases current@.len() - k,
        {
            let ghost before = self.state();
            proof {
                assert(names.take(k + 1).drop_last() =~= names.take(k as int));
                assert(names.take(k + 1).last() == current@[k as int]@);
            }
            let key = service_key_for(current[k].as_str());
            let taken = match self.db.hget(key.as_str(), "zpr_addr")? {
                Some(o) => !text_eq(o.as_str(), addr),
                None => false,
            };
            if !taken {
                self.db.hset(key.as_str(), "zpr_addr", addr)?;
            }
            self.db.sadd(services_key.as_str(), current[k].as_str())?;
            assert(self.state() == with_refreshed(before, addr@, current@[k as int]@));
            k = k + 1;
        }
        assert(names.take(k as int) =~= names);
        let n: u64 = self.claim_hostnames_for_actor(actor, &zpraddr, policy_service_names)?;
        proof {
            assert(services_released(
                rewritten(ks, actor@, addr@, ts@),
                mid,
                addr@,
                dropped_services(ks, addr@, actor@.services()),
            ));
        }
        counters.record_rejections(n);
        Ok(())
    }
}

impl Counters {
    /// Counters at zero.
    pub fn new() -> (r: Counters)
        ensures
            r.hostname_claim_rejected == 0,
    {
        Counters { hostname_claim_rejected: 0 }
    }

    /// Counts rejected host name claims.
    pub fn record_rejections(&mut self, n: u64)
        ensures
            final(self).hostname_claim_rejected == counted(
                old(self).hostname_claim_rejected,
                n as nat,
            ),
    {
        self.hostname_claim_rejected = self.hostname_claim_rejected.saturating_add(n);
    }
}

/// Why an actor cannot be updated, if it cannot.
pub open spec fn update_refusal(ks: Keyspace, actor: ActorView) -> Option<StoreErrorView> {
    match actor.addr() {
        None => Some(
            StoreErrorView::MissingRequired("attempt to update actor with no ZPR address"@),
        ),
        Some(addr) => if !ks.present(actor_key(addr)) {
            Some(StoreErrorView::NotFound("update called on non-existant actor: "@ + addr))
        } else if actor.is_node() && !ks.has(KEY_NODES@, addr) {
            Some(
                StoreErrorView::InvalidData(
                    "update fails since node actor not already in node role: "@ + addr,
                ),
            )
        } else if !actor.is_node() && !ks.has(KEY_ADAPTERS@, addr) {
            Some(
                StoreErrorView::InvalidData(
                    "update fails since adapter actor not already in adapter role: "@ + addr,
                ),
            )
        } else {
            None
        },
    }
}

/// The names of the first list that the second does not hold.
fn names_not_in(names: &Vec<String>, other: &Vec<String>) -> (r: Vec<String>)
    requires
        distinct(texts(names@)),
    ensures
        distinct(texts(r@)),
        forall|n: Seq<char>| #[trigger]
            texts(r@).contains(n) <==> texts(names@).contains(n) && !texts(other@).contains(n),
{
    let ghost all = texts(names@);
    let mut out: Vec<String> = Vec::new();
    let mut i: usize = 0;
    while i < names.len()
        invariant
            all == texts(names@),
            distinct(all),
            i <= names@.len(),
            distinct(texts(out@)),
            forall|n: Seq<char>| #[trigger]
                texts(out@).contains(n) <==> all.take(i as int).contains(n) && !texts(
                    other@,
                ).contains(n),
        decreases names@.len() - i,
    {
        let name = &names[i];
        let ghost before = texts(out@);
        proof {
            lemma_take_set(all, i as int);
            assert(all[i as int] == name@);
            assert(all.take(i as int).to_set().contains(name@) == all.take(i as int).contains(
                name@,
            ));
        }
        let keep = !contains_text(other, name.as_str());
        if keep {
            out.push(name.clone());
            proof {
                assert(texts(out@) =~= before.push(name@));
                assert(!before.contains(name@));
                lemma_push_keeps_distinct(before, name@);
            }
        }
        proof {
            assert forall|n: Seq<char>| #[trigger]
                texts(out@).contains(n) <==> all.take(i + 1).contains(n) && !texts(
                    other@,
                ).contains(n) by {
                if keep {
                    lemma_push_contains(before, name@, n);
                }
                assert(before.contains(n) <==> all.take(i as int).contains(n) && !texts(
                    other@,
                ).contains(n));
                assert(all.take(i + 1).to_set().contains(n) == all.take(i + 1).contains(n));
                assert(all.take(i as int).to_set().contains(n) == all.take(i as int).contains(n));
            }
        }
        i = i + 1;
    }
    assert(all.take(i as int) =~= all);
    out
}

proof fn lemma_with_attrs_frame(ks: Keyspace, key: Seq<char>, attrs: Seq<AttrView>, k: Seq<char>)
    requires
        k != key,
    ensures
        with_attrs(ks, key, attrs).at(k) == ks.at(k),
    decreases attrs.len(),
{
    if attrs.len() > 0 {
        lemma_with_attrs_frame(ks, key, attrs.drop_last(), k);
    }
}

/// Rewriting the records of an actor touches only its record and its attributes.
pub proof fn lemma_rewritten_frame(
    ks: Keyspace,
    actor: ActorView,
    addr: Seq<char>,
    ts: Seq<char>,
    k: Seq<char>,
)
    requires
        k != attrs_key(addr),
        k != actor_key(addr),
    ensures
        rewritten(ks, actor, addr, ts).at(k) == ks.at(k),
{
    lemma_with_attrs_frame(ks.del(attrs_key(addr)), attrs_key(addr), actor.attrs, k);
}

proof fn lemma_rewritten_services(
    ks: Keyspace,
    actor: ActorView,
    addr: Seq<char>,
    ts: Seq<char>,
)
    requires
        is_address(addr),
    ensures
        forall|n: Seq<char>| #[trigger]
            rewritten(ks, actor, addr, ts).set(services_key(addr)).contains(n) == ks.has(
                services_key(addr),
                n,
            ),
        rewritten(ks, actor, addr, ts).set(services_key(addr)) == ks.set(services_key(addr)),
{
    lemma_actor_keys_differ(addr, addr);
    let k = services_key(addr);
    lemma_rewritten_frame(ks, actor, addr, ts, k);
    assert(rewritten(ks, actor, addr, ts).at(k) == ks.at(k));
}

proof fn lemma_push_keeps_distinct(list: Seq<Seq<char>>, x: Seq<char>)
    requires
        distinct(list),
        !list.contains(x),
    ensures
        distinct(list.push(x)),
{
    let more = list.push(x);
    assert forall|i: int, j: int| 0 <= i < j < more.len() implies (#[trigger] more[i]) != (
    #[trigger] more[j]) by {
        assert(more[i] == list[i]);
        if j < list.len() {
            assert(more[j] == list[j]);
        }
    }
}

pub proof fn lemma_push_contains(list: Seq<Seq<char>>, x: Seq<char>, y: Seq<char>)
    ensures
        list.push(x).contains(y) <==> list.contains(y) || y == x,
{
    let more = list.push(x);
    if list.contains(y) {
        let i = choose|i: int| 0 <= i < list.len() && list[i] == y;
        assert(more[i] == y);
    }
    if y == x {
        assert(more[list.len() as int] == y);
    }
    if more.contains(y) {
        let i = choose|i: int| 0 <= i < more.len() && more[i] == y;
        if i < list.len() {
            assert(list[i] == y);
        }
    }
}

/// The count of rejected claims goes up by the rejected ones and stays at its greatest value.
pub proof fn law_rejections_add_up(before: u64, n: nat)
    ensures
        before + n <= u64::MAX ==> counted(before, n) == before + n,
        before + n > u64::MAX ==> counted(before, n) == u64::MAX,
{
}

/// An actor can be refreshed just where it has an address, is connected there, and is in the set
/// of its role; what is missing is named by the kind of the error.
pub proof fn law_only_connected_actors_are_refreshed(ks: Keyspace, actor: ActorView)
    ensures
        update_refusal(ks, actor) is None <==> (actor.addr() matches Some(addr) && ks.present(
            actor_key(addr),
        ) && (actor.is_node() ==> ks.has("nodes"@, addr)) && (!actor.is_node() ==> ks.has(
            "adapters"@,
            addr,
        ))),
        actor.addr() is None ==> (update_refusal(ks, actor) matches Some(e) && e
            is MissingRequired),
        actor.addr() matches Some(addr) && !ks.present(actor_key(addr)) ==> (update_refusal(
            ks,
            actor,
        ) matches Some(e) && e is NotFound),
{
}

} // verus!
