//! Reading the records of actors.
use vstd::prelude::*;

use crate::actor::{
    decode_attr, decode_list, stored_attr, stored_list, with_attr, Actor, ActorView, CN,
};
use crate::attribute::{attr_views, single_value, AttrView, Attribute};
use crate::db::actor::{ActorRepo, Role, ServiceEntry};
use crate::db::addr::{address_in, ZprAddr};
use crate::db::keys::{
    actor_hostnames_key_for, actor_key, actor_key_for, actor_services_key_for, attrs_key,
    attrs_key_for, host_key, host_key_for, hostnames_key, service_key, service_key_for,
    services_key, unmunge, unmunged, KEY_ADAPTERS, KEY_NODES,
};
use crate::db::store::{
    distinct, fits, key_fits, lists_fields, DbConnection, Keyspace, StoreError, StoreErrorView,
};
use crate::text::{cat, cat3, opt_text, slice_text, texts, to_chars};

verus! {

/// Key of the attribute that holds an actor's public key.
pub const A2A_DH_PUBKEY: &'static str = "device.zpr.a2a.dh.pubkey";

/// A public key.
#[derive(Debug)]
pub struct PublicKey {
    pub public_key: Vec<u8>,
}

/// The text of an optional address.
pub open spec fn opt_addr(a: Option<ZprAddr>) -> Option<Seq<char>> {
    match a {
        Some(a) => Some(a@),
        None => None,
    }
}

/// The address that an entry points at, or the complaint about it.
pub open spec fn pointed_at(ks: Keyspace, key: Seq<char>, head: Seq<char>) -> Result<
    Option<Seq<char>>,
    StoreErrorView,
> {
    match ks.hget(key, "zpr_addr"@) {
        None => Ok(None),
        Some(a) => match address_in(a) {
            Some(t) => Ok(Some(t)),
            None => Err(
                StoreErrorView::InvalidData(head + key + ": invalid IP address syntax"@),
            ),
        },
    }
}

/// The outcome of looking up an address, as mathematical data.
pub open spec fn addr_outcome(r: Result<Option<ZprAddr>, StoreError>) -> Result<
    Option<Seq<char>>,
    StoreErrorView,
> {
    match r {
        Ok(a) => Ok(opt_addr(a)),
        Err(e) => Err(e@),
    }
}

/// The text without the beginning, as often as it stands there.
pub open spec fn stripped(k: Seq<char>) -> Seq<char>
    decreases k.len(),
{
    if k.len() >= 8 && "service:"@.len() == 8 && "service:"@.is_prefix_of(k) {
        stripped(k.skip(8))
    } else {
        k
    }
}

/// The services at the given keys, or the complaint about the first bad one.
pub open spec fn services_at(ks: Keyspace, keys: Seq<Seq<char>>) -> Result<
    Seq<(Seq<char>, Seq<char>)>,
    StoreErrorView,
>
    decreases keys.len(),
{
    if keys.len() == 0 {
        Ok(Seq::empty())
    } else {
        let k = keys.last();
        match services_at(ks, keys.drop_last()) {
            Err(e) => Err(e),
            Ok(list) => match pointed_at(ks, k, "invalid zpr_addr in service entry "@) {
                Err(e) => Err(e),
                Ok(None) => Ok(list),
                Ok(Some(a)) => match unmunged(stripped(k)) {
                    Some(name) => Ok(list.push((name, a))),
                    None => Err(
                        StoreErrorView::InvalidData(
                            "invalid service name encoding for key "@ + k,
                        ),
                    ),
                },
            },
        }
    }
}

/// The entries of services as mathematical data.
pub open spec fn entry_views(list: Seq<ServiceEntry>) -> Seq<(Seq<char>, Seq<char>)> {
    list.map_values(|e: ServiceEntry| (e.name@, e.zpr_addr@))
}

/// The keys are those of all services, each once.
pub open spec fn all_service_keys(ks: Keyspace, keys: Seq<Seq<char>>) -> bool {
    distinct(keys) && forall|k: Seq<char>| #[trigger]
        keys.contains(k) <==> ks.present(k) && fits(k, "service:"@, ""@)
}

proof fn lemma_bad_prefix(ks: Keyspace, keys: Seq<Seq<char>>, n: int)
    requires
        0 <= n <= keys.len(),
        services_at(ks, keys.take(n)) is Err,
    ensures
        services_at(ks, keys) == services_at(ks, keys.take(n)),
    decreases keys.len(),
{
    if n < keys.len() {
        assert(keys.drop_last().take(n) =~= keys.take(n));
        lemma_bad_prefix(ks, keys.drop_last(), n);
    } else {
        assert(keys.take(n) =~= keys);
    }
}

/// Takes the beginning away, as often as it stands there.
fn strip_service(key: &str) -> (r: String)
    ensures
        r@ == stripped(key@),
    decreases key@.len(),
{
    proof {
        reveal_strlit("service:");
        reveal_strlit("");
    }
    if key_fits(key, "service:", "") {
        let chars = to_chars(key);
        let rest = slice_text(&chars, 8, chars.len());
        assert(rest@ =~= key@.skip(8));
        strip_service(rest.as_str())
    } else {
        proof {
            if "service:"@.is_prefix_of(key@) {
                assert(""@.is_suffix_of(key@)) by {
                    assert(key@.subrange(key@.len() as int, key@.len() as int) =~= ""@);
                }
            }
        }
        key.to_owned()
    }
}

/// The attributes stored under the given keys, as far as they are there; or the
/// complaint about a malformed one.
pub open spec fn attrs_found(ks: Keyspace, addr: Seq<char>, keys: Seq<Seq<char>>) -> Result<
    Seq<AttrView>,
    StoreErrorView,
>
    decreases keys.len(),
{
    if keys.len() == 0 {
        Ok(Seq::empty())
    } else {
        match attrs_found(ks, addr, keys.drop_last()) {
            Err(e) => Err(e),
            Ok(list) => match ks.hget(attrs_key(addr), keys.last()) {
                None => Ok(list),
                Some(text) => match stored_attr(text) {
                    Some(a) => Ok(list.push(a)),
                    None => Err(StoreErrorView::InvalidData("malformed attribute"@)),
                },
            },
        }
    }
}

proof fn lemma_bad_attr(ks: Keyspace, addr: Seq<char>, keys: Seq<Seq<char>>, n: int)
    requires
        0 <= n <= keys.len(),
        attrs_found(ks, addr, keys.take(n)) is Err,
    ensures
        attrs_found(ks, addr, keys) == attrs_found(ks, addr, keys.take(n)),
    decreases keys.len(),
{
    if n < keys.len() {
        assert(keys.drop_last().take(n) =~= keys.take(n));
        lemma_bad_attr(ks, addr, keys.drop_last(), n);
    } else {
        assert(keys.take(n) =~= keys);
    }
}

/// The attributes that stored texts stand for, if none is malformed.
pub open spec fn loaded_attrs(list: Seq<(String, String)>) -> Option<Seq<AttrView>>
    decreases list.len(),
{
    if list.len() == 0 {
        Some(Seq::empty())
    } else {
        match loaded_attrs(list.drop_last()) {
            None => None,
            Some(attrs) => match stored_attr(list.last().1@) {
                Some(a) => Some(with_attr(attrs, a)),
                None => None,
            },
        }
    }
}

/// The actor that the records at an address stand for.
pub open spec fn loaded(ks: Keyspace, addr: Seq<char>, list: Seq<(String, String)>) -> Result<
    ActorView,
    StoreErrorView,
> {
    if !ks.present(actor_key(addr)) {
        Err(StoreErrorView::NotFound("actor not found: "@ + addr))
    } else {
        match loaded_attrs(list) {
            None => Err(StoreErrorView::InvalidData("malformed attribute"@)),
            Some(attrs) => {
                let text = match ks.hget(actor_key(addr), "identity_keys"@) {
                    Some(t) => t,
                    None => ""@,
                };
                match stored_list(text) {
                    None => Err(StoreErrorView::InvalidData("malformed identity keys"@)),
                    Some(identity_keys) => Ok(ActorView { attrs, identity_keys }),
                }
            },
        }
    }
}

proof fn lemma_bad_load(list: Seq<(String, String)>, n: int)
    requires
        0 <= n <= list.len(),
        loaded_attrs(list.take(n)) is None,
    ensures
        loaded_attrs(list) is None,
    decreases list.len(),
{
    if n < list.len() {
        assert(list.drop_last().take(n) =~= list.take(n));
        lemma_bad_load(list.drop_last(), n);
    } else {
        assert(list.take(n) =~= list);
    }
}

/// Texts with commas between them.
pub open spec fn joined(list: Seq<Seq<char>>) -> Seq<char>
    decreases list.len(),
{
    if list.len() == 0 {
        Seq::empty()
    } else if list.len() == 1 {
        list[0]
    } else {
        joined(list.drop_last()) + ","@ + list.last()
    }
}

/// Joins texts with commas.
fn join(list: &Vec<String>) -> (r: String)
    ensures
        r@ == joined(texts(list@)),
{
    let ghost all = texts(list@);
    let mut out = String::new();
    let mut i: usize = 0;
    while i < list.len()
        invariant
            all == texts(list@),
            i <= list@.len(),
            out@ == joined(all.take(i as int)),
        decreases list@.len() - i,
    {
        proof {
            assert(all.take(i + 1).drop_last() =~= all.take(i as int));
            assert(all.take(i + 1).last() == list@[i as int]@);
        }
        if i == 0 {
            out = list[0].clone();
        } else {
            out = cat3(out.as_str(), ",", list[i].as_str());
        }
        i = i + 1;
    }
    assert(all.take(i as int) =~= all);
    out
}

/// The common name to show for an actor, if it has one that can be read.
pub open spec fn cn_label(ks: Keyspace, addr: Seq<char>) -> Option<Seq<char>> {
    match ks.hget(attrs_key(addr), CN@) {
        None => None,
        Some(text) => match stored_attr(text) {
            None => None,
            Some(a) => Some(
                match single_value(a) {
                    Some(v) => v,
                    None => joined(a.values),
                },
            ),
        },
    }
}

/// The actors among the members of a role set, each with its label.
pub open spec fn actors_among(ks: Keyspace, members: Seq<Seq<char>>) -> Seq<
    (Seq<char>, Option<Seq<char>>),
>
    decreases members.len(),
{
    if members.len() == 0 {
        Seq::empty()
    } else {
        let before = actors_among(ks, members.drop_last());
        match address_in(members.last()) {
            Some(a) => before.push((a, cn_label(ks, a))),
            None => before,
        }
    }
}

/// The addresses among the members of a role set.
pub open spec fn addresses_among(members: Seq<Seq<char>>) -> Seq<Seq<char>>
    decreases members.len(),
{
    if members.len() == 0 {
        Seq::empty()
    } else {
        let before = addresses_among(members.drop_last());
        match address_in(members.last()) {
            Some(a) => before.push(a),
            None => before,
        }
    }
}

/// The members of a set, each once, in some order.
pub open spec fn enumerates(members: Seq<Seq<char>>, set: Set<Seq<char>>) -> bool {
    distinct(members) && members.to_set() == set
}

/// Listed actors as mathematical data.
pub open spec fn listed(list: Seq<(ZprAddr, Option<String>)>) -> Seq<
    (Seq<char>, Option<Seq<char>>),
> {
    list.map_values(|e: (ZprAddr, Option<String>)| (e.0@, opt_text(e.1)))
}

/// The addresses of listed actors.
pub open spec fn listed_addresses(list: Seq<(ZprAddr, Option<String>)>) -> Seq<Seq<char>> {
    list.map_values(|e: (ZprAddr, Option<String>)| e.0@)
}

/// The stored text of the public key of the actor at an address, if there is one, or the
/// complaint about what is stored.
pub open spec fn stored_key(ks: Keyspace, addr: Seq<char>) -> Result<
    Option<Seq<char>>,
    StoreErrorView,
> {
    match attrs_found(ks, addr, seq![A2A_DH_PUBKEY@]) {
        Err(e) => Err(e),
        Ok(attrs) => if attrs.len() == 0 {
            Ok(None)
        } else {
            match single_value(attrs[0]) {
                Some(v) => Ok(Some(v)),
                None => Err(
                    StoreErrorView::InvalidData(
                        "actor "@ + addr + ": attribute is not single-valued"@,
                    ),
                ),
            }
        },
    }
}

impl<D: DbConnection> ActorRepo<D> {
    /// The address that an entry points at.
    fn read_pointer(&self, key: &str, head: &str) -> (r: Result<Option<ZprAddr>, StoreError>)
        ensures
            r is Ok || self.reliable() ==> addr_outcome(r) == pointed_at(
                self.state(),
                key@,
                head@,
            ),
    {
        match self.db.hget(key, "zpr_addr")? {
            None => Ok(None),
            Some(text) => match ZprAddr::parse(text.as_str()) {
                Some(a) => Ok(Some(a)),
                None => Err(
                    StoreError::InvalidData(cat3(head, key, ": invalid IP address syntax")),
                ),
            },
        }
    }

    /// Where a service is, if anywhere.
    pub fn get_zpr_addr_for_service(&self, service_name: &str) -> (r: Result<
        Option<ZprAddr>,
        StoreError,
    >)
        ensures
            r is Ok || self.reliable() ==> addr_outcome(r) == pointed_at(
                self.state(),
                service_key(service_name@),
                "invalid zpr_addr in service entry "@,
            ),
    {
        let key = service_key_for(service_name);
        self.read_pointer(key.as_str(), "invalid zpr_addr in service entry ")
    }

    /// Who holds a host name, if anyone does.
    pub fn get_zpr_addr_for_hostname(&self, hostname: &str) -> (r: Result<
        Option<ZprAddr>,
        StoreError,
    >)
        ensures
            r is Ok || self.reliable() ==> addr_outcome(r) == pointed_at(
                self.state(),
                host_key(hostname@),
                "invalid zpr_addr in host entry "@,
            ),
    {
        let key = host_key_for(hostname);
        self.read_pointer(key.as_str(), "invalid zpr_addr in host entry ")
    }

    /// All services, with where they are, in the order in which the database lists
    /// their keys. An entry that points nowhere is left out; one that points at no
    /// address, or has a name that is not encoded as names are, is an error.
    pub fn list_services(&self) -> (r: Result<Vec<ServiceEntry>, StoreError>)
        ensures
            self.reliable() || r is Ok ==> exists|keys: Seq<Seq<char>>| #[trigger]
                all_service_keys(self.state(), keys) && match r {
                    Ok(list) => services_at(self.state(), keys) matches Ok(want) && want
                        == entry_views(list@),
                    Err(e) => services_at(self.state(), keys) matches Err(want) && want == e@,
                },
    {
        let ghost ks = self.state();
        let keys = self.db.scan_match_all("service:", "")?;
        let ghost all = texts(keys@);
        assert(all_service_keys(ks, all));
        let mut out: Vec<ServiceEntry> = Vec::new();
        let mut i: usize = 0;
        assert(entry_views(out@) =~= Seq::empty());
        while i < keys.len()
            invariant
                ks == self.state(),
                all == texts(keys@),
                all_service_keys(ks, all),
                i <= keys@.len(),
                services_at(ks, all.take(i as int)) matches Ok(want) && want == entry_views(out@),
            decreases keys@.len() - i,
        {
            let key = &keys[i];
            proof {
                assert(all.take(i + 1).drop_last() =~= all.take(i as int));
                assert(all.take(i + 1).last() == key@);
            }
            let pointed = self.read_pointer(key.as_str(), "invalid zpr_addr in service entry ");
            match pointed {
                Err(e) => {
                    proof {
                        if self.reliable() {
                            lemma_bad_prefix(ks, all, i + 1);
                        }
                    }
                    return Err(e);
                },
                Ok(None) => {},
                Ok(Some(addr)) => {
                    let raw = strip_service(key.as_str());
                    match unmunge(raw.as_str()) {
                        Some(name) => {
                            let ghost before = out@;
                            let ghost pair = (name@, addr@);
                            out.push(ServiceEntry::new(name, addr));
                            assert(entry_views(out@) =~= entry_views(before).push(pair));
                        },
                        None => {
                            proof {
                                lemma_bad_prefix(ks, all, i + 1);
                            }
                            return Err(
                                StoreError::InvalidData(
                                    cat("invalid service name encoding for key ", key.as_str()),
                                ),
                            );
                        },
                    }
                },
            }
            i = i + 1;
        }
        assert(all.take(i as int) =~= all);
        Ok(out)
    }

    /// The services that an actor offers, each once.
    pub fn list_services_for_actor(&self, zpr_addr: &ZprAddr) -> (r: Result<
        Vec<String>,
        StoreError,
    >)
        ensures
            self.reliable() ==> r is Ok,
            r matches Ok(list) ==> enumerates(
                texts(list@),
                self.state().set(services_key(zpr_addr@)),
            ),
    {
        let key = actor_services_key_for(zpr_addr);
        self.db.smembers(key.as_str())
    }

    /// The host names that an actor holds, each once.
    pub fn list_hostnames_for_actor(&self, zpr_addr: &ZprAddr) -> (r: Result<
        Vec<String>,
        StoreError,
    >)
        ensures
            self.reliable() ==> r is Ok,
            r matches Ok(list) ==> enumerates(
                texts(list@),
                self.state().set(hostnames_key(zpr_addr@)),
            ),
    {
        let key = actor_hostnames_key_for(zpr_addr);
        self.db.smembers(key.as_str())
    }

    /// The attributes of the given keys, as far as the actor has them.
    pub fn get_actor_attrs(&self, zpr_addr: &ZprAddr, attr_keys: &Vec<String>) -> (r: Result<
        Vec<Attribute>,
        StoreError,
    >)
        ensures
            self.reliable() || r is Ok ==> match r {
                Ok(list) => attrs_found(
                    self.state(),
                    zpr_addr@,
                    texts(attr_keys@),
                ) matches Ok(want) && want == attr_views(list@),
                Err(e) => attrs_found(
                    self.state(),
                    zpr_addr@,
                    texts(attr_keys@),
                ) matches Err(want) && want == e@,
            },
    {
        let ghost ks = self.state();
        let ghost all = texts(attr_keys@);
        let key = attrs_key_for(zpr_addr);
        let mut out: Vec<Attribute> = Vec::new();
        let mut i: usize = 0;
        assert(attr_views(out@) =~= Seq::empty());
        while i < attr_keys.len()
            invariant
                ks == self.state(),
                key@ == attrs_key(zpr_addr@),
                all == texts(attr_keys@),
                i <= attr_keys@.len(),
                attrs_found(ks, zpr_addr@, all.take(i as int)) matches Ok(want) && want
                    == attr_views(out@),
            decreases attr_keys@.len() - i,
        {
            proof {
                assert(all.take(i + 1).drop_last() =~= all.take(i as int));
                assert(all.take(i + 1).last() == attr_keys@[i as int]@);
            }
            if let Some(text) = self.db.hget(key.as_str(), attr_keys[i].as_str())? {
                match decode_attr(text.as_str()) {
                    Some(a) => {
                        let ghost before = out@;
                        let ghost view = a@;
                        out.push(a);
                        assert(attr_views(out@) =~= attr_views(before).push(view));
                    },
                    None => {
                        proof {
                            lemma_bad_attr(ks, zpr_addr@, all, i + 1);
                        }
                        return Err(StoreError::InvalidData("malformed attribute".to_owned()));
                    },
                }
            }
            i = i + 1;
        }
        assert(all.take(i as int) =~= all);
        Ok(out)
    }

    /// The public key that an actor sent, in its stored text form, if it sent one.
    pub fn stored_a2a_dh_pubkey(&self, zpra: &ZprAddr) -> (r: Result<Option<String>, StoreError>)
        ensures
            self.reliable() || r is Ok ==> match r {
                Ok(text) => stored_key(self.state(), zpra@) matches Ok(want) && want == opt_text(
                    text,
                ),
                Err(e) => stored_key(self.state(), zpra@) matches Err(want) && want == e@,
            },
    {
        let mut keys: Vec<String> = Vec::new();
        keys.push(A2A_DH_PUBKEY.to_owned());
        assert(texts(keys@) =~= seq![A2A_DH_PUBKEY@]);
        let attrs = self.get_actor_attrs(zpra, &keys)?;
        if attrs.len() == 0 {
            return Ok(None);
        }
        assert(attr_views(attrs@)[0] == attrs@[0]@);
        match attrs[0].get_single_value() {
            Some(v) => Ok(Some(v.clone())),
            None => Err(
                StoreError::InvalidData(
                    cat3("actor ", zpra.as_str(), ": attribute is not single-valued"),
                ),
            ),
        }
    }

    /// The public key that an actor sent, if it sent one, given what decoding its stored text
    /// came to; where no text is stored, `decoded` is not read.
    pub fn get_a2a_dh_pubkey_by_zpr_addr(
        &self,
        zpra: &ZprAddr,
        decoded: Result<PublicKey, String>,
    ) -> (r: Result<Option<PublicKey>, StoreError>)
        ensures
            self.reliable() || r is Ok ==> match stored_key(self.state(), zpra@) {
                Err(want) => r matches Err(e) && e@ == want,
                Ok(None) => r matches Ok(None),
                Ok(Some(_)) => match decoded {
                    Ok(key) => r matches Ok(Some(k)) && k == key,
                    Err(m) => r matches Err(e) && e@ == StoreErrorView::InvalidData(
                        "invalid "@ + A2A_DH_PUBKEY@ + " for actor "@ + zpra@ + ": "@ + m@,
                    ),
                },
            },
    {
        match self.stored_a2a_dh_pubkey(zpra)? {
            None => Ok(None),
            Some(_) => match decoded {
                Ok(key) => Ok(Some(key)),
                Err(m) => {
                    let head = cat3("invalid ", A2A_DH_PUBKEY, " for actor ");
                    let named = cat3(head.as_str(), zpra.as_str(), ": ");
                    Err(StoreError::InvalidData(cat(named.as_str(), m.as_str())))
                },
            },
        }
    }

    /// Loads the actor at an address from its records.
    pub fn get_actor_by_zpr_addr(&self, zpra: &ZprAddr) -> (r: Result<Actor, StoreError>)
        ensures
            r matches Ok(actor) ==> actor.wf(),
            self.reliable() || r is Ok ==> exists|list: Seq<(String, String)>| #[trigger]
                lists_fields(list, self.state(), attrs_key(zpra@)) && match r {
                    Ok(actor) => loaded(self.state(), zpra@, list) matches Ok(want) && want
                        == actor@,
                    Err(e) => loaded(self.state(), zpra@, list) matches Err(want) && want == e@,
                },
    {
        let ghost ks = self.state();
        let base_key = actor_key_for(zpra);
        let key = attrs_key_for(zpra);
        let present = self.db.key_exists(base_key.as_str())?;
        let fields = self.db.hgetall(key.as_str())?;
        assert(lists_fields(fields@, ks, attrs_key(zpra@)));
        if !present {
            return Err(StoreError::NotFound(cat("actor not found: ", zpra.as_str())));
        }
        let mut actor = Actor::new();
        let mut i: usize = 0;
        while i < fields.len()
            invariant
                ks == self.state(),
                ks.present(actor_key(zpra@)),
                lists_fields(fields@, ks, attrs_key(zpra@)),
                i <= fields@.len(),
                loaded_attrs(fields@.take(i as int)) == Some(actor@.attrs),
                actor.wf(),
                actor@.identity_keys == Seq::<Seq<char>>::empty(),
            decreases fields@.len() - i,
        {
            proof {
                assert(fields@.take(i + 1).drop_last() =~= fields@.take(i as int));
                assert(fields@.take(i + 1).last() == fields@[i as int]);
            }
            match decode_attr(fields[i].1.as_str()) {
                Some(a) => {
                    actor.add_attribute(a);
                },
                None => {
                    proof {
                        lemma_bad_load(fields@, i + 1);
                    }
                    return Err(StoreError::InvalidData("malformed attribute".to_owned()));
                },
            }
            i = i + 1;
        }
        assert(fields@.take(i as int) =~= fields@);
        let text = match self.db.hget(base_key.as_str(), "identity_keys")? {
            Some(t) => t,
            None => "".to_owned(),
        };
        let identity_keys = match decode_list(text.as_str()) {
            Some(l) => l,
            None => {
                return Err(StoreError::InvalidData("malformed identity keys".to_owned()));
            },
        };
        let ghost ids = texts(identity_keys@);
        let ghost attrs = actor@.attrs;
        let mut k: usize = 0;
        while k < identity_keys.len()
            invariant
                ids == texts(identity_keys@),
                k <= identity_keys@.len(),
                actor.wf(),
                actor@.attrs == attrs,
                actor@.identity_keys == ids.take(k as int),
            decreases identity_keys@.len() - k,
        {
            actor.add_identity_key(identity_keys[k].as_str());
            k = k + 1;
            assert(ids.take(k as int) =~= ids.take(k - 1).push(ids[k - 1]));
        }
        assert(ids.take(k as int) =~= ids);
        assert(actor@ == (ActorView { attrs, identity_keys: ids }));
        Ok(actor)
    }

    /// The common name to show for an actor; one that cannot be loaded or read is
    /// none.
    fn read_label(&self, addr: &ZprAddr) -> (r: Option<String>)
        ensures
            self.reliable() ==> opt_text(r) == cn_label(self.state(), addr@),
    {
        let key = attrs_key_for(addr);
        match self.db.hget(key.as_str(), CN) {
            Ok(Some(text)) => match decode_attr(text.as_str()) {
                Some(a) => match a.get_single_value() {
                    Some(v) => Some(v.clone()),
                    None => Some(join(&a.values)),
                },
                None => None,
            },
            _ => None,
        }
    }

    /// Appends the actors of a role set.
    fn list_role(&self, set_key: &str, out: &mut Vec<(ZprAddr, Option<String>)>) -> (r: Result<
        (),
        StoreError,
    >)
        ensures
            self.reliable() ==> r is Ok,
            r is Ok ==> exists|members: Seq<Seq<char>>| #[trigger]
                enumerates(members, self.state().set(set_key@)) && listed_addresses(final(out)@)
                    == listed_addresses(old(out)@) + addresses_among(members) && (self.reliable()
                    ==> listed(final(out)@) == listed(old(out)@) + actors_among(
                    self.state(),
                    members,
                )),
    {
        let ghost ks = self.state();
        let ghost had = out@;
        let members = self.db.smembers(set_key)?;
        let ghost all = texts(members@);
        let mut i: usize = 0;
        assert(enumerates(all, ks.set(set_key@)));
        assert(listed(had) + actors_among(ks, all.take(0)) =~= listed(had));
        assert(listed_addresses(had) + addresses_among(all.take(0)) =~= listed_addresses(had));
        while i < members.len()
            invariant
                ks == self.state(),
                all == texts(members@),
                i <= members@.len(),
                listed_addresses(out@) == listed_addresses(had) + addresses_among(
                    all.take(i as int),
                ),
                self.reliable() ==> listed(out@) == listed(had) + actors_among(
                    ks,
                    all.take(i as int),
                ),
            decreases members@.len() - i,
        {
            proof {
                assert(all.take(i + 1).drop_last() =~= all.take(i as int));
                assert(all.take(i + 1).last() == members@[i as int]@);
            }
            let ghost before = out@;
            if let Some(addr) = ZprAddr::parse(members[i].as_str()) {
                let label = self.read_label(&addr);
                let ghost pair = (addr@, opt_text(label));
                out.push((addr, label));
                proof {
                    assert(listed(out@) =~= listed(before).push(pair));
                    assert(listed_addresses(out@) =~= listed_addresses(before).push(pair.0));
                    assert(listed(had) + actors_among(ks, all.take(i as int)).push(pair) =~= (
                    listed(had) + actors_among(ks, all.take(i as int))).push(pair));
                    assert(listed_addresses(had) + addresses_among(all.take(i as int)).push(pair.0)
                        =~= (listed_addresses(had) + addresses_among(all.take(i as int))).push(
                        pair.0,
                    ));
                }
            }
            i = i + 1;
        }
        assert(all.take(i as int) =~= all);
        Ok(())
    }

    /// All connected actors, or those of one role, by address. Each comes with its
    /// common name where it has one that can be read: the name is for display, and
    /// a bad one never keeps an actor out of the list.
    pub fn list_actors(&self, by_role: Option<Role>) -> (r: Result<
        Vec<(ZprAddr, Option<String>)>,
        StoreError,
    >)
        ensures
            self.reliable() ==> r is Ok,
            r matches Ok(list) ==> exists|nodes: Seq<Seq<char>>, adapters: Seq<Seq<char>>|
                #![trigger roles_listed(self.state(), by_role, nodes, adapters)]
                roles_listed(self.state(), by_role, nodes, adapters) && listed_addresses(list@)
                    == addresses_among(nodes) + addresses_among(adapters) && (self.reliable()
                    ==> listed(list@) == actors_among(self.state(), nodes) + actors_among(
                    self.state(),
                    adapters,
                )),
    {
        let ghost ks = self.state();
        let mut out: Vec<(ZprAddr, Option<String>)> = Vec::new();
        let want_nodes = match &by_role {
            Some(Role::Adapter) => false,
            _ => true,
        };
        let want_adapters = match &by_role {
            Some(Role::Node) => false,
            _ => true,
        };
        let ghost none: Seq<Seq<char>> = Seq::empty();
        let ghost mut nodes: Seq<Seq<char>> = none;
        let ghost mut adapters: Seq<Seq<char>> = none;
        proof {
            assert(listed(out@) =~= actors_among(ks, nodes));
            assert(listed_addresses(out@) =~= addresses_among(nodes));
        }
        if want_nodes {
            let ghost before = out@;
            self.list_role(KEY_NODES, &mut out)?;
            proof {
                nodes = choose|m: Seq<Seq<char>>| #[trigger]
                    enumerates(m, ks.set(KEY_NODES@)) && listed_addresses(out@)
                        == listed_addresses(before) + addresses_among(m) && (self.reliable()
                        ==> listed(out@) == listed(before) + actors_among(ks, m));
                assert(listed_addresses(out@) =~= addresses_among(nodes));
                if self.reliable() {
                    assert(listed(out@) =~= actors_among(ks, nodes));
                }
            }
        }
        if want_adapters {
            let ghost before = out@;
            self.list_role(KEY_ADAPTERS, &mut out)?;
            proof {
                adapters = choose|m: Seq<Seq<char>>| #[trigger]
                    enumerates(m, ks.set(KEY_ADAPTERS@)) && listed_addresses(out@)
                        == listed_addresses(before) + addresses_among(m) && (self.reliable()
                        ==> listed(out@) == listed(before) + actors_among(ks, m));
            }
        } else {
            proof {
                assert(addresses_among(nodes) + addresses_among(adapters) =~= addresses_among(
                    nodes,
                ));
                assert(actors_among(ks, nodes) + actors_among(ks, adapters) =~= actors_among(
                    ks,
                    nodes,
                ));
            }
        }
        assert(roles_listed(ks, by_role, nodes, adapters));
        Ok(out)
    }
}

/// The members of the role sets that are asked for.
pub open spec fn roles_listed(
    ks: Keyspace,
    by_role: Option<Role>,
    nodes: Seq<Seq<char>>,
    adapters: Seq<Seq<char>>,
) -> bool {
    &&& if by_role matches Some(Role::Adapter) {
        nodes.len() == 0
    } else {
        enumerates(nodes, ks.set(KEY_NODES@))
    }
    &&& if by_role matches Some(Role::Node) {
        adapters.len() == 0
    } else {
        enumerates(adapters, ks.set(KEY_ADAPTERS@))
    }
}

/// Where a service or a host is, is what its entry says: the address that stands there, nowhere
/// where nothing stands, and an error where something else does.
pub proof fn law_pointer_says_where(ks: Keyspace, key: Seq<char>, head: Seq<char>)
    ensures
        ks.hget(key, "zpr_addr"@) is None ==> (pointed_at(ks, key, head) matches Ok(at) && at
            is None),
        ks.hget(key, "zpr_addr"@) matches Some(text) ==> (address_in(text) matches Some(addr) ==> (
        pointed_at(ks, key, head) matches Ok(at) && at == Some(addr))),
        ks.hget(key, "zpr_addr"@) matches Some(text) ==> (address_in(text) is None ==> (pointed_at(
            ks,
            key,
            head,
        ) matches Err(e) && e is InvalidData)),
{
}

/// The attributes of an actor that are asked for are given, each as it is stored, in the order
/// of the keys that were asked for and no others; a key under which nothing is stored gives
/// nothing.
pub proof fn law_attributes_asked_for_are_given(
    ks: Keyspace,
    addr: Seq<char>,
    keys: Seq<Seq<char>>,
    i: int,
)
    requires
        attrs_found(ks, addr, keys) is Ok,
    ensures
        0 <= i < keys.len() ==> (ks.hget(attrs_key(addr), keys[i]) matches Some(text) ==> (
        stored_attr(text) matches Some(a) && attrs_found(ks, addr, keys)->Ok_0.contains(a))),
        0 <= i < attrs_found(ks, addr, keys)->Ok_0.len() ==> exists|k: int|
            0 <= k < keys.len() && (ks.hget(attrs_key(addr), #[trigger] keys[k]) matches Some(text)
                && stored_attr(text) == Some(attrs_found(ks, addr, keys)->Ok_0[i])),
        attrs_found(ks, addr, keys)->Ok_0.len() <= keys.len(),
    decreases keys.len(),
{
    if keys.len() > 0 {
        let init = keys.drop_last();
        let last = keys.len() - 1;
        law_attributes_asked_for_are_given(ks, addr, init, i);
        let before = attrs_found(ks, addr, init)->Ok_0;
        let all = attrs_found(ks, addr, keys)->Ok_0;
        assert(keys.last() == keys[last]);
        if 0 <= i < keys.len() {
            if i < last {
                assert(init[i] == keys[i]);
                if let Some(text) = ks.hget(attrs_key(addr), keys[i]) {
                    let a = stored_attr(text)->0;
                    let p = choose|p: int| 0 <= p < before.len() && before[p] == a;
                    assert(all[p] == a);
                }
            } else if let Some(text) = ks.hget(attrs_key(addr), keys[i]) {
                assert(all[before.len() as int] == stored_attr(text)->0);
            }
        }
        if 0 <= i < all.len() {
            if i < before.len() {
                assert(all[i] == before[i]);
                let k = choose|k: int|
                    0 <= k < init.len() && (ks.hget(
                        attrs_key(addr),
                        #[trigger] init[k],
                    ) matches Some(text) && stored_attr(text) == Some(before[i]));
                assert(keys[k] == init[k]);
            } else {
                assert(ks.hget(attrs_key(addr), keys[last]) is Some);
            }
        }
    }
}

proof fn lemma_stripped_service_key(name: Seq<char>)
    ensures
        stripped(service_key(name)) == crate::db::keys::munged(name),
        service_key(name).len() >= 8,
{
    reveal_strlit("service:");
    let k = service_key(name);
    let m = crate::db::keys::munged(name);
    crate::db::keys::law_names_are_found_in_their_keys(name);
    assert("service:"@.len() == 8);
    assert(k.skip(8) =~= m);
    assert(k.subrange(0, 8) =~= "service:"@);
    assert("service:"@.is_prefix_of(k));
    if m.len() >= 8 && "service:"@.is_prefix_of(m) {
        assert(m.subrange(0, 8)[7] == ':');
        assert(m[7] == ':');
    }
    assert(stripped(m) == m);
}

/// A list of services has every service whose entry is among those listed and says where it is,
/// under its name and with its address.
pub proof fn law_listed_services_are_where_they_are(
    ks: Keyspace,
    keys: Seq<Seq<char>>,
    name: Seq<char>,
)
    requires
        services_at(ks, keys) is Ok,
        keys.contains(service_key(name)),
        ks.hget(service_key(name), "zpr_addr"@) is Some,
    ensures
        address_in(ks.hget(service_key(name), "zpr_addr"@)->0) matches Some(addr) && services_at(
            ks,
            keys,
        )->Ok_0.contains((name, addr)),
    decreases keys.len(),
{
    let init = keys.drop_last();
    let last = keys.len() - 1;
    let before = services_at(ks, init)->Ok_0;
    let all = services_at(ks, keys)->Ok_0;
    let k = choose|k: int| 0 <= k < keys.len() && keys[k] == service_key(name);
    let addr = address_in(ks.hget(service_key(name), "zpr_addr"@)->0)->0;
    assert(keys.last() == keys[last]);
    if k < last {
        assert(init[k] == service_key(name));
        law_listed_services_are_where_they_are(ks, init, name);
        let p = choose|p: int| 0 <= p < before.len() && before[p] == (name, addr);
        assert(all[p] == (name, addr));
    } else {
        lemma_stripped_service_key(name);
        crate::db::keys::law_names_are_found_in_their_keys(name);
        assert(all[before.len() as int] == (name, addr));
    }
}

/// A list of actors has every one that is in the set that is listed, with its common name where
/// it has one, and no others.
pub proof fn law_listed_actors_are_those_of_the_set(
    ks: Keyspace,
    members: Seq<Seq<char>>,
    addr: Seq<char>,
)
    ensures
        addresses_among(members).contains(addr) <==> exists|i: int|
            0 <= i < members.len() && address_in(#[trigger] members[i]) == Some(addr),
        actors_among(ks, members).len() == addresses_among(members).len(),
        forall|i: int|
            0 <= i < actors_among(ks, members).len() ==> (
            #[trigger] actors_among(ks, members)[i]).0 == addresses_among(members)[i]
                && actors_among(ks, members)[i].1 == cn_label(ks, addresses_among(members)[i]),
    decreases members.len(),
{
    if members.len() > 0 {
        let init = members.drop_last();
        let last = members.len() - 1;
        law_listed_actors_are_those_of_the_set(ks, init, addr);
        assert(members.last() == members[last]);
        let before = addresses_among(init);
        let all = addresses_among(members);
        if all.contains(addr) {
            let p = choose|p: int| 0 <= p < all.len() && all[p] == addr;
            if p < before.len() {
                assert(before[p] == addr);
                let i = choose|i: int|
                    0 <= i < init.len() && address_in(#[trigger] init[i]) == Some(addr);
                assert(members[i] == init[i]);
            } else {
                assert(address_in(members[last]) == Some(addr));
            }
        }
        if exists|i: int| 0 <= i < members.len() && address_in(#[trigger] members[i]) == Some(addr) {
            let i = choose|i: int|
                0 <= i < members.len() && address_in(#[trigger] members[i]) == Some(addr);
            if i < last {
                assert(init[i] == members[i]);
                let p = choose|p: int| 0 <= p < before.len() && before[p] == addr;
                assert(all[p] == addr);
            } else {
                assert(all[before.len() as int] == addr);
            }
        }
    }
}

/// Who is listed depends on the role that is asked for: nodes, adapters, or both.
pub proof fn law_roles_asked_for_are_listed(
    ks: Keyspace,
    by_role: Option<Role>,
    nodes: Seq<Seq<char>>,
    adapters: Seq<Seq<char>>,
    who: Seq<char>,
)
    requires
        roles_listed(ks, by_role, nodes, adapters),
    ensures
        !(by_role matches Some(Role::Adapter)) ==> (nodes.contains(who) <==> ks.has("nodes"@, who)),
        !(by_role matches Some(Role::Node)) ==> (adapters.contains(who) <==> ks.has(
            "adapters"@,
            who,
        )),
        by_role matches Some(Role::Adapter) ==> nodes.len() == 0,
        by_role matches Some(Role::Node) ==> adapters.len() == 0,
{
    assert(nodes.to_set().contains(who) <==> nodes.contains(who));
    assert(adapters.to_set().contains(who) <==> adapters.contains(who));
    assert(ks.set(KEY_NODES@).contains(who) <==> ks.has(KEY_NODES@, who));
    assert(ks.set(KEY_ADAPTERS@).contains(who) <==> ks.has(KEY_ADAPTERS@, who));
}

} // verus!
