//! The keys under which the state database holds its records.
//!
//! An address stands in a key with dashes for its colons. A name stands in a key
//! with its colons and percent signs percent-encoded. So no key of one kind can
//! be mistaken for another.
use vstd::prelude::*;

use crate::db::addr::{address_in, lemma_address_has_no_dash, ZprAddr};
use crate::text::{cat, cat3, from_chars, to_chars};

verus! {

/// The text with every `a` replaced by `b`.
pub open spec fn replaced(s: Seq<char>, a: char, b: char) -> Seq<char> {
    s.map_values(
        |c: char|
            if c == a {
                b
            } else {
                c
            },
    )
}

/// Replaces every `a` by `b`.
pub fn replace_char(s: &str, a: char, b: char) -> (r: String)
    ensures
        r@ == replaced(s@, a, b),
{
    let chars = to_chars(s);
    let mut out: Vec<char> = Vec::new();
    let mut i: usize = 0;
    while i < chars.len()
        invariant
            chars@ == s@,
            i <= chars@.len(),
            out@ == replaced(s@, a, b).take(i as int),
        decreases chars@.len() - i,
    {
        if chars[i] == a {
            out.push(b);
        } else {
            out.push(chars[i]);
        }
        i = i + 1;
        assert(replaced(s@, a, b).take(i as int) =~= replaced(s@, a, b).take(i - 1).push(
            replaced(s@, a, b)[i - 1],
        ));
    }
    assert(replaced(s@, a, b).take(i as int) =~= replaced(s@, a, b));
    from_chars(&out)
}

/// An address as it stands in keys.
pub open spec fn encoded(addr: Seq<char>) -> Seq<char> {
    replaced(addr, ':', '-')
}

/// The address that an encoded one stands for.
pub open spec fn decoded(enc: Seq<char>) -> Seq<char> {
    replaced(enc, '-', ':')
}

/// Decoding undoes encoding.
pub proof fn lemma_decode_encoded(addr: Seq<char>)
    requires
        address_in(addr) is Some,
    ensures
        decoded(encoded(addr)) == addr,
        forall|i: int| 0 <= i < encoded(addr).len() ==> (#[trigger] encoded(addr)[i]) != ':',
{
    lemma_address_has_no_dash(addr);
    assert(decoded(encoded(addr)) =~= addr);
}

/// A name as it stands in keys.
pub open spec fn munged(name: Seq<char>) -> Seq<char>
    decreases name.len(),
{
    if name.len() == 0 {
        Seq::empty()
    } else {
        let before = munged(name.drop_last());
        if name.last() == ':' {
            before + "%3A"@
        } else if name.last() == '%' {
            before + "%25"@
        } else {
            before.push(name.last())
        }
    }
}

/// The name that stands in a key, if it is encoded as names are.
pub open spec fn unmunged(raw: Seq<char>) -> Option<Seq<char>>
    decreases raw.len(),
{
    if raw.len() == 0 {
        Some(Seq::empty())
    } else if raw.last() == ':' || raw.last() == '%' {
        None
    } else if raw.len() >= 3 && raw.subrange(raw.len() - 3, raw.len() as int) == "%3A"@ {
        match unmunged(raw.take(raw.len() - 3)) {
            Some(before) => Some(before.push(':')),
            None => None,
        }
    } else if raw.len() >= 3 && raw.subrange(raw.len() - 3, raw.len() as int) == "%25"@ {
        match unmunged(raw.take(raw.len() - 3)) {
            Some(before) => Some(before.push('%')),
            None => None,
        }
    } else {
        match unmunged(raw.drop_last()) {
            Some(before) => Some(before.push(raw.last())),
            None => None,
        }
    }
}

proof fn lemma_munged_shape(name: Seq<char>)
    ensures
        forall|i: int|
            0 <= i < munged(name).len() ==> (#[trigger] munged(name)[i]) != ':' && (munged(name)[i]
                == '%' ==> i + 2 < munged(name).len()),
    decreases name.len(),
{
    reveal_strlit("%3A");
    reveal_strlit("%25");
    if name.len() > 0 {
        lemma_munged_shape(name.drop_last());
        let before = munged(name.drop_last());
        let all = munged(name);
        assert forall|i: int| 0 <= i < all.len() implies (#[trigger] all[i]) != ':' && (all[i]
            == '%' ==> i + 2 < all.len()) by {
            if i < before.len() {
                assert(all[i] == before[i]);
            }
        }
    }
}

/// Decoding a name undoes its encoding.
pub proof fn lemma_unmunge_munged(name: Seq<char>)
    ensures
        unmunged(munged(name)) == Some(name),
    decreases name.len(),
{
    reveal_strlit("%3A");
    reveal_strlit("%25");
    if name.len() > 0 {
        let init = name.drop_last();
        let before = munged(init);
        let all = munged(name);
        lemma_unmunge_munged(init);
        lemma_munged_shape(init);
        assert(init.push(name.last()) =~= name);
        if name.last() == ':' {
            assert(all.subrange(all.len() - 3, all.len() as int) =~= "%3A"@);
            assert(all.take(all.len() - 3) =~= before);
            assert(all.last() == 'A');
        } else if name.last() == '%' {
            assert(all.subrange(all.len() - 3, all.len() as int) =~= "%25"@);
            assert(all.take(all.len() - 3) =~= before);
            assert("%25"@[1] != "%3A"@[1]);
            assert(all.last() == '5');
        } else {
            assert(all.drop_last() =~= before);
            if all.len() >= 3 {
                let tail = all.subrange(all.len() - 3, all.len() as int);
                assert(tail[0] == before[before.len() - 2]);
                assert(tail[0] != '%');
                assert("%3A"@[0] == '%' && "%25"@[0] == '%');
            }
        }
    } else {
        assert(name =~= Seq::empty());
    }
}

/// Encodes a name.
pub fn munge(name: &str) -> (r: String)
    ensures
        r@ == munged(name@),
{
    let chars = to_chars(name);
    let mut out: Vec<char> = Vec::new();
    let mut i: usize = 0;
    proof {
        reveal_strlit("%3A");
        reveal_strlit("%25");
    }
    while i < chars.len()
        invariant
            chars@ == name@,
            i <= chars@.len(),
            out@ == munged(name@.take(i as int)),
            "%3A"@ == seq!['%', '3', 'A'],
            "%25"@ == seq!['%', '2', '5'],
        decreases chars@.len() - i,
    {
        let ghost before = out@;
        proof {
            assert(name@.take(i + 1).drop_last() =~= name@.take(i as int));
            assert(name@.take(i + 1).last() == chars@[i as int]);
        }
        if chars[i] == ':' {
            out.push('%');
            out.push('3');
            out.push('A');
            assert(out@ =~= before + "%3A"@);
        } else if chars[i] == '%' {
            out.push('%');
            out.push('2');
            out.push('5');
            assert(out@ =~= before + "%25"@);
        } else {
            out.push(chars[i]);
        }
        i = i + 1;
    }
    assert(name@.take(i as int) =~= name@);
    from_chars(&out)
}

/// Decodes a name.
pub fn unmunge(raw: &str) -> (r: Option<String>)
    ensures
        match r {
            Some(name) => unmunged(raw@) == Some(name@),
            None => unmunged(raw@) is None,
        },
{
    let chars = to_chars(raw);
    let mut tail: Vec<char> = Vec::new();
    let ghost mut rest: Seq<char> = Seq::empty();
    let mut end: usize = chars.len();
    proof {
        reveal_strlit("%3A");
        reveal_strlit("%25");
        assert(raw@.take(end as int) =~= raw@);
        if unmunged(raw@) is Some {
            assert(unmunged(raw@)->0 + rest =~= unmunged(raw@)->0);
        }
        assert(tail@.reverse() =~= rest);
    }
    while end > 0
        invariant
            chars@ == raw@,
            end <= chars@.len(),
            rest == tail@.reverse(),
            unmunged(raw@) is Some <==> unmunged(raw@.take(end as int)) is Some,
            unmunged(raw@) is Some ==> unmunged(raw@)->0 == unmunged(raw@.take(end as int))->0
                + rest,
            "%3A"@ == seq!['%', '3', 'A'],
            "%25"@ == seq!['%', '2', '5'],
        decreases end,
    {
        let ghost head = raw@.take(end as int);
        let c: char = chars[end - 1];
        assert(head.last() == c);
        if c == ':' || c == '%' {
            return None;
        }
        let three = end >= 3 && chars[end - 3] == '%';
        proof {
            if end >= 3 {
                let last = head.subrange(head.len() - 3, head.len() as int);
                assert(last[0] == chars@[end - 3] && last[1] == chars@[end - 2] && last[2] == c);
                if three && chars@[end - 2] == '3' && c == 'A' {
                    assert(last =~= "%3A"@);
                } else {
                    assert(last[0] != "%3A"@[0] || last[1] != "%3A"@[1] || last[2] != "%3A"@[2]);
                }
                if three && chars@[end - 2] == '2' && c == '5' {
                    assert(last =~= "%25"@);
                } else {
                    assert(last[0] != "%25"@[0] || last[1] != "%25"@[1] || last[2] != "%25"@[2]);
                }
            }
            assert(head.drop_last() =~= raw@.take(end - 1));
            if end >= 3 {
                assert(head.take(head.len() - 3) =~= raw@.take(end - 3));
            }
        }
        let ghost was = tail@;
        let d: char;
        let ghost before = end;
        if three && chars[end - 2] == '3' && c == 'A' {
            d = ':';
            end = end - 3;
        } else if three && chars[end - 2] == '2' && c == '5' {
            d = '%';
            end = end - 3;
        } else {
            d = c;
            end = end - 1;
        }
        tail.push(d);
        proof {
            let longer = seq![d] + rest;
            assert(tail@.reverse() =~= longer);
            if unmunged(raw@) is Some {
                let shorter = unmunged(raw@.take(end as int))->0;
                assert(shorter.push(d) + rest =~= shorter + longer);
            }
            rest = longer;
        }
    }
    let mut out: Vec<char> = Vec::new();
    let mut k: usize = tail.len();
    while k > 0
        invariant
            k <= tail@.len(),
            out@ == tail@.reverse().take(tail@.len() - k),
        decreases k,
    {
        k = k - 1;
        out.push(tail[k]);
        assert(tail@.reverse().take(tail@.len() - k) =~= tail@.reverse().take(
            tail@.len() - k - 1,
        ).push(tail@[k as int]));
    }
    proof {
        assert(raw@.take(0) =~= Seq::empty());
        assert(tail@.reverse().take(tail@.len() as int) =~= rest);
        assert(Seq::<char>::empty() + rest =~= rest);
    }
    Some(from_chars(&out))
}

/// The set of nodes.
pub const KEY_NODES: &'static str = "nodes";

/// The set of adapters.
pub const KEY_ADAPTERS: &'static str = "adapters";

/// The record of an actor.
pub open spec fn actor_key(addr: Seq<char>) -> Seq<char> {
    "actor:"@ + encoded(addr)
}

/// The attributes of an actor.
pub open spec fn attrs_key(addr: Seq<char>) -> Seq<char> {
    "actor:"@ + encoded(addr) + ":attrs"@
}

/// The services that an actor offers.
pub open spec fn services_key(addr: Seq<char>) -> Seq<char> {
    "actor:"@ + encoded(addr) + ":services"@
}

/// The host names that an actor holds.
pub open spec fn hostnames_key(addr: Seq<char>) -> Seq<char> {
    "actor:"@ + encoded(addr) + ":hostnames"@
}

/// The location of a service.
pub open spec fn service_key(name: Seq<char>) -> Seq<char> {
    "service:"@ + munged(name)
}

/// The holder of a host name.
pub open spec fn host_key(name: Seq<char>) -> Seq<char> {
    "host:"@ + munged(name)
}

/// The key of an actor's record.
pub fn actor_key_for(addr: &ZprAddr) -> (r: String)
    ensures
        r@ == actor_key(addr@),
{
    cat("actor:", replace_char(addr.as_str(), ':', '-').as_str())
}

/// The key of an actor's attributes.
pub fn attrs_key_for(addr: &ZprAddr) -> (r: String)
    ensures
        r@ == attrs_key(addr@),
{
    cat3("actor:", replace_char(addr.as_str(), ':', '-').as_str(), ":attrs")
}

/// The key of an actor's services.
pub fn actor_services_key_for(addr: &ZprAddr) -> (r: String)
    ensures
        r@ == services_key(addr@),
{
    cat3("actor:", replace_char(addr.as_str(), ':', '-').as_str(), ":services")
}

/// The key of an actor's host names.
pub fn actor_hostnames_key_for(addr: &ZprAddr) -> (r: String)
    ensures
        r@ == hostnames_key(addr@),
{
    cat3("actor:", replace_char(addr.as_str(), ':', '-').as_str(), ":hostnames")
}

/// The key of a service's location.
pub fn service_key_for(service_name: &str) -> (r: String)
    ensures
        r@ == service_key(service_name@),
{
    cat("service:", munge(service_name).as_str())
}

/// The key of a host name's holder.
pub fn host_key_for(hostname: &str) -> (r: String)
    ensures
        r@ == host_key(hostname@),
{
    cat("host:", munge(hostname).as_str())
}

/// Keys of different names differ.
pub proof fn lemma_name_keys_differ(a: Seq<char>, b: Seq<char>)
    ensures
        service_key(a) == service_key(b) ==> a == b,
        host_key(a) == host_key(b) ==> a == b,
        service_key(a) != host_key(b),
{
    lemma_unmunge_munged(a);
    lemma_unmunge_munged(b);
    reveal_strlit("service:");
    reveal_strlit("host:");
    if service_key(a) == service_key(b) {
        assert(service_key(a).skip("service:"@.len() as int) =~= munged(a));
        assert(service_key(b).skip("service:"@.len() as int) =~= munged(b));
    }
    if host_key(a) == host_key(b) {
        assert(host_key(a).skip("host:"@.len() as int) =~= munged(a));
        assert(host_key(b).skip("host:"@.len() as int) =~= munged(b));
    }
    assert(service_key(a)[0] == 's');
    assert(host_key(b)[0] == 'h');
}

/// The keys of actors are told apart by what stands before and behind the
/// address.
pub proof fn lemma_actor_keys_differ(a: Seq<char>, b: Seq<char>)
    requires
        address_in(a) is Some,
        address_in(b) is Some,
    ensures
        a != b ==> actor_key(a) != actor_key(b),
        a != b ==> attrs_key(a) != attrs_key(b),
        a != b ==> services_key(a) != services_key(b),
        a != b ==> hostnames_key(a) != hostnames_key(b),
        actor_key(a) != attrs_key(b),
        actor_key(a) != services_key(b),
        actor_key(a) != hostnames_key(b),
        attrs_key(a) != services_key(b),
        attrs_key(a) != hostnames_key(b),
        services_key(a) != hostnames_key(b),
{
    reveal_strlit("actor:");
    reveal_strlit(":attrs");
    reveal_strlit(":services");
    reveal_strlit(":hostnames");
    lemma_decode_encoded(a);
    lemma_decode_encoded(b);
    let ea = encoded(a);
    let eb = encoded(b);
    if actor_key(a) == actor_key(b) {
        assert(actor_key(a).skip(6) =~= ea);
        assert(actor_key(b).skip(6) =~= eb);
    }
    if attrs_key(a) == attrs_key(b) {
        assert(attrs_key(a).subrange(6, attrs_key(a).len() - 6) =~= ea);
        assert(attrs_key(b).subrange(6, attrs_key(b).len() - 6) =~= eb);
    }
    if services_key(a) == services_key(b) {
        assert(services_key(a).subrange(6, services_key(a).len() - 9) =~= ea);
        assert(services_key(b).subrange(6, services_key(b).len() - 9) =~= eb);
    }
    if hostnames_key(a) == hostnames_key(b) {
        assert(hostnames_key(a).subrange(6, hostnames_key(a).len() - 10) =~= ea);
        assert(hostnames_key(b).subrange(6, hostnames_key(b).len() - 10) =~= eb);
    }
    let ka = actor_key(a);
    assert forall|i: int| 6 <= i < ka.len() implies ka[i] != ':' by {
        assert(ka[i] == ea[i - 6]);
    }
    assert(attrs_key(b)[6 + eb.len() as int] == ':');
    assert(services_key(b)[6 + eb.len() as int] == ':');
    assert(hostnames_key(b)[6 + eb.len() as int] == ':');
    assert(attrs_key(a)[attrs_key(a).len() - 2] == 'r');
    assert(services_key(b)[services_key(b).len() - 2] == 'e');
    assert(hostnames_key(b)[hostnames_key(b).len() - 2] == 'e');
    assert(services_key(a)[services_key(a).len() - 3] == 'c');
    assert(hostnames_key(b)[hostnames_key(b).len() - 3] == 'm');
}

/// The key is one of an actor.
pub open spec fn of_actor(key: Seq<char>) -> bool {
    "actor:"@.is_prefix_of(key)
}

/// Keys of actors, of services, of host names and of the role sets are told
/// apart by how they begin.
pub proof fn lemma_kinds_differ(addr: Seq<char>, name: Seq<char>)
    ensures
        of_actor(actor_key(addr)),
        of_actor(attrs_key(addr)),
        of_actor(services_key(addr)),
        of_actor(hostnames_key(addr)),
        !of_actor(service_key(name)),
        !of_actor(host_key(name)),
        !of_actor(KEY_NODES@),
        !of_actor(KEY_ADAPTERS@),
        service_key(name) != KEY_NODES@,
        service_key(name) != KEY_ADAPTERS@,
        host_key(name) != KEY_NODES@,
        host_key(name) != KEY_ADAPTERS@,
        KEY_NODES@ != KEY_ADAPTERS@,
{
    reveal_strlit("actor:");
    reveal_strlit("service:");
    reveal_strlit("host:");
    reveal_strlit("nodes");
    reveal_strlit("adapters");
    assert(actor_key(addr).subrange(0, 6) =~= "actor:"@);
    assert(attrs_key(addr).subrange(0, 6) =~= "actor:"@);
    assert(services_key(addr).subrange(0, 6) =~= "actor:"@);
    assert(hostnames_key(addr).subrange(0, 6) =~= "actor:"@);
    assert(service_key(name)[0] == 's');
    assert(host_key(name)[0] == 'h');
    assert(KEY_NODES@[0] == 'n');
    assert(KEY_ADAPTERS@[0] == 'a' && KEY_ADAPTERS@[1] == 'd');
    if of_actor(service_key(name)) {
        assert(service_key(name).subrange(0, 6)[0] == 'a');
    }
    if of_actor(host_key(name)) {
        assert(host_key(name).subrange(0, 6)[0] == 'a');
    }
    if of_actor(KEY_ADAPTERS@) {
        assert(KEY_ADAPTERS@.subrange(0, 6)[1] == 'c');
    }
}

/// The name of a service or a host is found again in its key: no two names have one key, and
/// what stands behind the beginning of the key is decoded to the name.
pub proof fn law_names_are_found_in_their_keys(name: Seq<char>)
    ensures
        service_key(name) == "service:"@ + munged(name),
        host_key(name) == "host:"@ + munged(name),
        unmunged(munged(name)) == Some(name),
        forall|i: int| 0 <= i < munged(name).len() ==> (#[trigger] munged(name)[i]) != ':',
{
    lemma_unmunge_munged(name);
    lemma_munged_shape(name);
}

/// A name without colons and percent signs is its own encoding.
pub proof fn law_plain_names_stay_as_they_are(name: Seq<char>)
    requires
        forall|i: int| 0 <= i < name.len() ==> (#[trigger] name[i]) != ':' && name[i] != '%',
    ensures
        munged(name) == name,
    decreases name.len(),
{
    if name.len() > 0 {
        let init = name.drop_last();
        assert forall|i: int| 0 <= i < init.len() implies (#[trigger] init[i]) != ':' && init[i]
            != '%' by {
            assert(init[i] == name[i]);
        }
        law_plain_names_stay_as_they_are(init);
        assert(name.last() == name[name.len() - 1]);
        assert(init.push(name.last()) =~= name);
    } else {
        assert(munged(name) =~= name);
    }
}

/// What is kept of an actor is kept under keys that begin with its own: its record is there
/// itself, and its attributes, its services and its host names each behind a word of their own.
pub proof fn law_keys_of_an_actor_begin_alike(addr: Seq<char>, i: int)
    ensures
        attrs_key(addr) == actor_key(addr) + ":attrs"@,
        services_key(addr) == actor_key(addr) + ":services"@,
        hostnames_key(addr) == actor_key(addr) + ":hostnames"@,
        actor_key(addr).len() == 6 + addr.len(),
        actor_key(addr).take(6) == "actor:"@,
        0 <= i < addr.len() && addr[i] == ':' ==> actor_key(addr)[6 + i] == '-',
        0 <= i < addr.len() && addr[i] != ':' ==> actor_key(addr)[6 + i] == addr[i],
{
    reveal_strlit("actor:");
    assert("actor:"@.len() == 6);
    assert(attrs_key(addr) =~= actor_key(addr) + ":attrs"@);
    assert(services_key(addr) =~= actor_key(addr) + ":services"@);
    assert(hostnames_key(addr) =~= actor_key(addr) + ":hostnames"@);
    assert(actor_key(addr).take(6) =~= "actor:"@);
}

} // verus!
