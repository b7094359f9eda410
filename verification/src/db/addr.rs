//! Addresses of actors.
use vstd::prelude::*;

use crate::db::ip::{
    after_gap, before_gap, first_empty, ip_before, ip_lt, ip_of, ip_text, is_group, is_hex, is_v4,
    law_addresses_round_trip, lemma_split_contains, lemma_v4_chars, lemma_values_are_ip,
    read_ip, split, write_ip,
};
use crate::text::{from_chars, text_eq, to_chars};

verus! {

/// How the address is written that a text stands for, if it stands for one.
pub open spec fn address_in(s: Seq<char>) -> Option<Seq<char>> {
    match ip_of(s) {
        Some(v) => Some(ip_text(v)),
        None => None,
    }
}

/// The text of an IP address, as addresses are written.
pub open spec fn is_address(s: Seq<char>) -> bool {
    address_in(s) == Some(s)
}

/// One address comes before another.
pub open spec fn addr_lt(a: Seq<char>, b: Seq<char>) -> bool {
    ip_lt(ip_of(a)->0, ip_of(b)->0)
}

/// What a text stands for is written as addresses are.
pub proof fn law_addresses_have_one_text(s: Seq<char>)
    ensures
        address_in(s) matches Some(t) ==> is_address(t) && ip_of(t) == ip_of(s),
{
    lemma_values_are_ip(s);
    if let Some(v) = ip_of(s) {
        law_addresses_round_trip(v);
    }
}

/// The address of an actor.
#[derive(Debug)]
pub struct ZprAddr {
    text: String,
    numbers: Vec<u16>,
}

impl View for ZprAddr {
    type V = Seq<char>;

    closed spec fn view(&self) -> Seq<char> {
        self.text@
    }
}

impl ZprAddr {
    #[verifier::type_invariant]
    spec fn well_formed(self) -> bool {
        &&& is_address(self.text@)
        &&& ip_of(self.text@) == Some(self.numbers@)
    }

    /// Reads an address, if the text is one. All texts of an address give the same.
    pub fn parse(s: &str) -> (r: Option<ZprAddr>)
        ensures
            match r {
                Some(a) => address_in(s@) == Some(a@) && is_address(a@),
                None => address_in(s@) is None,
            },
    {
        proof {
            law_addresses_have_one_text(s@);
        }
        match read_ip(&to_chars(s)) {
            Some(numbers) => {
                let text = from_chars(&write_ip(&numbers));
                Some(ZprAddr { text, numbers })
            },
            None => None,
        }
    }

    /// The text of the address.
    pub fn as_str(&self) -> (r: &str)
        ensures
            r@ == self@,
            is_address(self@),
    {
        proof {
            use_type_invariant(self);
        }
        self.text.as_str()
    }

    /// Whether the address is written with colons.
    pub fn is_ipv6(&self) -> (r: bool)
        ensures
            r == !is_v4(self@),
            is_address(self@),
    {
        proof {
            use_type_invariant(self);
            lemma_values_are_ip(self.text@);
        }
        self.numbers.len() == 8
    }

    /// Whether the two addresses are the same.
    pub fn same(&self, other: &ZprAddr) -> (r: bool)
        ensures
            r == (self@ == other@),
    {
        text_eq(self.text.as_str(), other.text.as_str())
    }

    /// Whether the address comes before the other: IPv4 before IPv6, and otherwise by the
    /// first number in which they differ.
    pub fn before(&self, other: &ZprAddr) -> (r: bool)
        ensures
            r == addr_lt(self@, other@),
            is_address(self@),
            is_address(other@),
    {
        proof {
            use_type_invariant(self);
            use_type_invariant(other);
        }
        ip_before(&self.numbers, &other.numbers)
    }

    /// A copy.
    pub fn copy(&self) -> (r: ZprAddr)
        ensures
            r@ == self@,
            is_address(self@),
    {
        proof {
            use_type_invariant(self);
        }
        let numbers = self.numbers.clone();
        assert(numbers@ =~= self.numbers@);
        ZprAddr { text: self.text.clone(), numbers }
    }
}

/// A part between colons is empty, a group, or an IPv4 address.
proof fn lemma_parts(s: Seq<char>, i: int)
    requires
        ip_of(s) is Some,
        !is_v4(s),
        0 <= i < split(s, ':').len(),
    ensures
        split(s, ':')[i].len() == 0 || is_group(split(s, ':')[i]) || is_v4(split(s, ':')[i]),
{
    let p = split(s, ':');
    let k = first_empty(p, 1);
    if k < p.len() - 1 {
        lemma_first_empty_at(p, 1);
        let head = before_gap(p, k);
        let tail = after_gap(p, k);
        if i < k {
            if head.len() > 0 {
                assert(head[i] == p[i]);
            }
        } else if i > k {
            if tail.len() > 0 {
                assert(tail[i - k - 1] == p[i]);
            }
        }
    } else {
        assert(p[i] == p[i]);
    }
}

proof fn lemma_first_empty_at(p: Seq<Seq<char>>, from: int)
    requires
        0 <= from,
        first_empty(p, from) < p.len(),
    ensures
        from <= first_empty(p, from),
        p[first_empty(p, from)].len() == 0,
    decreases p.len() - from,
{
    if from < p.len() && p[from].len() > 0 {
        lemma_first_empty_at(p, from + 1);
    }
}

/// No dash occurs in a text that stands for an address.
pub proof fn lemma_address_has_no_dash(s: Seq<char>)
    requires
        address_in(s) is Some,
    ensures
        forall|i: int| 0 <= i < s.len() ==> (#[trigger] s[i]) != '-',
{
    assert forall|i: int| 0 <= i < s.len() implies (#[trigger] s[i]) != '-' by {
        if is_v4(s) {
            lemma_v4_chars(s, i);
        } else if s[i] != ':' {
            lemma_split_contains(s, ':', i);
            let p = split(s, ':');
            let (k, j) = choose|k: int, j: int|
                0 <= k < p.len() && 0 <= j < p[k].len() && #[trigger] p[k][j] == s[i];
            lemma_parts(s, k);
            if !is_group(p[k]) {
                lemma_v4_chars(p[k], j);
            } else {
                assert(is_hex(p[k][j]));
            }
        }
    }
}

} // verus!
