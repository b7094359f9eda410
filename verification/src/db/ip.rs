//! IP addresses: the numbers that their texts stand for, and the one text that the numbers
//! are written as.
use vstd::prelude::*;

verus! {

/// The parts of a text between the occurrences of a character.
pub open spec fn split(s: Seq<char>, c: char) -> Seq<Seq<char>>
    decreases s.len(),
{
    if s.len() == 0 {
        seq![Seq::empty()]
    } else {
        let before = split(s.drop_last(), c);
        if s.last() == c {
            before.push(Seq::empty())
        } else {
            before.update(before.len() - 1, before.last().push(s.last()))
        }
    }
}

proof fn lemma_split_nonempty(s: Seq<char>, c: char)
    ensures
        split(s, c).len() > 0,
    decreases s.len(),
{
    if s.len() > 0 {
        lemma_split_nonempty(s.drop_last(), c);
    }
}

/// Splits at a character.
fn split_at_char(s: &Vec<char>, c: char) -> (r: Vec<Vec<char>>)
    ensures
        r@.len() == split(s@, c).len(),
        r@.len() > 0,
        forall|i: int| 0 <= i < r@.len() ==> (#[trigger] r@[i])@ == split(s@, c)[i],
{
    let mut out: Vec<Vec<char>> = Vec::new();
    let mut part: Vec<char> = Vec::new();
    let mut i: usize = 0;
    while i < s.len()
        invariant
            i <= s@.len(),
            out@.len() + 1 == split(s@.take(i as int), c).len(),
            forall|j: int|
                0 <= j < out@.len() ==> (#[trigger] out@[j])@ == split(s@.take(i as int), c)[j],
            part@ == split(s@.take(i as int), c).last(),
        decreases s@.len() - i,
    {
        proof {
            assert(s@.take(i + 1).drop_last() =~= s@.take(i as int));
            assert(s@.take(i + 1).last() == s@[i as int]);
            lemma_split_nonempty(s@.take(i as int), c);
        }
        if s[i] == c {
            out.push(part);
            part = Vec::new();
            assert(part@ =~= Seq::empty());
        } else {
            part.push(s[i]);
        }
        i = i + 1;
    }
    assert(s@.take(i as int) =~= s@);
    out.push(part);
    out
}

/// The parts with a character between each two.
pub open spec fn joined_by(parts: Seq<Seq<char>>, c: char) -> Seq<char>
    decreases parts.len(),
{
    if parts.len() == 0 {
        Seq::empty()
    } else if parts.len() == 1 {
        parts[0]
    } else {
        joined_by(parts.drop_last(), c).push(c) + parts.last()
    }
}

/// The character does not occur in the text.
pub open spec fn lacks_char(s: Seq<char>, c: char) -> bool {
    forall|i: int| 0 <= i < s.len() ==> #[trigger] s[i] != c
}

proof fn lemma_split_extended(s: Seq<char>, t: Seq<char>, c: char)
    requires
        lacks_char(t, c),
    ensures
        split(s + t, c) == split(s, c).update(
            split(s, c).len() - 1,
            split(s, c).last() + t,
        ),
    decreases t.len(),
{
    lemma_split_nonempty(s, c);
    if t.len() == 0 {
        assert(s + t =~= s);
        assert(split(s, c).last() + t =~= split(s, c).last());
        assert(split(s, c).update(split(s, c).len() - 1, split(s, c).last()) =~= split(s, c));
    } else {
        let u = t.drop_last();
        assert forall|i: int| 0 <= i < u.len() implies #[trigger] u[i] != c by {
            assert(t[i] != c);
        }
        lemma_split_extended(s, u, c);
        assert((s + t).drop_last() =~= s + u);
        assert((s + t).last() == t.last());
        assert(t[t.len() - 1] != c);
        let before = split(s + u, c);
        assert(before.last() == split(s, c).last() + u);
        assert((split(s, c).last() + u).push(t.last()) =~= split(s, c).last() + t);
        assert(split(s + t, c) =~= split(s, c).update(
            split(s, c).len() - 1,
            split(s, c).last() + t,
        ));
    }
}

/// Splitting undoes joining.
proof fn lemma_split_joined(parts: Seq<Seq<char>>, c: char)
    requires
        parts.len() > 0,
        forall|i: int| 0 <= i < parts.len() ==> lacks_char(#[trigger] parts[i], c),
    ensures
        split(joined_by(parts, c), c) == parts,
    decreases parts.len(),
{
    let last = parts.last();
    assert(lacks_char(parts[parts.len() - 1], c));
    if parts.len() == 1 {
        let none = Seq::<char>::empty();
        lemma_split_extended(none, last, c);
        assert(none + last =~= last);
        assert(split(none, c) == seq![none]);
        assert(split(last, c) =~= parts);
    } else {
        let before = parts.drop_last();
        assert forall|i: int| 0 <= i < before.len() implies lacks_char(
            #[trigger] before[i],
            c,
        ) by {
            assert(lacks_char(parts[i], c));
        }
        lemma_split_joined(before, c);
        let s = joined_by(before, c).push(c);
        assert(s.drop_last() =~= joined_by(before, c));
        assert(split(s, c) == before.push(Seq::empty()));
        lemma_split_extended(s, last, c);
        assert(split(s, c).last() + last =~= last);
        assert(split(joined_by(parts, c), c) =~= parts);
    }
}

/// A text without the character is one part.
proof fn lemma_split_whole(s: Seq<char>, c: char)
    requires
        lacks_char(s, c),
    ensures
        split(s, c) == seq![s],
{
    let one = seq![s];
    assert(lacks_char(one[0], c));
    lemma_split_joined(one, c);
}

/// A decimal digit.
pub open spec fn is_digit(c: char) -> bool {
    '0' <= c <= '9'
}

/// A hexadecimal digit.
pub open spec fn is_hex(c: char) -> bool {
    is_digit(c) || 'a' <= c <= 'f' || 'A' <= c <= 'F'
}

/// A decimal number up to 255, without leading zeros.
pub open spec fn is_octet(p: Seq<char>) -> bool {
    ||| p.len() == 1 && is_digit(p[0])
    ||| p.len() == 2 && '1' <= p[0] <= '9' && is_digit(p[1])
    ||| p.len() == 3 && p[0] == '1' && is_digit(p[1]) && is_digit(p[2])
    ||| p.len() == 3 && p[0] == '2' && '0' <= p[1] <= '4' && is_digit(p[2])
    ||| p.len() == 3 && p[0] == '2' && p[1] == '5' && '0' <= p[2] <= '5'
}

/// One to four hexadecimal digits.
pub open spec fn is_group(p: Seq<char>) -> bool {
    1 <= p.len() <= 4 && forall|i: int| 0 <= i < p.len() ==> is_hex(#[trigger] p[i])
}

/// An IPv4 address: four octets with dots between them.
pub open spec fn is_v4(s: Seq<char>) -> bool {
    let p = split(s, '.');
    p.len() == 4 && is_octet(p[0]) && is_octet(p[1]) && is_octet(p[2]) && is_octet(p[3])
}

/// The number that a decimal or hexadecimal digit stands for.
pub open spec fn digit_value(c: char) -> int {
    if is_digit(c) {
        c as int - '0' as int
    } else if 'a' <= c <= 'f' {
        c as int - 'a' as int + 10
    } else {
        c as int - 'A' as int + 10
    }
}

/// The number that digits of a base stand for.
pub open spec fn number(p: Seq<char>, base: int) -> int
    decreases p.len(),
{
    if p.len() == 0 {
        0
    } else {
        number(p.drop_last(), base) * base + digit_value(p.last())
    }
}

/// The four numbers of an IPv4 address.
pub open spec fn octets(s: Seq<char>) -> Seq<u16> {
    split(s, '.').map_values(|p: Seq<char>| number(p, 10) as u16)
}

/// A pair of octets as one number.
pub open spec fn paired(high: u16, low: u16) -> u16 {
    (high * 256 + low) as u16
}

/// Groups, the last of which may be an IPv4 address.
pub open spec fn are_groups(q: Seq<Seq<char>>) -> bool {
    &&& forall|i: int| 0 <= i < q.len() - 1 ==> is_group(#[trigger] q[i])
    &&& q.len() > 0 ==> is_group(q.last()) || is_v4(q.last())
}

/// The numbers that groups stand for. An IPv4 address stands for two.
pub open spec fn group_values(q: Seq<Seq<char>>) -> Seq<u16> {
    if q.len() > 0 && is_v4(q.last()) {
        let o = octets(q.last());
        q.drop_last().map_values(|p: Seq<char>| number(p, 16) as u16) + seq![
            paired(o[0], o[1]),
            paired(o[2], o[3]),
        ]
    } else {
        q.map_values(|p: Seq<char>| number(p, 16) as u16)
    }
}

/// Where the first empty part stands, from a place on.
pub open spec fn first_empty(p: Seq<Seq<char>>, from: int) -> int
    decreases p.len() - from,
{
    if from >= p.len() || p[from].len() == 0 {
        from
    } else {
        first_empty(p, from + 1)
    }
}

/// The groups before the run of zeros that was left out at a place. Where the text begins
/// with the run, an empty part stands before it.
pub open spec fn before_gap(p: Seq<Seq<char>>, k: int) -> Seq<Seq<char>> {
    if k == 1 && p[0].len() == 0 {
        Seq::empty()
    } else {
        p.take(k)
    }
}

/// The groups behind the run. Where the text ends with it, an empty part stands behind it.
pub open spec fn after_gap(p: Seq<Seq<char>>, k: int) -> Seq<Seq<char>> {
    if k == p.len() - 2 && p.last().len() == 0 {
        Seq::empty()
    } else {
        p.skip(k + 1)
    }
}

/// Zeros, as many as given.
pub open spec fn zeros(n: int) -> Seq<u16> {
    Seq::new(n as nat, |i: int| 0u16)
}

/// The eight numbers that the parts between colons stand for: eight groups, or up to seven
/// where one run of zero groups is left out.
pub open spec fn v6_values(p: Seq<Seq<char>>) -> Option<Seq<u16>> {
    let k = first_empty(p, 1);
    if k >= p.len() - 1 {
        if are_groups(p) && group_values(p).len() == 8 {
            Some(group_values(p))
        } else {
            None
        }
    } else {
        let head = before_gap(p, k);
        let tail = after_gap(p, k);
        let written = head.len() + group_values(tail).len();
        if (forall|i: int| 0 <= i < head.len() ==> is_group(#[trigger] head[i])) && are_groups(tail)
            && written <= 7 {
            Some(group_values(head) + zeros(8 - written) + group_values(tail))
        } else {
            None
        }
    }
}

/// The numbers that the text of an IP address stands for: four for IPv4, eight for IPv6.
pub open spec fn ip_of(s: Seq<char>) -> Option<Seq<u16>> {
    if is_v4(s) {
        Some(octets(s))
    } else {
        v6_values(split(s, ':'))
    }
}

/// The numbers are those of an IP address.
pub open spec fn is_ip(v: Seq<u16>) -> bool {
    v.len() == 8 || (v.len() == 4 && forall|i: int| 0 <= i < 4 ==> #[trigger] v[i] <= 255)
}

/// A digit up to fifteen, in lower case.
pub open spec fn digit_of(n: int) -> char {
    if n < 10 {
        ('0' as int + n) as char
    } else {
        ('a' as int + n - 10) as char
    }
}

/// A number in digits of a base, without leading zeros.
pub open spec fn number_text(n: int, base: int) -> Seq<char>
    decreases n,
    when n >= 0 && base >= 2
{
    if n < base {
        seq![digit_of(n)]
    } else {
        proof {
            assert(0 <= n / base < n) by (nonlinear_arith)
                requires
                    n >= base,
                    base >= 2,
            ;
        }
        number_text(n / base, base).push(digit_of(n % base))
    }
}

/// How an IPv4 address is written.
pub open spec fn v4_text(v: Seq<u16>) -> Seq<char> {
    joined_by(v.map_values(|n: u16| number_text(n as int, 10)), '.')
}

/// How groups are written: in hexadecimal.
pub open spec fn group_texts(v: Seq<u16>) -> Seq<Seq<char>> {
    v.map_values(|n: u16| number_text(n as int, 16))
}

/// How many zeros follow one another from a place on.
pub open spec fn zeros_from(v: Seq<u16>, i: int) -> int
    decreases v.len() - i,
{
    if 0 <= i < v.len() && v[i] == 0 {
        1 + zeros_from(v, i + 1)
    } else {
        0
    }
}

/// Where the longest run of zeros begins, among the first `k` places; the first of them
/// where several are as long.
pub open spec fn longest_run(v: Seq<u16>, k: int) -> int
    decreases k,
{
    if k <= 1 {
        0
    } else {
        let best = longest_run(v, k - 1);
        if zeros_from(v, k - 1) > zeros_from(v, best) {
            k - 1
        } else {
            best
        }
    }
}

/// The address stands for an IPv4 address.
pub open spec fn is_mapped(v: Seq<u16>) -> bool {
    v.len() == 8 && v.take(5) == zeros(5) && v[5] == 0xffff
}

/// The IPv4 address that the address stands for.
pub open spec fn mapped(v: Seq<u16>) -> Seq<u16> {
    seq![v[6] / 256, v[6] % 256, v[7] / 256, v[7] % 256]
}

/// The parts of an IPv6 address as it is written: the first of the longest runs of two
/// zeros or more is left out, and a mapped IPv4 address is written as such.
pub open spec fn v6_parts(v: Seq<u16>) -> Seq<Seq<char>> {
    let none = Seq::<char>::empty();
    let from = longest_run(v, 8);
    let run = zeros_from(v, from);
    if is_mapped(v) {
        seq![none, none, number_text(0xffff, 16), v4_text(mapped(v))]
    } else if run >= 2 {
        (if from == 0 {
            seq![none]
        } else {
            group_texts(v.take(from))
        }) + seq![none] + (if from + run == 8 {
            seq![none]
        } else {
            group_texts(v.skip(from + run))
        })
    } else {
        group_texts(v)
    }
}

/// How an IP address is written.
pub open spec fn ip_text(v: Seq<u16>) -> Seq<char> {
    if v.len() == 4 {
        v4_text(v)
    } else {
        joined_by(v6_parts(v), ':')
    }
}

/// A character between the separators stands in one of the parts.
pub proof fn lemma_split_contains(s: Seq<char>, c: char, i: int)
    requires
        0 <= i < s.len(),
        s[i] != c,
    ensures
        exists|k: int, j: int|
            0 <= k < split(s, c).len() && 0 <= j < split(s, c)[k].len() && #[trigger] split(s, c)[k][j]
                == s[i],
    decreases s.len(),
{
    let before = split(s.drop_last(), c);
    lemma_split_nonempty(s.drop_last(), c);
    let last = before.len() - 1;
    if i < s.len() - 1 {
        assert(s.drop_last()[i] == s[i]);
        lemma_split_contains(s.drop_last(), c, i);
        let (k, j) = choose|k: int, j: int|
            0 <= k < before.len() && 0 <= j < before[k].len() && #[trigger] before[k][j] == s[i];
        assert(split(s, c)[k][j] == s[i]);
    } else {
        assert(split(s, c)[last][before[last].len() as int] == s[i]);
    }
}

/// An IPv4 address is written without dashes and colons.
pub proof fn lemma_v4_chars(s: Seq<char>, i: int)
    requires
        is_v4(s),
        0 <= i < s.len(),
    ensures
        s[i] != '-',
        s[i] != ':',
{
    if s[i] != '.' {
        lemma_split_contains(s, '.', i);
        let p = split(s, '.');
        let (k, j) = choose|k: int, j: int|
            0 <= k < p.len() && 0 <= j < p[k].len() && #[trigger] p[k][j] == s[i];
        assert(is_octet(p[k]));
    }
}


/// The text is of digits of a base.
spec fn is_number(p: Seq<char>, base: int) -> bool {
    forall|i: int| 0 <= i < p.len() ==> is_hex(#[trigger] p[i]) && digit_value(p[i]) < base
}

proof fn lemma_number_text(n: int, base: int)
    requires
        0 <= n,
        base == 10 || base == 16,
    ensures
        number_text(n, base).len() > 0,
        number(number_text(n, base), base) == n,
        is_number(number_text(n, base), base),
    decreases n,
{
    let t = number_text(n, base);
    let d = n % base;
    let q = n / base;
    assert(0 <= d < base && n == q * base + d) by {
        if base == 10 {
        } else {
        }
    }
    assert(digit_value(digit_of(d)) == d && is_hex(digit_of(d)));
    if n < base {
        assert(d == n) by {
            if base == 10 {
            } else {
            }
        }
        assert(t.drop_last() =~= Seq::empty());
        assert(number(t.drop_last(), base) == 0);
        assert(0 * base == 0);
    } else {
        assert(0 <= q < n) by {
            if base == 10 {
            } else {
            }
        }
        lemma_number_text(q, base);
        let before = number_text(q, base);
        assert(t == before.push(digit_of(d)));
        assert(t.drop_last() =~= before);
        assert forall|i: int| 0 <= i < t.len() implies is_hex(#[trigger] t[i]) && digit_value(t[i])
            < base by {
            if i < before.len() {
                assert(t[i] == before[i]);
            }
        }
    }
}

/// A group is written as one.
proof fn lemma_group_text(n: u16)
    ensures
        is_group(number_text(n as int, 16)),
        number(number_text(n as int, 16), 16) == n,
        lacks_char(number_text(n as int, 16), ':'),
        lacks_char(number_text(n as int, 16), '.'),
{
    reveal_with_fuel(number_text, 5);
    lemma_number_text(n as int, 16);
    let t = number_text(n as int, 16);
    assert(t.len() <= 4);
    assert forall|i: int| 0 <= i < t.len() implies is_hex(#[trigger] t[i]) by {}
}

/// An octet is written as one.
proof fn lemma_octet_text(n: u16)
    requires
        n <= 255,
    ensures
        is_octet(number_text(n as int, 10)),
        number(number_text(n as int, 10), 10) == n,
        lacks_char(number_text(n as int, 10), ':'),
        lacks_char(number_text(n as int, 10), '.'),
{
    reveal_with_fuel(number_text, 4);
    lemma_number_text(n as int, 10);
    let t = number_text(n as int, 10);
    if n < 10 {
        assert(t == seq![digit_of(n as int)]);
    } else if n < 100 {
        assert(t == seq![digit_of(n as int / 10)].push(digit_of(n as int % 10)));
    } else {
        assert(t == seq![digit_of(n as int / 10 / 10)].push(digit_of(n as int / 10 % 10)).push(
            digit_of(n as int % 10),
        ));
    }
}

/// An IPv4 address is read as it was written.
proof fn lemma_v4_text(v: Seq<u16>)
    requires
        v.len() == 4,
        is_ip(v),
    ensures
        is_v4(v4_text(v)),
        octets(v4_text(v)) == v,
        lacks_char(v4_text(v), ':'),
{
    let parts = v.map_values(|n: u16| number_text(n as int, 10));
    assert forall|i: int| 0 <= i < parts.len() implies lacks_char(#[trigger] parts[i], '.')
        && lacks_char(parts[i], ':') && is_octet(parts[i]) && number(parts[i], 10) == v[i] by {
        lemma_octet_text(v[i]);
    }
    lemma_split_joined(parts, '.');
    assert(octets(v4_text(v)) =~= v);
    assert(is_v4(v4_text(v)));
    assert forall|i: int| 0 <= i < v4_text(v).len() implies #[trigger] v4_text(v)[i] != ':' by {
        lemma_v4_chars(v4_text(v), i);
    }
}

/// Groups are read as they were written.
proof fn lemma_group_texts(v: Seq<u16>)
    ensures
        are_groups(group_texts(v)),
        group_values(group_texts(v)) == v,
        forall|i: int|
            0 <= i < v.len() ==> is_group(#[trigger] group_texts(v)[i]) && lacks_char(
                group_texts(v)[i],
                ':',
            ),
{
    let q = group_texts(v);
    assert forall|i: int| 0 <= i < v.len() implies is_group(#[trigger] q[i]) && lacks_char(
        q[i],
        ':',
    ) && lacks_char(q[i], '.') && number(q[i], 16) == v[i] by {
        lemma_group_text(v[i]);
    }
    if v.len() > 0 {
        assert(lacks_char(q[v.len() - 1], '.'));
        lemma_split_whole(q.last(), '.');
        assert(!is_v4(q.last()));
    }
    assert(group_values(q) =~= v);
}

proof fn lemma_first_empty(p: Seq<Seq<char>>, from: int, k: int)
    requires
        0 <= from <= k <= p.len(),
        k < p.len() ==> p[k].len() == 0,
        forall|i: int| from <= i < k ==> (#[trigger] p[i]).len() > 0,
    ensures
        first_empty(p, from) == k,
    decreases k - from,
{
    if from < k {
        assert(p[from].len() > 0);
        lemma_first_empty(p, from + 1, k);
    }
}

proof fn lemma_zeros_from(v: Seq<u16>, i: int)
    requires
        0 <= i <= v.len(),
    ensures
        0 <= zeros_from(v, i) <= v.len() - i,
        forall|j: int| i <= j < i + zeros_from(v, i) ==> v[j] == 0,
    decreases v.len() - i,
{
    if i < v.len() && v[i] == 0 {
        lemma_zeros_from(v, i + 1);
    }
}

proof fn lemma_longest_run(v: Seq<u16>, k: int)
    ensures
        0 <= longest_run(v, k),
        longest_run(v, k) < k || longest_run(v, k) == 0,
    decreases k,
{
    if k > 1 {
        lemma_longest_run(v, k - 1);
    }
}

/// What holds of the parts that an IPv6 address is written in.
spec fn parts_hold(p: Seq<Seq<char>>, v: Seq<u16>) -> bool {
    &&& p.len() >= 2
    &&& forall|i: int| 0 <= i < p.len() ==> lacks_char(#[trigger] p[i], ':')
    &&& v6_values(p) == Some(v)
}

proof fn lemma_mapped_parts(v: Seq<u16>)
    requires
        is_mapped(v),
    ensures
        parts_hold(v6_parts(v), v),
{
    let p = v6_parts(v);
    let hex = number_text(0xffff, 16);
    let dotted = v4_text(mapped(v));
    lemma_group_text(0xffff);
    assert(is_ip(mapped(v)));
    lemma_v4_text(mapped(v));
    let tail = seq![hex, dotted];
    assert(p[1].len() == 0);
    lemma_first_empty(p, 1, 1);
    assert(before_gap(p, 1) =~= Seq::<Seq<char>>::empty());
    assert(after_gap(p, 1) =~= tail);
    assert(tail.last() == dotted);
    assert(tail.drop_last() =~= seq![hex]);
    assert(paired(v[6] / 256, v[6] % 256) == v[6]);
    assert(paired(v[7] / 256, v[7] % 256) == v[7]);
    assert(group_values(tail) =~= seq![0xffffu16, v[6], v[7]]);
    assert(group_values(before_gap(p, 1)) =~= Seq::<u16>::empty());
    assert forall|i: int| 0 <= i < 5 implies v[i] == 0 by {
        assert(v.take(5)[i] == zeros(5)[i]);
    }
    assert(Seq::<u16>::empty() + zeros(5) + group_values(tail) =~= v);
}

/// The parts of an address with a run of zeros left out.
spec fn gapped(v: Seq<u16>, from: int, run: int) -> Seq<Seq<char>> {
    let none = Seq::<char>::empty();
    (if from == 0 {
        seq![none]
    } else {
        group_texts(v.take(from))
    }) + seq![none] + (if from + run == 8 {
        seq![none]
    } else {
        group_texts(v.skip(from + run))
    })
}

proof fn lemma_gapped_parts(v: Seq<u16>, from: int, run: int)
    requires
        v.len() == 8,
        0 <= from,
        2 <= run,
        from + run <= 8,
        forall|j: int| from <= j < from + run ==> v[j] == 0,
    ensures
        parts_hold(gapped(v, from, run), v),
{
    let none = Seq::<char>::empty();
    let p = gapped(v, from, run);
    let first = v.take(from);
    let rest = v.skip(from + run);
    lemma_group_texts(first);
    lemma_group_texts(rest);
    let head = if from == 0 {
        seq![none]
    } else {
        group_texts(first)
    };
    let tail = if from + run == 8 {
        seq![none]
    } else {
        group_texts(rest)
    };
    let k = head.len() as int;
    assert(p == head + seq![none] + tail);
    assert(p[k] == none);
    assert(p.skip(k + 1) =~= tail);
    assert(p.take(k) =~= head);
    assert forall|i: int| 1 <= i < k implies (#[trigger] p[i]).len() > 0 by {
        assert(is_group(group_texts(first)[i]));
    }
    lemma_first_empty(p, 1, k);
    if from > 0 {
        assert(is_group(group_texts(first)[0]));
        assert(p[0].len() > 0);
    }
    assert(before_gap(p, k) =~= group_texts(first));
    assert(p.last() == tail.last());
    if from + run < 8 {
        assert(is_group(group_texts(rest)[rest.len() - 1]));
        assert(p.last().len() > 0);
    }
    assert(after_gap(p, k) =~= group_texts(rest));
    let whole = first + zeros(run) + rest;
    assert forall|i: int| 0 <= i < 8 implies whole[i] == v[i] by {
        if from <= i < from + run {
            assert(whole[i] == zeros(run)[i - from]);
        } else if i >= from + run {
            assert(whole[i] == rest[i - from - run]);
        }
    }
    assert(whole =~= v);
    assert forall|i: int| 0 <= i < p.len() implies lacks_char(#[trigger] p[i], ':') by {
        if i < k {
            assert(p[i] == head[i]);
            if from > 0 {
                assert(lacks_char(group_texts(first)[i], ':'));
            }
        } else if i > k {
            assert(p[i] == tail[i - k - 1]);
            if from + run < 8 {
                assert(lacks_char(group_texts(rest)[i - k - 1], ':'));
            }
        }
    }
}

/// An IPv6 address is read as it was written.
proof fn lemma_v6_parts(v: Seq<u16>)
    requires
        v.len() == 8,
    ensures
        parts_hold(v6_parts(v), v),
{
    let p = v6_parts(v);
    let from = longest_run(v, 8);
    let run = zeros_from(v, from);
    lemma_longest_run(v, 8);
    lemma_zeros_from(v, from);
    if is_mapped(v) {
        lemma_mapped_parts(v);
    } else if run >= 2 {
        lemma_gapped_parts(v, from, run);
    } else {
        lemma_group_texts(v);
        assert forall|i: int| 1 <= i < 8 implies (#[trigger] p[i]).len() > 0 by {
            assert(is_group(group_texts(v)[i]));
        }
        lemma_first_empty(p, 1, 8);
    }
}

/// An address is read as it was written.
pub proof fn law_addresses_round_trip(v: Seq<u16>)
    requires
        is_ip(v),
    ensures
        ip_of(ip_text(v)) == Some(v),
{
    if v.len() == 4 {
        lemma_v4_text(v);
    } else {
        lemma_v6_parts(v);
        let p = v6_parts(v);
        let s = ip_text(v);
        lemma_split_joined(p, ':');
        if is_v4(s) {
            let at = joined_by(p.drop_last(), ':').len() as int;
            assert(s[at] == ':');
            lemma_v4_chars(s, at);
        }
    }
}

fn digit(c: char) -> (r: bool)
    ensures
        r == is_digit(c),
{
    '0' <= c && c <= '9'
}

fn octet(p: &Vec<char>) -> (r: bool)
    ensures
        r == is_octet(p@),
{
    if p.len() == 1 {
        digit(p[0])
    } else if p.len() == 2 {
        '1' <= p[0] && p[0] <= '9' && digit(p[1])
    } else if p.len() == 3 {
        (p[0] == '1' && digit(p[1]) && digit(p[2])) || (p[0] == '2' && '0' <= p[1] && p[1] <= '4'
            && digit(p[2])) || (p[0] == '2' && p[1] == '5' && '0' <= p[2] && p[2] <= '5')
    } else {
        false
    }
}

fn group(p: &Vec<char>) -> (r: bool)
    ensures
        r == is_group(p@),
{
    if p.len() < 1 || p.len() > 4 {
        return false;
    }
    let mut i: usize = 0;
    while i < p.len()
        invariant
            i <= p@.len(),
            forall|j: int| 0 <= j < i ==> is_hex(#[trigger] p@[j]),
        decreases p@.len() - i,
    {
        let c: char = p[i];
        if !(digit(c) || ('a' <= c && c <= 'f') || ('A' <= c && c <= 'F')) {
            return false;
        }
        i = i + 1;
    }
    true
}

proof fn lemma_number_bound(p: Seq<char>, base: int)
    requires
        p.len() <= 4,
        base == 10 || base == 16,
        forall|i: int| 0 <= i < p.len() ==> is_hex(#[trigger] p[i]),
    ensures
        0 <= number(p, base),
        number(p, base) <= (if p.len() == 0 {
            0int
        } else if p.len() == 1 {
            15
        } else if p.len() == 2 {
            255
        } else if p.len() == 3 {
            4095
        } else {
            65535
        }),
    decreases p.len(),
{
    if p.len() > 0 {
        let before = p.drop_last();
        assert forall|i: int| 0 <= i < before.len() implies is_hex(#[trigger] before[i]) by {
            assert(is_hex(p[i]));
        }
        lemma_number_bound(before, base);
        assert(is_hex(p[p.len() - 1]));
        if base == 10 {
            assert(number(before, base) * base == number(before, base) * 10);
        } else {
            assert(number(before, base) * base == number(before, base) * 16);
        }
    }
}

/// The number that up to four digits stand for.
fn value(p: &Vec<char>, base: u32) -> (r: u16)
    requires
        p@.len() <= 4,
        base == 10 || base == 16,
        forall|i: int| 0 <= i < p@.len() ==> is_hex(#[trigger] p@[i]),
    ensures
        r == number(p@, base as int),
{
    let mut n: u32 = 0;
    let mut i: usize = 0;
    while i < p.len()
        invariant
            i <= p@.len() <= 4,
            base == 10 || base == 16,
            forall|j: int| 0 <= j < p@.len() ==> is_hex(#[trigger] p@[j]),
            n == number(p@.take(i as int), base as int),
        decreases p@.len() - i,
    {
        let c: char = p[i];
        assert(is_hex(p@[i as int]));
        let d: u32 = if digit(c) {
            c as u32 - '0' as u32
        } else if 'a' <= c {
            c as u32 - 'a' as u32 + 10
        } else {
            c as u32 - 'A' as u32 + 10
        };
        proof {
            let before = p@.take(i as int);
            let next = p@.take(i + 1);
            assert(next.drop_last() =~= before);
            assert forall|j: int| 0 <= j < next.len() implies is_hex(#[trigger] next[j]) by {
                assert(is_hex(p@[j]));
            }
            lemma_number_bound(next, base as int);
            assert(next.last() == c && digit_value(c) == d);
            assert(number(next, base as int) == number(before, base as int) * base + d);
            assert(0 <= n * base) by (nonlinear_arith);
        }
        n = n * base + d;
        i = i + 1;
    }
    proof {
        assert(p@.take(i as int) =~= p@);
        lemma_number_bound(p@, base as int);
    }
    n as u16
}

proof fn lemma_octet_value(p: Seq<char>)
    requires
        is_octet(p),
    ensures
        0 <= number(p, 10) <= 255,
        forall|i: int| 0 <= i < p.len() ==> is_hex(#[trigger] p[i]),
        p.len() <= 3,
{
    reveal_with_fuel(number, 4);
    if p.len() == 3 {
        assert(p.drop_last().drop_last().last() == p[0]);
        assert(p.drop_last().last() == p[1]);
    } else if p.len() == 2 {
        assert(p.drop_last().last() == p[0]);
    }
}

/// The numbers of an IPv4 address, if the text is one.
fn read_v4(s: &Vec<char>) -> (r: Option<Vec<u16>>)
    ensures
        match r {
            Some(v) => is_v4(s@) && v@ == octets(s@) && is_ip(v@),
            None => !is_v4(s@),
        },
{
    let p = split_at_char(s, '.');
    let ghost q = split(s@, '.');
    if p.len() != 4 {
        return None;
    }
    assert(p@[0]@ == q[0] && p@[1]@ == q[1] && p@[2]@ == q[2] && p@[3]@ == q[3]);
    if !(octet(&p[0]) && octet(&p[1]) && octet(&p[2]) && octet(&p[3])) {
        return None;
    }
    let mut out: Vec<u16> = Vec::new();
    let mut i: usize = 0;
    while i < 4
        invariant
            p@.len() == 4,
            q.len() == 4,
            q == split(s@, '.'),
            forall|j: int| 0 <= j < 4 ==> (#[trigger] p@[j])@ == q[j] && is_octet(q[j]),
            i <= 4,
            out@.len() == i,
            forall|j: int| 0 <= j < i ==> #[trigger] out@[j] == number(q[j], 10) && out@[j] <= 255,
        decreases 4 - i,
    {
        assert(p@[i as int]@ == q[i as int] && is_octet(q[i as int]));
        proof {
            lemma_octet_value(q[i as int]);
        }
        out.push(value(&p[i], 10));
        i = i + 1;
    }
    assert(out@ =~= octets(s@));
    Some(out)
}

/// The parts as mathematical data.
spec fn parts(p: Seq<Vec<char>>) -> Seq<Seq<char>> {
    p.map_values(|v: Vec<char>| v@)
}

/// The numbers of the groups from one place to another, if they are groups.
fn read_plain(p: &Vec<Vec<char>>, from: usize, to: usize) -> (r: Option<Vec<u16>>)
    requires
        from <= to <= p@.len(),
    ensures
        match r {
            Some(v) => v@.len() == to - from && forall|i: int|
                #![trigger v@[i]]
                #![trigger parts(p@)[from + i]]
                0 <= i < to - from ==> is_group(parts(p@)[from + i]) && v@[i] == number(
                    parts(p@)[from + i],
                    16,
                ),
            None => exists|i: int| from <= i < to && !is_group(#[trigger] parts(p@)[i]),
        },
{
    let mut out: Vec<u16> = Vec::new();
    let mut i: usize = from;
    while i < to
        invariant
            from <= i <= to <= p@.len(),
            out@.len() == i - from,
            forall|j: int|
                #![trigger out@[j]]
                #![trigger parts(p@)[from + j]]
                0 <= j < i - from ==> is_group(parts(p@)[from + j]) && out@[j] == number(
                    parts(p@)[from + j],
                    16,
                ),
        decreases to - i,
    {
        assert(parts(p@)[i as int] == p@[i as int]@);
        if !group(&p[i]) {
            return None;
        }
        out.push(value(&p[i], 16));
        i = i + 1;
    }
    Some(out)
}

/// The numbers of the groups from a place to the end, if they are groups; the last may be
/// an IPv4 address.
fn read_groups(p: &Vec<Vec<char>>, from: usize) -> (r: Option<Vec<u16>>)
    requires
        from <= p@.len(),
    ensures
        match r {
            Some(v) => are_groups(parts(p@).skip(from as int)) && v@ == group_values(
                parts(p@).skip(from as int),
            ),
            None => !are_groups(parts(p@).skip(from as int)),
        },
{
    let ghost q = parts(p@).skip(from as int);
    if from == p.len() {
        let out: Vec<u16> = Vec::new();
        assert(out@ =~= group_values(q));
        return Some(out);
    }
    let last: usize = p.len() - 1;
    assert(q.last() == p@[last as int]@);
    let mut out = match read_plain(p, from, last) {
        Some(v) => v,
        None => {
            proof {
                let i = choose|i: int|
                    from <= i < last && !is_group(#[trigger] parts(p@)[i]);
                assert(q[i - from] == parts(p@)[i]);
            }
            return None;
        },
    };
    proof {
        assert forall|i: int| 0 <= i < q.len() - 1 implies is_group(#[trigger] q[i]) && out@[i]
            == number(q[i], 16) by {
            assert(q[i] == parts(p@)[from + i]);
        }
    }
    if let Some(o) = read_v4(&p[last]) {
        let ghost before = out@;
        assert(o@[0] <= 255 && o@[1] <= 255 && o@[2] <= 255 && o@[3] <= 255);
        out.push(o[0] * 256 + o[1]);
        out.push(o[2] * 256 + o[3]);
        assert(before =~= q.drop_last().map_values(|p: Seq<char>| number(p, 16) as u16));
        assert(out@ =~= group_values(q));
        Some(out)
    } else if group(&p[last]) {
        out.push(value(&p[last], 16));
        assert(out@ =~= group_values(q));
        Some(out)
    } else {
        None
    }
}

/// The numbers of an IPv6 address, if the text is one.
fn read_v6(s: &Vec<char>) -> (r: Option<Vec<u16>>)
    ensures
        match r {
            Some(v) => v6_values(split(s@, ':')) == Some(v@),
            None => v6_values(split(s@, ':')) is None,
        },
{
    let p = split_at_char(s, ':');
    let ghost q = split(s@, ':');
    assert(parts(p@) =~= q);
    let n: usize = p.len();
    let mut k: usize = 1;
    while k < n && p[k].len() > 0
        invariant
            n == p@.len(),
            n >= 1,
            q == parts(p@),
            1 <= k <= n,
            first_empty(q, 1) == first_empty(q, k as int),
        decreases n - k,
    {
        assert(q[k as int] == p@[k as int]@);
        k = k + 1;
    }
    proof {
        if k < n {
            assert(q[k as int] == p@[k as int]@);
        }
        assert(first_empty(q, 1) == k);
    }
    if k >= n - 1 {
        assert(q.skip(0) =~= q);
        return match read_groups(&p, 0) {
            Some(v) => if v.len() == 8 {
                Some(v)
            } else {
                None
            },
            None => None,
        };
    }
    let ghost head = before_gap(q, k as int);
    let ghost tail = after_gap(q, k as int);
    assert(q[0] == p@[0]@);
    assert(q.last() == p@[n - 1]@);
    let opens: bool = k == 1 && p[0].len() == 0;
    let closes: bool = k == n - 2 && p[n - 1].len() == 0;
    let stop: usize = if opens {
        0
    } else {
        k
    };
    let mut out = match read_plain(&p, 0, stop) {
        Some(v) => v,
        None => {
            proof {
                let i = choose|i: int| 0 <= i < stop && !is_group(#[trigger] parts(p@)[i]);
                assert(!is_group(head[i]));
            }
            return None;
        },
    };
    proof {
        assert forall|i: int| 0 <= i < head.len() implies is_group(#[trigger] head[i]) && out@[i]
            == number(head[i], 16) by {
            assert(head[i] == parts(p@)[0 + i]);
        }
        if head.len() > 0 {
            assert(is_group(head[head.len() - 1]));
            lemma_group_is_not_v4(head.last());
        }
        assert(out@ =~= group_values(head));
    }
    let start: usize = if closes {
        n
    } else {
        k + 1
    };
    assert(q.skip(start as int) =~= tail);
    let mut rest = match read_groups(&p, start) {
        Some(v) => v,
        None => {
            return None;
        },
    };
    let ghost written = head.len() + group_values(tail).len();
    if out.len() > 7 || rest.len() > 7 - out.len() {
        return None;
    }
    let left: usize = 8 - out.len() - rest.len();
    let ghost front = out@;
    let mut i: usize = 0;
    while i < left
        invariant
            i <= left,
            out@ == front + zeros(i as int),
        decreases left - i,
    {
        out.push(0);
        i = i + 1;
        assert(out@ =~= front + zeros(i as int));
    }
    out.append(&mut rest);
    Some(out)
}

/// A group is no IPv4 address.
proof fn lemma_group_is_not_v4(p: Seq<char>)
    requires
        is_group(p),
    ensures
        !is_v4(p),
{
    assert forall|i: int| 0 <= i < p.len() implies #[trigger] p[i] != '.' by {
        assert(is_hex(p[i]));
    }
    lemma_split_whole(p, '.');
}

/// Whatever is read is an address.
pub proof fn lemma_values_are_ip(s: Seq<char>)
    ensures
        ip_of(s) matches Some(v) ==> is_ip(v) && (v.len() == 4) == is_v4(s),
{
    if is_v4(s) {
        let p = split(s, '.');
        lemma_octet_value(p[0]);
        lemma_octet_value(p[1]);
        lemma_octet_value(p[2]);
        lemma_octet_value(p[3]);
        let v = octets(s);
        assert(v[0] <= 255 && v[1] <= 255 && v[2] <= 255 && v[3] <= 255);
        assert forall|i: int| 0 <= i < 4 implies #[trigger] v[i] <= 255 by {}
    } else {
        let p = split(s, ':');
        let k = first_empty(p, 1);
        if k < p.len() - 1 {
            let head = before_gap(p, k);
            if head.len() > 0 && is_group(head[head.len() - 1]) {
                lemma_group_is_not_v4(head.last());
            }
        }
    }
}

/// Reads an IP address, if the text is one.
pub fn read_ip(s: &Vec<char>) -> (r: Option<Vec<u16>>)
    ensures
        match r {
            Some(v) => ip_of(s@) == Some(v@) && is_ip(v@),
            None => ip_of(s@) is None,
        },
{
    proof {
        lemma_values_are_ip(s@);
    }
    match read_v4(s) {
        Some(v) => Some(v),
        None => read_v6(s),
    }
}

/// Appends a number in digits of a base.
fn write_number(out: &mut Vec<char>, n: u16, base: u16)
    requires
        base == 10 || base == 16,
    ensures
        final(out)@ == old(out)@ + number_text(n as int, base as int),
    decreases n,
{
    let ghost before = out@;
    let d: u16 = n % base;
    if n >= base {
        write_number(out, n / base, base);
    }
    let c: char = if d < 10 {
        (48 + d as u8) as char
    } else {
        (97 + (d - 10) as u8) as char
    };
    assert(c == digit_of(d as int));
    out.push(c);
    assert(out@ =~= before + number_text(n as int, base as int));
}

/// Appends the texts of numbers as parts.
fn push_texts(out: &mut Vec<Vec<char>>, v: &Vec<u16>, from: usize, to: usize, base: u16)
    requires
        from <= to <= v@.len(),
        base == 10 || base == 16,
    ensures
        parts(final(out)@) == parts(old(out)@) + v@.subrange(from as int, to as int).map_values(
            |n: u16| number_text(n as int, base as int),
        ),
{
    let ghost before = parts(out@);
    let ghost all = v@.subrange(from as int, to as int).map_values(
        |n: u16| number_text(n as int, base as int),
    );
    assert(before + all.take(0) =~= before);
    let mut i: usize = from;
    while i < to
        invariant
            from <= i <= to <= v@.len(),
            base == 10 || base == 16,
            all == v@.subrange(from as int, to as int).map_values(
                |n: u16| number_text(n as int, base as int),
            ),
            parts(out@) == before + all.take(i - from),
        decreases to - i,
    {
        let mut text: Vec<char> = Vec::new();
        write_number(&mut text, v[i], base);
        assert(text@ =~= number_text(v@[i as int] as int, base as int));
        let ghost written = out@;
        out.push(text);
        proof {
            assert(parts(out@) =~= parts(written).push(text@));
            assert(all.take(i + 1 - from) =~= all.take(i - from).push(all[i - from]));
            assert(parts(out@) =~= before + all.take(i + 1 - from));
        }
        i = i + 1;
    }
    assert(all.take(i - from) =~= all);
}

/// Joins parts with a character between each two.
fn join(p: &Vec<Vec<char>>, c: char) -> (r: Vec<char>)
    ensures
        r@ == joined_by(parts(p@), c),
{
    let ghost all = parts(p@);
    let mut out: Vec<char> = Vec::new();
    let mut i: usize = 0;
    assert(all.take(0) =~= Seq::empty());
    assert(out@ =~= joined_by(all.take(0), c));
    while i < p.len()
        invariant
            i <= p@.len(),
            all == parts(p@),
            out@ == joined_by(all.take(i as int), c),
        decreases p@.len() - i,
    {
        let ghost before = out@;
        let ghost next = all.take(i + 1);
        assert(next.drop_last() =~= all.take(i as int));
        assert(next.last() == p@[i as int]@);
        if i > 0 {
            out.push(c);
        }
        let ghost opened = out@;
        let mut j: usize = 0;
        assert(p@[i as int]@.take(0) =~= Seq::empty());
        while j < p[i].len()
            invariant
                i < p@.len(),
                j <= p@[i as int]@.len(),
                out@ == opened + p@[i as int]@.take(j as int),
            decreases p@[i as int]@.len() - j,
        {
            let ch: char = p[i][j];
            out.push(ch);
            assert(out@ =~= opened + p@[i as int]@.take(j + 1));
            j = j + 1;
        }
        assert(p@[i as int]@.take(j as int) =~= p@[i as int]@);
        proof {
            if i == 0 {
                assert(before.len() == 0);
                assert(out@ =~= next[0]);
            } else {
                assert(out@ =~= before.push(c) + next.last());
            }
            assert(out@ == joined_by(next, c));
        }
        i = i + 1;
    }
    assert(all.take(i as int) =~= all);
    out
}

/// How many zeros follow one another from a place on.
fn count_zeros(v: &Vec<u16>, from: usize) -> (r: usize)
    requires
        from <= v@.len(),
    ensures
        r == zeros_from(v@, from as int),
    decreases v@.len() - from,
{
    if from < v.len() && v[from] == 0 {
        let more: usize = count_zeros(v, from + 1);
        proof {
            lemma_zeros_from(v@, from + 1);
        }
        1 + more
    } else {
        0
    }
}

/// Writes an IPv4 address.
fn write_v4(v: &Vec<u16>) -> (r: Vec<char>)
    requires
        v@.len() == 4,
    ensures
        r@ == v4_text(v@),
{
    let mut p: Vec<Vec<char>> = Vec::new();
    push_texts(&mut p, v, 0, 4, 10);
    proof {
        assert(v@.subrange(0, 4) =~= v@);
        assert(parts(p@) =~= v@.map_values(|n: u16| number_text(n as int, 10)));
    }
    join(&p, '.')
}

/// The parts of an IPv6 address as it is written.
fn write_parts(v: &Vec<u16>) -> (r: Vec<Vec<char>>)
    requires
        v@.len() == 8,
    ensures
        parts(r@) == v6_parts(v@),
{
    let ghost none = Seq::<char>::empty();
    let mut p: Vec<Vec<char>> = Vec::new();
    let nothing: Vec<char> = Vec::new();
    assert(nothing@ =~= none);
    if v[0] == 0 && v[1] == 0 && v[2] == 0 && v[3] == 0 && v[4] == 0 && v[5] == 0xffff {
        assert(v@.take(5) =~= zeros(5));
        let mut four: Vec<u16> = Vec::new();
        four.push(v[6] / 256);
        four.push(v[6] % 256);
        four.push(v[7] / 256);
        four.push(v[7] % 256);
        assert(four@ =~= mapped(v@));
        let mut ones: Vec<char> = Vec::new();
        write_number(&mut ones, 0xffff, 16);
        assert(ones@ =~= number_text(0xffff, 16));
        let dotted = write_v4(&four);
        let empty: Vec<char> = Vec::new();
        assert(empty@ =~= none);
        p.push(nothing);
        p.push(empty);
        p.push(ones);
        p.push(dotted);
        assert(parts(p@) =~= v6_parts(v@));
        return p;
    }
    proof {
        if is_mapped(v@) {
            assert(v@.take(5)[0] == zeros(5)[0] && v@.take(5)[1] == zeros(5)[1] && v@.take(5)[2]
                == zeros(5)[2] && v@.take(5)[3] == zeros(5)[3] && v@.take(5)[4] == zeros(5)[4]);
        }
        assert(!is_mapped(v@));
    }
    let mut from: usize = 0;
    let mut k: usize = 1;
    while k < 8
        invariant
            v@.len() == 8,
            1 <= k <= 8,
            from < 8,
            from == longest_run(v@, k as int),
        decreases 8 - k,
    {
        if count_zeros(v, k) > count_zeros(v, from) {
            from = k;
        }
        k = k + 1;
    }
    let run: usize = count_zeros(v, from);
    proof {
        lemma_zeros_from(v@, from as int);
    }
    if run < 2 {
        push_texts(&mut p, v, 0, 8, 16);
        proof {
            assert(v@.subrange(0, 8) =~= v@);
            assert(parts(p@) =~= group_texts(v@));
        }
        return p;
    }
    if from == 0 {
        let empty: Vec<char> = Vec::new();
        assert(empty@ =~= none);
        p.push(empty);
        assert(parts(p@) =~= seq![none]);
    } else {
        push_texts(&mut p, v, 0, from, 16);
        proof {
            assert(v@.subrange(0, from as int) =~= v@.take(from as int));
            assert(parts(p@) =~= group_texts(v@.take(from as int)));
        }
    }
    let ghost head = parts(p@);
    p.push(nothing);
    assert(parts(p@) =~= head + seq![none]);
    if from + run == 8 {
        let empty: Vec<char> = Vec::new();
        assert(empty@ =~= none);
        p.push(empty);
        assert(parts(p@) =~= head + seq![none] + seq![none]);
    } else {
        push_texts(&mut p, v, from + run, 8, 16);
        proof {
            assert(v@.subrange(from + run, 8) =~= v@.skip(from + run));
            assert(parts(p@) =~= head + seq![none] + group_texts(v@.skip(from + run)));
        }
    }
    p
}

/// Writes an IP address.
pub fn write_ip(v: &Vec<u16>) -> (r: Vec<char>)
    requires
        is_ip(v@),
    ensures
        r@ == ip_text(v@),
{
    if v.len() == 4 {
        write_v4(v)
    } else {
        join(&write_parts(v), ':')
    }
}

/// One address comes before another: IPv4 before IPv6, and otherwise by the first number in
/// which they differ.
pub open spec fn ip_lt(a: Seq<u16>, b: Seq<u16>) -> bool {
    a.len() < b.len() || (a.len() == b.len() && exists|i: int| #[trigger] differs_at(a, b, i))
}

/// The first number in which two addresses differ is smaller in the first.
pub open spec fn differs_at(a: Seq<u16>, b: Seq<u16>, i: int) -> bool {
    0 <= i < a.len() && a[i] < b[i] && forall|j: int| 0 <= j < i ==> #[trigger] a[j] == b[j]
}

/// Of two addresses one comes first, unless they are the same.
pub proof fn lemma_ip_lt_total(a: Seq<u16>, b: Seq<u16>)
    ensures
        a == b || ip_lt(a, b) || ip_lt(b, a),
        !(ip_lt(a, b) && ip_lt(b, a)),
        !ip_lt(a, a),
{
    if a.len() == b.len() && a != b {
        let i = first_difference(a, b, 0);
        lemma_first_difference(a, b, 0);
        assert(differs_at(a, b, i) || differs_at(b, a, i));
    }
    if a.len() == b.len() && ip_lt(a, b) && ip_lt(b, a) {
        let i = choose|i: int| differs_at(a, b, i);
        let j = choose|j: int| differs_at(b, a, j);
        if i < j {
            assert(b[i] == a[i]);
        } else if j < i {
            assert(a[j] == b[j]);
        }
    }
}

spec fn first_difference(a: Seq<u16>, b: Seq<u16>, from: int) -> int
    decreases a.len() - from,
{
    if from >= a.len() || a[from] != b[from] {
        from
    } else {
        first_difference(a, b, from + 1)
    }
}

proof fn lemma_first_difference(a: Seq<u16>, b: Seq<u16>, from: int)
    requires
        a.len() == b.len(),
        0 <= from <= a.len(),
        forall|j: int| 0 <= j < from ==> a[j] == b[j],
        a != b,
    ensures
        ({
            let i = first_difference(a, b, from);
            0 <= i < a.len() && a[i] != b[i] && forall|j: int| 0 <= j < i ==> a[j] == b[j]
        }),
    decreases a.len() - from,
{
    if from >= a.len() {
        assert(a =~= b);
    } else if a[from] == b[from] {
        lemma_first_difference(a, b, from + 1);
    }
}

pub proof fn lemma_ip_lt_transitive(a: Seq<u16>, b: Seq<u16>, c: Seq<u16>)
    requires
        ip_lt(a, b),
        ip_lt(b, c),
    ensures
        ip_lt(a, c),
{
    if a.len() == c.len() {
        let i = choose|i: int| differs_at(a, b, i);
        let j = choose|j: int| differs_at(b, c, j);
        let k = if i < j {
            i
        } else {
            j
        };
        assert(a[k] < c[k]) by {
            if i < j {
                assert(b[i] == c[i]);
            } else if j < i {
                assert(a[j] == b[j]);
            }
        }
        assert forall|m: int| 0 <= m < k implies #[trigger] a[m] == c[m] by {
            assert(a[m] == b[m]);
            assert(b[m] == c[m]);
        }
        assert(differs_at(a, c, k));
    }
}

/// Whether one address comes before another.
pub fn ip_before(a: &Vec<u16>, b: &Vec<u16>) -> (r: bool)
    ensures
        r == ip_lt(a@, b@),
{
    if a.len() != b.len() {
        return a.len() < b.len();
    }
    let mut i: usize = 0;
    while i < a.len()
        invariant
            a@.len() == b@.len(),
            i <= a@.len(),
            forall|j: int| 0 <= j < i ==> #[trigger] a@[j] == b@[j],
        decreases a@.len() - i,
    {
        if a[i] != b[i] {
            proof {
                lemma_ip_lt_total(a@, b@);
                if a@[i as int] < b@[i as int] {
                    assert(differs_at(a@, b@, i as int));
                } else {
                    assert(differs_at(b@, a@, i as int));
                }
            }
            return a[i] < b[i];
        }
        i = i + 1;
    }
    assert(a@ =~= b@);
    proof {
        lemma_ip_lt_total(a@, b@);
    }
    false
}

/// Addresses are ordered by their family and then by the first number in which they differ, with
/// the smaller number first; of two that are not the same just one comes first.
pub proof fn law_addresses_are_ordered_by_the_first_difference(a: Seq<u16>, b: Seq<u16>, i: int)
    ensures
        a.len() < b.len() ==> ip_lt(a, b) && !ip_lt(b, a),
        a.len() == b.len() && 0 <= i < a.len() && a[i] < b[i] && (forall|j: int|
            0 <= j < i ==> #[trigger] a[j] == b[j]) ==> ip_lt(a, b) && !ip_lt(b, a),
        !ip_lt(a, a),
        a != b ==> ip_lt(a, b) || ip_lt(b, a),
{
    lemma_ip_lt_total(a, b);
    if a.len() == b.len() && 0 <= i < a.len() && a[i] < b[i] && (forall|j: int|
        0 <= j < i ==> #[trigger] a[j] == b[j]) {
        assert(differs_at(a, b, i));
    }
}

} // verus!
