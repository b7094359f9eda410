//! Lists of named values, in the order of their names.
use vstd::prelude::*;

use crate::text::{
    lemma_text_le_antisymmetric, lemma_text_le_total, lemma_text_le_transitive, not_after,
    text_eq, text_lt,
};

verus! {

/// The names are in strictly increasing order.
pub open spec fn ascending<T>(list: Seq<(Seq<char>, T)>) -> bool {
    forall|i: int, j: int|
        0 <= i < j < list.len() ==> text_lt((#[trigger] list[i]).0, (#[trigger] list[j]).0)
}

/// The name stands at this place.
pub open spec fn name_at<T>(list: Seq<(Seq<char>, T)>, name: Seq<char>, i: int) -> bool {
    0 <= i < list.len() && list[i].0 == name
}

/// The values by their names.
pub open spec fn by_name<T>(list: Seq<(Seq<char>, T)>) -> Map<Seq<char>, T> {
    Map::new(
        |name: Seq<char>| exists|i: int| name_at(list, name, i),
        |name: Seq<char>| list[choose|i: int| name_at(list, name, i)].1,
    )
}

/// The names of a list of strings with values.
pub open spec fn names_of<T>(list: Seq<(String, T)>) -> Seq<(Seq<char>, ())> {
    Seq::new(list.len(), |i: int| (list[i].0@, ()))
}

/// A value is found under its name.
pub proof fn lemma_by_name_at<T>(list: Seq<(Seq<char>, T)>, i: int)
    requires
        ascending(list),
        0 <= i < list.len(),
    ensures
        by_name(list).contains_key(list[i].0),
        by_name(list)[list[i].0] == list[i].1,
{
    let name = list[i].0;
    assert(name_at(list, name, i));
    let j = choose|j: int| name_at(list, name, j);
    assert(name_at(list, name, j));
    if i < j {
        assert(text_lt(list[i].0, list[j].0));
    } else if j < i {
        assert(text_lt(list[j].0, list[i].0));
    }
}

/// Where a name is looked for, and not found before its place, it is not there.
pub proof fn lemma_not_named<T>(list: Seq<(Seq<char>, T)>, name: Seq<char>)
    requires
        forall|i: int| 0 <= i < list.len() ==> (#[trigger] list[i]).0 != name,
    ensures
        !by_name(list).contains_key(name),
{
    if by_name(list).contains_key(name) {
        let i = choose|i: int| name_at(list, name, i);
        assert(list[i].0 != name);
    }
}

/// Putting a new name at its place keeps the order and adds its value.
pub proof fn lemma_put_new<T>(list: Seq<(Seq<char>, T)>, pos: int, name: Seq<char>, value: T)
    requires
        ascending(list),
        0 <= pos <= list.len(),
        forall|i: int| 0 <= i < pos ==> text_lt((#[trigger] list[i]).0, name),
        forall|i: int| pos <= i < list.len() ==> text_lt(name, (#[trigger] list[i]).0),
    ensures
        ascending(list.insert(pos, (name, value))),
        by_name(list.insert(pos, (name, value))) == by_name(list).insert(name, value),
{
    let after = list.insert(pos, (name, value));
    assert forall|i: int, j: int| 0 <= i < j < after.len() implies text_lt(
        (#[trigger] after[i]).0,
        (#[trigger] after[j]).0,
    ) by {
        let a = if i < pos {
            i
        } else {
            i - 1
        };
        let b = if j < pos {
            j
        } else {
            j - 1
        };
        if i != pos {
            assert(after[i] == list[a]);
        }
        if j != pos {
            assert(after[j] == list[b]);
        }
    }
    let m = by_name(after);
    let want = by_name(list).insert(name, value);
    lemma_by_name_at(after, pos);
    assert forall|n: Seq<char>| #[trigger] m.contains_key(n) == want.contains_key(n) && (
    m.contains_key(n) ==> m[n] == want[n]) by {
        if n != name {
            if exists|i: int| name_at(list, n, i) {
                let i = choose|i: int| name_at(list, n, i);
                let k = if i < pos {
                    i
                } else {
                    i + 1
                };
                assert(after[k] == list[i]);
                lemma_by_name_at(list, i);
                lemma_by_name_at(after, k);
            } else if exists|k: int| name_at(after, n, k) {
                let k = choose|k: int| name_at(after, n, k);
                let i = if k < pos {
                    k
                } else {
                    k - 1
                };
                assert(after[k] == list[i]);
                assert(name_at(list, n, i));
            }
        }
    }
    assert(m =~= want);
}

/// Replacing the value of a name keeps the order and changes that value alone.
pub proof fn lemma_put_again<T>(list: Seq<(Seq<char>, T)>, pos: int, value: T)
    requires
        ascending(list),
        0 <= pos < list.len(),
    ensures
        ascending(list.update(pos, (list[pos].0, value))),
        by_name(list.update(pos, (list[pos].0, value))) == by_name(list).insert(
            list[pos].0,
            value,
        ),
{
    let name = list[pos].0;
    let after = list.update(pos, (name, value));
    assert forall|i: int, j: int| 0 <= i < j < after.len() implies text_lt(
        (#[trigger] after[i]).0,
        (#[trigger] after[j]).0,
    ) by {
        assert(after[i].0 == list[i].0 && after[j].0 == list[j].0);
    }
    let m = by_name(after);
    let want = by_name(list).insert(name, value);
    lemma_by_name_at(after, pos);
    assert forall|n: Seq<char>| #[trigger] m.contains_key(n) == want.contains_key(n) && (
    m.contains_key(n) ==> m[n] == want[n]) by {
        if n != name {
            if exists|i: int| name_at(list, n, i) {
                let i = choose|i: int| name_at(list, n, i);
                assert(after[i] == list[i]);
                lemma_by_name_at(list, i);
                lemma_by_name_at(after, i);
            } else if exists|k: int| name_at(after, n, k) {
                let k = choose|k: int| name_at(after, n, k);
                assert(name_at(list, n, k));
            }
        }
    }
    assert(m =~= want);
}

/// Where a name stands or belongs in a list that is in order, and whether it stands
/// there.
pub fn place_of<T>(list: &Vec<(String, T)>, name: &str) -> (r: (usize, bool))
    requires
        ascending(names_of(list@)),
    ensures
        r.0 <= list@.len(),
        forall|i: int| 0 <= i < r.0 ==> text_lt((#[trigger] list@[i]).0@, name@),
        r.1 ==> r.0 < list@.len() && list@[r.0 as int].0@ == name@,
        !r.1 ==> forall|i: int| r.0 <= i < list@.len() ==> text_lt(name@, (#[trigger] list@[i]).0@),
{
    let ghost names = names_of(list@);
    let mut pos: usize = 0;
    while pos < list.len()
        invariant
            names == names_of(list@),
            ascending(names),
            pos <= list@.len(),
            forall|i: int| 0 <= i < pos ==> text_lt((#[trigger] list@[i]).0@, name@),
        decreases list@.len() - pos,
    {
        assert(names[pos as int].0 == list@[pos as int].0@);
        if text_eq(list[pos].0.as_str(), name) {
            return (pos, true);
        }
        if not_after(name, list[pos].0.as_str()) {
            assert forall|i: int| pos <= i < list@.len() implies text_lt(
                name@,
                (#[trigger] list@[i]).0@,
            ) by {
                assert(names[i].0 == list@[i].0@);
                if i > pos {
                    assert(text_lt(names[pos as int].0, names[i].0));
                    lemma_text_le_transitive(name@, names[pos as int].0, names[i].0);
                    if name@ == names[i].0 {
                        lemma_text_le_antisymmetric(names[pos as int].0, names[i].0);
                    }
                }
            }
            return (pos, false);
        }
        proof {
            lemma_text_le_total(name@, names[pos as int].0);
        }
        pos = pos + 1;
    }
    (pos, false)
}

/// The list with every value seen through `g`.
pub open spec fn seen_as<T, U>(list: Seq<(String, T)>, g: spec_fn(T) -> U) -> Seq<(Seq<char>, U)> {
    Seq::new(list.len(), |i: int| (list[i].0@, g(list[i].1)))
}

/// The order of a list does not depend on how its values are seen.
pub proof fn lemma_order_is_of_names<T, U>(list: Seq<(String, T)>, g: spec_fn(T) -> U)
    ensures
        ascending(seen_as(list, g)) <==> ascending(names_of(list)),
{
    let a = seen_as(list, g);
    let b = names_of(list);
    if ascending(a) {
        assert forall|i: int, j: int| 0 <= i < j < b.len() implies text_lt(
            (#[trigger] b[i]).0,
            (#[trigger] b[j]).0,
        ) by {
            assert(a[i].0 == b[i].0 && a[j].0 == b[j].0);
        }
    }
    if ascending(b) {
        assert forall|i: int, j: int| 0 <= i < j < a.len() implies text_lt(
            (#[trigger] a[i]).0,
            (#[trigger] a[j]).0,
        ) by {
            assert(a[i].0 == b[i].0 && a[j].0 == b[j].0);
        }
    }
}

/// The new list is the old one with the value put under the name, at its place.
pub open spec fn put_at<T>(
    before: Seq<(String, T)>,
    after: Seq<(String, T)>,
    name: String,
    value: T,
    pos: int,
    found: bool,
) -> bool {
    if found {
        0 <= pos < before.len() && before[pos].0@ == name@ && after == before.update(
            pos,
            (name, value),
        )
    } else {
        0 <= pos <= before.len() && after == before.insert(pos, (name, value)) && (forall|i: int|
            0 <= i < pos ==> text_lt((#[trigger] before[i]).0@, name@)) && (forall|i: int|
            pos <= i < before.len() ==> text_lt(name@, (#[trigger] before[i]).0@))
    }
}

/// Putting a value under a name keeps the order, and changes what the list says of that
/// name alone, however its values are seen.
pub proof fn lemma_put<T, U>(
    before: Seq<(String, T)>,
    after: Seq<(String, T)>,
    name: String,
    value: T,
    pos: int,
    found: bool,
    g: spec_fn(T) -> U,
)
    requires
        ascending(names_of(before)),
        put_at(before, after, name, value, pos, found),
    ensures
        ascending(names_of(after)),
        by_name(seen_as(after, g)) == by_name(seen_as(before, g)).insert(name@, g(value)),
{
    lemma_order_is_of_names(before, g);
    let a = seen_as(before, g);
    let b = seen_as(after, g);
    if found {
        assert(b =~= a.update(pos, (a[pos].0, g(value))));
        lemma_put_again(a, pos, g(value));
    } else {
        assert(b =~= a.insert(pos, (name@, g(value))));
        assert forall|i: int| 0 <= i < pos implies text_lt((#[trigger] a[i]).0, name@) by {
            assert(a[i].0 == before[i].0@);
        }
        assert forall|i: int| pos <= i < a.len() implies text_lt(name@, (#[trigger] a[i]).0) by {
            assert(a[i].0 == before[i].0@);
        }
        lemma_put_new(a, pos, name@, g(value));
    }
    lemma_order_is_of_names(after, g);
}

/// Puts a value under a name, and says where and whether the name was there.
pub fn put<T>(list: &mut Vec<(String, T)>, name: String, value: T) -> (r: (usize, bool))
    requires
        ascending(names_of(old(list)@)),
    ensures
        put_at(old(list)@, final(list)@, name, value, r.0 as int, r.1),
{
    let (pos, found) = place_of(list, name.as_str());
    if found {
        list.set(pos, (name, value));
    } else {
        list.insert(pos, (name, value));
    }
    (pos, found)
}

/// The value of a name, in a list that is in order.
pub fn get<'a, T>(list: &'a Vec<(String, T)>, name: &str) -> (r: Option<&'a T>)
    requires
        ascending(names_of(list@)),
    ensures
        match r {
            Some(v) => exists|i: int|
                0 <= i < list@.len() && (#[trigger] list@[i]).0@ == name@ && list@[i].1 == *v,
            None => forall|i: int| 0 <= i < list@.len() ==> (#[trigger] list@[i]).0@ != name@,
        },
{
    let (pos, found) = place_of(list, name);
    if found {
        Some(&list[pos].1)
    } else {
        None
    }
}

/// What is found under a name, however the values are seen.
pub proof fn lemma_get<T, U>(list: Seq<(String, T)>, name: Seq<char>, g: spec_fn(T) -> U)
    requires
        ascending(names_of(list)),
    ensures
        forall|i: int|
            0 <= i < list.len() && (#[trigger] list[i]).0@ == name ==> by_name(
                seen_as(list, g),
            ).contains_key(name) && by_name(seen_as(list, g))[name] == g(list[i].1),
        (forall|i: int| 0 <= i < list.len() ==> (#[trigger] list[i]).0@ != name) ==> !by_name(
            seen_as(list, g),
        ).contains_key(name),
{
    let a = seen_as(list, g);
    lemma_order_is_of_names(list, g);
    assert forall|i: int| 0 <= i < list.len() && (#[trigger] list[i]).0@ == name implies by_name(
        a,
    ).contains_key(name) && by_name(a)[name] == g(list[i].1) by {
        lemma_by_name_at(a, i);
    }
    if forall|i: int| 0 <= i < list.len() ==> (#[trigger] list[i]).0@ != name {
        assert forall|i: int| 0 <= i < a.len() implies (#[trigger] a[i]).0 != name by {
            assert(a[i].0 == list[i].0@);
        }
        lemma_not_named(a, name);
    }
}

} // verus!
