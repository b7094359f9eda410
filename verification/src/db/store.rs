//! What a state database holds and what its operations do, and a database in
//! memory.
//!
//! A database holds hashes and sets under keys. A hash without fields and a set
//! without members do not exist.
use vstd::prelude::*;

use crate::text::{contains_text, text_eq, texts, to_chars};

verus! {

/// Why an operation on the state failed.
#[derive(Debug)]
pub enum StoreError {
    /// Something that the operation needs is missing.
    MissingRequired(String),
    /// There is no such record.
    NotFound(String),
    /// A record or an argument makes no sense.
    InvalidData(String),
    /// The database failed.
    Backend(String),
}

/// A state error as mathematical data.
pub enum StoreErrorView {
    MissingRequired(Seq<char>),
    NotFound(Seq<char>),
    InvalidData(Seq<char>),
    Backend(Seq<char>),
}

impl View for StoreError {
    type V = StoreErrorView;

    open spec fn view(&self) -> StoreErrorView {
        match *self {
            StoreError::MissingRequired(s) => StoreErrorView::MissingRequired(s@),
            StoreError::NotFound(s) => StoreErrorView::NotFound(s@),
            StoreError::InvalidData(s) => StoreErrorView::InvalidData(s@),
            StoreError::Backend(s) => StoreErrorView::Backend(s@),
        }
    }
}

/// What a database holds: the value of every field of every hash, and the members
/// of every set.
#[verifier::ext_equal]
pub struct Keyspace {
    pub fields: Map<(Seq<char>, Seq<char>), Seq<char>>,
    pub members: Set<(Seq<char>, Seq<char>)>,
}

impl Keyspace {
    /// A database that holds nothing.
    pub open spec fn empty() -> Keyspace {
        Keyspace { fields: Map::empty(), members: Set::empty() }
    }

    /// The value of a field.
    pub open spec fn hget(self, key: Seq<char>, field: Seq<char>) -> Option<Seq<char>> {
        if self.fields.contains_key((key, field)) {
            Some(self.fields[(key, field)])
        } else {
            None
        }
    }

    /// Whether a set has a member.
    pub open spec fn has(self, key: Seq<char>, member: Seq<char>) -> bool {
        self.members.contains((key, member))
    }

    /// The members of a set.
    pub open spec fn set(self, key: Seq<char>) -> Set<Seq<char>> {
        Set::new(|m: Seq<char>| self.has(key, m))
    }

    /// Whether there is anything under a key.
    pub open spec fn present(self, key: Seq<char>) -> bool {
        (exists|f: Seq<char>| self.fields.contains_key((key, f))) || (exists|m: Seq<char>|
            self.has(key, m))
    }

    /// With a field set.
    pub open spec fn hset(self, key: Seq<char>, field: Seq<char>, value: Seq<char>) -> Keyspace {
        Keyspace { fields: self.fields.insert((key, field), value), ..self }
    }

    /// With a field set, unless it is there already.
    pub open spec fn hset_nx(self, key: Seq<char>, field: Seq<char>, value: Seq<char>) -> Keyspace {
        if self.fields.contains_key((key, field)) {
            self
        } else {
            self.hset(key, field, value)
        }
    }

    /// With a member in a set.
    pub open spec fn sadd(self, key: Seq<char>, member: Seq<char>) -> Keyspace {
        Keyspace { members: self.members.insert((key, member)), ..self }
    }

    /// Without a member of a set.
    pub open spec fn srem(self, key: Seq<char>, member: Seq<char>) -> Keyspace {
        Keyspace { members: self.members.remove((key, member)), ..self }
    }

    /// Without anything under a key.
    pub open spec fn del(self, key: Seq<char>) -> Keyspace {
        Keyspace {
            fields: Map::new(
                |p: (Seq<char>, Seq<char>)| self.fields.contains_key(p) && p.0 != key,
                |p: (Seq<char>, Seq<char>)| self.fields[p],
            ),
            members: Set::new(
                |p: (Seq<char>, Seq<char>)| self.members.contains(p) && p.0 != key,
            ),
        }
    }
}

/// An operation of a pipeline.
#[derive(Debug)]
pub enum DbOp {
    Del(String),
    HSet { hash_key: String, field: String, value: String },
    SRem { set_key: String, member: String },
}

/// The effect of one operation.
pub open spec fn apply_op(ks: Keyspace, op: DbOp) -> Keyspace {
    match op {
        DbOp::Del(key) => ks.del(key@),
        DbOp::HSet { hash_key, field, value } => ks.hset(hash_key@, field@, value@),
        DbOp::SRem { set_key, member } => ks.srem(set_key@, member@),
    }
}

/// The effect of operations, one after the other.
pub open spec fn apply_ops(ks: Keyspace, ops: Seq<DbOp>) -> Keyspace
    decreases ops.len(),
{
    if ops.len() == 0 {
        ks
    } else {
        apply_op(apply_ops(ks, ops.drop_last()), ops.last())
    }
}

/// The key begins and ends so, with anything in between.
pub open spec fn fits(key: Seq<char>, prefix: Seq<char>, suffix: Seq<char>) -> bool {
    prefix.len() + suffix.len() <= key.len() && prefix.is_prefix_of(key) && suffix.is_suffix_of(key)
}

/// A list of distinct texts.
pub open spec fn distinct(list: Seq<Seq<char>>) -> bool {
    forall|i: int, j: int| 0 <= i < j < list.len() ==> (#[trigger] list[i]) != (#[trigger] list[j])
}

/// A connection to a state database.
///
/// An operation may fail, unless the connection is reliable. One that succeeds has
/// the effect that the model gives it.
pub trait DbConnection: Sized {
    /// What the database holds.
    spec fn contents(&self) -> Keyspace;

    /// No operation fails.
    spec fn reliable(&self) -> bool;

    fn key_exists(&self, key: &str) -> (r: Result<bool, StoreError>)
        ensures
            self.reliable() ==> r is Ok,
            r matches Ok(b) ==> b == self.contents().present(key@),
    ;

    fn hget(&self, key: &str, field: &str) -> (r: Result<Option<String>, StoreError>)
        ensures
            self.reliable() ==> r is Ok,
            r matches Ok(v) ==> crate::text::opt_text(v) == self.contents().hget(key@, field@),
    ;

    fn hgetall(&self, key: &str) -> (r: Result<Vec<(String, String)>, StoreError>)
        ensures
            self.reliable() ==> r is Ok,
            r matches Ok(list) ==> lists_fields(list@, self.contents(), key@),
    ;

    fn sismember(&self, key: &str, member: &str) -> (r: Result<bool, StoreError>)
        ensures
            self.reliable() ==> r is Ok,
            r matches Ok(b) ==> b == self.contents().has(key@, member@),
    ;

    fn smembers(&self, key: &str) -> (r: Result<Vec<String>, StoreError>)
        ensures
            self.reliable() ==> r is Ok,
            r matches Ok(list) ==> distinct(texts(list@)) && texts(list@).to_set()
                == self.contents().set(key@),
    ;

    fn scan_match_all(&self, prefix: &str, suffix: &str) -> (r: Result<Vec<String>, StoreError>)
        ensures
            self.reliable() ==> r is Ok,
            r matches Ok(list) ==> distinct(texts(list@)) && forall|k: Seq<char>|
                #[trigger] texts(list@).contains(k) <==> self.contents().present(k) && fits(
                    k,
                    prefix@,
                    suffix@,
                ),
    ;

    fn hset(&mut self, key: &str, field: &str, value: &str) -> (r: Result<(), StoreError>)
        ensures
            final(self).reliable() == old(self).reliable(),
            old(self).reliable() ==> r is Ok,
            r is Ok ==> final(self).contents() == old(self).contents().hset(
                key@,
                field@,
                value@,
            ),
    ;

    /// Sets a field unless it is there; tells whether this call set it.
    fn hset_nx(&mut self, key: &str, field: &str, value: &str) -> (r: Result<bool, StoreError>)
        ensures
            final(self).reliable() == old(self).reliable(),
            old(self).reliable() ==> r is Ok,
            r matches Ok(set) ==> set == old(self).contents().hget(key@, field@) is None,
            r is Ok ==> final(self).contents() == old(self).contents().hset_nx(
                key@,
                field@,
                value@,
            ),
    ;

    fn del(&mut self, key: &str) -> (r: Result<(), StoreError>)
        ensures
            final(self).reliable() == old(self).reliable(),
            old(self).reliable() ==> r is Ok,
            r is Ok ==> final(self).contents() == old(self).contents().del(key@),
    ;

    fn sadd(&mut self, key: &str, member: &str) -> (r: Result<(), StoreError>)
        ensures
            final(self).reliable() == old(self).reliable(),
            old(self).reliable() ==> r is Ok,
            r is Ok ==> final(self).contents() == old(self).contents().sadd(key@, member@),
    ;

    fn srem(&mut self, key: &str, member: &str) -> (r: Result<(), StoreError>)
        ensures
            final(self).reliable() == old(self).reliable(),
            old(self).reliable() ==> r is Ok,
            r is Ok ==> final(self).contents() == old(self).contents().srem(key@, member@),
    ;

    /// Runs all the operations, or none of them.
    fn atomic_pipeline(&mut self, ops: &Vec<DbOp>) -> (r: Result<(), StoreError>)
        ensures
            final(self).reliable() == old(self).reliable(),
            old(self).reliable() ==> r is Ok,
            r is Ok ==> final(self).contents() == apply_ops(old(self).contents(), ops@),
            r is Err ==> final(self).contents() == old(self).contents(),
    ;
}

/// The list holds every field of a hash once, with its value.
pub open spec fn lists_fields(list: Seq<(String, String)>, ks: Keyspace, key: Seq<char>) -> bool {
    &&& forall|i: int, j: int|
        0 <= i < j < list.len() ==> (#[trigger] list[i]).0@ != (#[trigger] list[j]).0@
    &&& forall|i: int|
        0 <= i < list.len() ==> ks.hget(key, (#[trigger] list[i]).0@) == Some(list[i].1@)
    &&& forall|f: Seq<char>|
        #[trigger] ks.fields.contains_key((key, f)) ==> exists|i: int|
            0 <= i < list.len() && (#[trigger] list[i]).0@ == f
}

/// A database in memory.
#[derive(Debug)]
pub struct MemoryDb {
    fields: Vec<(String, String, String)>,
    members: Vec<(String, String)>,
}

spec fn field_map(v: Seq<(String, String, String)>) -> Map<(Seq<char>, Seq<char>), Seq<char>>
    decreases v.len(),
{
    if v.len() == 0 {
        Map::empty()
    } else {
        field_map(v.drop_last()).insert((v.last().0@, v.last().1@), v.last().2@)
    }
}

spec fn member_set(v: Seq<(String, String)>) -> Set<(Seq<char>, Seq<char>)>
    decreases v.len(),
{
    if v.len() == 0 {
        Set::empty()
    } else {
        member_set(v.drop_last()).insert((v.last().0@, v.last().1@))
    }
}

proof fn lemma_field_of(v: Seq<(String, String, String)>, p: (Seq<char>, Seq<char>))
    ensures
        field_map(v).contains_key(p) <==> exists|i: int|
            0 <= i < v.len() && ((#[trigger] v[i]).0@, v[i].1@) == p,
    decreases v.len(),
{
    if v.len() > 0 {
        let init = v.drop_last();
        lemma_field_of(init, p);
        if exists|i: int| 0 <= i < init.len() && ((#[trigger] init[i]).0@, init[i].1@) == p {
            let i = choose|i: int|
                0 <= i < init.len() && ((#[trigger] init[i]).0@, init[i].1@) == p;
            assert(v[i] == init[i]);
        }
        if exists|i: int| 0 <= i < v.len() && ((#[trigger] v[i]).0@, v[i].1@) == p {
            let i = choose|i: int| 0 <= i < v.len() && ((#[trigger] v[i]).0@, v[i].1@) == p;
            if i < init.len() {
                assert(init[i] == v[i]);
            }
        }
        assert(v[v.len() - 1] == v.last());
    }
}

proof fn lemma_member_of(v: Seq<(String, String)>, p: (Seq<char>, Seq<char>))
    ensures
        member_set(v).contains(p) <==> exists|i: int|
            0 <= i < v.len() && ((#[trigger] v[i]).0@, v[i].1@) == p,
    decreases v.len(),
{
    if v.len() > 0 {
        let init = v.drop_last();
        lemma_member_of(init, p);
        if exists|i: int| 0 <= i < init.len() && ((#[trigger] init[i]).0@, init[i].1@) == p {
            let i = choose|i: int|
                0 <= i < init.len() && ((#[trigger] init[i]).0@, init[i].1@) == p;
            assert(v[i] == init[i]);
        }
        if exists|i: int| 0 <= i < v.len() && ((#[trigger] v[i]).0@, v[i].1@) == p {
            let i = choose|i: int| 0 <= i < v.len() && ((#[trigger] v[i]).0@, v[i].1@) == p;
            if i < init.len() {
                assert(init[i] == v[i]);
            }
        }
        assert(v[v.len() - 1] == v.last());
    }
}

fn has_prefix(s: &Vec<char>, p: &Vec<char>) -> (r: bool)
    requires
        p@.len() <= s@.len(),
    ensures
        r == p@.is_prefix_of(s@),
{
    let mut i: usize = 0;
    while i < p.len()
        invariant
            p@.len() <= s@.len(),
            i <= p@.len(),
            forall|j: int| 0 <= j < i ==> p@[j] == s@[j],
        decreases p@.len() - i,
    {
        if p[i] != s[i] {
            assert(s@.subrange(0, p@.len() as int)[i as int] != p@[i as int]);
            return false;
        }
        i = i + 1;
    }
    assert(p@ =~= s@.subrange(0, p@.len() as int));
    true
}

fn has_suffix(s: &Vec<char>, p: &Vec<char>) -> (r: bool)
    requires
        p@.len() <= s@.len(),
    ensures
        r == p@.is_suffix_of(s@),
{
    let off: usize = s.len() - p.len();
    let mut i: usize = 0;
    while i < p.len()
        invariant
            p@.len() <= s@.len(),
            off == s@.len() - p@.len(),
            i <= p@.len(),
            forall|j: int| 0 <= j < i ==> p@[j] == s@[off + j],
        decreases p@.len() - i,
    {
        if p[i] != s[s.len() - (p.len() - i)] {
            assert(s@.subrange(off as int, s@.len() as int)[i as int] != p@[i as int]);
            return false;
        }
        i = i + 1;
    }
    assert(p@ =~= s@.subrange(off as int, s@.len() as int));
    true
}

/// Whether a key begins and ends so.
pub fn key_fits(key: &str, prefix: &str, suffix: &str) -> (r: bool)
    ensures
        r == fits(key@, prefix@, suffix@),
{
    let k = to_chars(key);
    let p = to_chars(prefix);
    let s = to_chars(suffix);
    if p.len() > k.len() || s.len() > k.len() - p.len() {
        return false;
    }
    has_prefix(&k, &p) && has_suffix(&k, &s)
}

impl MemoryDb {
    /// A database that holds nothing.
    pub fn new() -> (r: MemoryDb)
        ensures
            r.contents() == Keyspace::empty(),
            r.reliable(),
    {
        let r = MemoryDb { fields: Vec::new(), members: Vec::new() };
        assert(r.contents() =~= Keyspace::empty());
        r
    }

    /// Removes one field.
    fn drop_field(&mut self, key: &str, field: &str)
        ensures
            field_map(final(self).fields@) == field_map(old(self).fields@).remove((key@, field@)),
            final(self).members@ == old(self).members@,
    {
        let ghost all = self.fields@;
        let mut kept: Vec<(String, String, String)> = Vec::new();
        let mut i: usize = 0;
        assert(field_map(kept@) =~= field_map(all.take(0)).remove((key@, field@)));
        while i < self.fields.len()
            invariant
                *self == *old(self),
                all == self.fields@,
                i <= all.len(),
                field_map(kept@) == field_map(all.take(i as int)).remove((key@, field@)),
            decreases all.len() - i,
        {
            let e = &self.fields[i];
            proof {
                assert(all.take(i + 1).drop_last() =~= all.take(i as int));
                assert(all.take(i + 1).last() == all[i as int]);
            }
            if !(text_eq(e.0.as_str(), key) && text_eq(e.1.as_str(), field)) {
                let ghost before = kept@;
                kept.push((e.0.clone(), e.1.clone(), e.2.clone()));
                assert(kept@.drop_last() =~= before);
            }
            assert(field_map(kept@) =~= field_map(all.take(i + 1)).remove((key@, field@)));
            i = i + 1;
        }
        assert(all.take(i as int) =~= all);
        self.fields = kept;
    }

    /// Removes what a set holds, or one member of it.
    fn drop_members(&mut self, key: &str, member: Option<&str>)
        ensures
            member_set(final(self).members@) == Set::new(
                |p: (Seq<char>, Seq<char>)|
                    member_set(old(self).members@).contains(p) && !(p.0 == key@ && (
                    member matches Some(m) ==> p.1 == m@)),
            ),
            final(self).fields@ == old(self).fields@,
    {
        let ghost all = self.members@;
        let ghost gone = |p: (Seq<char>, Seq<char>)|
            p.0 == key@ && (member matches Some(m) ==> p.1 == m@);
        let mut kept: Vec<(String, String)> = Vec::new();
        let mut i: usize = 0;
        assert(member_set(kept@) =~= Set::new(
            |p: (Seq<char>, Seq<char>)| member_set(all.take(0)).contains(p) && !gone(p),
        ));
        while i < self.members.len()
            invariant
                *self == *old(self),
                all == self.members@,
                i <= all.len(),
                gone == (|p: (Seq<char>, Seq<char>)|
                    p.0 == key@ && (member matches Some(m) ==> p.1 == m@)),
                member_set(kept@) == Set::new(
                    |p: (Seq<char>, Seq<char>)|
                        member_set(all.take(i as int)).contains(p) && !gone(p),
                ),
            decreases all.len() - i,
        {
            let e = &self.members[i];
            proof {
                assert(all.take(i + 1).drop_last() =~= all.take(i as int));
                assert(all.take(i + 1).last() == all[i as int]);
            }
            let out = text_eq(e.0.as_str(), key) && (match member {
                Some(m) => text_eq(e.1.as_str(), m),
                None => true,
            });
            assert(out == gone((e.0@, e.1@)));
            if !out {
                let ghost before = kept@;
                kept.push((e.0.clone(), e.1.clone()));
                assert(kept@.drop_last() =~= before);
            }
            assert(member_set(kept@) =~= Set::new(
                |p: (Seq<char>, Seq<char>)| member_set(all.take(i + 1)).contains(p) && !gone(p),
            ));
            i = i + 1;
        }
        assert(all.take(i as int) =~= all);
        self.members = kept;
        assert(member_set(self.members@) =~= Set::new(
            |p: (Seq<char>, Seq<char>)|
                member_set(old(self).members@).contains(p) && !(p.0 == key@ && (
                member matches Some(m) ==> p.1 == m@)),
        ));
    }

    /// Removes the fields of a hash.
    fn drop_hash(&mut self, key: &str)
        ensures
            field_map(final(self).fields@) == Map::new(
                |p: (Seq<char>, Seq<char>)|
                    field_map(old(self).fields@).contains_key(p) && p.0 != key@,
                |p: (Seq<char>, Seq<char>)| field_map(old(self).fields@)[p],
            ),
            final(self).members@ == old(self).members@,
    {
        let ghost all = self.fields@;
        let mut kept: Vec<(String, String, String)> = Vec::new();
        let mut i: usize = 0;
        assert(field_map(kept@) =~= Map::new(
            |p: (Seq<char>, Seq<char>)| field_map(all.take(0)).contains_key(p) && p.0 != key@,
            |p: (Seq<char>, Seq<char>)| field_map(all.take(0))[p],
        ));
        while i < self.fields.len()
            invariant
                *self == *old(self),
                all == self.fields@,
                i <= all.len(),
                field_map(kept@) == Map::new(
                    |p: (Seq<char>, Seq<char>)|
                        field_map(all.take(i as int)).contains_key(p) && p.0 != key@,
                    |p: (Seq<char>, Seq<char>)| field_map(all.take(i as int))[p],
                ),
            decreases all.len() - i,
        {
            let e = &self.fields[i];
            proof {
                assert(all.take(i + 1).drop_last() =~= all.take(i as int));
                assert(all.take(i + 1).last() == all[i as int]);
            }
            if !text_eq(e.0.as_str(), key) {
                let ghost before = kept@;
                kept.push((e.0.clone(), e.1.clone(), e.2.clone()));
                assert(kept@.drop_last() =~= before);
            }
            assert(field_map(kept@) =~= Map::new(
                |p: (Seq<char>, Seq<char>)|
                    field_map(all.take(i + 1)).contains_key(p) && p.0 != key@,
                |p: (Seq<char>, Seq<char>)| field_map(all.take(i + 1))[p],
            ));
            i = i + 1;
        }
        assert(all.take(i as int) =~= all);
        self.fields = kept;
    }
}

impl DbConnection for MemoryDb {
    closed spec fn contents(&self) -> Keyspace {
        Keyspace { fields: field_map(self.fields@), members: member_set(self.members@) }
    }

    open spec fn reliable(&self) -> bool {
        true
    }

    fn key_exists(&self, key: &str) -> (r: Result<bool, StoreError>) {
        let ghost ks = self.contents();
        let mut i: usize = 0;
        while i < self.fields.len()
            invariant
                ks == self.contents(),
                i <= self.fields@.len(),
                forall|j: int| 0 <= j < i ==> (#[trigger] self.fields@[j]).0@ != key@,
            decreases self.fields@.len() - i,
        {
            if text_eq(self.fields[i].0.as_str(), key) {
                proof {
                    let e = self.fields@[i as int];
                    lemma_field_of(self.fields@, (key@, e.1@));
                    assert(ks.fields.contains_key((key@, e.1@)));
                }
                return Ok(true);
            }
            i = i + 1;
        }
        let mut k: usize = 0;
        while k < self.members.len()
            invariant
                ks == self.contents(),
                k <= self.members@.len(),
                forall|j: int| 0 <= j < k ==> (#[trigger] self.members@[j]).0@ != key@,
            decreases self.members@.len() - k,
        {
            if text_eq(self.members[k].0.as_str(), key) {
                proof {
                    let e = self.members@[k as int];
                    lemma_member_of(self.members@, (key@, e.1@));
                    assert(ks.has(key@, e.1@));
                }
                return Ok(true);
            }
            k = k + 1;
        }
        proof {
            assert forall|f: Seq<char>| !ks.fields.contains_key((key@, f)) by {
                lemma_field_of(self.fields@, (key@, f));
            }
            assert forall|m: Seq<char>| !ks.has(key@, m) by {
                lemma_member_of(self.members@, (key@, m));
            }
        }
        Ok(false)
    }

    fn hget(&self, key: &str, field: &str) -> (r: Result<Option<String>, StoreError>) {
        let ghost all = self.fields@;
        let mut i: usize = self.fields.len();
        assert(all.take(i as int) =~= all);
        while i > 0
            invariant
                all == self.fields@,
                i <= all.len(),
                field_map(all).contains_key((key@, field@)) == field_map(
                    all.take(i as int),
                ).contains_key((key@, field@)),
                field_map(all).contains_key((key@, field@)) ==> field_map(all)[(key@, field@)]
                    == field_map(all.take(i as int))[(key@, field@)],
            decreases i,
        {
            proof {
                assert(all.take(i as int).drop_last() =~= all.take(i - 1));
                assert(all.take(i as int).last() == all[i - 1]);
            }
            i = i - 1;
            if text_eq(self.fields[i].0.as_str(), key) && text_eq(self.fields[i].1.as_str(), field) {
                return Ok(Some(self.fields[i].2.clone()));
            }
        }
        Ok(None)
    }

    fn hgetall(&self, key: &str) -> (r: Result<Vec<(String, String)>, StoreError>) {
        let ghost ks = self.contents();
        let mut out: Vec<(String, String)> = Vec::new();
        let mut i: usize = 0;
        while i < self.fields.len()
            invariant
                ks == self.contents(),
                self.reliable(),
                i <= self.fields@.len(),
                forall|a: int, b: int|
                    0 <= a < b < out@.len() ==> (#[trigger] out@[a]).0@ != (#[trigger] out@[b]).0@,
                forall|a: int|
                    0 <= a < out@.len() ==> ks.hget(key@, (#[trigger] out@[a]).0@) == Some(
                        out@[a].1@,
                    ),
                forall|j: int|
                    0 <= j < i && (#[trigger] self.fields@[j]).0@ == key@ ==> exists|a: int|
                        0 <= a < out@.len() && (#[trigger] out@[a]).0@ == self.fields@[j].1@,
            decreases self.fields@.len() - i,
        {
            let e = &self.fields[i];
            if text_eq(e.0.as_str(), key) {
                let mut seen = false;
                let mut a: usize = 0;
                while a < out.len()
                    invariant
                        a <= out@.len(),
                        seen == exists|b: int| 0 <= b < a && (#[trigger] out@[b]).0@ == e.1@,
                    decreases out@.len() - a,
                {
                    if text_eq(out[a].0.as_str(), e.1.as_str()) {
                        seen = true;
                    }
                    a = a + 1;
                }
                if !seen {
                    if let Ok(Some(value)) = self.hget(key, e.1.as_str()) {
                        let ghost before = out@;
                        out.push((e.1.clone(), value));
                        proof {
                            assert(out@[before.len() as int].0@ == e.1@);
                            assert forall|j: int|
                                0 <= j < i && (#[trigger] self.fields@[j]).0@ == key@ implies exists|
                                a: int,
                            |
                                0 <= a < out@.len() && (#[trigger] out@[a]).0@
                                    == self.fields@[j].1@ by {
                                let b = choose|b: int|
                                    0 <= b < before.len() && (#[trigger] before[b]).0@
                                        == self.fields@[j].1@;
                                assert(out@[b] == before[b]);
                            }
                        }
                    } else {
                        proof {
                            lemma_field_of(self.fields@, (key@, e.1@));
                            assert(false);
                        }
                    }
                }
            }
            i = i + 1;
        }
        proof {
            assert forall|f: Seq<char>| #[trigger] ks.fields.contains_key((key@, f)) implies exists|
                a: int,
            |
                0 <= a < out@.len() && (#[trigger] out@[a]).0@ == f by {
                lemma_field_of(self.fields@, (key@, f));
                let j = choose|j: int|
                    0 <= j < self.fields@.len() && ((#[trigger] self.fields@[j]).0@,
                        self.fields@[j].1@) == (key@, f);
                assert(self.fields@[j].0@ == key@);
            }
        }
        Ok(out)
    }

    fn sismember(&self, key: &str, member: &str) -> (r: Result<bool, StoreError>) {
        let mut i: usize = 0;
        proof {
            lemma_member_of(self.members@, (key@, member@));
        }
        while i < self.members.len()
            invariant
                i <= self.members@.len(),
                forall|j: int|
                    0 <= j < i ==> ((#[trigger] self.members@[j]).0@, self.members@[j].1@) != (
                    key@, member@),
                member_set(self.members@).contains((key@, member@)) <==> exists|j: int|
                    0 <= j < self.members@.len() && ((#[trigger] self.members@[j]).0@,
                        self.members@[j].1@) == (key@, member@),
            decreases self.members@.len() - i,
        {
            if text_eq(self.members[i].0.as_str(), key) && text_eq(
                self.members[i].1.as_str(),
                member,
            ) {
                assert((self.members@[i as int].0@, self.members@[i as int].1@) == (key@, member@));
                return Ok(true);
            }
            i = i + 1;
        }
        Ok(false)
    }

    fn smembers(&self, key: &str) -> (r: Result<Vec<String>, StoreError>) {
        let ghost ks = self.contents();
        let mut out: Vec<String> = Vec::new();
        let mut i: usize = 0;
        while i < self.members.len()
            invariant
                ks == self.contents(),
                i <= self.members@.len(),
                distinct(texts(out@)),
                forall|m: Seq<char>| #[trigger]
                    texts(out@).contains(m) <==> exists|j: int|
                        0 <= j < i && ((#[trigger] self.members@[j]).0@, self.members@[j].1@) == (
                        key@, m),
            decreases self.members@.len() - i,
        {
            let e = &self.members[i];
            let ghost before = out@;
            if text_eq(e.0.as_str(), key) && !contains_text(&out, e.1.as_str()) {
                out.push(e.1.clone());
                proof {
                    lemma_push_distinct(texts(before), e.1@);
                    assert(texts(out@) =~= texts(before).push(e.1@));
                }
            }
            proof {
                assert forall|m: Seq<char>| #[trigger]
                    texts(out@).contains(m) <==> exists|j: int|
                        0 <= j < i + 1 && ((#[trigger] self.members@[j]).0@, self.members@[j].1@)
                            == (key@, m) by {
                    lemma_contains_step(texts(before), texts(out@), e.1@, m);
                    if texts(before).contains(m) {
                        let j = choose|j: int|
                            0 <= j < i && ((#[trigger] self.members@[j]).0@, self.members@[j].1@)
                                == (key@, m);
                    }
                    if m == e.1@ && e.0@ == key@ {
                        assert((self.members@[i as int].0@, self.members@[i as int].1@) == (key@, m));
                    }
                }
            }
            i = i + 1;
        }
        proof {
            assert forall|m: Seq<char>| texts(out@).to_set().contains(m) == #[trigger] ks.set(
                key@,
            ).contains(m) by {
                lemma_member_of(self.members@, (key@, m));
                assert(texts(out@).contains(m) == ks.has(key@, m));
            }
            assert(texts(out@).to_set() =~= ks.set(key@));
        }
        Ok(out)
    }

    fn scan_match_all(&self, prefix: &str, suffix: &str) -> (r: Result<Vec<String>, StoreError>) {
        let ghost ks = self.contents();
        let mut out: Vec<String> = Vec::new();
        let mut i: usize = 0;
        while i < self.fields.len()
            invariant
                ks == self.contents(),
                i <= self.fields@.len(),
                distinct(texts(out@)),
                forall|k: Seq<char>| #[trigger]
                    texts(out@).contains(k) <==> fits(k, prefix@, suffix@) && exists|j: int|
                        0 <= j < i && (#[trigger] self.fields@[j]).0@ == k,
            decreases self.fields@.len() - i,
        {
            let e = &self.fields[i];
            let ghost before = out@;
            if key_fits(e.0.as_str(), prefix, suffix) && !contains_text(&out, e.0.as_str()) {
                out.push(e.0.clone());
                proof {
                    lemma_push_distinct(texts(before), e.0@);
                    assert(texts(out@) =~= texts(before).push(e.0@));
                }
            }
            proof {
                assert forall|k: Seq<char>| #[trigger]
                    texts(out@).contains(k) <==> fits(k, prefix@, suffix@) && exists|j: int|
                        0 <= j < i + 1 && (#[trigger] self.fields@[j]).0@ == k by {
                    lemma_contains_step(texts(before), texts(out@), e.0@, k);
                    assert(self.fields@[i as int].0@ == e.0@);
                }
            }
            i = i + 1;
        }
        let mut n: usize = 0;
        while n < self.members.len()
            invariant
                ks == self.contents(),
                n <= self.members@.len(),
                distinct(texts(out@)),
                forall|k: Seq<char>| #[trigger]
                    texts(out@).contains(k) <==> fits(k, prefix@, suffix@) && ((exists|j: int|
                        0 <= j < self.fields@.len() && (#[trigger] self.fields@[j]).0@ == k) || (
                    exists|j: int| 0 <= j < n && (#[trigger] self.members@[j]).0@ == k)),
            decreases self.members@.len() - n,
        {
            let e = &self.members[n];
            let ghost before = out@;
            if key_fits(e.0.as_str(), prefix, suffix) && !contains_text(&out, e.0.as_str()) {
                out.push(e.0.clone());
                proof {
                    lemma_push_distinct(texts(before), e.0@);
                    assert(texts(out@) =~= texts(before).push(e.0@));
                }
            }
            proof {
                assert forall|k: Seq<char>| #[trigger]
                    texts(out@).contains(k) <==> fits(k, prefix@, suffix@) && ((exists|j: int|
                        0 <= j < self.fields@.len() && (#[trigger] self.fields@[j]).0@ == k) || (
                    exists|j: int| 0 <= j < n + 1 && (#[trigger] self.members@[j]).0@ == k)) by {
                    lemma_contains_step(texts(before), texts(out@), e.0@, k);
                    assert(self.members@[n as int].0@ == e.0@);
                }
            }
            n = n + 1;
        }
        proof {
            assert forall|k: Seq<char>| #[trigger]
                texts(out@).contains(k) <==> ks.present(k) && fits(k, prefix@, suffix@) by {
                self.lemma_present(k);
            }
        }
        Ok(out)
    }

    fn hset(&mut self, key: &str, field: &str, value: &str) -> (r: Result<(), StoreError>) {
        self.drop_field(key, field);
        let ghost before = self.fields@;
        self.fields.push((key.to_owned(), field.to_owned(), value.to_owned()));
        proof {
            assert(self.fields@.drop_last() =~= before);
            assert(field_map(self.fields@) =~= field_map(old(self).fields@).insert(
                (key@, field@),
                value@,
            ));
        }
        Ok(())
    }

    fn hset_nx(&mut self, key: &str, field: &str, value: &str) -> (r: Result<bool, StoreError>) {
        match self.hget(key, field) {
            Ok(Some(_)) => Ok(false),
            Ok(None) => {
                match self.hset(key, field, value) {
                    Ok(_) => Ok(true),
                    Err(e) => Err(e),
                }
            },
            Err(e) => Err(e),
        }
    }

    fn del(&mut self, key: &str) -> (r: Result<(), StoreError>) {
        self.drop_hash(key);
        self.drop_members(key, None);
        proof {
            assert(self.contents() =~= old(self).contents().del(key@));
        }
        Ok(())
    }

    fn sadd(&mut self, key: &str, member: &str) -> (r: Result<(), StoreError>) {
        let known = match self.sismember(key, member) {
            Ok(b) => b,
            Err(e) => {
                return Err(e);
            },
        };
        let ghost before = self.members@;
        if !known {
            self.members.push((key.to_owned(), member.to_owned()));
            assert(self.members@.drop_last() =~= before);
        }
        assert(self.contents() =~= old(self).contents().sadd(key@, member@));
        Ok(())
    }

    fn srem(&mut self, key: &str, member: &str) -> (r: Result<(), StoreError>) {
        self.drop_members(key, Some(member));
        assert(self.contents() =~= old(self).contents().srem(key@, member@));
        Ok(())
    }

    fn atomic_pipeline(&mut self, ops: &Vec<DbOp>) -> (r: Result<(), StoreError>) {
        let ghost start = self.contents();
        let mut i: usize = 0;
        while i < ops.len()
            invariant
                i <= ops@.len(),
                self.contents() == apply_ops(start, ops@.take(i as int)),
            decreases ops@.len() - i,
        {
            proof {
                assert(ops@.take(i + 1).drop_last() =~= ops@.take(i as int));
                assert(ops@.take(i + 1).last() == ops@[i as int]);
            }
            let done = match &ops[i] {
                DbOp::Del(key) => self.del(key.as_str()),
                DbOp::HSet { hash_key, field, value } => self.hset(
                    hash_key.as_str(),
                    field.as_str(),
                    value.as_str(),
                ),
                DbOp::SRem { set_key, member } => self.srem(set_key.as_str(), member.as_str()),
            };
            assert(done is Ok);
            i = i + 1;
        }
        assert(ops@.take(i as int) =~= ops@);
        Ok(())
    }
}

impl MemoryDb {
    proof fn lemma_present(&self, k: Seq<char>)
        ensures
            self.contents().present(k) <==> (exists|j: int|
                0 <= j < self.fields@.len() && (#[trigger] self.fields@[j]).0@ == k) || (exists|
                j: int,
            | 0 <= j < self.members@.len() && (#[trigger] self.members@[j]).0@ == k),
    {
        let ks = self.contents();
        if exists|f: Seq<char>| ks.fields.contains_key((k, f)) {
            let f = choose|f: Seq<char>| ks.fields.contains_key((k, f));
            lemma_field_of(self.fields@, (k, f));
            let j = choose|j: int|
                0 <= j < self.fields@.len() && ((#[trigger] self.fields@[j]).0@, self.fields@[j].1@)
                    == (k, f);
            assert(self.fields@[j].0@ == k);
        }
        if exists|m: Seq<char>| ks.has(k, m) {
            let m = choose|m: Seq<char>| ks.has(k, m);
            lemma_member_of(self.members@, (k, m));
            let j = choose|j: int|
                0 <= j < self.members@.len() && ((#[trigger] self.members@[j]).0@,
                    self.members@[j].1@) == (k, m);
            assert(self.members@[j].0@ == k);
        }
        if exists|j: int| 0 <= j < self.fields@.len() && (#[trigger] self.fields@[j]).0@ == k {
            let j = choose|j: int|
                0 <= j < self.fields@.len() && (#[trigger] self.fields@[j]).0@ == k;
            lemma_field_of(self.fields@, (k, self.fields@[j].1@));
            assert(ks.fields.contains_key((k, self.fields@[j].1@)));
        }
        if exists|j: int| 0 <= j < self.members@.len() && (#[trigger] self.members@[j]).0@ == k {
            let j = choose|j: int|
                0 <= j < self.members@.len() && (#[trigger] self.members@[j]).0@ == k;
            lemma_member_of(self.members@, (k, self.members@[j].1@));
            assert(ks.has(k, self.members@[j].1@));
        }
    }
}

proof fn lemma_push_distinct(list: Seq<Seq<char>>, x: Seq<char>)
    requires
        distinct(list),
        !list.contains(x),
    ensures
        distinct(list.push(x)),
{
    let more = list.push(x);
    assert forall|i: int, j: int| 0 <= i < j < more.len() implies (#[trigger] more[i]) != (
    #[trigger] more[j]) by {
        assert(more[i] == list[i]);
        if j < list.len() {
            assert(more[j] == list[j]);
        }
    }
}

proof fn lemma_contains_step(
    before: Seq<Seq<char>>,
    after: Seq<Seq<char>>,
    x: Seq<char>,
    y: Seq<char>,
)
    requires
        after == before || after == before.push(x),
    ensures
        after == before.push(x) ==> (after.contains(y) <==> before.contains(y) || y == x),
{
    if after == before.push(x) {
        if before.contains(y) {
            let i = choose|i: int| 0 <= i < before.len() && before[i] == y;
            assert(after[i] == y);
        }
        if y == x {
            assert(after[before.len() as int] == y);
        }
        if after.contains(y) {
            let i = choose|i: int| 0 <= i < after.len() && after[i] == y;
            if i < before.len() {
                assert(before[i] == y);
            }
        }
    }
}

} // verus!
