//! The keys that admit callers to the administration interface: what each level
//! may do, the file they are kept in, and the lookup of a presented key.
//!
//! The keys file is a TOML document with one table per key, called `keys.<id>`.
use vstd::prelude::*;

use crate::apikey::{hex_text, id_text, sha256_digest, ApiKey};
use crate::error::{ServiceError, ServiceErrorView};
use crate::json::{
    distinct_names, find_member, json_of_value, lemma_member_at, member, members_view,
    value_contents, well_named, Json, JsonView,
};
use crate::policy::clone_opt;
use crate::text::{cat, cat3, opt_text, text_eq};

verus! {

/// Whether a key may be used.
#[derive(Debug, Clone, Copy, PartialEq, Eq, Structural)]
pub enum KeyStatus {
    Active,
    Revoked,
}

/// What a key may be used for.
#[derive(Debug, Clone, Copy, PartialEq, Eq, Structural)]
pub enum Permission {
    Resolve,
    Read,
    ReadWrite,
    /// Change notifications only, for the one service the key is bound to.
    Notify,
}

/// What the keys file says of one key.
#[derive(Debug)]
pub struct ApiKeyRecord {
    pub owner: String,
    pub permission: Permission,
    pub status: KeyStatus,
    pub created: String,
    pub secret_hash: String,
    pub description: String,
    /// The trusted service that a notify key is bound to.
    pub service: Option<String>,
}

/// The record of a key as mathematical data.
pub struct RecordView {
    pub owner: Seq<char>,
    pub permission: Permission,
    pub status: KeyStatus,
    pub created: Seq<char>,
    pub secret_hash: Seq<char>,
    pub description: Seq<char>,
    pub service: Option<Seq<char>>,
}

impl View for ApiKeyRecord {
    type V = RecordView;

    open spec fn view(&self) -> RecordView {
        RecordView {
            owner: self.owner@,
            permission: self.permission,
            status: self.status,
            created: self.created@,
            secret_hash: self.secret_hash@,
            description: self.description@,
            service: opt_text(self.service),
        }
    }
}

impl Permission {
    /// Whether services may be listed and resolved: with any level but notify.
    pub fn can_resolve(&self) -> (r: bool)
        ensures
            r == self.resolves(),
    {
        !matches!(self, Permission::Notify)
    }

    pub open spec fn resolves(self) -> bool {
        self != Permission::Notify
    }

    /// Whether everything else may be read.
    pub fn can_read(&self) -> (r: bool)
        ensures
            r == self.reads(),
    {
        matches!(self, Permission::Read | Permission::ReadWrite)
    }

    pub open spec fn reads(self) -> bool {
        self == Permission::Read || self == Permission::ReadWrite
    }

    /// Whether anything may be changed.
    pub fn can_write(&self) -> (r: bool)
        ensures
            r == self.writes(),
    {
        matches!(self, Permission::ReadWrite)
    }

    pub open spec fn writes(self) -> bool {
        self == Permission::ReadWrite
    }

    /// Whether changes of a service may be announced. A notify key may do so for
    /// the service that it is bound to, and for no other.
    pub fn can_notify(&self) -> (r: bool)
        ensures
            r == self.notifies(),
    {
        matches!(self, Permission::Notify | Permission::ReadWrite)
    }

    pub open spec fn notifies(self) -> bool {
        self == Permission::Notify || self == Permission::ReadWrite
    }
}

/// The levels are graded: who may write may do everything, who may read may
/// resolve. A notify key may do nothing but notify.
pub proof fn law_levels_are_graded(p: Permission)
    ensures
        p.writes() ==> p.reads() && p.notifies(),
        p.reads() ==> p.resolves(),
        !p.resolves() ==> !p.reads() && !p.writes() && p.notifies(),
        p.resolves() || p.notifies(),
{
}

/// The keys of a file as mathematical data.
pub open spec fn entries_view(keys: Seq<(String, ApiKeyRecord)>) -> Seq<(Seq<char>, RecordView)> {
    keys.map_values(|e: (String, ApiKeyRecord)| (e.0@, e.1@))
}

/// No id occurs twice.
pub open spec fn distinct_ids(keys: Seq<(Seq<char>, RecordView)>) -> bool {
    forall|i: int, j: int|
        0 <= i < j < keys.len() ==> (#[trigger] keys[i]).0 != (#[trigger] keys[j]).0
}

/// The record of an id stands at this place.
pub open spec fn stands_at(keys: Seq<(Seq<char>, RecordView)>, id: Seq<char>, i: int) -> bool {
    0 <= i < keys.len() && keys[i].0 == id
}

/// The records by their ids.
pub open spec fn key_map(keys: Seq<(Seq<char>, RecordView)>) -> Map<Seq<char>, RecordView> {
    Map::new(
        |id: Seq<char>| exists|i: int| stands_at(keys, id, i),
        |id: Seq<char>| keys[choose|i: int| stands_at(keys, id, i)].1,
    )
}

/// How many keys are active.
pub open spec fn active_count(keys: Seq<(Seq<char>, RecordView)>) -> nat
    decreases keys.len(),
{
    if keys.len() == 0 {
        0
    } else {
        active_count(keys.drop_last()) + if keys.last().1.status == KeyStatus::Active {
            1nat
        } else {
            0nat
        }
    }
}

/// A notify key says which service it is bound to.
pub open spec fn bound(r: RecordView) -> bool {
    r.permission == Permission::Notify ==> r.service is Some
}

/// The ids of the active keys.
pub open spec fn active_ids(keys: Map<Seq<char>, RecordView>) -> Set<Seq<char>> {
    Set::new(|id: Seq<char>| keys.contains_key(id) && keys[id].status == KeyStatus::Active)
}

/// Every notify key says which service it is bound to.
pub open spec fn all_bound(keys: Map<Seq<char>, RecordView>) -> bool {
    forall|id: Seq<char>| #[trigger] keys.contains_key(id) ==> bound(keys[id])
}

/// What is said of a notify key without a service.
pub open spec fn unbound_text(id: Seq<char>) -> Seq<char> {
    "key "@ + id + ": a notify key requires a service binding (`service = \"<id>\"`)"@
}

/// The error says of some notify key that it has no service.
pub open spec fn names_unbound(keys: Map<Seq<char>, RecordView>, e: ServiceErrorView) -> bool {
    exists|id: Seq<char>| #[trigger]
        keys.contains_key(id) && !bound(keys[id]) && e == ServiceErrorView::AdminKey(
            unbound_text(id),
        )
}

/// The keys of a file.
#[derive(Debug)]
pub struct KeysFile {
    /// The records, each after its id. No id occurs twice.
    pub keys: Vec<(String, ApiKeyRecord)>,
}

impl View for KeysFile {
    type V = Map<Seq<char>, RecordView>;

    open spec fn view(&self) -> Map<Seq<char>, RecordView> {
        key_map(entries_view(self.keys@))
    }
}

proof fn lemma_key_at(keys: Seq<(Seq<char>, RecordView)>, i: int)
    requires
        distinct_ids(keys),
        0 <= i < keys.len(),
    ensures
        key_map(keys).contains_key(keys[i].0),
        key_map(keys)[keys[i].0] == keys[i].1,
{
    let id = keys[i].0;
    assert(stands_at(keys, id, i));
    let j = choose|j: int| stands_at(keys, id, j);
    assert(stands_at(keys, id, j));
    assert(i == j);
}

proof fn lemma_put(
    before: Seq<(Seq<char>, RecordView)>,
    after: Seq<(Seq<char>, RecordView)>,
    pos: int,
    id: Seq<char>,
    record: RecordView,
)
    requires
        distinct_ids(before),
        0 <= pos <= before.len(),
        pos < before.len() ==> before[pos].0 == id && after == before.update(pos, (id, record)),
        pos == before.len() ==> after == before.push((id, record)) && forall|i: int|
            0 <= i < before.len() ==> (#[trigger] before[i]).0 != id,
    ensures
        distinct_ids(after),
        key_map(after) == key_map(before).insert(id, record),
{
    assert forall|i: int, j: int| 0 <= i < j < after.len() implies (#[trigger] after[i]).0 != (
    #[trigger] after[j]).0 by {
        if i != pos {
            assert(after[i] == before[i]);
        }
        if j != pos {
            assert(after[j] == before[j]);
        }
    }
    let m = key_map(after);
    let want = key_map(before).insert(id, record);
    assert forall|k: Seq<char>| #[trigger] m.contains_key(k) == want.contains_key(k) by {
        if m.contains_key(k) {
            let i = choose|i: int| stands_at(after, k, i);
            if i != pos {
                assert(stands_at(before, k, i));
            }
        }
        if want.contains_key(k) {
            if k == id {
                assert(stands_at(after, k, pos));
            } else {
                let i = choose|i: int| stands_at(before, k, i);
                assert(stands_at(after, k, i));
            }
        }
    }
    assert forall|k: Seq<char>| #[trigger] m.contains_key(k) implies m[k] == want[k] by {
        let i = choose|i: int| stands_at(after, k, i);
        lemma_key_at(after, i);
        if i != pos {
            lemma_key_at(before, i);
        }
    }
    assert(m =~= want);
}

impl KeysFile {
    /// No id occurs twice.
    pub open spec fn wf(&self) -> bool {
        distinct_ids(entries_view(self.keys@))
    }

    /// No keys at all.
    pub fn empty() -> (r: Self)
        ensures
            r.wf(),
            r@ == Map::<Seq<char>, RecordView>::empty(),
            entries_view(r.keys@) == Seq::<(Seq<char>, RecordView)>::empty(),
    {
        let r = KeysFile { keys: Vec::new() };
        assert(entries_view(r.keys@) =~= Seq::<(Seq<char>, RecordView)>::empty());
        assert(r@ =~= Map::<Seq<char>, RecordView>::empty());
        r
    }

    /// Where the record of an id stands.
    fn find(&self, id: &str) -> (r: Option<usize>)
        requires
            self.wf(),
        ensures
            match r {
                Some(i) => i < self.keys@.len() && self.keys@[i as int].0@ == id@
                    && self@.contains_key(id@) && self@[id@] == self.keys@[i as int].1@,
                None => !self@.contains_key(id@) && forall|i: int|
                    0 <= i < self.keys@.len() ==> (#[trigger] self.keys@[i]).0@ != id@,
            },
    {
        let ghost view = entries_view(self.keys@);
        let mut i: usize = 0;
        while i < self.keys.len()
            invariant
                i <= self.keys@.len(),
                view == entries_view(self.keys@),
                distinct_ids(view),
                forall|j: int| 0 <= j < i ==> (#[trigger] self.keys@[j]).0@ != id@,
            decreases self.keys@.len() - i,
        {
            if text_eq(self.keys[i].0.as_str(), id) {
                proof {
                    lemma_key_at(view, i as int);
                }
                return Some(i);
            }
            i = i + 1;
        }
        proof {
            if self@.contains_key(id@) {
                let k = choose|k: int| stands_at(view, id@, k);
                assert(view[k].0 == self.keys@[k].0@);
            }
        }
        None
    }

    /// The record of an id.
    pub fn get(&self, id: &str) -> (r: Option<&ApiKeyRecord>)
        requires
            self.wf(),
        ensures
            match r {
                Some(record) => self@.contains_key(id@) && self@[id@] == record@,
                None => !self@.contains_key(id@),
            },
    {
        match self.find(id) {
            Some(i) => Some(&self.keys[i].1),
            None => None,
        }
    }

    /// Puts a record under an id, in place of the one that stood there.
    pub fn insert(&mut self, id: String, record: ApiKeyRecord)
        requires
            old(self).wf(),
        ensures
            final(self).wf(),
            final(self)@ == old(self)@.insert(id@, record@),
    {
        let ghost before = entries_view(self.keys@);
        let ghost entry = (id@, record@);
        match self.find(id.as_str()) {
            Some(i) => {
                self.keys.set(i, (id, record));
                proof {
                    let after = entries_view(self.keys@);
                    assert(after =~= before.update(i as int, entry));
                    lemma_put(before, after, i as int, entry.0, entry.1);
                }
            },
            None => {
                self.keys.push((id, record));
                proof {
                    let after = entries_view(self.keys@);
                    assert(after =~= before.push(entry));
                    lemma_put(before, after, before.len() as int, entry.0, entry.1);
                }
            },
        }
    }

    /// Accepts the keys unless one of them is a notify key without a service; the
    /// error then names such a key.
    pub fn validate(&self) -> (r: Result<(), ServiceError>)
        requires
            self.wf(),
        ensures
            r is Ok <==> all_bound(self@),
            r matches Err(e) ==> names_unbound(self@, e@),
    {
        let ghost view = entries_view(self.keys@);
        let mut i: usize = 0;
        while i < self.keys.len()
            invariant
                i <= self.keys@.len(),
                view == entries_view(self.keys@),
                distinct_ids(view),
                forall|j: int| 0 <= j < i ==> bound((#[trigger] self.keys@[j]).1@),
            decreases self.keys@.len() - i,
        {
            if matches!(self.keys[i].1.permission, Permission::Notify)
                && self.keys[i].1.service.is_none() {
                let text = cat3(
                    "key ",
                    self.keys[i].0.as_str(),
                    ": a notify key requires a service binding (`service = \"<id>\"`)",
                );
                proof {
                    lemma_key_at(view, i as int);
                    assert(!bound(self.keys@[i as int].1@));
                    assert(view[i as int].1 == self.keys@[i as int].1@);
                    assert(self@.contains_key(view[i as int].0));
                }
                return Err(ServiceError::AdminKey(text));
            }
            i = i + 1;
        }
        assert forall|id: Seq<char>| #[trigger] self@.contains_key(id) implies bound(
            self@[id],
        ) by {
            let k = choose|k: int| stands_at(view, id, k);
            lemma_key_at(view, k);
            assert(view[k].1 == self.keys@[k].1@);
        }
        Ok(())
    }

    /// How many keys are active.
    pub fn size_active(&self) -> (r: usize)
        ensures
            r == active_count(entries_view(self.keys@)),
            self.wf() ==> active_ids(self@).finite() && r == active_ids(self@).len(),
    {
        let ghost view = entries_view(self.keys@);
        let mut n: usize = 0;
        let mut i: usize = 0;
        while i < self.keys.len()
            invariant
                n <= i <= self.keys@.len(),
                view == entries_view(self.keys@),
                n == active_count(view.take(i as int)),
            decreases self.keys@.len() - i,
        {
            assert(view.take(i + 1).drop_last() =~= view.take(i as int));
            assert(view[i as int].1 == self.keys@[i as int].1@);
            if matches!(self.keys[i].1.status, KeyStatus::Active) {
                n = n + 1;
            }
            i = i + 1;
        }
        assert(view.take(i as int) =~= view);
        proof {
            if self.wf() {
                lemma_active_ids(view);
            }
        }
        n
    }
}

/// What `toml::from_str` reads from a text, as a tree of tables, arrays and plain
/// values; or the words of its complaint.
pub uninterp spec fn toml_parsed(text: Seq<char>) -> Result<JsonView, Seq<char>>;

/// Reads a text with `toml::from_str` into the tree type of `serde_json`. The
/// outcome depends on the text alone: the tree that the document denotes, or the
/// error's printed form.
#[verifier::external_body]
fn read_toml(text: &str) -> (r: Result<serde_json::Value, String>)
    ensures
        match r {
            Ok(value) => toml_parsed(text@) == Ok::<JsonView, Seq<char>>(value_contents(value)),
            Err(e) => toml_parsed(text@) == Err::<JsonView, Seq<char>>(e@),
        },
{
    toml::from_str::<serde_json::Value>(text).map_err(|e| e.to_string())
}

/// The level that a word names.
pub open spec fn permission_named(word: Seq<char>) -> Option<Permission> {
    if word == "resolve"@ {
        Some(Permission::Resolve)
    } else if word == "read"@ {
        Some(Permission::Read)
    } else if word == "readwrite"@ {
        Some(Permission::ReadWrite)
    } else if word == "notify"@ {
        Some(Permission::Notify)
    } else {
        None
    }
}

/// The status that a word names.
pub open spec fn status_named(word: Seq<char>) -> Option<KeyStatus> {
    if word == "active"@ {
        Some(KeyStatus::Active)
    } else if word == "revoked"@ {
        Some(KeyStatus::Revoked)
    } else {
        None
    }
}

/// The level that a word names.
pub fn named_permission(word: &str) -> (r: Option<Permission>)
    ensures
        r == permission_named(word@),
{
    if text_eq(word, "resolve") {
        Some(Permission::Resolve)
    } else if text_eq(word, "read") {
        Some(Permission::Read)
    } else if text_eq(word, "readwrite") {
        Some(Permission::ReadWrite)
    } else if text_eq(word, "notify") {
        Some(Permission::Notify)
    } else {
        None
    }
}

/// The status that a word names.
pub fn named_status(word: &str) -> (r: Option<KeyStatus>)
    ensures
        r == status_named(word@),
{
    if text_eq(word, "active") {
        Some(KeyStatus::Active)
    } else if text_eq(word, "revoked") {
        Some(KeyStatus::Revoked)
    } else {
        None
    }
}

/// The text that a table has under a name.
pub open spec fn text_member(table: Seq<(Seq<char>, JsonView)>, name: Seq<char>) -> Option<
    Seq<char>,
> {
    match member(table, name) {
        Some(JsonView::Text(s)) => Some(s),
        _ => None,
    }
}

/// The record that a table of the keys file describes: all its texts are there, the
/// level and the status are known, and the service, where it is named, is a text.
/// Other members are not read.
pub open spec fn record_in(v: JsonView) -> Option<RecordView> {
    match v {
        JsonView::Object(t) => {
            let permission = match text_member(t, "permission"@) {
                Some(w) => permission_named(w),
                None => None,
            };
            let status = match text_member(t, "status"@) {
                Some(w) => status_named(w),
                None => None,
            };
            let service = text_member(t, "service"@);
            if text_member(t, "owner"@) is Some && permission is Some && status is Some
                && text_member(t, "created"@) is Some && text_member(t, "secret_hash"@) is Some
                && text_member(t, "description"@) is Some && (member(t, "service"@) is None
                || service is Some) {
                Some(
                    RecordView {
                        owner: text_member(t, "owner"@)->0,
                        permission: permission->0,
                        status: status->0,
                        created: text_member(t, "created"@)->0,
                        secret_hash: text_member(t, "secret_hash"@)->0,
                        description: text_member(t, "description"@)->0,
                        service,
                    },
                )
            } else {
                None
            }
        },
        _ => None,
    }
}

/// The records that the members of a table describe, by their names.
pub open spec fn records_of(table: Seq<(Seq<char>, JsonView)>) -> Map<Seq<char>, RecordView> {
    Map::new(
        |id: Seq<char>| member(table, id) is Some,
        |id: Seq<char>| record_in(member(table, id)->0)->0,
    )
}

/// The keys that a document describes: a table `keys` whose members are records.
pub open spec fn keys_in(v: JsonView) -> Option<Map<Seq<char>, RecordView>> {
    match v {
        JsonView::Object(doc) => match member(doc, "keys"@) {
            Some(JsonView::Object(table)) => if forall|i: int|
                0 <= i < table.len() ==> record_in((#[trigger] table[i]).1) is Some {
                Some(records_of(table))
            } else {
                None
            },
            _ => None,
        },
        _ => None,
    }
}

fn text_in(table: &Vec<(String, Json)>, name: &str) -> (r: Option<String>)
    ensures
        opt_text(r) == text_member(members_view(table@), name@),
{
    match find_member(table, name) {
        Some(Json::Text(s)) => Some(s.clone()),
        _ => None,
    }
}

fn read_record(v: &Json) -> (r: Option<ApiKeyRecord>)
    ensures
        match r {
            Some(record) => record_in(v@) == Some(record@),
            None => record_in(v@) is None,
        },
{
    let table = match v {
        Json::Object(table) => table,
        _ => return None,
    };
    assert(v@->Object_0 =~= members_view(table@));
    let service = match find_member(table, "service") {
        Some(Json::Text(s)) => Some(s.clone()),
        Some(_) => return None,
        None => None,
    };
    let permission = match text_in(table, "permission") {
        Some(w) => match named_permission(w.as_str()) {
            Some(p) => p,
            None => return None,
        },
        None => return None,
    };
    let status = match text_in(table, "status") {
        Some(w) => match named_status(w.as_str()) {
            Some(s) => s,
            None => return None,
        },
        None => return None,
    };
    match (
        text_in(table, "owner"),
        text_in(table, "created"),
        text_in(table, "secret_hash"),
        text_in(table, "description"),
    ) {
        (Some(owner), Some(created), Some(secret_hash), Some(description)) => Some(
            ApiKeyRecord { owner, permission, status, created, secret_hash, description, service },
        ),
        _ => None,
    }
}

/// What is said of a document that parses but does not describe keys.
pub open spec fn shape_text() -> Seq<char> {
    "expected a table `keys` of key records"@
}

impl KeysFile {
    /// Reads the text of a keys file. Fails on a text that is no TOML document, and
    /// on one that does not describe keys.
    pub fn parse(text: &str) -> (r: Result<KeysFile, String>)
        ensures
            match toml_parsed(text@) {
                Ok(doc) => match keys_in(doc) {
                    Some(keys) => r matches Ok(kf) && kf.wf() && kf@ == keys,
                    None => r matches Err(e) && e@ == shape_text(),
                },
                Err(m) => r matches Err(e) && e@ == m,
            },
    {
        match read_toml(text) {
            Ok(value) => {
                let doc = json_of_value(value);
                match read_keys(&doc) {
                    Some(kf) => Ok(kf),
                    None => Err("expected a table `keys` of key records".to_owned()),
                }
            },
            Err(e) => Err(e),
        }
    }
}

/// Reads the keys that a document describes.
pub fn read_keys(doc: &Json) -> (r: Option<KeysFile>)
    requires
        well_named(doc@),
    ensures
        match r {
            Some(kf) => kf.wf() && keys_in(doc@) == Some(kf@),
            None => keys_in(doc@) is None,
        },
{
    let members = match doc {
        Json::Object(members) => members,
        _ => return None,
    };
    assert(doc@->Object_0 =~= members_view(members@));
    let table = match find_member(members, "keys") {
        Some(Json::Object(table)) => table,
        _ => return None,
    };
    let ghost all = members_view(table@);
    proof {
        let found = member(members_view(members@), "keys"@)->0;
        assert(found->Object_0 =~= all);
        lemma_member_at(members_view(members@), "keys"@);
        assert(well_named(found));
    }
    let mut kf = KeysFile::empty();
    let mut i: usize = 0;
    assert(all.take(0) =~= Seq::empty());
    assert(kf@ =~= records_of(all.take(0)));
    while i < table.len()
        invariant
            i <= table@.len(),
            all == members_view(table@),
            distinct_names(all),
            kf.wf(),
            kf@ == records_of(all.take(i as int)),
            forall|j: int| 0 <= j < i ==> record_in((#[trigger] all[j]).1) is Some,
            doc@ matches JsonView::Object(d) && member(d, "keys"@) == Some(JsonView::Object(all)),
        decreases table@.len() - i,
    {
        assert(all[i as int] == (table@[i as int].0@, table@[i as int].1@));
        match read_record(&table[i].1) {
            Some(record) => {
                kf.insert(table[i].0.clone(), record);
                proof {
                    lemma_records_step(all, i as int);
                }
            },
            None => {
                return None;
            },
        }
        i = i + 1;
    }
    assert(all.take(i as int) =~= all);
    proof {
        assert(keys_in(doc@)->0 =~= records_of(all));
    }
    Some(kf)
}

proof fn lemma_records_step(all: Seq<(Seq<char>, JsonView)>, i: int)
    requires
        distinct_names(all),
        0 <= i < all.len(),
        record_in(all[i].1) is Some,
    ensures
        records_of(all.take(i + 1)) == records_of(all.take(i)).insert(
            all[i].0,
            record_in(all[i].1)->0,
        ),
{
    let a = all.take(i);
    let b = all.take(i + 1);
    assert forall|id: Seq<char>| #[trigger] member(b, id) == (if id == all[i].0 {
        Some(all[i].1)
    } else {
        member(a, id)
    }) by {
        lemma_member_at(a, id);
        lemma_member_at(b, id);
        if id == all[i].0 {
            assert(b[i] == all[i]);
        } else if exists|j: int| 0 <= j < a.len() && (#[trigger] a[j]).0 == id {
            let j = choose|j: int| 0 <= j < a.len() && (#[trigger] a[j]).0 == id;
            assert(b[j] == a[j]);
        } else {
            assert forall|j: int| 0 <= j < b.len() implies (#[trigger] b[j]).0 != id by {
                if j < i {
                    assert(a[j] == b[j]);
                }
            }
        }
    }
    assert(records_of(b) =~= records_of(a).insert(all[i].0, record_in(all[i].1)->0));
}

/// What was found at the path of a keys file: its text, or why it could not be read.
pub type FileRead = Result<String, String>;

/// The keys in force, and the path of the file that they come from.
pub struct ReloadableApiKeys {
    path: String,
    keys_file: KeysFile,
}

/// The keys that the text of a file describes, or why it describes none.
pub open spec fn keys_of_text(text: Seq<char>) -> Result<Map<Seq<char>, RecordView>, Seq<char>> {
    match toml_parsed(text) {
        Ok(doc) => match keys_in(doc) {
            Some(keys) => Ok(keys),
            None => Err(shape_text()),
        },
        Err(m) => Err(m),
    }
}

/// No keys.
pub open spec fn no_keys() -> Map<Seq<char>, RecordView> {
    Map::empty()
}

/// The service that a key is bound to: a notify key to the one that its record names, a
/// key of any other level to none, whatever its record says.
pub open spec fn binding(r: RecordView) -> Option<Seq<char>> {
    if r.permission == Permission::Notify {
        r.service
    } else {
        None
    }
}

/// The answer to a presented key, given the hash of its secret: the level of the key and
/// the service it is bound to, where it is there, active, and has that hash.
pub open spec fn granted(
    keys: Map<Seq<char>, RecordView>,
    id: Seq<char>,
    secret_hash: Seq<char>,
) -> Option<(Permission, Option<Seq<char>>)> {
    if keys.contains_key(id) && keys[id].status == KeyStatus::Active && keys[id].secret_hash
        == secret_hash {
        Some((keys[id].permission, binding(keys[id])))
    } else {
        None
    }
}

/// An answer as mathematical data.
pub open spec fn grant_view(g: Option<(Permission, Option<String>)>) -> Option<
    (Permission, Option<Seq<char>>),
> {
    match g {
        Some((p, s)) => Some((p, opt_text(s))),
        None => None,
    }
}

impl View for ReloadableApiKeys {
    type V = Map<Seq<char>, RecordView>;

    closed spec fn view(&self) -> Map<Seq<char>, RecordView> {
        self.keys_file@
    }
}

impl ReloadableApiKeys {
    #[verifier::type_invariant]
    closed spec fn wf(self) -> bool {
        self.keys_file.wf()
    }

    /// Where the keys come from.
    pub closed spec fn path(self) -> Seq<char> {
        self.path@
    }

    /// Takes the keys from what was found at `path`: `None` where nothing is there.
    /// A missing file is an error unless `allow_missing`, when there are no keys. A
    /// file that cannot be read, that describes no keys, or that holds a notify key
    /// without a service, is an error.
    pub fn new_from_file(path: String, file: Option<FileRead>, allow_missing: bool) -> (r: Result<
        Self,
        ServiceError,
    >)
        ensures
            match file {
                None => if allow_missing {
                    r matches Ok(k) && k@ == no_keys() && k.path() == path@
                } else {
                    r matches Err(e) && e@ == ServiceErrorView::AdminKey(
                        "keys file not found: "@ + path@,
                    )
                },
                Some(Err(m)) => r matches Err(e) && e@ == ServiceErrorView::Io(m@),
                Some(Ok(text)) => match keys_of_text(text@) {
                    Err(m) => r matches Err(e) && e@ == ServiceErrorView::AdminKey(
                        "failed to parse keys file: "@ + m,
                    ),
                    Ok(keys) => if all_bound(keys) {
                        r matches Ok(k) && k@ == keys && k.path() == path@
                    } else {
                        r matches Err(e) && names_unbound(keys, e@)
                    },
                },
            },
            r matches Ok(k) ==> all_bound(k@),
    {
        let keys_file = match file {
            Some(Ok(text)) => match KeysFile::parse(text.as_str()) {
                Ok(kf) => kf,
                Err(m) => {
                    return Err(
                        ServiceError::AdminKey(cat("failed to parse keys file: ", m.as_str())),
                    );
                },
            },
            Some(Err(m)) => {
                return Err(ServiceError::Io(m));
            },
            None => {
                if !allow_missing {
                    return Err(
                        ServiceError::AdminKey(cat("keys file not found: ", path.as_str())),
                    );
                }
                KeysFile::empty()
            },
        };
        match keys_file.validate() {
            Ok(()) => Ok(ReloadableApiKeys { path, keys_file }),
            Err(e) => Err(e),
        }
    }

    /// Takes the keys anew from what was read at the path. Where it cannot be read,
    /// describes no keys, or holds a notify key without a service, the error says so
    /// and there are no keys at all until the file is mended and read again.
    pub fn reload(&mut self, file: FileRead) -> (r: Result<(), ServiceError>)
        ensures
            final(self).path() == old(self).path(),
            match file {
                Err(m) => r matches Err(e) && e@ == ServiceErrorView::AdminKey(
                    "failed to read keys file: "@ + m@,
                ) && final(self)@ == no_keys(),
                Ok(text) => match keys_of_text(text@) {
                    Err(m) => r matches Err(e) && e@ == ServiceErrorView::AdminKey(
                        "failed to parse keys file: "@ + m,
                    ) && final(self)@ == no_keys(),
                    Ok(keys) => if all_bound(keys) {
                        r is Ok && final(self)@ == keys
                    } else {
                        r matches Err(e) && names_unbound(keys, e@) && final(self)@ == no_keys()
                    },
                },
            },
            all_bound(final(self)@),
    {
        self.keys_file = KeysFile::empty();
        match file {
            Ok(text) => match KeysFile::parse(text.as_str()) {
                Ok(kf) => match kf.validate() {
                    Ok(()) => {
                        self.keys_file = kf;
                        Ok(())
                    },
                    Err(e) => Err(e),
                },
                Err(m) => Err(
                    ServiceError::AdminKey(cat("failed to parse keys file: ", m.as_str())),
                ),
            },
            Err(m) => Err(ServiceError::AdminKey(cat("failed to read keys file: ", m.as_str()))),
        }
    }

    /// The answer to a key that is presented, given the hash of its secret or why
    /// there is none. Where the key is not there or not active, the hash is not
    /// asked for.
    pub fn lookup_hashed(&self, id: &str, hash: &Result<String, String>) -> (r: Result<
        Option<(Permission, Option<String>)>,
        ServiceError,
    >)
        ensures
            match *hash {
                Ok(h) => r matches Ok(g) && grant_view(g) == granted(self@, id@, h@),
                Err(m) => if self@.contains_key(id@) && self@[id@].status == KeyStatus::Active {
                    r matches Err(e) && e@ == ServiceErrorView::AdminKey(
                        "failed to hash key: "@ + m@,
                    )
                } else {
                    r matches Ok(g) && g is None
                },
            },
    {
        proof {
            use_type_invariant(self);
        }
        match self.keys_file.get(id) {
            Some(record) => if matches!(record.status, KeyStatus::Active) {
                match hash {
                    Ok(h) => if text_eq(h.as_str(), record.secret_hash.as_str()) {
                        let service = match record.permission {
                            Permission::Notify => clone_opt(&record.service),
                            _ => None,
                        };
                        Ok(Some((record.permission, service)))
                    } else {
                        Ok(None)
                    },
                    Err(m) => Err(ServiceError::AdminKey(cat("failed to hash key: ", m.as_str()))),
                }
            } else {
                Ok(None)
            },
            None => Ok(None),
        }
    }

    /// The level of a presented key and the service it is bound to, where the key is
    /// there and active and its secret has the recorded hash.
    pub fn lookup_permission_and_service(&self, apikey: &ApiKey) -> (r: Result<
        Option<(Permission, Option<String>)>,
        ServiceError,
    >)
        ensures
            r matches Ok(g) ==> grant_view(g) == granted(
                self@,
                id_text(apikey.key_id),
                hex_text(sha256_digest(apikey.secret@)),
            ),
            r matches Err(e) ==> self@.contains_key(id_text(apikey.key_id)) && self@[id_text(
                apikey.key_id,
            )].status == KeyStatus::Active && exists|m: Seq<char>|
                e@ == ServiceErrorView::AdminKey(#[trigger] ("failed to hash key: "@ + m)),
    {
        let hash = apikey.secret_hash();
        self.lookup_hashed(apikey.key_id_hex().as_str(), &hash)
    }

    /// How many keys are active.
    pub fn size_active(&self) -> (r: usize)
        ensures
            active_ids(self@).finite(),
            r == active_ids(self@).len(),
    {
        proof {
            use_type_invariant(self);
        }
        self.keys_file.size_active()
    }

    /// Whether no key is active.
    pub fn is_empty(&self) -> (r: bool)
        ensures
            r == (active_ids(self@).len() == 0),
            r <==> forall|id: Seq<char>| #[trigger]
                self@.contains_key(id) ==> self@[id].status != KeyStatus::Active,
    {
        let n: usize = self.size_active();
        proof {
            law_empty_means_no_active_key(self@);
        }
        n == 0
    }

    /// Where the keys come from.
    pub fn get_path(&self) -> (r: &String)
        ensures
            r@ == self.path(),
    {
        &self.path
    }

    /// Puts a record under an id, whatever the file says.
    pub fn insert_for_test(&mut self, id: String, record: ApiKeyRecord)
        ensures
            final(self)@ == old(self)@.insert(id@, record@),
            final(self).path() == old(self).path(),
    {
        proof {
            use_type_invariant(&*self);
        }
        let mut keys_file = KeysFile::empty();
        std::mem::swap(&mut self.keys_file, &mut keys_file);
        keys_file.insert(id, record);
        self.keys_file = keys_file;
    }
}

impl Default for ReloadableApiKeys {
    fn default() -> (r: Self)
        ensures
            r@ == no_keys(),
            r.path() == Seq::<char>::empty(),
    {
        ReloadableApiKeys { path: String::new(), keys_file: KeysFile::empty() }
    }
}

proof fn lemma_active_ids(keys: Seq<(Seq<char>, RecordView)>)
    requires
        distinct_ids(keys),
    ensures
        active_ids(key_map(keys)).finite(),
        active_ids(key_map(keys)).len() == active_count(keys),
    decreases keys.len(),
{
    let ids = active_ids(key_map(keys));
    if keys.len() == 0 {
        assert(ids =~= Set::empty());
    } else {
        let rest = keys.drop_last();
        let last = keys.last();
        lemma_active_ids(rest);
        let m = key_map(keys);
        let n = key_map(rest);
        assert(!n.contains_key(last.0)) by {
            if n.contains_key(last.0) {
                let i = choose|i: int| stands_at(rest, last.0, i);
                assert(keys[i].0 == keys[keys.len() - 1].0);
            }
        }
        lemma_key_at(keys, keys.len() - 1);
        assert forall|id: Seq<char>| id != last.0 implies #[trigger] m.contains_key(id)
            == n.contains_key(id) && (m.contains_key(id) ==> m[id] == n[id]) by {
            if m.contains_key(id) {
                let i = choose|i: int| stands_at(keys, id, i);
                assert(stands_at(rest, id, i));
                lemma_key_at(keys, i);
                lemma_key_at(rest, i);
            }
            if n.contains_key(id) {
                let i = choose|i: int| stands_at(rest, id, i);
                assert(stands_at(keys, id, i));
            }
        }
        if last.1.status == KeyStatus::Active {
            assert(ids =~= active_ids(n).insert(last.0));
        } else {
            assert(ids =~= active_ids(n));
        }
    }
}

/// There are no active keys exactly where every key that is there is revoked. So a file
/// without keys, and one of revoked keys alone, has none.
pub proof fn law_empty_means_no_active_key(keys: Map<Seq<char>, RecordView>)
    requires
        active_ids(keys).finite(),
    ensures
        active_ids(keys).len() == 0 <==> forall|id: Seq<char>| #[trigger]
            keys.contains_key(id) ==> keys[id].status != KeyStatus::Active,
        active_ids(no_keys()).len() == 0,
{
    assert(active_ids(no_keys()) =~= Set::empty());
    let ids = active_ids(keys);
    if ids.len() == 0 {
        assert forall|id: Seq<char>| #[trigger] keys.contains_key(id) implies keys[id].status
            != KeyStatus::Active by {
            if keys[id].status == KeyStatus::Active {
                assert(ids.contains(id));
                ids.lemma_len0_is_empty();
            }
        }
    }
    if forall|id: Seq<char>| #[trigger]
        keys.contains_key(id) ==> keys[id].status != KeyStatus::Active {
        assert(ids =~= Set::empty());
    }
}

/// While there are no keys, as after a reload that failed, none is active and nobody is
/// granted anything.
pub proof fn law_no_keys_grant_nothing(id: Seq<char>, secret_hash: Seq<char>)
    ensures
        active_ids(no_keys()).len() == 0,
        granted(no_keys(), id, secret_hash) is None,
{
    assert(active_ids(no_keys()) =~= Set::empty());
}

/// A key of any other level than notify is bound to no service, whatever its record says.
pub proof fn law_only_notify_keys_are_bound(
    keys: Map<Seq<char>, RecordView>,
    id: Seq<char>,
    secret_hash: Seq<char>,
)
    ensures
        granted(keys, id, secret_hash) matches Some((p, s)) ==> (p != Permission::Notify
            ==> s is None),
{
}

/// Where every notify key says which service it is bound to, whoever is granted the
/// notify level is granted it for one service.
pub proof fn law_notify_is_granted_for_one_service(
    keys: Map<Seq<char>, RecordView>,
    id: Seq<char>,
    secret_hash: Seq<char>,
)
    requires
        all_bound(keys),
    ensures
        granted(keys, id, secret_hash) matches Some((p, s)) ==> (p == Permission::Notify
            ==> s is Some),
{
}

/// A key that is not active grants nothing, whatever secret is presented.
pub proof fn law_revoked_key_grants_nothing(
    keys: Map<Seq<char>, RecordView>,
    id: Seq<char>,
    secret_hash: Seq<char>,
)
    requires
        keys.contains_key(id) ==> keys[id].status == KeyStatus::Revoked,
    ensures
        granted(keys, id, secret_hash) is None,
{
}

/// What each level lets its holder do.
pub proof fn law_what_each_level_lets_do(p: Permission)
    ensures
        p.resolves() <==> p == Permission::Resolve || p == Permission::Read || p
            == Permission::ReadWrite,
        p.reads() <==> p == Permission::Read || p == Permission::ReadWrite,
        p.writes() <==> p == Permission::ReadWrite,
        p.notifies() <==> p == Permission::Notify || p == Permission::ReadWrite,
{
}

/// A key that is there and active grants, to who presents a secret of the recorded hash, the
/// level of its record, for the recorded service where the level is to notify. Without any one
/// of these it grants nothing.
pub proof fn law_active_key_grants_its_recorded_level(
    keys: Map<Seq<char>, RecordView>,
    id: Seq<char>,
    secret_hash: Seq<char>,
)
    ensures
        keys.contains_key(id) && keys[id].status == KeyStatus::Active && keys[id].secret_hash
            == secret_hash ==> (granted(keys, id, secret_hash) matches Some((p, s)) && p
            == keys[id].permission && (p == Permission::Notify ==> s == keys[id].service) && (p
            != Permission::Notify ==> s is None)),
        !keys.contains_key(id) ==> granted(keys, id, secret_hash) is None,
        keys.contains_key(id) && keys[id].status != KeyStatus::Active ==> granted(
            keys,
            id,
            secret_hash,
        ) is None,
        keys.contains_key(id) && keys[id].secret_hash != secret_hash ==> granted(
            keys,
            id,
            secret_hash,
        ) is None,
{
}

/// A file is in order just where every key of the notify level names a service; what is
/// complained of is a key of it that names none.
pub proof fn law_notify_keys_need_a_service(
    keys: Map<Seq<char>, RecordView>,
    e: ServiceErrorView,
    id: Seq<char>,
)
    ensures
        all_bound(keys) <==> forall|k: Seq<char>| #[trigger]
            keys.contains_key(k) && keys[k].permission == Permission::Notify ==> keys[k].service
                is Some,
        keys.contains_key(id) && keys[id].permission == Permission::Notify && keys[id].service
            is None ==> !all_bound(keys),
        names_unbound(keys, e) ==> !all_bound(keys),
        names_unbound(keys, e) ==> e is AdminKey,
{
    if names_unbound(keys, e) {
        let k = choose|k: Seq<char>| #[trigger]
            keys.contains_key(k) && !bound(keys[k]) && e == ServiceErrorView::AdminKey(
                unbound_text(k),
            );
        assert(keys.contains_key(k));
    }
    if forall|k: Seq<char>| #[trigger]
        keys.contains_key(k) && keys[k].permission == Permission::Notify ==> keys[k].service
            is Some {
        assert forall|k: Seq<char>| #[trigger] keys.contains_key(k) implies bound(keys[k]) by {}
    }
}

/// The words for levels and for whether a key is active, and no others.
pub proof fn law_words_for_levels_and_status(word: Seq<char>)
    ensures
        permission_named("resolve"@) == Some(Permission::Resolve),
        permission_named("read"@) == Some(Permission::Read),
        permission_named("readwrite"@) == Some(Permission::ReadWrite),
        permission_named("notify"@) == Some(Permission::Notify),
        word != "resolve"@ && word != "read"@ && word != "readwrite"@ && word != "notify"@
            ==> permission_named(word) is None,
        status_named("active"@) == Some(KeyStatus::Active),
        status_named("revoked"@) == Some(KeyStatus::Revoked),
        word != "active"@ && word != "revoked"@ ==> status_named(word) is None,
{
    reveal_strlit("resolve");
    reveal_strlit("read");
    reveal_strlit("readwrite");
    reveal_strlit("notify");
    reveal_strlit("active");
    reveal_strlit("revoked");
    assert("resolve"@.len() == 7 && "read"@.len() == 4 && "readwrite"@.len() == 9);
    assert("notify"@.len() == 6 && "active"@.len() == 6 && "revoked"@.len() == 7);
}

/// A record of a file is read as it is written: owner, date, hash and description are the texts
/// under these names, level and status what the words there stand for, and the service the text
/// under its name, if there is one.
pub proof fn law_record_is_read_as_written(t: Seq<(Seq<char>, JsonView)>, r: RecordView)
    requires
        forall|i: int, j: int|
            0 <= i < j < t.len() ==> (#[trigger] t[i]).0 != (#[trigger] t[j]).0,
        record_in(JsonView::Object(t)) == Some(r),
    ensures
        t.contains(("owner"@, JsonView::Text(r.owner))),
        t.contains(("created"@, JsonView::Text(r.created))),
        t.contains(("secret_hash"@, JsonView::Text(r.secret_hash))),
        t.contains(("description"@, JsonView::Text(r.description))),
        exists|w: Seq<char>| #[trigger]
            t.contains(("permission"@, JsonView::Text(w))) && permission_named(w) == Some(
                r.permission,
            ),
        exists|w: Seq<char>| #[trigger]
            t.contains(("status"@, JsonView::Text(w))) && status_named(w) == Some(r.status),
        r.service matches Some(s) ==> t.contains(("service"@, JsonView::Text(s))),
        r.service is None ==> forall|i: int| 0 <= i < t.len() ==> (#[trigger] t[i]).0 != "service"@,
{
    crate::json::law_member_is_found_under_its_name(t, "owner"@);
    crate::json::law_member_is_found_under_its_name(t, "created"@);
    crate::json::law_member_is_found_under_its_name(t, "secret_hash"@);
    crate::json::law_member_is_found_under_its_name(t, "description"@);
    crate::json::law_member_is_found_under_its_name(t, "permission"@);
    crate::json::law_member_is_found_under_its_name(t, "status"@);
    crate::json::law_member_is_found_under_its_name(t, "service"@);
    let p = text_member(t, "permission"@)->0;
    let s = text_member(t, "status"@)->0;
    assert(t.contains(("permission"@, JsonView::Text(p))));
    assert(t.contains(("status"@, JsonView::Text(s))));
}

/// A record is read where it has all its texts, a known level and a known status, and no service
/// that is something else than a text.
pub proof fn law_complete_record_is_read(
    t: Seq<(Seq<char>, JsonView)>,
    owner: Seq<char>,
    created: Seq<char>,
    hash: Seq<char>,
    description: Seq<char>,
    level: Seq<char>,
    status: Seq<char>,
)
    requires
        forall|i: int, j: int|
            0 <= i < j < t.len() ==> (#[trigger] t[i]).0 != (#[trigger] t[j]).0,
        t.contains(("owner"@, JsonView::Text(owner))),
        t.contains(("created"@, JsonView::Text(created))),
        t.contains(("secret_hash"@, JsonView::Text(hash))),
        t.contains(("description"@, JsonView::Text(description))),
        t.contains(("permission"@, JsonView::Text(level))),
        t.contains(("status"@, JsonView::Text(status))),
        permission_named(level) is Some,
        status_named(status) is Some,
        (forall|i: int| 0 <= i < t.len() ==> (#[trigger] t[i]).0 != "service"@) || exists|
            s: Seq<char>,
        | #[trigger] t.contains(("service"@, JsonView::Text(s))),
    ensures
        record_in(JsonView::Object(t)) is Some,
{
    crate::json::law_member_is_found_under_its_name(t, "owner"@);
    crate::json::law_member_is_found_under_its_name(t, "created"@);
    crate::json::law_member_is_found_under_its_name(t, "secret_hash"@);
    crate::json::law_member_is_found_under_its_name(t, "description"@);
    crate::json::law_member_is_found_under_its_name(t, "permission"@);
    crate::json::law_member_is_found_under_its_name(t, "status"@);
    crate::json::law_member_is_found_under_its_name(t, "service"@);
}

/// The keys of a file are all records of its table `keys`, each under its id, and the file is
/// read only where each of them is.
pub proof fn law_file_has_the_keys_of_its_table(
    doc: Seq<(Seq<char>, JsonView)>,
    table: Seq<(Seq<char>, JsonView)>,
    id: Seq<char>,
)
    requires
        forall|i: int, j: int|
            0 <= i < j < doc.len() ==> (#[trigger] doc[i]).0 != (#[trigger] doc[j]).0,
        forall|i: int, j: int|
            0 <= i < j < table.len() ==> (#[trigger] table[i]).0 != (#[trigger] table[j]).0,
        doc.contains(("keys"@, JsonView::Object(table))),
    ensures
        keys_in(JsonView::Object(doc)) is Some <==> forall|i: int|
            0 <= i < table.len() ==> record_in((#[trigger] table[i]).1) is Some,
        keys_in(JsonView::Object(doc)) matches Some(keys) ==> (keys.contains_key(id) <==> exists|
            i: int,
        |
            0 <= i < table.len() && (#[trigger] table[i]).0 == id),
        keys_in(JsonView::Object(doc)) matches Some(keys) ==> forall|i: int|
            0 <= i < table.len() ==> record_in((#[trigger] table[i]).1) == Some(keys[table[i].0]),
{
    crate::json::law_member_is_found_under_its_name(doc, "keys"@);
    crate::json::law_member_is_found_under_its_name(table, id);
    if keys_in(JsonView::Object(doc)) is Some {
        let keys = records_of(table);
        assert forall|i: int| 0 <= i < table.len() implies record_in((#[trigger] table[i]).1)
            == Some(keys[table[i].0]) by {
            crate::json::law_member_is_found_under_its_name(table, table[i].0);
            assert(table[i] == (table[i].0, table[i].1));
            assert(table.contains((table[i].0, table[i].1)));
            assert(record_in(table[i].1) is Some);
        }
    }
}

} // verus!
