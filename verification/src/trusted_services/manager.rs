//! The trusted services in force, and which revision of each an actor's attributes
//! were last refreshed from.
use vstd::prelude::*;

use crate::attribute::Attribute;
use crate::db::addr::ZprAddr;
use crate::error::{ServiceError, ServiceErrorView};
use crate::oidc::store::{lookup_outcome, next_after, OidcTrustedService, StoreView};
use crate::text::text_eq;
use crate::time::Timestamp;
use crate::trusted_services::attr_query_store::{AttrQueryStore, AttrQueryView};
use crate::trusted_services::factory::{MarkView, StoreMark};
use crate::trusted_services::{next_revision, pair_views, RevisionCounter};

verus! {

/// A file-backed trusted service. Whoever reads the file keeps what is in it; this
/// says which reading is in force.
#[derive(Debug)]
pub struct FileSource {
    pub id: String,
    pub revision: u64,
    /// The revision that the store was built with.
    pub born: u64,
}

impl FileSource {
    /// The source of a file that was read for the first time.
    pub fn new(id: String, counter: &mut RevisionCounter) -> (r: FileSource)
        ensures
            r.id@ == id@,
            r.revision == old(counter).next,
            r.born == old(counter).next,
            final(counter).next == next_after(old(counter).next),
    {
        let revision: u64 = next_revision(counter);
        FileSource { id, revision, born: revision }
    }
}

/// A trusted service in force.
pub enum TrustedStore {
    Oidc(OidcTrustedService),
    AttrQuery(AttrQueryStore),
    File(FileSource),
}

/// What every trusted service says of itself: the source its attributes carry, and the
/// revision of its data.
pub struct SourceView {
    pub id: Seq<char>,
    pub revision: u64,
}

impl TrustedStore {
    /// The source that the store is.
    pub open spec fn source(self) -> SourceView {
        match self {
            TrustedStore::Oidc(s) => SourceView { id: s@.id, revision: s@.revision },
            TrustedStore::AttrQuery(s) => SourceView { id: s@.id, revision: s@.revision },
            TrustedStore::File(s) => SourceView { id: s.id@, revision: s.revision },
        }
    }

    /// The revision that the store was built with, by which it is told from others.
    pub open spec fn birth(self) -> u64 {
        match self {
            TrustedStore::Oidc(s) => s@.born,
            TrustedStore::AttrQuery(s) => s@.born,
            TrustedStore::File(s) => s.born,
        }
    }
}

/// What asking a trusted service comes to.
pub enum Asked {
    /// The answer is there.
    Answered(Result<Vec<Attribute>, ServiceError>),
    /// The service at this place is to be queried.
    Query(usize),
    /// The contents of the file of the service at this place are to be consulted.
    File(usize),
}

/// A store after a flush: an OIDC service has forgotten whom it admitted and the sessions
/// it saw, and every kind of service is at the new revision. Nothing else changes.
pub open spec fn flushed(before: TrustedStore, after: TrustedStore, revision: u64) -> bool {
    match before {
        TrustedStore::Oidc(s) => after matches TrustedStore::Oidc(t) && t@ == (StoreView {
            admitted: Map::empty(),
            sessions: Map::empty(),
            revision,
            ..s@
        }),
        TrustedStore::AttrQuery(s) => after matches TrustedStore::AttrQuery(t) && t@ == (
        AttrQueryView { revision, ..s@ }),
        TrustedStore::File(s) => after matches TrustedStore::File(t) && t.id@ == s.id@
            && t.revision == revision && t.born == s.born,
    }
}

/// The store is the one that a mark stands for.
pub open spec fn is_marked(store: TrustedStore, mark: MarkView) -> bool {
    store.source().id == mark.definition.id && store.birth() == mark.born
}

/// The first step of asking the store at a place: an OIDC service answers from its claims,
/// the others stay as they are and are to be consulted.
pub open spec fn asked(
    before: TrustedStore,
    identities: Seq<(Seq<char>, Seq<char>)>,
    now: int,
    place: int,
    r: Asked,
    after: TrustedStore,
) -> bool {
    match before {
        TrustedStore::Oidc(s) => {
            &&& after matches TrustedStore::Oidc(t)
            &&& r matches Asked::Answered(a)
            &&& lookup_outcome(s@, identities, now, a, t@)
        },
        TrustedStore::AttrQuery(_) => (r matches Asked::Query(k) && k == place) && after == before,
        TrustedStore::File(_) => (r matches Asked::File(k) && k == place) && after == before,
    }
}

/// The stores are the same but for the one at a place.
pub open spec fn same_but(before: Seq<TrustedStore>, after: Seq<TrustedStore>, i: int) -> bool {
    &&& after.len() == before.len()
    &&& forall|j: int| 0 <= j < before.len() && j != i ==> (#[trigger] after[j]) == before[j]
}

/// Takes the first step of asking the store at a place for an actor's attributes.
fn ask_store(
    services: &mut Vec<TrustedStore>,
    i: usize,
    identities: &Vec<(String, String)>,
    now: Timestamp,
) -> (r: Asked)
    requires
        i < old(services)@.len(),
    ensures
        asked(
            old(services)@[i as int],
            pair_views(identities@),
            now as int,
            i as int,
            r,
            final(services)@[i as int],
        ),
        same_but(old(services)@, final(services)@, i as int),
{
    match &services[i] {
        TrustedStore::AttrQuery(_) => {
            return Asked::Query(i);
        },
        TrustedStore::File(_) => {
            return Asked::File(i);
        },
        TrustedStore::Oidc(_) => {},
    }
    let ghost before = services@;
    let taken = services.remove(i);
    match taken {
        TrustedStore::Oidc(s) => {
            let mut s = s;
            let answer = s.get_attributes_for_actor(identities, now);
            services.insert(i, TrustedStore::Oidc(s));
            proof {
                assert forall|j: int| 0 <= j < before.len() && j != i implies (
                #[trigger] services@[j]) == before[j] by {}
            }
            Asked::Answered(answer)
        },
        other => {
            services.insert(i, other);
            Asked::Query(i)
        },
    }
}

impl TrustedStore {
    /// The source that the attributes carry.
    pub fn get_source_id(&self) -> (r: &str)
        ensures
            r@ == self.source().id,
    {
        match self {
            TrustedStore::Oidc(s) => s.get_source_id(),
            TrustedStore::AttrQuery(s) => s.get_source_id(),
            TrustedStore::File(s) => s.id.as_str(),
        }
    }

    /// The revision that the store was built with, by which it is told from others.
    pub fn born(&self) -> (r: u64)
        ensures
            r == self.birth(),
    {
        match self {
            TrustedStore::Oidc(s) => s.born(),
            TrustedStore::AttrQuery(s) => s.born(),
            TrustedStore::File(s) => s.born,
        }
    }

    /// The revision of the data that is served.
    pub fn current_revision(&self) -> (r: u64)
        ensures
            r == self.source().revision,
    {
        match self {
            TrustedStore::Oidc(s) => s.current_revision(),
            TrustedStore::AttrQuery(s) => s.current_revision(),
            TrustedStore::File(s) => s.revision,
        }
    }

    /// Forgets what was cached and moves to a new revision.
    pub fn flush(self, counter: &mut RevisionCounter) -> (r: TrustedStore)
        ensures
            flushed(self, r, old(counter).next),
            final(counter).next == next_after(old(counter).next),
    {
        match self {
            TrustedStore::Oidc(s) => {
                let mut s = s;
                s.flush(counter);
                TrustedStore::Oidc(s)
            },
            TrustedStore::AttrQuery(s) => {
                let mut s = s;
                s.flush(counter);
                TrustedStore::AttrQuery(s)
            },
            TrustedStore::File(s) => TrustedStore::File(
                FileSource { id: s.id, revision: next_revision(counter), born: s.born },
            ),
        }
    }
}

/// The last refresh of an actor from one source: the revision, where there was one
/// since the source last announced a change, and how many changes it announced.
#[derive(Debug, Clone, Copy, PartialEq, Eq, Structural)]
pub struct RevisionRecord {
    pub revision: Option<u64>,
    pub generation: u64,
}

/// The record of an actor that was never refreshed from a source.
pub open spec fn never() -> RevisionRecord {
    RevisionRecord { revision: None, generation: 0 }
}

/// The records of one actor, by source.
pub open spec fn records_view(list: Seq<(String, RevisionRecord)>) -> Seq<
    (Seq<char>, RevisionRecord),
> {
    list.map_values(|e: (String, RevisionRecord)| (e.0@, e.1))
}

/// What the records say of a source.
pub open spec fn record_for(list: Seq<(Seq<char>, RevisionRecord)>, source: Seq<char>) -> RevisionRecord
    decreases list.len(),
{
    if list.len() == 0 {
        never()
    } else if list[0].0 == source {
        list[0].1
    } else {
        record_for(list.drop_first(), source)
    }
}

/// A copy of an actor's records.
pub fn copy_records(list: &Vec<(String, RevisionRecord)>) -> (r: Vec<(String, RevisionRecord)>)
    ensures
        records_view(r@) == records_view(list@),
{
    let mut out: Vec<(String, RevisionRecord)> = Vec::new();
    let mut i: usize = 0;
    while i < list.len()
        invariant
            i <= list@.len(),
            out@.len() == i,
            forall|j: int|
                0 <= j < i ==> (#[trigger] out@[j]).0@ == list@[j].0@ && out@[j].1 == list@[j].1,
        decreases list@.len() - i,
    {
        out.push((list[i].0.clone(), list[i].1));
        i = i + 1;
    }
    assert(records_view(out@) =~= records_view(list@));
    out
}

proof fn lemma_record_first(list: Seq<(Seq<char>, RevisionRecord)>, source: Seq<char>, i: int)
    requires
        0 <= i <= list.len(),
        forall|j: int| 0 <= j < i ==> (#[trigger] list[j]).0 != source,
    ensures
        i < list.len() && list[i].0 == source ==> record_for(list, source) == list[i].1,
        i == list.len() ==> record_for(list, source) == never(),
    decreases list.len(),
{
    if i > 0 {
        let rest = list.drop_first();
        assert(list[0].0 != source);
        assert forall|j: int| 0 <= j < i - 1 implies (#[trigger] rest[j]).0 != source by {
            assert(rest[j] == list[j + 1]);
        }
        lemma_record_first(rest, source, i - 1);
        if i < list.len() {
            assert(rest[i - 1] == list[i]);
        }
    }
}

proof fn lemma_record_frame(
    before: Seq<(Seq<char>, RevisionRecord)>,
    after: Seq<(Seq<char>, RevisionRecord)>,
    source: Seq<char>,
    other: Seq<char>,
)
    requires
        other != source,
        before.len() <= after.len() <= before.len() + 1,
        forall|j: int|
            0 <= j < before.len() ==> (#[trigger] after[j]).0 == before[j].0 && (before[j].0
                != source ==> after[j] == before[j]),
        after.len() > before.len() ==> after.last().0 == source,
    ensures
        record_for(after, other) == record_for(before, other),
    decreases before.len(),
{
    if before.len() > 0 {
        let a = after.drop_first();
        let b = before.drop_first();
        assert(after[0].0 == before[0].0);
        assert forall|j: int| 0 <= j < b.len() implies (#[trigger] a[j]).0 == b[j].0 && (b[j].0
            != source ==> a[j] == b[j]) by {
            assert(a[j] == after[j + 1] && b[j] == before[j + 1]);
        }
        if a.len() > b.len() {
            assert(a.last() == after.last());
        }
        lemma_record_frame(b, a, source, other);
    } else if after.len() > 0 {
        assert(after[0] == after.last());
        assert(after.drop_first().len() == 0);
    }
}

/// What the records say of a source.
fn find_record(list: &Vec<(String, RevisionRecord)>, source: &str) -> (r: RevisionRecord)
    ensures
        r == record_for(records_view(list@), source@),
{
    let ghost view = records_view(list@);
    let mut i: usize = 0;
    while i < list.len()
        invariant
            i <= list@.len(),
            view == records_view(list@),
            forall|j: int| 0 <= j < i ==> (#[trigger] view[j]).0 != source@,
        decreases list@.len() - i,
    {
        assert(view[i as int] == (list@[i as int].0@, list@[i as int].1));
        if text_eq(list[i].0.as_str(), source) {
            proof {
                lemma_record_first(view, source@, i as int);
            }
            return list[i].1;
        }
        i = i + 1;
    }
    proof {
        lemma_record_first(view, source@, i as int);
    }
    RevisionRecord { revision: None, generation: 0 }
}

/// Sets what the records say of a source.
fn put_record(list: &mut Vec<(String, RevisionRecord)>, source: &str, record: RevisionRecord)
    ensures
        forall|s: Seq<char>| #[trigger]
            record_for(records_view(final(list)@), s) == (if s == source@ {
                record
            } else {
                record_for(records_view(old(list)@), s)
            }),
{
    let ghost before = records_view(list@);
    let mut i: usize = 0;
    let mut found = false;
    while i < list.len()
        invariant_except_break
            !found,
        invariant
            *list == *old(list),
            i <= list@.len(),
            before == records_view(list@),
            forall|j: int| 0 <= j < i ==> (#[trigger] before[j]).0 != source@,
        ensures
            *list == *old(list),
            i <= list@.len(),
            forall|j: int| 0 <= j < i ==> (#[trigger] before[j]).0 != source@,
            found ==> i < list@.len() && before[i as int].0 == source@,
            !found ==> i == list@.len(),
        decreases list@.len() - i,
    {
        assert(before[i as int] == (list@[i as int].0@, list@[i as int].1));
        if text_eq(list[i].0.as_str(), source) {
            found = true;
            break;
        }
        i = i + 1;
    }
    if found {
        list.set(i, (source.to_owned(), record));
    } else {
        list.push((source.to_owned(), record));
    }
    proof {
        let after = records_view(list@);
        if found {
            assert(after =~= before.update(i as int, (source@, record)));
        } else {
            assert(after =~= before.push((source@, record)));
        }
        assert forall|j: int| 0 <= j < i implies (#[trigger] after[j]).0 != source@ by {
            assert(after[j] == before[j]);
        }
        lemma_record_first(after, source@, i as int);
        assert forall|s: Seq<char>| s != source@ implies #[trigger] record_for(after, s)
            == record_for(before, s) by {
            lemma_record_frame(before, after, source@, s);
        }
    }
}

/// The records that a revision map holds, by actor.
pub uninterp spec fn revision_contents(
    map: dashmap::DashMap<String, Vec<(String, RevisionRecord)>>,
) -> Map<Seq<char>, Seq<(Seq<char>, RevisionRecord)>>;

/// `DashMap::new` makes an empty map.
#[verifier::external_body]
fn revisions_new() -> (r: dashmap::DashMap<String, Vec<(String, RevisionRecord)>>)
    ensures
        revision_contents(r) == (Map::<Seq<char>, Seq<(Seq<char>, RevisionRecord)>>::empty()),
{
    dashmap::DashMap::new()
}

/// `DashMap::get` finds the value under a key; a copy of it is handed out.
#[verifier::external_body]
fn revisions_get(
    map: &dashmap::DashMap<String, Vec<(String, RevisionRecord)>>,
    addr: &str,
) -> (r: Option<Vec<(String, RevisionRecord)>>)
    ensures
        match r {
            Some(list) => revision_contents(*map).contains_pair(addr@, records_view(list@)),
            None => !revision_contents(*map).contains_key(addr@),
        },
{
    map.get(addr).map(|list| copy_records(list.value()))
}

/// `DashMap::insert` puts the value under the key, in place of any value that was
/// there.
#[verifier::external_body]
fn revisions_insert(
    map: &mut dashmap::DashMap<String, Vec<(String, RevisionRecord)>>,
    addr: String,
    list: Vec<(String, RevisionRecord)>,
)
    ensures
        revision_contents(*final(map)) == revision_contents(*old(map)).insert(
            addr@,
            records_view(list@),
        ),
{
    map.insert(addr, list);
}

/// `DashMap::remove` removes the entry under a key, if there is one.
#[verifier::external_body]
fn revisions_remove(
    map: &mut dashmap::DashMap<String, Vec<(String, RevisionRecord)>>,
    addr: &str,
)
    ensures
        revision_contents(*final(map)) == revision_contents(*old(map)).remove(addr@),
{
    map.remove(addr);
}

/// The trusted services in force and the refresh records of the actors.
pub struct TrustedServicesMgr {
    services: Vec<TrustedStore>,
    actor_revisions: dashmap::DashMap<String, Vec<(String, RevisionRecord)>>,
}

/// The services as mathematical data.
pub open spec fn source_views(services: Seq<TrustedStore>) -> Seq<SourceView> {
    services.map_values(|s: TrustedStore| s.source())
}

/// The first service of a source stands at this place.
pub open spec fn first_source(sources: Seq<SourceView>, id: Seq<char>, i: int) -> bool {
    0 <= i < sources.len() && sources[i].id == id && forall|j: int|
        0 <= j < i ==> (#[trigger] sources[j]).id != id
}

/// Some service has this source.
pub open spec fn offers(sources: Seq<SourceView>, id: Seq<char>) -> bool {
    exists|i: int| 0 <= i < sources.len() && (#[trigger] sources[i]).id == id
}

/// The services whose revision is not the one that an actor was last refreshed from,
/// in order.
pub open spec fn stale_among(
    sources: Seq<SourceView>,
    state: spec_fn(Seq<char>) -> RevisionRecord,
) -> Seq<(Seq<char>, u64)>
    decreases sources.len(),
{
    if sources.len() == 0 {
        Seq::empty()
    } else {
        let before = stale_among(sources.drop_last(), state);
        let s = sources.last();
        if state(s.id).revision == Some(s.revision) {
            before
        } else {
            before.push((s.id, s.revision))
        }
    }
}

/// The record after a refresh from `revision` that began at `observed`: it counts only
/// if no change was announced since.
pub open spec fn committed(r: RevisionRecord, revision: u64, observed: u64) -> RevisionRecord {
    if r.generation == observed {
        RevisionRecord { revision: Some(revision), generation: r.generation }
    } else {
        r
    }
}

/// The record after the source announced a change for the actor.
pub open spec fn announced(r: RevisionRecord) -> RevisionRecord {
    RevisionRecord { revision: None, generation: (r.generation + 1) as u64 }
}

/// The texts and revisions of a list of stale sources.
pub open spec fn stale_views(list: Seq<(String, u64)>) -> Seq<(Seq<char>, u64)> {
    list.map_values(|e: (String, u64)| (e.0@, e.1))
}

impl TrustedServicesMgr {
    /// The services in force.
    pub open spec fn sources(self) -> Seq<SourceView> {
        source_views(self.stores())
    }

    /// The services in force, each with all its data.
    pub closed spec fn stores(self) -> Seq<TrustedStore> {
        self.services@
    }

    /// The refresh record of an actor and a source.
    pub closed spec fn state(self, addr: Seq<char>, source: Seq<char>) -> RevisionRecord {
        if revision_contents(self.actor_revisions).contains_key(addr) {
            record_for(revision_contents(self.actor_revisions)[addr], source)
        } else {
            never()
        }
    }

    /// No services and no records.
    pub fn new() -> (r: Self)
        ensures
            r.sources() == Seq::<SourceView>::empty(),
            r.stores() == Seq::<TrustedStore>::empty(),
            forall|a: Seq<char>, s: Seq<char>| #[trigger] r.state(a, s) == never(),
    {
        let r = TrustedServicesMgr { services: Vec::new(), actor_revisions: revisions_new() };
        assert(r.sources() =~= Seq::<SourceView>::empty());
        r
    }

    fn records(&self, addr: &ZprAddr) -> (r: Vec<(String, RevisionRecord)>)
        ensures
            forall|s: Seq<char>| #[trigger]
                record_for(records_view(r@), s) == self.state(addr@, s),
    {
        match revisions_get(&self.actor_revisions, addr.as_str()) {
            Some(list) => list,
            None => {
                let none: Vec<(String, RevisionRecord)> = Vec::new();
                assert(records_view(none@) =~= Seq::empty());
                none
            },
        }
    }

    fn set_record(&mut self, addr: &ZprAddr, source: &str, record: RevisionRecord)
        ensures
            final(self).sources() == old(self).sources(),
            final(self).stores() == old(self).stores(),
            forall|a: Seq<char>, s: Seq<char>| #[trigger]
                final(self).state(a, s) == (if a == addr@ && s == source@ {
                    record
                } else {
                    old(self).state(a, s)
                }),
    {
        let mut list = self.records(addr);
        put_record(&mut list, source, record);
        revisions_insert(&mut self.actor_revisions, addr.as_str().to_owned(), list);
    }

    /// The sources whose revision is not the one that the actor was last refreshed
    /// from, each with its revision. A source that the actor was never refreshed from is
    /// among them.
    pub fn stale_sources_for_actor(&self, zpr_addr: &ZprAddr) -> (r: Vec<(String, u64)>)
        ensures
            stale_views(r@) == stale_among(
                self.sources(),
                |s: Seq<char>| self.state(zpr_addr@, s),
            ),
    {
        let list = self.records(zpr_addr);
        let ghost sources = self.sources();
        let ghost state = |s: Seq<char>| self.state(zpr_addr@, s);
        let mut out: Vec<(String, u64)> = Vec::new();
        let mut i: usize = 0;
        assert(stale_views(out@) =~= stale_among(sources.take(0), state));
        while i < self.services.len()
            invariant
                i <= self.services@.len(),
                sources == source_views(self.services@),
                state == (|s: Seq<char>| self.state(zpr_addr@, s)),
                forall|s: Seq<char>| #[trigger]
                    record_for(records_view(list@), s) == self.state(zpr_addr@, s),
                stale_views(out@) == stale_among(sources.take(i as int), state),
            decreases self.services@.len() - i,
        {
            let id = self.services[i].get_source_id();
            let current: u64 = self.services[i].current_revision();
            let record = find_record(&list, id);
            proof {
                assert(sources.take(i + 1).drop_last() =~= sources.take(i as int));
                assert(sources.take(i + 1).last() == self.services@[i as int].source());
            }
            let fresh = match record.revision {
                Some(seen) => seen == current,
                None => false,
            };
            if !fresh {
                let ghost before = out@;
                out.push((id.to_owned(), current));
                assert(stale_views(out@) =~= stale_views(before).push((id@, current)));
            }
            i = i + 1;
        }
        assert(sources.take(i as int) =~= sources);
        out
    }

    /// Records that the actor was refreshed from a revision of the source, whatever
    /// happened meanwhile.
    pub fn record_revision(&mut self, zpr_addr: &ZprAddr, source: &str, revision: u64)
        ensures
            final(self).stores() == old(self).stores(),
            final(self).sources() == old(self).sources(),
            forall|a: Seq<char>, s: Seq<char>| #[trigger]
                final(self).state(a, s) == (if a == zpr_addr@ && s == source@ {
                    RevisionRecord {
                        revision: Some(revision),
                        generation: old(self).state(a, s).generation,
                    }
                } else {
                    old(self).state(a, s)
                }),
    {
        let generation: u64 = self.invalidation_generation(zpr_addr, source);
        self.set_record(
            zpr_addr,
            source,
            RevisionRecord { revision: Some(revision), generation },
        );
    }

    /// How many changes the source announced for the actor. A refresh takes it before it
    /// asks the source.
    pub fn invalidation_generation(&self, zpr_addr: &ZprAddr, source: &str) -> (r: u64)
        ensures
            r == self.state(zpr_addr@, source@).generation,
    {
        let list = self.records(zpr_addr);
        find_record(&list, source).generation
    }

    /// Records that the actor was refreshed from a revision of the source, unless the
    /// source announced a change since `observed_generation` was taken; says which.
    pub fn record_revision_at_generation(
        &mut self,
        zpr_addr: &ZprAddr,
        source: &str,
        revision: u64,
        observed_generation: u64,
    ) -> (r: bool)
        ensures
            r == (old(self).state(zpr_addr@, source@).generation == observed_generation),
            final(self).stores() == old(self).stores(),
            final(self).sources() == old(self).sources(),
            forall|a: Seq<char>, s: Seq<char>| #[trigger]
                final(self).state(a, s) == (if a == zpr_addr@ && s == source@ {
                    committed(old(self).state(a, s), revision, observed_generation)
                } else {
                    old(self).state(a, s)
                }),
    {
        let generation: u64 = self.invalidation_generation(zpr_addr, source);
        if generation != observed_generation {
            return false;
        }
        self.set_record(
            zpr_addr,
            source,
            RevisionRecord { revision: Some(revision), generation },
        );
        true
    }

    /// Forgets every record of an actor, before its address can be given to another.
    pub fn forget_actor_revisions(&mut self, zpr_addr: &ZprAddr)
        ensures
            final(self).stores() == old(self).stores(),
            final(self).sources() == old(self).sources(),
            forall|a: Seq<char>, s: Seq<char>| #[trigger]
                final(self).state(a, s) == (if a == zpr_addr@ {
                    never()
                } else {
                    old(self).state(a, s)
                }),
    {
        revisions_remove(&mut self.actor_revisions, zpr_addr.as_str());
    }

    /// Takes in that a source announced a change for an actor: the source is stale for
    /// the actor, also for a refresh that is under way. No other record changes.
    pub fn forget_source_revision(&mut self, zpr_addr: &ZprAddr, source: &str)
        requires
            old(self).state(zpr_addr@, source@).generation < u64::MAX,
        ensures
            final(self).stores() == old(self).stores(),
            final(self).sources() == old(self).sources(),
            forall|a: Seq<char>, s: Seq<char>| #[trigger]
                final(self).state(a, s) == (if a == zpr_addr@ && s == source@ {
                    announced(old(self).state(a, s))
                } else {
                    old(self).state(a, s)
                }),
    {
        let generation: u64 = self.invalidation_generation(zpr_addr, source);
        self.set_record(
            zpr_addr,
            source,
            RevisionRecord { revision: None, generation: generation + 1 },
        );
    }

    /// Replaces all services.
    pub fn update_services(&mut self, services: Vec<TrustedStore>)
        ensures
            final(self).stores() == services@,
            final(self).sources() == source_views(services@),
            forall|a: Seq<char>, s: Seq<char>| #[trigger]
                final(self).state(a, s) == old(self).state(a, s),
    {
        self.services = services;
    }

    /// The services in force.
    pub fn services(&self) -> (r: &Vec<TrustedStore>)
        ensures
            r@ == self.stores(),
    {
        &self.services
    }

    /// Takes all services out.
    pub fn take_services(&mut self) -> (r: Vec<TrustedStore>)
        ensures
            r@ == old(self).stores(),
            final(self).stores() == Seq::<TrustedStore>::empty(),
            forall|a: Seq<char>, s: Seq<char>| #[trigger]
                final(self).state(a, s) == old(self).state(a, s),
    {
        let mut out: Vec<TrustedStore> = Vec::new();
        std::mem::swap(&mut self.services, &mut out);
        out
    }

    /// The OIDC service of an issuer.
    pub fn oidc_service_for_issuer(&self, issuer: &str) -> (r: Option<&OidcTrustedService>)
        ensures
            match r {
                Some(service) => exists|i: int|
                    0 <= i < self.stores().len() && #[trigger] self.stores()[i]
                        == TrustedStore::Oidc(*service) && service@.cfg.issuer == issuer@
                        && forall|j: int|
                        0 <= j < i ==> !((#[trigger] self.stores()[j]) matches TrustedStore::Oidc(
                            s,
                        ) && s@.cfg.issuer == issuer@),
                None => forall|j: int|
                    0 <= j < self.stores().len() ==> !((
                    #[trigger] self.stores()[j]) matches TrustedStore::Oidc(s) && s@.cfg.issuer
                        == issuer@),
            },
    {
        let mut i: usize = 0;
        while i < self.services.len()
            invariant
                i <= self.services@.len(),
                forall|j: int|
                    0 <= j < i ==> !((#[trigger] self.stores()[j]) matches TrustedStore::Oidc(s)
                        && s@.cfg.issuer == issuer@),
            decreases self.services@.len() - i,
        {
            assert(self.stores()[i as int] == self.services@[i as int]);
            if let TrustedStore::Oidc(service) = &self.services[i] {
                if text_eq(service.issuer(), issuer) {
                    return Some(service);
                }
            }
            i = i + 1;
        }
        None
    }

    /// Where the first service of a source stands.
    fn find_source(&self, source: &str) -> (r: Option<usize>)
        ensures
            match r {
                Some(i) => first_source(self.sources(), source@, i as int) && i
                    < self.services@.len(),
                None => !offers(self.sources(), source@),
            },
    {
        let ghost sources = self.sources();
        let mut i: usize = 0;
        while i < self.services.len()
            invariant
                i <= self.services@.len(),
                sources == source_views(self.services@),
                forall|j: int| 0 <= j < i ==> (#[trigger] sources[j]).id != source@,
            decreases self.services@.len() - i,
        {
            assert(sources[i as int] == self.services@[i as int].source());
            if text_eq(self.services[i].get_source_id(), source) {
                return Some(i);
            }
            i = i + 1;
        }
        None
    }

    /// Whether a service of this source is in force.
    pub fn has_source(&self, source_ident: &str) -> (r: bool)
        ensures
            r == offers(self.sources(), source_ident@),
    {
        match self.find_source(source_ident) {
            Some(i) => {
                assert(self.sources()[i as int].id == source_ident@);
                true
            },
            None => false,
        }
    }

    /// Where the very store stands that a mark stands for, if it is still in force.
    pub fn place_of(&self, mark: &StoreMark) -> (r: Option<usize>)
        ensures
            match r {
                Some(i) => i < self.stores().len() && is_marked(self.stores()[i as int], mark@)
                    && forall|j: int|
                    0 <= j < i ==> !is_marked(#[trigger] self.stores()[j], mark@),
                None => forall|j: int|
                    0 <= j < self.stores().len() ==> !is_marked(
                        #[trigger] self.stores()[j],
                        mark@,
                    ),
            },
    {
        let mut i: usize = 0;
        while i < self.services.len()
            invariant
                i <= self.services@.len(),
                forall|j: int| 0 <= j < i ==> !is_marked(#[trigger] self.services@[j], mark@),
            decreases self.services@.len() - i,
        {
            if self.services[i].born() == mark.born && text_eq(
                self.services[i].get_source_id(),
                mark.definition.id(),
            ) {
                return Some(i);
            }
            i = i + 1;
        }
        None
    }

    /// How many services are in force.
    pub fn len(&self) -> (r: usize)
        ensures
            r == self.stores().len(),
            r == self.sources().len(),
    {
        self.services.len()
    }

    /// The service at a place.
    pub fn service(&self, i: usize) -> (r: &TrustedStore)
        requires
            i < self.stores().len(),
        ensures
            *r == self.stores()[i as int],
    {
        &self.services[i]
    }

    /// Takes the first step of asking the service at a place for an actor's attributes.
    pub fn ask_service(&mut self, i: usize, identities: &Vec<(String, String)>, now: Timestamp) -> (r:
        Asked)
        requires
            i < old(self).stores().len(),
        ensures
            asked(
                old(self).stores()[i as int],
                pair_views(identities@),
                now as int,
                i as int,
                r,
                final(self).stores()[i as int],
            ),
            same_but(old(self).stores(), final(self).stores(), i as int),
            forall|a: Seq<char>, s: Seq<char>| #[trigger]
                final(self).state(a, s) == old(self).state(a, s),
    {
        ask_store(&mut self.services, i, identities, now)
    }

    /// Takes the first step of asking each of the given services for an actor's
    /// attributes. Each outcome stands beside the source of the service it came from.
    pub fn get_attributes_for_actor_from(
        services: &mut Vec<TrustedStore>,
        identities: &Vec<(String, String)>,
        now: Timestamp,
    ) -> (r: Vec<(String, Asked)>)
        ensures
            r@.len() == old(services)@.len(),
            final(services)@.len() == old(services)@.len(),
            forall|i: int|
                #![trigger r@[i]]
                #![trigger final(services)@[i]]
                0 <= i < r@.len() ==> r@[i].0@ == old(services)@[i].source().id && asked(
                    old(services)@[i],
                    pair_views(identities@),
                    now as int,
                    i,
                    r@[i].1,
                    final(services)@[i],
                ),
    {
        let mut out: Vec<(String, Asked)> = Vec::new();
        let mut i: usize = 0;
        while i < services.len()
            invariant
                i <= services@.len(),
                services@.len() == old(services)@.len(),
                out@.len() == i,
                forall|j: int|
                    #![trigger out@[j]]
                    #![trigger services@[j]]
                    0 <= j < i ==> out@[j].0@ == old(services)@[j].source().id && asked(
                        old(services)@[j],
                        pair_views(identities@),
                        now as int,
                        j,
                        out@[j].1,
                        services@[j],
                    ),
                forall|j: int|
                    i <= j < services@.len() ==> (#[trigger] services@[j]) == old(services)@[j],
            decreases services@.len() - i,
        {
            let id = services[i].get_source_id().to_owned();
            let step = ask_store(services, i, identities, now);
            out.push((id, step));
            i = i + 1;
        }
        out
    }

    /// Takes the first step of asking the service of a source for an actor's attributes.
    pub fn get_attributes_from_source_for_actor(
        &mut self,
        source_ident: &str,
        identities: &Vec<(String, String)>,
        now: Timestamp,
    ) -> (r: Asked)
        ensures
            !offers(old(self).sources(), source_ident@) ==> {
                &&& r matches Asked::Answered(Err(e))
                &&& e@ == ServiceErrorView::TrustedServiceNotFound(source_ident@)
                &&& final(self).stores() == old(self).stores()
            },
            offers(old(self).sources(), source_ident@) ==> exists|i: int|
                {
                    &&& #[trigger] first_source(old(self).sources(), source_ident@, i)
                    &&& asked(
                        old(self).stores()[i],
                        pair_views(identities@),
                        now as int,
                        i,
                        r,
                        final(self).stores()[i],
                    )
                    &&& same_but(old(self).stores(), final(self).stores(), i)
                },
            forall|a: Seq<char>, s: Seq<char>| #[trigger]
                final(self).state(a, s) == old(self).state(a, s),
    {
        match self.find_source(source_ident) {
            Some(i) => {
                assert(self.sources()[i as int].id == source_ident@);
                self.ask_service(i, identities, now)
            },
            None => Asked::Answered(
                Err(ServiceError::TrustedServiceNotFound(source_ident.to_owned())),
            ),
        }
    }

    fn flush_at(&mut self, i: usize, counter: &mut RevisionCounter)
        requires
            i < old(self).services@.len(),
        ensures
            flushed(
                old(self).services@[i as int],
                final(self).services@[i as int],
                old(counter).next,
            ),
            same_but(old(self).services@, final(self).services@, i as int),
            final(self).actor_revisions == old(self).actor_revisions,
            final(counter).next == next_after(old(counter).next),
    {
        let ghost before = self.services@;
        let taken = self.services.remove(i);
        let renewed = taken.flush(counter);
        self.services.insert(i, renewed);
        proof {
            assert forall|j: int| 0 <= j < before.len() && j != i implies (
            #[trigger] self.services@[j]) == before[j] by {}
        }
    }

    /// Flushes every service, one after the other.
    pub fn flush_all(&mut self, counter: &mut RevisionCounter) -> (r: Vec<Result<(), ServiceError>>)
        ensures
            r@.len() == old(self).stores().len(),
            forall|i: int| 0 <= i < r@.len() ==> (#[trigger] r@[i]) is Ok,
            final(self).stores().len() == old(self).stores().len(),
            forall|i: int|
                0 <= i < old(self).stores().len() ==> flushed(
                    old(self).stores()[i],
                    #[trigger] final(self).stores()[i],
                    revision_after(old(counter).next, i as nat),
                ),
            final(counter).next == revision_after(old(counter).next, old(self).stores().len()),
            forall|a: Seq<char>, s: Seq<char>| #[trigger]
                final(self).state(a, s) == old(self).state(a, s),
    {
        let mut out: Vec<Result<(), ServiceError>> = Vec::new();
        let mut i: usize = 0;
        while i < self.services.len()
            invariant
                i <= self.services@.len(),
                self.services@.len() == old(self).services@.len(),
                out@.len() == i,
                forall|j: int| 0 <= j < out@.len() ==> (#[trigger] out@[j]) is Ok,
                counter.next == revision_after(old(counter).next, i as nat),
                self.actor_revisions == old(self).actor_revisions,
                forall|j: int|
                    0 <= j < i ==> flushed(
                        old(self).services@[j],
                        #[trigger] self.services@[j],
                        revision_after(old(counter).next, j as nat),
                    ),
                forall|j: int|
                    i <= j < self.services@.len() ==> (#[trigger] self.services@[j]) == old(
                        self,
                    ).services@[j],
            decreases self.services@.len() - i,
        {
            self.flush_at(i, counter);
            out.push(Ok(()));
            i = i + 1;
        }
        out
    }

    /// Flushes the service of a source.
    pub fn flush_one(&mut self, source_ident: &str, counter: &mut RevisionCounter) -> (r: Result<
        (),
        ServiceError,
    >)
        ensures
            match r {
                Ok(()) => exists|i: int|
                    {
                        &&& #[trigger] first_source(old(self).sources(), source_ident@, i)
                        &&& flushed(
                            old(self).stores()[i],
                            final(self).stores()[i],
                            old(counter).next,
                        )
                        &&& same_but(old(self).stores(), final(self).stores(), i)
                        &&& final(counter).next == next_after(old(counter).next)
                    },
                Err(e) => !offers(old(self).sources(), source_ident@) && e@
                    == ServiceErrorView::TrustedServiceNotFound(source_ident@)
                    && final(self).stores() == old(self).stores() && *final(counter) == *old(
                    counter,
                ),
            },
            forall|a: Seq<char>, s: Seq<char>| #[trigger]
                final(self).state(a, s) == old(self).state(a, s),
    {
        match self.find_source(source_ident) {
            Some(i) => {
                self.flush_at(i, counter);
                Ok(())
            },
            None => Err(ServiceError::TrustedServiceNotFound(source_ident.to_owned())),
        }
    }
}

/// The revision that a counter at `first` hands out after `n` others.
pub open spec fn revision_after(first: u64, n: nat) -> u64
    decreases n,
{
    if n == 0 {
        first
    } else {
        next_after(revision_after(first, (n - 1) as nat))
    }
}

/// A refresh that began before the source announced a change does not count: the
/// source stays stale for the actor, whatever revision the refresh saw.
pub proof fn law_announced_change_outlasts_a_refresh(
    r: RevisionRecord,
    revision: u64,
    current: u64,
)
    requires
        r.generation < u64::MAX,
    ensures
        committed(announced(r), revision, r.generation) == announced(r),
        committed(announced(r), revision, r.generation).revision != Some(current),
        announced(r).generation > r.generation,
{
}

/// A refresh that began after the last announced change counts: the source is not stale
/// for the actor as long as it stays at the revision that was seen.
pub proof fn law_refresh_brings_up_to_date(r: RevisionRecord, revision: u64)
    ensures
        committed(r, revision, r.generation).revision == Some(revision),
        committed(r, revision, r.generation).generation == r.generation,
{
}

/// A source is reported stale exactly where its revision is not the one that the actor
/// was last refreshed from.
pub proof fn law_stale_is_what_differs(
    sources: Seq<SourceView>,
    state: spec_fn(Seq<char>) -> RevisionRecord,
    id: Seq<char>,
    revision: u64,
)
    ensures
        stale_among(sources, state).contains((id, revision)) <==> (state(id).revision != Some(
            revision,
        ) && sources.contains(SourceView { id, revision })),
    decreases sources.len(),
{
    let pair = (id, revision);
    let wanted = SourceView { id, revision };
    if sources.len() > 0 {
        let rest = sources.drop_last();
        let before = stale_among(rest, state);
        law_stale_is_what_differs(rest, state, id, revision);
        let s = sources.last();
        let now = stale_among(sources, state);
        if state(s.id).revision == Some(s.revision) {
            assert(now == before);
        } else {
            assert(now == before.push((s.id, s.revision)));
            if before.contains(pair) {
                let i = choose|i: int| 0 <= i < before.len() && before[i] == pair;
                assert(now[i] == pair);
            }
            assert(now[before.len() as int] == (s.id, s.revision));
        }
        if rest.contains(wanted) {
            let i = choose|i: int| 0 <= i < rest.len() && rest[i] == wanted;
            assert(sources[i] == wanted);
        }
        if sources.contains(wanted) && s != wanted {
            let i = choose|i: int| 0 <= i < sources.len() && sources[i] == wanted;
            assert(rest[i] == wanted);
        }
        assert(sources[sources.len() - 1] == s);
    }
}

/// A flush makes the source stale for every actor that was not refreshed from the new
/// revision.
pub proof fn law_flush_outdates_every_refresh(
    before: TrustedStore,
    after: TrustedStore,
    revision: u64,
    sources: Seq<SourceView>,
    state: spec_fn(Seq<char>) -> RevisionRecord,
)
    requires
        flushed(before, after, revision),
        sources.contains(after.source()),
        state(before.source().id).revision != Some(revision),
    ensures
        stale_among(sources, state).contains((before.source().id, revision)),
{
    assert(after.source() == (SourceView { id: before.source().id, revision }));
    law_stale_is_what_differs(sources, state, before.source().id, revision);
}

/// The counter hands out no revision twice before it has handed out the last one.
pub proof fn law_revisions_are_not_handed_out_twice(first: u64, m: nat, n: nat)
    requires
        m < n,
        first + n <= u64::MAX,
    ensures
        revision_after(first, m) == first + m,
        revision_after(first, m) < revision_after(first, n),
{
    lemma_revision_after(first, m);
    lemma_revision_after(first, n);
}

proof fn lemma_revision_after(first: u64, n: nat)
    requires
        first + n <= u64::MAX,
    ensures
        revision_after(first, n) == first + n,
    decreases n,
{
    if n > 0 {
        lemma_revision_after(first, (n - 1) as nat);
    }
}

/// A store stays the same store when it is asked and when it is flushed: a mark that stands
/// for it stands for it afterwards, and no other mark does.
pub proof fn law_stores_keep_their_marks(
    before: TrustedStore,
    after: TrustedStore,
    identities: Seq<(Seq<char>, Seq<char>)>,
    now: int,
    place: int,
    answer: Asked,
    revision: u64,
    mark: MarkView,
)
    requires
        flushed(before, after, revision) || asked(before, identities, now, place, answer, after),
    ensures
        is_marked(after, mark) == is_marked(before, mark),
{
}

/// A flush empties a provider's store of all that was admitted and of all sessions, and gives
/// every store the new revision. Name, configuration and mappings stay.
pub proof fn law_flush_forgets_and_renews(before: TrustedStore, after: TrustedStore, revision: u64)
    requires
        flushed(before, after, revision),
    ensures
        after.source().id == before.source().id,
        after.source().revision == revision,
        before matches TrustedStore::Oidc(s) ==> (after matches TrustedStore::Oidc(t) && (forall|
            sub: Seq<char>,
        |
            !#[trigger] t@.admitted.contains_key(sub)) && (forall|id: Seq<char>|
            !#[trigger] t@.sessions.contains_key(id)) && t@.cfg == s@.cfg && t@.mapper == s@.mapper
            && t@.expiration_seconds == s@.expiration_seconds),
        before matches TrustedStore::AttrQuery(s) ==> (after matches TrustedStore::AttrQuery(t)
            && t@.mapper == s@.mapper && t@.token == s@.token && t@.query_url == s@.query_url
            && t@.schema_url == s@.schema_url && t@.expiration == s@.expiration),
        before is File ==> after is File,
{
}

/// What an actor is recorded with is the first record of the source; without one it has never
/// been refreshed from it.
pub proof fn law_record_is_the_first_of_its_source(
    list: Seq<(Seq<char>, RevisionRecord)>,
    source: Seq<char>,
    i: int,
)
    ensures
        0 <= i < list.len() && list[i].0 == source && (forall|j: int|
            0 <= j < i ==> (#[trigger] list[j]).0 != source) ==> record_for(list, source)
            == list[i].1,
        (forall|j: int| 0 <= j < list.len() ==> (#[trigger] list[j]).0 != source) ==> record_for(
            list,
            source,
        ) == (RevisionRecord { revision: None, generation: 0 }),
    decreases list.len(),
{
    if list.len() > 0 {
        let rest = list.drop_first();
        law_record_is_the_first_of_its_source(rest, source, i - 1);
        if list[0].0 != source {
            if 0 < i < list.len() {
                assert(rest[i - 1] == list[i]);
                if forall|j: int| 0 <= j < i ==> (#[trigger] list[j]).0 != source {
                    assert forall|j: int| 0 <= j < i - 1 implies (#[trigger] rest[j]).0
                        != source by {
                        assert(rest[j] == list[j + 1]);
                    }
                }
            }
            if forall|j: int| 0 <= j < list.len() ==> (#[trigger] list[j]).0 != source {
                assert forall|j: int| 0 <= j < rest.len() implies (#[trigger] rest[j]).0
                    != source by {
                    assert(rest[j] == list[j + 1]);
                }
            }
        } else {
            assert(list[0].0 == source);
        }
    }
}

} // verus!
