//! The sweep over connected adapters whose authentication has expired.
//!
//! A pass first collects the expired adapters by the node they are docked at. Then it
//! revokes them, with one request for each node, and drops an adapter only after its node
//! has acknowledged, and only if the adapter was not renewed meanwhile. What cannot be
//! done is left for the next pass.
use vstd::prelude::*;

use crate::db::addr::{addr_lt, ZprAddr};
use crate::db::ip::{ip_lt, ip_of, lemma_ip_lt_total, lemma_ip_lt_transitive};
use crate::time::Timestamp;

verus! {

/// What a pass did.
#[derive(Debug, Clone, Copy, PartialEq, Eq, Structural)]
pub struct SweepStats {
    /// Adapters looked at.
    pub checked: usize,
    /// Adapters revoked and dropped.
    pub revoked: usize,
    /// Expired adapters left for the next pass.
    pub deferred: usize,
}

/// What was found of an adapter that is listed as connected.
#[derive(Debug)]
pub enum Observation {
    /// It is gone.
    Missing,
    /// It could not be loaded.
    Failed,
    /// It is there.
    Loaded {
        /// When its authentication expires, and the credential that decides it.
        expiry: Option<(Timestamp, String)>,
        /// The node it is docked at.
        node: Option<ZprAddr>,
    },
}

/// An adapter whose authentication has expired.
#[derive(Debug)]
pub struct Expired {
    pub addr: ZprAddr,
    pub expiry: Timestamp,
    pub gate: String,
}

/// An expired adapter as mathematical data.
pub struct ExpiredView {
    pub addr: Seq<char>,
    pub expiry: int,
    pub gate: Seq<char>,
}

impl View for Expired {
    type V = ExpiredView;

    open spec fn view(&self) -> ExpiredView {
        ExpiredView { addr: self.addr@, expiry: self.expiry as int, gate: self.gate@ }
    }
}

/// The expired adapters that are docked at one node.
#[derive(Debug)]
pub struct Batch {
    pub node: ZprAddr,
    pub expired: Vec<Expired>,
}

/// The expired adapters of one node as mathematical data.
pub struct BatchView {
    pub node: Seq<char>,
    pub expired: Seq<ExpiredView>,
}

impl View for Batch {
    type V = BatchView;

    open spec fn view(&self) -> BatchView {
        BatchView { node: self.node@, expired: self.expired@.map_values(|e: Expired| e@) }
    }
}

/// Batches as mathematical data.
pub open spec fn batch_views(list: Seq<Batch>) -> Seq<BatchView> {
    list.map_values(|b: Batch| b@)
}

/// The batches with one more expired adapter: in the batch of its node, or in a new one.
/// Batches come in the order of the addresses of their nodes.
pub open spec fn placed(batches: Seq<BatchView>, node: Seq<char>, e: ExpiredView) -> Seq<BatchView>
    decreases batches.len(),
{
    if batches.len() == 0 {
        seq![BatchView { node, expired: seq![e] }]
    } else if batches[0].node == node {
        seq![BatchView { node, expired: batches[0].expired.push(e) }] + batches.drop_first()
    } else if addr_lt(node, batches[0].node) {
        seq![BatchView { node, expired: seq![e] }] + batches
    } else {
        seq![batches[0]] + placed(batches.drop_first(), node, e)
    }
}

/// The observation of an expired adapter that is docked at a node.
pub open spec fn to_revoke(addr: Seq<char>, o: Observation, now: int) -> Option<
    (Seq<char>, ExpiredView),
> {
    match o {
        Observation::Loaded { expiry: Some((t, gate)), node: Some(node) } if t <= now => Some(
            (node@, ExpiredView { addr, expiry: t as int, gate: gate@ }),
        ),
        _ => None,
    }
}

/// The observation of an expired adapter that is docked nowhere.
pub open spec fn is_adrift(o: Observation, now: int) -> bool {
    o matches Observation::Loaded { expiry: Some((t, _)), node: None } && t <= now
}

/// What the first part of a pass makes of what was found, one adapter after the other.
pub open spec fn collected(found: Seq<(ZprAddr, Observation)>, now: int) -> Seq<BatchView>
    decreases found.len(),
{
    if found.len() == 0 {
        Seq::empty()
    } else {
        let before = collected(found.drop_last(), now);
        match to_revoke(found.last().0@, found.last().1, now) {
            Some((node, e)) => placed(before, node, e),
            None => before,
        }
    }
}

/// How many adapters were there.
pub open spec fn loaded(found: Seq<(ZprAddr, Observation)>) -> nat
    decreases found.len(),
{
    if found.len() == 0 {
        0
    } else {
        loaded(found.drop_last()) + if found.last().1 is Loaded {
            1nat
        } else {
            0nat
        }
    }
}

/// How many expired adapters are docked nowhere.
pub open spec fn adrift(found: Seq<(ZprAddr, Observation)>, now: int) -> nat
    decreases found.len(),
{
    if found.len() == 0 {
        0
    } else {
        adrift(found.drop_last(), now) + if is_adrift(found.last().1, now) {
            1nat
        } else {
            0nat
        }
    }
}

/// How many adapters the batches hold.
pub open spec fn total(batches: Seq<BatchView>) -> nat
    decreases batches.len(),
{
    if batches.len() == 0 {
        0
    } else {
        batches[0].expired.len() + total(batches.drop_first())
    }
}

/// No two batches are of one node.
pub open spec fn distinct_nodes(batches: Seq<BatchView>) -> bool {
    forall|i: int, j: int|
        0 <= i < j < batches.len() ==> (#[trigger] batches[i]).node != (#[trigger] batches[j]).node
}

/// No batch comes after one of a node with a later address.
pub open spec fn in_order(batches: Seq<BatchView>) -> bool {
    forall|i: int, j: int|
        0 <= i < j < batches.len() ==> !addr_lt(
            (#[trigger] batches[j]).node,
            (#[trigger] batches[i]).node,
        )
}

/// No batch is empty.
pub open spec fn all_filled(batches: Seq<BatchView>) -> bool {
    forall|i: int| 0 <= i < batches.len() ==> (#[trigger] batches[i]).expired.len() > 0
}

proof fn lemma_placed_filled(batches: Seq<BatchView>, node: Seq<char>, e: ExpiredView)
    requires
        all_filled(batches),
    ensures
        all_filled(placed(batches, node, e)),
    decreases batches.len(),
{
    if batches.len() > 0 {
        let rest = batches.drop_first();
        assert forall|i: int| 0 <= i < rest.len() implies (#[trigger] rest[i]).expired.len()
            > 0 by {
            assert(rest[i] == batches[i + 1]);
        }
        lemma_placed_filled(rest, node, e);
        let after = placed(batches, node, e);
        let tail = placed(rest, node, e);
        assert forall|i: int| 0 <= i < after.len() implies (#[trigger] after[i]).expired.len()
            > 0 by {
            if batches[0].node == node {
                if i > 0 {
                    assert(after[i] == batches[i]);
                }
            } else if addr_lt(node, batches[0].node) {
                if i > 0 {
                    assert(after[i] == batches[i - 1]);
                }
            } else if i > 0 {
                assert(after[i] == tail[i - 1]);
            } else {
                assert(after[0] == batches[0]);
            }
        }
    }
}

proof fn lemma_placed(batches: Seq<BatchView>, node: Seq<char>, e: ExpiredView)
    requires
        distinct_nodes(batches),
        in_order(batches),
    ensures
        total(placed(batches, node, e)) == total(batches) + 1,
        distinct_nodes(placed(batches, node, e)),
        in_order(placed(batches, node, e)),
        forall|i: int|
            0 <= i < placed(batches, node, e).len() ==> (#[trigger] placed(
                batches,
                node,
                e,
            )[i]).node == node || exists|j: int|
                0 <= j < batches.len() && (#[trigger] batches[j]).node == placed(
                    batches,
                    node,
                    e,
                )[i].node,
    decreases batches.len(),
{
    let after = placed(batches, node, e);
    if batches.len() == 0 {
        assert(after.drop_first() =~= Seq::<BatchView>::empty());
        assert(total(after.drop_first()) == 0);
        assert(after[0].expired.len() == 1);
    } else if batches[0].node == node {
        assert(after.drop_first() =~= batches.drop_first());
        assert(after[0].expired.len() == batches[0].expired.len() + 1);
        assert forall|i: int, j: int| 0 <= i < j < after.len() implies (#[trigger] after[i]).node
            != (#[trigger] after[j]).node by {
            assert(after[j] == batches[j]);
            if i > 0 {
                assert(after[i] == batches[i]);
            }
        }
        assert forall|i: int, j: int| 0 <= i < j < after.len() implies !addr_lt(
            (#[trigger] after[j]).node,
            (#[trigger] after[i]).node,
        ) by {
            assert(after[j] == batches[j]);
            assert(after[i].node == batches[i].node);
        }
        assert forall|i: int| 0 <= i < after.len() implies (#[trigger] after[i]).node == node
            || exists|j: int| 0 <= j < batches.len() && (#[trigger] batches[j]).node
            == after[i].node by {
            if i > 0 {
                assert(after[i] == batches[i]);
            }
        }
    } else if addr_lt(node, batches[0].node) {
        assert(after.drop_first() =~= batches);
        assert(after[0].expired.len() == 1);
        assert forall|i: int, j: int| 0 <= i < j < after.len() implies (#[trigger] after[i]).node
            != (#[trigger] after[j]).node && !addr_lt(after[j].node, after[i].node) by {
            assert(after[j] == batches[j - 1]);
            if i > 0 {
                assert(after[i] == batches[i - 1]);
            } else {
                lemma_comes_before(node, batches[0].node, after[j].node);
            }
        }
        assert forall|i: int| 0 <= i < after.len() implies (#[trigger] after[i]).node == node
            || exists|j: int| 0 <= j < batches.len() && (#[trigger] batches[j]).node
            == after[i].node by {
            if i > 0 {
                assert(after[i] == batches[i - 1]);
            }
        }
    } else {
        let rest = batches.drop_first();
        assert forall|i: int, j: int| 0 <= i < j < rest.len() implies (#[trigger] rest[i]).node
            != (#[trigger] rest[j]).node by {
            assert(rest[i] == batches[i + 1] && rest[j] == batches[j + 1]);
        }
        assert forall|i: int, j: int| 0 <= i < j < rest.len() implies !addr_lt(
            (#[trigger] rest[j]).node,
            (#[trigger] rest[i]).node,
        ) by {
            assert(rest[i] == batches[i + 1] && rest[j] == batches[j + 1]);
        }
        lemma_placed(rest, node, e);
        let tail = placed(rest, node, e);
        assert(after.drop_first() =~= tail);
        assert(after[0] == batches[0]);
        assert forall|i: int| 0 <= i < after.len() implies (#[trigger] after[i]).node == node
            || exists|j: int| 0 <= j < batches.len() && (#[trigger] batches[j]).node
            == after[i].node by {
            if i == 0 {
                assert(batches[0].node == after[0].node);
            } else {
                assert(after[i] == tail[i - 1]);
                if tail[i - 1].node != node {
                    let j = choose|j: int|
                        0 <= j < rest.len() && (#[trigger] rest[j]).node == tail[i - 1].node;
                    assert(batches[j + 1] == rest[j]);
                }
            }
        }
        assert forall|i: int, j: int| 0 <= i < j < after.len() implies (#[trigger] after[i]).node
            != (#[trigger] after[j]).node && !addr_lt(after[j].node, after[i].node) by {
            assert(after[j] == tail[j - 1]);
            if i > 0 {
                assert(after[i] == tail[i - 1]);
            } else if tail[j - 1].node != node {
                let k = choose|k: int|
                    0 <= k < rest.len() && (#[trigger] rest[k]).node == tail[j - 1].node;
                assert(rest[k] == batches[k + 1]);
            }
        }
    }
}

/// What does not come before the second does not come before the first either.
proof fn lemma_comes_before(a: Seq<char>, b: Seq<char>, c: Seq<char>)
    requires
        addr_lt(a, b),
        c == b || !addr_lt(c, b),
    ensures
        !addr_lt(c, a),
        c != a,
{
    let (x, y, z) = (ip_of(a)->0, ip_of(b)->0, ip_of(c)->0);
    lemma_ip_lt_total(x, y);
    if ip_lt(z, x) {
        lemma_ip_lt_transitive(z, x, y);
        lemma_ip_lt_total(y, y);
    }
}

/// Puts an expired adapter into the batch of its node.
fn place(batches: &mut Vec<Batch>, node: &ZprAddr, e: Expired)
    ensures
        batch_views(final(batches)@) == placed(batch_views(old(batches)@), node@, e@),
{
    let ghost before = batch_views(batches@);
    let ghost entry = e@;
    let mut i: usize = 0;
    while i < batches.len() && !batches[i].node.same(node) && !node.before(&batches[i].node)
        invariant
            *batches == *old(batches),
            before == batch_views(batches@),
            i <= batches@.len(),
            forall|j: int| 0 <= j < i ==> passed(#[trigger] before[j], node@),
        decreases batches@.len() - i,
    {
        assert(before[i as int] == batches@[i as int]@);
        i = i + 1;
    }
    if i < batches.len() && batches[i].node.same(node) {
        assert(before[i as int] == batches@[i as int]@);
        let mut batch = batches.remove(i);
        assert(batch@ == before[i as int]);
        batch.expired.push(e);
        assert(batch@.expired =~= before[i as int].expired.push(entry));
        batches.insert(i, batch);
        proof {
            let after = batch_views(batches@);
            assert(after =~= before.update(i as int, batch@));
            lemma_place_into(before, node@, entry, i as int);
        }
    } else {
        let mut expired: Vec<Expired> = Vec::new();
        expired.push(e);
        let batch = Batch { node: node.copy(), expired };
        assert(batch@.expired =~= seq![entry]);
        proof {
            if i < batches@.len() {
                assert(before[i as int] == batches@[i as int]@);
            }
        }
        batches.insert(i, batch);
        proof {
            let after = batch_views(batches@);
            assert(after =~= before.insert(i as int, batch@));
            lemma_place_between(before, node@, entry, i as int);
        }
    }
}

/// The batch of another node, which does not come behind that of the given one.
spec fn passed(b: BatchView, node: Seq<char>) -> bool {
    b.node != node && !addr_lt(node, b.node)
}

proof fn lemma_place_into(before: Seq<BatchView>, node: Seq<char>, e: ExpiredView, i: int)
    requires
        0 <= i < before.len(),
        forall|j: int| 0 <= j < i ==> passed(#[trigger] before[j], node),
        before[i].node == node,
    ensures
        placed(before, node, e) == before.update(
            i,
            BatchView { node, expired: before[i].expired.push(e) },
        ),
    decreases before.len(),
{
    let after = before.update(i, BatchView { node, expired: before[i].expired.push(e) });
    if i == 0 {
        assert(placed(before, node, e) =~= after);
    } else {
        let b = before.drop_first();
        assert(passed(before[0], node));
        assert forall|j: int| 0 <= j < i - 1 implies passed(#[trigger] b[j], node) by {
            assert(b[j] == before[j + 1]);
        }
        assert(b[i - 1] == before[i]);
        lemma_place_into(b, node, e, i - 1);
        assert(placed(before, node, e) =~= after);
    }
}

proof fn lemma_place_between(before: Seq<BatchView>, node: Seq<char>, e: ExpiredView, i: int)
    requires
        0 <= i <= before.len(),
        forall|j: int| 0 <= j < i ==> passed(#[trigger] before[j], node),
        i < before.len() ==> before[i].node != node && addr_lt(node, before[i].node),
    ensures
        placed(before, node, e) == before.insert(i, BatchView { node, expired: seq![e] }),
    decreases before.len(),
{
    let after = before.insert(i, BatchView { node, expired: seq![e] });
    if i == 0 {
        assert(placed(before, node, e) =~= after);
    } else {
        let b = before.drop_first();
        assert(passed(before[0], node));
        assert forall|j: int| 0 <= j < i - 1 implies passed(#[trigger] b[j], node) by {
            assert(b[j] == before[j + 1]);
        }
        if i < before.len() {
            assert(b[i - 1] == before[i]);
        }
        lemma_place_between(b, node, e, i - 1);
        assert(placed(before, node, e) =~= after);
    }
}

/// How far the batch in hand has come.
#[derive(Debug, Clone, Copy, PartialEq, Eq, Structural)]
pub enum Phase {
    /// No batch is in hand.
    Idle,
    /// The node was asked to revoke the batch and has not answered.
    Asked,
    /// The node acknowledged, and adapters of the batch are still to be settled.
    Settling,
}

/// A pass under way.
#[derive(Debug)]
pub struct Sweep {
    pub stats: SweepStats,
    /// The batches that are still to be revoked.
    pub batches: Vec<Batch>,
    /// The adapters of the batch in hand that are not settled, in order.
    pub current: Vec<Expired>,
    pub phase: Phase,
}

/// A pass under way as mathematical data.
pub struct SweepView {
    pub checked: int,
    pub revoked: int,
    pub deferred: int,
    pub waiting: Seq<BatchView>,
    pub current: Seq<ExpiredView>,
    pub phase: Phase,
}

impl View for Sweep {
    type V = SweepView;

    open spec fn view(&self) -> SweepView {
        SweepView {
            checked: self.stats.checked as int,
            revoked: self.stats.revoked as int,
            deferred: self.stats.deferred as int,
            waiting: batch_views(self.batches@),
            current: self.current@.map_values(|e: Expired| e@),
            phase: self.phase,
        }
    }
}

/// The request to revoke the adapters of one batch at their node.
#[derive(Debug)]
pub struct RevokeRequest {
    pub node: ZprAddr,
    pub addrs: Vec<ZprAddr>,
}

/// Whether the authentication of an adapter still stands where the acknowledgement left
/// it.
#[derive(Debug)]
pub enum Reload {
    /// The adapter is gone.
    Missing,
    /// It could not be loaded.
    Failed,
    /// It is there, with this expiry.
    Stored(Option<Timestamp>),
}

/// What is to be done with an expired adapter whose node acknowledged.
#[derive(Debug, Clone, Copy, PartialEq, Eq, Structural)]
pub enum Verdict {
    /// Nothing: it is gone already.
    Gone,
    /// Leave it for the next pass.
    Defer,
    /// Keep it: it was renewed meanwhile.
    Renewed,
    /// Drop it.
    Remove,
}

/// What is to be done with an adapter, given what is stored of it after the
/// acknowledgement: it is dropped only where its authentication still expires at the time
/// that was seen before.
pub open spec fn verdict_on(e: ExpiredView, reload: Reload) -> Verdict {
    match reload {
        Reload::Missing => Verdict::Gone,
        Reload::Failed => Verdict::Defer,
        Reload::Stored(Some(t)) if t == e.expiry => Verdict::Remove,
        Reload::Stored(_) => Verdict::Renewed,
    }
}

/// What happens in the second part of a pass.
pub enum SweepEvent {
    /// The next batch is taken in hand.
    Taken,
    /// The node of the batch in hand has answered, or could not be asked: whether it
    /// acknowledged.
    Answered(bool),
    /// The first open adapter of the batch in hand is settled: what was stored of it, and
    /// whether it was dropped where it was to be.
    Settled { reload: Reload, removed: bool },
}

/// The phase of a batch whose node acknowledged, with the adapters that are still open.
pub open spec fn settling(current: Seq<ExpiredView>) -> Phase {
    if current.len() > 0 {
        Phase::Settling
    } else {
        Phase::Idle
    }
}

/// What an event makes of a pass. Nobody is settled without the node's acknowledgement, and
/// without it the whole batch is left for the next pass.
pub open spec fn step(before: SweepView, event: SweepEvent, after: SweepView) -> bool {
    match event {
        SweepEvent::Taken => {
            &&& before.phase == Phase::Idle
            &&& before.waiting.len() > 0
            &&& after == (SweepView {
                waiting: before.waiting.drop_first(),
                current: before.waiting[0].expired,
                phase: Phase::Asked,
                ..before
            })
        },
        SweepEvent::Answered(acknowledged) => {
            &&& before.phase == Phase::Asked
            &&& after == (if acknowledged {
                SweepView { phase: Phase::Settling, ..before }
            } else {
                SweepView {
                    deferred: before.deferred + before.current.len(),
                    current: Seq::empty(),
                    phase: Phase::Idle,
                    ..before
                }
            })
        },
        SweepEvent::Settled { reload, removed } => {
            &&& before.phase == Phase::Settling
            &&& before.current.len() > 0
            &&& after == (SweepView {
                revoked: before.revoked + (if removes(before, event) {
                    1int
                } else {
                    0int
                }),
                deferred: before.deferred + (if verdict_on(before.current[0], reload)
                    == Verdict::Defer {
                    1int
                } else {
                    0int
                }),
                current: before.current.drop_first(),
                phase: settling(before.current.drop_first()),
                ..before
            })
        },
    }
}

/// The event is that an adapter was dropped.
pub open spec fn removes(before: SweepView, event: SweepEvent) -> bool {
    event matches SweepEvent::Settled { reload, removed } && removed && verdict_on(
        before.current[0],
        reload,
    ) == Verdict::Remove
}

/// The parts of a pass that fit together: every adapter that was looked at is counted at
/// most once among the revoked, the deferred and those still to be settled.
pub open spec fn accounted(s: SweepView) -> bool {
    s.revoked + s.deferred + s.current.len() + total(s.waiting) <= s.checked
}

impl Sweep {
    /// Every adapter that was looked at is counted at most once, no batch is empty, and
    /// adapters are open exactly while a batch is in hand.
    pub open spec fn wf(self) -> bool {
        &&& accounted(self@)
        &&& all_filled(self@.waiting)
        &&& self.phase == Phase::Idle <==> self.current@.len() == 0
    }

    /// The first part of a pass: collects the expired adapters by the node they are
    /// docked at. One that is docked nowhere is left for the next pass.
    pub fn collect(found: &Vec<(ZprAddr, Observation)>, now: Timestamp) -> (r: Sweep)
        ensures
            r.wf(),
            r@ == (SweepView {
                checked: loaded(found@) as int,
                revoked: 0,
                deferred: adrift(found@, now as int) as int,
                waiting: collected(found@, now as int),
                current: Seq::empty(),
                phase: Phase::Idle,
            }),
    {
        let mut stats = SweepStats { checked: 0, revoked: 0, deferred: 0 };
        let mut batches: Vec<Batch> = Vec::new();
        let mut i: usize = 0;
        proof {
            assert(found@.take(0) =~= Seq::empty());
            assert(batch_views(batches@) =~= Seq::empty());
        }
        while i < found.len()
            invariant
                i <= found@.len(),
                stats.checked == loaded(found@.take(i as int)),
                stats.checked <= i,
                stats.revoked == 0,
                stats.deferred == adrift(found@.take(i as int), now as int),
                stats.deferred + total(batch_views(batches@)) <= stats.checked,
                batch_views(batches@) == collected(found@.take(i as int), now as int),
                distinct_nodes(batch_views(batches@)),
                in_order(batch_views(batches@)),
                all_filled(batch_views(batches@)),
            decreases found@.len() - i,
        {
            let ghost upto = found@.take(i + 1);
            proof {
                assert(upto.drop_last() =~= found@.take(i as int));
                assert(upto.last() == found@[i as int]);
            }
            match &found[i].1 {
                Observation::Missing => {},
                Observation::Failed => {},
                Observation::Loaded { expiry, node } => {
                    stats.checked = stats.checked + 1;
                    match expiry {
                        Some((t, gate)) => {
                            if *t <= now {
                                match node {
                                    Some(node) => {
                                        let e = Expired {
                                            addr: found[i].0.copy(),
                                            expiry: *t,
                                            gate: gate.clone(),
                                        };
                                        proof {
                                            lemma_placed(batch_views(batches@), node@, e@);
                                            lemma_placed_filled(
                                                batch_views(batches@),
                                                node@,
                                                e@,
                                            );
                                        }
                                        place(&mut batches, node, e);
                                    },
                                    None => {
                                        stats.deferred = stats.deferred + 1;
                                    },
                                }
                            }
                        },
                        None => {},
                    }
                },
            }
            i = i + 1;
        }
        assert(found@.take(i as int) =~= found@);
        let current: Vec<Expired> = Vec::new();
        let sweep = Sweep { stats, batches, current, phase: Phase::Idle };
        assert(sweep@.current =~= Seq::empty());
        sweep
    }

    /// Takes the next batch in hand, to be revoked with one request.
    pub fn next_batch(&mut self) -> (r: Option<RevokeRequest>)
        requires
            old(self).wf(),
            old(self).phase == Phase::Idle,
        ensures
            final(self).wf(),
            match r {
                Some(q) => {
                    &&& step(old(self)@, SweepEvent::Taken, final(self)@)
                    &&& q.node@ == old(self)@.waiting[0].node
                    &&& q.addrs@.len() == final(self)@.current.len()
                    &&& forall|i: int|
                        0 <= i < q.addrs@.len() ==> (#[trigger] q.addrs@[i])@
                            == final(self)@.current[i].addr
                },
                None => old(self)@.waiting.len() == 0 && *final(self) == *old(self),
            },
    {
        if self.batches.len() == 0 {
            return None;
        }
        let ghost before = batch_views(self.batches@);
        let batch = self.batches.remove(0);
        assert(batch_views(self.batches@) =~= before.drop_first());
        assert(before[0] == batch@);
        assert(all_filled(before));
        let addrs = addresses(&batch);
        self.current = batch.expired;
        self.phase = Phase::Asked;
        Some(RevokeRequest { node: batch.node, addrs })
    }

    /// Takes in the answer of the node that was asked: whether it acknowledged. A node that
    /// cannot be reached, or that fails, did not; then the whole batch is left for the next
    /// pass. Says whether adapters are to be settled.
    pub fn answered(&mut self, acknowledged: bool) -> (settle: bool)
        requires
            old(self).wf(),
            old(self).phase == Phase::Asked,
        ensures
            final(self).wf(),
            step(old(self)@, SweepEvent::Answered(acknowledged), final(self)@),
            settle == acknowledged,
    {
        if acknowledged {
            self.phase = Phase::Settling;
        } else {
            self.stats.deferred = self.stats.deferred + self.current.len();
            self.current = Vec::new();
            self.phase = Phase::Idle;
            assert(self@.current =~= Seq::empty());
        }
        acknowledged
    }

    /// The adapter that is to be settled next. There is none unless its node acknowledged.
    pub fn to_settle(&self) -> (r: Option<&Expired>)
        requires
            self.wf(),
        ensures
            match r {
                Some(e) => self.phase == Phase::Settling && e@ == self@.current[0],
                None => self.phase != Phase::Settling,
            },
    {
        match self.phase {
            Phase::Settling => Some(&self.current[0]),
            _ => None,
        }
    }

    /// What is to be done with the adapter that is settled next, given what is stored of it
    /// now. Nothing is decided before its node acknowledged.
    pub fn decide(&self, reload: &Reload) -> (r: Verdict)
        requires
            self.wf(),
            self.phase == Phase::Settling,
        ensures
            r == verdict_on(self@.current[0], *reload),
    {
        match reload {
            Reload::Missing => Verdict::Gone,
            Reload::Failed => Verdict::Defer,
            Reload::Stored(Some(t)) => if *t == self.current[0].expiry {
                Verdict::Remove
            } else {
                Verdict::Renewed
            },
            Reload::Stored(None) => Verdict::Renewed,
        }
    }

    /// Settles the adapter whose turn it is, given what was stored of it. `removed` says,
    /// for one that was to be dropped, whether that succeeded, and `provider` whether it
    /// offered an authentication service. The result says whether nodes are to be told that
    /// the authentication services changed.
    pub fn settle(&mut self, reload: &Reload, removed: bool, provider: bool) -> (r: bool)
        requires
            old(self).wf(),
            old(self).phase == Phase::Settling,
        ensures
            final(self).wf(),
            step(
                old(self)@,
                SweepEvent::Settled { reload: *reload, removed },
                final(self)@,
            ),
            r == (removes(old(self)@, SweepEvent::Settled { reload: *reload, removed })
                && provider),
    {
        let ghost before = self@;
        let verdict = self.decide(reload);
        let _settled = self.current.remove(0);
        assert(self@.current =~= before.current.drop_first());
        if self.current.len() == 0 {
            self.phase = Phase::Idle;
        }
        match verdict {
            Verdict::Gone => false,
            Verdict::Renewed => false,
            Verdict::Defer => {
                self.stats.deferred = self.stats.deferred + 1;
                false
            },
            Verdict::Remove => {
                if removed {
                    self.stats.revoked = self.stats.revoked + 1;
                }
                removed && provider
            },
        }
    }
}

/// The addresses to be revoked with the request for a batch.
fn addresses(batch: &Batch) -> (r: Vec<ZprAddr>)
    ensures
        r@.len() == batch@.expired.len(),
        forall|i: int| 0 <= i < r@.len() ==> (#[trigger] r@[i])@ == batch@.expired[i].addr,
{
    let mut out: Vec<ZprAddr> = Vec::new();
    let mut i: usize = 0;
    while i < batch.expired.len()
        invariant
            i <= batch.expired@.len(),
            out@.len() == i,
            forall|j: int| 0 <= j < out@.len() ==> (#[trigger] out@[j])@ == batch.expired@[j].addr@,
        decreases batch.expired@.len() - i,
    {
        out.push(batch.expired[i].addr.copy());
        i = i + 1;
    }
    out
}

/// The states of a pass and the events between them.
pub open spec fn run(states: Seq<SweepView>, events: Seq<SweepEvent>) -> bool {
    &&& states.len() == events.len() + 1
    &&& forall|i: int|
        #![trigger events[i]]
        0 <= i < events.len() ==> step(states[i], events[i], states[i + 1])
}

/// At place `j` the node of a batch that was just taken in hand acknowledged, and up to
/// place `i` its adapters were settled one after the other.
pub open spec fn acknowledged_at(
    states: Seq<SweepView>,
    events: Seq<SweepEvent>,
    j: int,
    i: int,
) -> bool {
    &&& 0 < j < i
    &&& events[j - 1] == SweepEvent::Taken
    &&& events[j] == SweepEvent::Answered(true)
    &&& forall|k: int| j < k < i ==> (#[trigger] events[k]) is Settled
    &&& states[j].current == states[j - 1].waiting[0].expired
    &&& i - j - 1 <= states[j].current.len()
    &&& states[i].current == states[j].current.skip(i - j - 1)
}

/// An adapter is settled, and so dropped, only after the node that it is docked at
/// acknowledged the request that named it.
pub proof fn law_settling_needs_acknowledgement(
    states: Seq<SweepView>,
    events: Seq<SweepEvent>,
    i: int,
)
    requires
        run(states, events),
        states[0].phase == Phase::Idle,
        0 <= i < events.len(),
        events[i] is Settled,
    ensures
        exists|j: int| #[trigger] acknowledged_at(states, events, j, i),
{
    lemma_settling(states, events, i);
}

proof fn lemma_settling(states: Seq<SweepView>, events: Seq<SweepEvent>, i: int)
    requires
        run(states, events),
        states[0].phase == Phase::Idle,
        0 <= i < states.len(),
        states[i].phase == Phase::Settling || i < events.len() && events[i] is Settled,
    ensures
        exists|j: int| #[trigger] acknowledged_at(states, events, j, i),
    decreases i,
{
    if i < events.len() {
        assert(events[i] is Settled ==> step(states[i], events[i], states[i + 1]));
    }
    assert(states[i].phase == Phase::Settling);
    assert(i > 0);
    let last = events[i - 1];
    assert(step(states[i - 1], last, states[i - 1 + 1]));
    match last {
        SweepEvent::Taken => {},
        SweepEvent::Answered(_) => {
            let j = i - 1;
            assert(states[j].phase == Phase::Asked);
            assert(j > 0);
            assert(step(states[j - 1], events[j - 1], states[j - 1 + 1]));
            assert(events[j - 1] == SweepEvent::Taken);
            assert(states[j].current.skip(0) =~= states[j].current);
            assert(acknowledged_at(states, events, j, i));
        },
        SweepEvent::Settled { .. } => {
            lemma_settling(states, events, i - 1);
            let j = choose|j: int| #[trigger] acknowledged_at(states, events, j, i - 1);
            assert(states[j].current.skip(i - j - 2).drop_first() =~= states[j].current.skip(
                i - j - 1,
            ));
            assert(acknowledged_at(states, events, j, i));
        },
    }
}

/// How many adapters were dropped.
pub open spec fn removals(states: Seq<SweepView>, events: Seq<SweepEvent>) -> nat
    decreases events.len(),
{
    if events.len() == 0 {
        0
    } else {
        removals(states, events.drop_last()) + if removes(
            states[events.len() - 1],
            events.last(),
        ) {
            1nat
        } else {
            0nat
        }
    }
}

/// The adapters counted as revoked are those that were dropped, and all along no adapter is
/// counted twice: revoked and deferred together are no more than were looked at.
pub proof fn law_revoked_counts_the_dropped(states: Seq<SweepView>, events: Seq<SweepEvent>)
    requires
        run(states, events),
        accounted(states[0]),
        states[0].phase == Phase::Idle,
        states[0].current.len() == 0,
    ensures
        states.last().revoked == states[0].revoked + removals(states, events),
        accounted(states.last()),
        states.last().checked == states[0].checked,
    decreases events.len(),
{
    lemma_run(states, events);
}

proof fn lemma_run(states: Seq<SweepView>, events: Seq<SweepEvent>)
    requires
        run(states, events),
        accounted(states[0]),
        states[0].phase == Phase::Idle,
        states[0].current.len() == 0,
    ensures
        states.last().revoked == states[0].revoked + removals(states, events),
        accounted(states.last()),
        states.last().checked == states[0].checked,
        states.last().phase == Phase::Idle ==> states.last().current.len() == 0,
    decreases events.len(),
{
    if events.len() > 0 {
        let n = events.len() - 1;
        let fewer = states.drop_last();
        let earlier = events.drop_last();
        assert forall|i: int|
            #![trigger earlier[i]]
            0 <= i < earlier.len() implies step(fewer[i], earlier[i], fewer[i + 1]) by {
            assert(earlier[i] == events[i]);
        }
        lemma_run(fewer, earlier);
        lemma_removals_of_prefix(states, fewer, earlier);
        assert(step(states[n], events[n], states[n + 1]));
        assert(fewer.last() == states[n]);
    }
}

proof fn lemma_removals_of_prefix(
    states: Seq<SweepView>,
    fewer: Seq<SweepView>,
    events: Seq<SweepEvent>,
)
    requires
        events.len() <= fewer.len() <= states.len(),
        forall|i: int| 0 <= i < fewer.len() ==> fewer[i] == states[i],
    ensures
        removals(fewer, events) == removals(states, events),
    decreases events.len(),
{
    if events.len() > 0 {
        lemma_removals_of_prefix(states, fewer, events.drop_last());
    }
}

/// Where the node did not acknowledge, nobody of the batch is dropped and all of it is left
/// for the next pass.
pub proof fn law_no_acknowledgement_defers_the_batch(before: SweepView, after: SweepView)
    requires
        step(before, SweepEvent::Answered(false), after),
    ensures
        after.deferred == before.deferred + before.current.len(),
        after.revoked == before.revoked,
        after.current.len() == 0,
        after.phase == Phase::Idle,
        after.waiting == before.waiting,
{
}

/// An adapter that was renewed while its node was asked stays and is not counted.
pub proof fn law_renewed_adapters_stay(
    before: SweepView,
    t: Option<Timestamp>,
    removed: bool,
    after: SweepView,
)
    requires
        step(before, SweepEvent::Settled { reload: Reload::Stored(t), removed }, after),
        t is None || t->0 != before.current[0].expiry,
    ensures
        !removes(before, SweepEvent::Settled { reload: Reload::Stored(t), removed }),
        after.revoked == before.revoked,
        after.deferred == before.deferred,
{
}

/// A pass makes one request for each node at most, in the order of the addresses of the
/// nodes, and it loses nobody: the adapters in the batches and those left for the next
/// pass are as many as the expired ones.
pub proof fn law_every_expired_adapter_is_accounted_for(
    found: Seq<(ZprAddr, Observation)>,
    now: int,
)
    ensures
        distinct_nodes(collected(found, now)),
        in_order(collected(found, now)),
        total(collected(found, now)) + adrift(found, now) == expired_count(found, now),
    decreases found.len(),
{
    if found.len() > 0 {
        law_every_expired_adapter_is_accounted_for(found.drop_last(), now);
        if let Some((node, e)) = to_revoke(found.last().0@, found.last().1, now) {
            lemma_placed(collected(found.drop_last(), now), node, e);
        }
    }
}

/// How many adapters have expired.
pub open spec fn expired_count(found: Seq<(ZprAddr, Observation)>, now: int) -> nat
    decreases found.len(),
{
    if found.len() == 0 {
        0
    } else {
        expired_count(found.drop_last(), now) + if found.last().1 matches Observation::Loaded {
            expiry: Some((t, _)),
            node: _,
        } && t <= now {
            1nat
        } else {
            0nat
        }
    }
}

/// The batch holds an adapter.
pub open spec fn holds(batches: Seq<BatchView>, node: Seq<char>, e: ExpiredView) -> bool {
    exists|i: int, j: int| #[trigger] holds_at(batches, node, e, i, j)
}

/// The adapter stands here, in the batch of this node.
pub open spec fn holds_at(
    batches: Seq<BatchView>,
    node: Seq<char>,
    e: ExpiredView,
    i: int,
    j: int,
) -> bool {
    0 <= i < batches.len() && 0 <= j < batches[i].expired.len() && batches[i].node == node
        && batches[i].expired[j] == e
}

proof fn lemma_placed_holds(
    batches: Seq<BatchView>,
    node: Seq<char>,
    e: ExpiredView,
    n: Seq<char>,
    x: ExpiredView,
)
    ensures
        holds(placed(batches, node, e), n, x) <==> holds(batches, n, x) || (n == node && x == e),
    decreases batches.len(),
{
    let after = placed(batches, node, e);
    if batches.len() == 0 {
        assert(holds_at(after, node, e, 0, 0));
    } else if batches[0].node == node {
        let last = batches[0].expired.len() as int;
        assert(holds_at(after, node, e, 0, last));
        if holds(batches, n, x) {
            let (i, j) = choose|i: int, j: int| #[trigger] holds_at(batches, n, x, i, j);
            assert(holds_at(after, n, x, i, j));
        }
        if holds(after, n, x) && !(n == node && x == e) {
            let (i, j) = choose|i: int, j: int| #[trigger] holds_at(after, n, x, i, j);
            assert(holds_at(batches, n, x, i, j));
        }
    } else if addr_lt(node, batches[0].node) {
        assert(holds_at(after, node, e, 0, 0));
        if holds(batches, n, x) {
            let (i, j) = choose|i: int, j: int| #[trigger] holds_at(batches, n, x, i, j);
            assert(holds_at(after, n, x, i + 1, j));
        }
        if holds(after, n, x) && !(n == node && x == e) {
            let (i, j) = choose|i: int, j: int| #[trigger] holds_at(after, n, x, i, j);
            assert(holds_at(batches, n, x, i - 1, j));
        }
    } else {
        let rest = batches.drop_first();
        let tail = placed(rest, node, e);
        lemma_placed_holds(rest, node, e, n, x);
        if holds(after, n, x) {
            let (i, j) = choose|i: int, j: int| #[trigger] holds_at(after, n, x, i, j);
            if i > 0 {
                assert(holds_at(tail, n, x, i - 1, j));
                if holds(rest, n, x) {
                    let (a, b) = choose|a: int, b: int| #[trigger] holds_at(rest, n, x, a, b);
                    assert(holds_at(batches, n, x, a + 1, b));
                }
            } else {
                assert(holds_at(batches, n, x, 0, j));
            }
        }
        if holds(batches, n, x) {
            let (i, j) = choose|i: int, j: int| #[trigger] holds_at(batches, n, x, i, j);
            if i > 0 {
                assert(holds_at(rest, n, x, i - 1, j));
                let (a, b) = choose|a: int, b: int| #[trigger] holds_at(tail, n, x, a, b);
                assert(holds_at(after, n, x, a + 1, b));
            } else {
                assert(holds_at(after, n, x, 0, j));
            }
        }
        if n == node && x == e {
            let (a, b) = choose|a: int, b: int| #[trigger] holds_at(tail, n, x, a, b);
            assert(holds_at(after, n, x, a + 1, b));
        }
    }
}

/// The request for a node names exactly the adapters that were found expired and docked
/// at that node: no other adapter, and no adapter of another node.
pub proof fn law_only_expired_adapters_are_revoked(
    found: Seq<(ZprAddr, Observation)>,
    now: int,
    node: Seq<char>,
    e: ExpiredView,
)
    ensures
        holds(collected(found, now), node, e) <==> exists|i: int|
            0 <= i < found.len() && to_revoke((#[trigger] found[i]).0@, found[i].1, now) == Some(
                (node, e),
            ),
    decreases found.len(),
{
    if found.len() > 0 {
        let rest = found.drop_last();
        let before = collected(rest, now);
        law_only_expired_adapters_are_revoked(rest, now, node, e);
        let last = to_revoke(found.last().0@, found.last().1, now);
        if last is Some {
            let (at, who) = last->0;
            lemma_placed_holds(before, at, who, node, e);
        }
        assert(found[found.len() - 1] == found.last());
        if exists|i: int|
            0 <= i < rest.len() && to_revoke((#[trigger] rest[i]).0@, rest[i].1, now) == Some(
                (node, e),
            ) {
            let i = choose|i: int|
                0 <= i < rest.len() && to_revoke((#[trigger] rest[i]).0@, rest[i].1, now) == Some(
                    (node, e),
                );
            assert(found[i] == rest[i]);
        }
        if exists|i: int|
            0 <= i < found.len() && to_revoke((#[trigger] found[i]).0@, found[i].1, now) == Some(
                (node, e),
            ) {
            let i = choose|i: int|
                0 <= i < found.len() && to_revoke((#[trigger] found[i]).0@, found[i].1, now)
                    == Some((node, e));
            if i < rest.len() {
                assert(rest[i] == found[i]);
            }
        }
    } else {
        assert(collected(found, now) =~= Seq::empty());
    }
}

/// Which moment the stored expiry shows decides after the acknowledgement, and nothing else of
/// the adapter does: where it is the one that was seen, the adapter is to be dropped; any other,
/// or none, means that it was renewed. One that is gone needs nothing, and one that cannot be
/// loaded is left for the next pass.
pub proof fn law_unchanged_expiry_means_removal(e: ExpiredView, reload: Reload)
    ensures
        verdict_on(e, reload) == Verdict::Remove <==> (reload matches Reload::Stored(Some(t)) && t
            == e.expiry),
        verdict_on(e, reload) == Verdict::Renewed <==> (reload matches Reload::Stored(stored) && (
        stored matches Some(t) ==> t != e.expiry)),
        verdict_on(e, reload) == Verdict::Gone <==> reload == Reload::Missing,
        verdict_on(e, reload) == Verdict::Defer <==> reload == Reload::Failed,
{
}

/// Settling takes the first open adapter and no other. One that still shows the expiry that was
/// seen raises the revoked by one where it was dropped, and by none where dropping failed; one
/// that could not be loaded raises the deferred by one; all else raises nothing.
pub proof fn law_settling_counts_the_adapter_once(
    before: SweepView,
    reload: Reload,
    removed: bool,
    after: SweepView,
)
    requires
        step(before, SweepEvent::Settled { reload, removed }, after),
    ensures
        (reload matches Reload::Stored(Some(t)) && t == before.current[0].expiry) && removed
            ==> after.revoked == before.revoked + 1 && after.deferred == before.deferred,
        !removed ==> after.revoked == before.revoked,
        !(reload matches Reload::Stored(Some(t)) && t == before.current[0].expiry)
            ==> after.revoked == before.revoked,
        after.deferred == before.deferred + (if reload == Reload::Failed {
            1int
        } else {
            0int
        }),
        after.checked == before.checked,
        after.waiting == before.waiting,
        after.current.len() == before.current.len() - 1,
        forall|i: int|
            0 <= i < after.current.len() ==> #[trigger] after.current[i] == before.current[i + 1],
        after.phase == Phase::Settling <==> before.current.len() > 1,
        after.phase == Phase::Idle <==> before.current.len() == 1,
{
}

/// Taking a batch in hand and its acknowledgement count nothing: the whole first batch is in
/// hand, the others wait as they did, and after the acknowledgement its adapters are settled.
pub proof fn law_batches_are_taken_whole(
    before: SweepView,
    asked: SweepView,
    acknowledged: SweepView,
)
    requires
        step(before, SweepEvent::Taken, asked),
        step(asked, SweepEvent::Answered(true), acknowledged),
    ensures
        acknowledged.current == before.waiting[0].expired,
        acknowledged.waiting.len() == before.waiting.len() - 1,
        forall|i: int|
            0 <= i < acknowledged.waiting.len() ==> #[trigger] acknowledged.waiting[i]
                == before.waiting[i + 1],
        acknowledged.checked == before.checked,
        acknowledged.revoked == before.revoked,
        acknowledged.deferred == before.deferred,
        asked.phase == Phase::Asked,
        acknowledged.phase == Phase::Settling,
{
}

/// An adapter is to be revoked at its node just where it was found there with an expiry that is
/// not after the moment of the pass, whatever credential decides the expiry. What is to be
/// revoked keeps the address, the expiry and the credential that were found.
pub proof fn law_expired_and_docked_means_revoked(
    found: Seq<(ZprAddr, Observation)>,
    now: int,
    node: Seq<char>,
    e: ExpiredView,
)
    ensures
        holds(collected(found, now), node, e) <==> exists|i: int|
            0 <= i < found.len() && (#[trigger] found[i]).0@ == e.addr && (
            found[i].1 matches Observation::Loaded { expiry: Some((t, gate)), node: Some(n) } && t
                <= now && t == e.expiry && gate@ == e.gate && n@ == node),
{
    law_only_expired_adapters_are_revoked(found, now, node, e);
    if holds(collected(found, now), node, e) {
        let i = choose|i: int|
            0 <= i < found.len() && to_revoke((#[trigger] found[i]).0@, found[i].1, now) == Some(
                (node, e),
            );
        assert(found[i].0@ == e.addr);
    }
    if exists|i: int|
        0 <= i < found.len() && (#[trigger] found[i]).0@ == e.addr && (
        found[i].1 matches Observation::Loaded { expiry: Some((t, gate)), node: Some(n) } && t
            <= now && t == e.expiry && gate@ == e.gate && n@ == node) {
        let i = choose|i: int|
            0 <= i < found.len() && (#[trigger] found[i]).0@ == e.addr && (
            found[i].1 matches Observation::Loaded { expiry: Some((t, gate)), node: Some(n) } && t
                <= now && t == e.expiry && gate@ == e.gate && n@ == node);
        assert(to_revoke(found[i].0@, found[i].1, now) == Some((node, e)));
    }
}

/// One more adapter found raises the checked by one where it could be loaded, and the deferred
/// by one where it has expired and is docked nowhere.
pub proof fn law_each_adapter_found_counts_once(
    found: Seq<(ZprAddr, Observation)>,
    one: (ZprAddr, Observation),
    now: int,
)
    ensures
        loaded(Seq::empty()) == 0,
        adrift(Seq::empty(), now) == 0,
        expired_count(Seq::empty(), now) == 0,
        one.1 is Loaded ==> loaded(found.push(one)) == loaded(found) + 1,
        one.1 == Observation::Missing || one.1 == Observation::Failed ==> loaded(found.push(one))
            == loaded(found),
        adrift(found.push(one), now) == adrift(found, now) + (if one.1 matches Observation::Loaded {
            expiry: Some((t, _)),
            node: None,
        } && t <= now {
            1nat
        } else {
            0nat
        }),
        expired_count(found.push(one), now) == expired_count(found, now) + (
        if one.1 matches Observation::Loaded { expiry: Some((t, _)), node: _ } && t <= now {
            1nat
        } else {
            0nat
        }),
{
    let more = found.push(one);
    assert(more.drop_last() =~= found);
    assert(more.last() == one);
}

} // verus!
