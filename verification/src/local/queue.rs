//! Every pool of the single-node backend evicts in the order in which its
//! replicas were stored: its eviction order holds one entry for every slot that
//! has a replica in it, and no other.
use vstd::prelude::*;

use crate::error::ErrorView;
use crate::local::ledger;
use crate::local::ledger::{LocalObject, LocalReplica, LocalSlot, LocalState, Spot};
use crate::local::safety;
use crate::local::steps;
use crate::local::writes;
use crate::ops::{OpPublishView, OpPutView};
use crate::services::arrival;
use crate::services::model;
use crate::services::model::Entry;
use crate::services::order;

verus! {

// ---- counting replicas ----

/// What a slot has in a pool is counted by its allocations there.
proof fn lemma_count_ids(replicas: Seq<LocalReplica>, numa: u16)
    ensures
        ledger::pinned_ids(replicas, numa).len() == ledger::pinned_count(replicas, numa),
    decreases replicas.len(),
{
    if replicas.len() > 0 {
        lemma_count_ids(replicas.drop_last(), numa);
    }
}

proof fn lemma_count_none(replicas: Seq<LocalReplica>, numa: u16)
    requires
        forall|j: int| 0 <= j < replicas.len() ==> (#[trigger] replicas[j]).data is External,
    ensures
        ledger::pinned_count(replicas, numa) == 0,
    decreases replicas.len(),
{
    if replicas.len() > 0 {
        assert(replicas[replicas.len() - 1].data is External);
        assert forall|j: int| 0 <= j < replicas.len() - 1 implies (
        #[trigger] replicas.drop_last()[j]).data is External by {
            assert(replicas[j].data is External);
        }
        lemma_count_none(replicas.drop_last(), numa);
    }
}

/// Nothing is left in the pool that a slot gave up.
proof fn lemma_count_without(replicas: Seq<LocalReplica>, numa: u16)
    ensures
        ledger::pinned_count(ledger::without_pinned(replicas, numa), numa) == 0,
    decreases replicas.len(),
{
    if replicas.len() > 0 {
        lemma_count_without(replicas.drop_last(), numa);
        let before = ledger::without_pinned(replicas.drop_last(), numa);
        if !replicas.last().pinned_on(numa) {
            assert(before.push(replicas.last()).drop_last() =~= before);
        }
    }
}

proof fn lemma_count_add(a: Seq<LocalReplica>, b: Seq<LocalReplica>, numa: u16)
    ensures
        ledger::pinned_count(a + b, numa) == ledger::pinned_count(a, numa)
            + ledger::pinned_count(b, numa),
    decreases b.len(),
{
    if b.len() == 0 {
        assert(a + b =~= a);
    } else {
        assert((a + b).drop_last() =~= a + b.drop_last());
        lemma_count_add(a, b.drop_last(), numa);
    }
}

/// Replicas that are not in a pool do not count.
proof fn lemma_count_picked(
    replicas: Seq<LocalReplica>,
    keep: spec_fn(LocalReplica) -> bool,
    numa: u16,
)
    requires
        forall|r: LocalReplica| #[trigger] r.pinned_on(numa) ==> keep(r),
    ensures
        ledger::pinned_count(ledger::picked(replicas, keep), numa) == ledger::pinned_count(
            replicas,
            numa,
        ),
    decreases replicas.len(),
{
    if replicas.len() > 0 {
        lemma_count_picked(replicas.drop_last(), keep, numa);
        let before = ledger::picked(replicas.drop_last(), keep);
        if keep(replicas.last()) {
            assert(before.push(replicas.last()).drop_last() =~= before);
        } else {
            assert(!replicas.last().pinned_on(numa));
        }
    }
}

// ---- steps that leave the orders alone ----

/// Whether two states want the same entries.
pub open spec fn same_turns(s: LocalState, t: LocalState) -> bool {
    forall|e: Entry, n: u16| #[trigger] t.turns_on(e, n) == s.turns_on(e, n)
}

pub open spec fn same_orders(s: LocalState, t: LocalState) -> bool {
    &&& t.pools.dom() == s.pools.dom()
    &&& forall|n: u16| #[trigger]
        s.pools.contains_key(n) ==> t.pools[n].fifo == s.pools[n].fifo
}

pub proof fn lemma_kept_in_order(s: LocalState, t: LocalState)
    requires
        s.lined_up(),
        same_orders(s, t),
        same_turns(s, t) || t.objects == s.objects,
    ensures
        t.lined_up(),
{
    assert forall|n: u16| #[trigger] t.pools.contains_key(n) implies t.queues(
        n,
        t.pools[n].fifo,
    ) by {
        assert(s.pools.contains_key(n));
        assert(s.queues(n, s.pools[n].fifo));
        assert forall|e: Entry| #[trigger]
            model::times(t.pools[n].fifo, e) == t.turns_on(e, n) by {
            assert(t.turns_on(e, n) == s.turns_on(e, n));
        }
    }
}

pub proof fn lemma_let_go_all_lined_up(s: LocalState, ids: Seq<usize>)
    requires
        s.lined_up(),
        safety::table_ok(s),
        safety::distinct(ids),
        s.bufs.len() <= usize::MAX + 1,
        forall|x: int| 0 <= x < ids.len() ==> s.live(#[trigger] ids[x] as int),
    ensures
        s.let_go_all(ids, ids.len()).lined_up(),
{
    safety::lemma_let_go_all(s, ids, ids.len());
    lemma_kept_in_order(s, s.let_go_all(ids, ids.len()));
}

pub proof fn lemma_begun_lined_up(s: LocalState, key: Seq<u8>, op: OpPutView)
    requires
        s.lined_up(),
    ensures
        s.begun(key, op).0.lined_up(),
{
    let t = s.begun(key, op).0;
    assert(same_turns(s, t)) by {
        assert forall|e: Entry, n: u16| #[trigger] t.turns_on(e, n) == s.turns_on(e, n) by {
            if s.begun(key, op).1 is Ok && e.0 == key && e.1 < t.objects[key].slots.len() {
                if !s.objects.contains_key(key) {
                    assert(t.objects[key].slots[e.1 as int].replicas.len() == 0);
                } else {
                    assert(t.objects[key].slots[e.1 as int].replicas
                        == s.objects[key].slots[e.1 as int].replicas);
                }
            }
        }
    }
    lemma_kept_in_order(s, t);
}

pub proof fn lemma_unclaimed_lined_up(s: LocalState, key: Seq<u8>, i: int, run: usize)
    requires
        s.lined_up(),
    ensures
        s.unclaimed(key, i, run).lined_up(),
{
    lemma_kept_in_order(s, s.unclaimed(key, i, run));
}

pub proof fn lemma_read_begun_lined_up(s: LocalState, id: int)
    requires
        s.lined_up(),
    ensures
        s.read_begun(id).lined_up(),
{
    lemma_kept_in_order(s, s.read_begun(id));
}

pub proof fn lemma_read_ended_lined_up(s: LocalState, id: int)
    requires
        s.lined_up(),
        safety::table_ok(s),
        s.live(id),
    ensures
        s.read_ended(id).lined_up(),
{
    let t = s.read_ended(id);
    assert(safety::buf_ok(s, id));
    assert(t.pools.dom() =~= s.pools.dom());
    lemma_kept_in_order(s, t);
}

pub proof fn lemma_published_lined_up(s: LocalState, key: Seq<u8>, op: OpPublishView)
    requires
        s.lined_up(),
    ensures
        s.published(key, op).lined_up(),
{
    let t = s.published(key, op);
    assert(same_turns(s, t)) by {
        assert forall|e: Entry, n: u16| #[trigger] t.turns_on(e, n) == s.turns_on(e, n) by {
            if s.publish_result(key, op) is Ok && e.0 == key && e.1 == op.slot.0 {
                let a = s.objects[key].slots[e.1 as int].replicas;
                let b = t.objects[key].slots[e.1 as int].replicas;
                assert(b.drop_last() =~= a);
                assert(!b.last().pinned_on(n));
            }
        }
    }
    lemma_kept_in_order(s, t);
}

pub proof fn lemma_retired_lined_up(s: LocalState, id: u64)
    requires
        s.lined_up(),
    ensures
        s.retired(id).lined_up(),
{
    let t = s.retired(id);
    assert(same_turns(s, t)) by {
        assert forall|e: Entry, n: u16| #[trigger] t.turns_on(e, n) == s.turns_on(e, n) by {
            if s.objects.contains_key(e.0) && e.1 < s.objects[e.0].slots.len() {
                lemma_count_picked(
                    s.objects[e.0].slots[e.1 as int].replicas,
                    |r: LocalReplica| !r.from_region(id),
                    n,
                );
            }
        }
    }
    lemma_kept_in_order(s, t);
}

// ---- a write ends ----

/// How many of the first `n` spots lie in the pool of `numa`.
spec fn spots_on(spots: Seq<Spot>, numa: u16, n: nat) -> nat
    decreases n,
{
    if n == 0 {
        0
    } else {
        spots_on(spots, numa, (n - 1) as nat) + if spots[n - 1].0 == numa {
            1nat
        } else {
            0nat
        }
    }
}

proof fn lemma_count_spots(spots: Seq<Spot>, numa: u16, n: nat)
    requires
        n <= spots.len(),
    ensures
        ledger::pinned_count(ledger::spot_replicas(spots).take(n as int), numa) == spots_on(
            spots,
            numa,
            n,
        ),
    decreases n,
{
    if n > 0 {
        lemma_count_spots(spots, numa, (n - 1) as nat);
        let all = ledger::spot_replicas(spots);
        assert(all.take(n as int).drop_last() =~= all.take(n - 1));
        assert(all.take(n as int).last() == all[n - 1]);
    }
}

/// A slot that is not in any order comes in at the end of those of its spots,
/// once in each.
proof fn lemma_order_queued(
    s: LocalState,
    spots: Seq<Spot>,
    key: Seq<u8>,
    i: nat,
    n: nat,
    numa: u16,
)
    requires
        model::times(s.pools[numa].fifo, (key, i)) == 0,
    ensures
        s.queued(spots, key, i, n).pools[numa].fifo == if spots_on(spots, numa, n) > 0 {
            s.pools[numa].fifo.push((key, i))
        } else {
            s.pools[numa].fifo
        },
    decreases n,
{
    if n > 0 {
        lemma_order_queued(s, spots, key, i, (n - 1) as nat, numa);
        let q = s.pools[numa].fifo;
        if q.len() > 0 && q.last() == (key, i) {
            order::lemma_times_there(q, q.len() - 1);
        }
    }
}

pub proof fn lemma_copied_lined_up(s: LocalState, run: int, outcome: Result<(), ErrorView>)
    requires
        s.lined_up(),
        safety::local_inv(s),
        s.bufs.len() <= usize::MAX,
        s.active(run),
        s.runs[run]->0.pending is Some,
    ensures
        s.copied(run, outcome).lined_up(),
{
    let r = s.runs[run]->0;
    let i = r.results.len();
    let spots = r.pending->0;
    let ids = ledger::spot_ids(spots);
    let t = s.copied(run, outcome);
    assert(safety::run_ok(s, run));
    let len = r.spec.slots[i as int].len;
    assert forall|x: int| 0 <= x < spots.len() implies s.live((#[trigger] spots[x]).2 as int)
        && s.pools.contains_key(spots[x].0) by {
        assert(safety::spot_ok(s, run, spots[x], len));
        assert(safety::buf_ok(s, spots[x].2 as int));
    }
    if outcome is Ok && s.holds(r.key, i as int, run as usize) {
        let slot = s.objects[r.key].slots[i as int];
        let after = LocalSlot {
            replicas: slot.replicas + ledger::spot_replicas(spots),
            writing: None,
        };
        let a = s.with_slot(r.key, i as int, after);
        writes::lemma_kept(a, spots, spots.len());
        let b = a.kept(spots, spots.len());
        writes::lemma_queued(b, spots, r.key, i, spots.len());
        assert forall|n: u16| #[trigger] t.pools.contains_key(n) implies t.queues(
            n,
            t.pools[n].fifo,
        ) by {
            assert(s.pools.contains_key(n));
            assert(s.queues(n, s.pools[n].fifo));
            assert(model::times(s.pools[n].fifo, (r.key, i)) == 0) by {
                assert(safety::claim_ok(s, r.key, i as int));
                lemma_count_none(slot.replicas, n);
                assert(s.turns_on((r.key, i), n) == 0);
            }
            lemma_order_queued(b, spots, r.key, i, spots.len(), n);
            assert forall|e: Entry| #[trigger]
                model::times(t.pools[n].fifo, e) == t.turns_on(e, n) by {
                assert(model::times(s.pools[n].fifo, e) == s.turns_on(e, n));
                order::lemma_times_push(s.pools[n].fifo, (r.key, i), e);
                lemma_count_spots(spots, n, spots.len());
                assert(ledger::spot_replicas(spots).take(spots.len() as int)
                    =~= ledger::spot_replicas(spots));
                lemma_count_add(slot.replicas, ledger::spot_replicas(spots), n);
            }
        }
    } else {
        assert forall|x: int| 0 <= x < ids.len() implies s.live(#[trigger] ids[x] as int) by {
            assert(s.live(spots[x].2 as int));
        }
        assert forall|x: int, y: int| 0 <= x < y < ids.len() implies #[trigger] ids[x]
            != #[trigger] ids[y] by {
            assert(spots[x].2 != spots[y].2);
        }
        lemma_let_go_all_lined_up(s, ids);
        let m = s.let_go_all(ids, ids.len());
        lemma_unclaimed_lined_up(m, r.key, i as int, run as usize);
        lemma_kept_in_order(m, t);
    }
}

// ---- an object goes ----

pub proof fn lemma_removed_lined_up(s: LocalState, key: Seq<u8>)
    requires
        s.lined_up(),
        safety::local_inv(s),
        s.bufs.len() <= usize::MAX,
    ensures
        s.removed(key).lined_up(),
{
    writes::lemma_removed(s, key);
    let t = s.removed(key);
    if s.objects.contains_key(key) {
        assert forall|n: u16| #[trigger] t.pools.contains_key(n) implies t.queues(
            n,
            t.pools[n].fifo,
        ) by {
            assert(s.pools.contains_key(n));
            assert(s.queues(n, s.pools[n].fifo));
            let there = |e: Entry| t.objects.contains_key(e.0);
            assert forall|e: Entry| #[trigger]
                model::times(t.pools[n].fifo, e) == t.turns_on(e, n) by {
                assert(model::times(s.pools[n].fifo, e) == s.turns_on(e, n));
                order::lemma_times_with(s.pools[n].fifo, there, e);
            }
        }
    }
}

// ---- room is made ----

/// The slot that an entry stands for goes from the pool, and no other.
proof fn lemma_evicted_turns(s: LocalState, numa: u16, entry: Entry, e: Entry, n: u16)
    requires
        safety::local_inv(s),
        s.evictable(entry),
        s.turns_on(entry, numa) > 0,
        s.pools.contains_key(numa),
        s.bufs.len() <= usize::MAX,
    ensures
        s.evicted(numa, entry).1,
        s.evicted(numa, entry).0.turns_on(e, n) == s.turns_on(e, n) - if e == entry && n == numa {
            1nat
        } else {
            0nat
        },
{
    let obj = s.objects[entry.0];
    let i = entry.1 as int;
    let slot = obj.slots[i];
    lemma_count_ids(slot.replicas, numa);
    lemma_count_without(slot.replicas, numa);
    if n != numa {
        lemma_count_picked(slot.replicas, |r: LocalReplica| !r.pinned_on(numa), n);
    }
    let slots = obj.slots.update(
        i,
        LocalSlot { replicas: ledger::without_pinned(slot.replicas, numa), ..slot },
    );
    let objects = if ledger::idle(slots) {
        s.objects.remove(entry.0)
    } else {
        s.objects.insert(entry.0, LocalObject { slots, ..obj })
    };
    assert(s.evicted(numa, entry).0.objects == objects) by {
        lemma_let_go_objects(
            LocalState { objects, ..s },
            ledger::pinned_ids(slot.replicas, numa),
            ledger::pinned_ids(slot.replicas, numa).len(),
        );
    }
    if e.0 == entry.0 && e.1 < obj.slots.len() && ledger::idle(slots) {
        assert(slots[e.1 as int].replicas.len() == 0);
        assert(ledger::pinned_count(slots[e.1 as int].replicas, n) == 0);
    }
}

pub proof fn lemma_let_go_objects(s: LocalState, ids: Seq<usize>, n: nat)
    ensures
        s.let_go_all(ids, n).objects == s.objects,
    decreases n,
{
    if n > 0 {
        lemma_let_go_objects(s, ids, (n - 1) as nat);
    }
}

/// One step of making room takes the oldest entry that is not spared, and the
/// slot that it stands for; where every entry is spared it changes nothing.
proof fn lemma_evict_some_order(
    s: LocalState,
    numa: u16,
    protect: Seq<u8>,
    aside: Seq<Entry>,
) -> (m: int)
    requires
        safety::local_inv(s),
        s.pools.contains_key(numa),
        s.bufs.len() <= usize::MAX,
        s.queues(numa, aside + s.pools[numa].fifo),
        forall|n: u16| #[trigger]
            s.pools.contains_key(n) && n != numa ==> s.queues(n, s.pools[n].fifo),
    ensures
        ({
            let q = s.pools[numa].fifo;
            let (t, any) = s.evict_some(numa, protect, aside);
            &&& t.lined_up()
            &&& any ==> {
                &&& 0 <= m < q.len()
                &&& !s.spared(q[m], protect)
                &&& forall|i: int| 0 <= i < m ==> s.spared(#[trigger] q[i], protect)
                &&& t.pools[numa].fifo == aside + q.remove(m)
                &&& t.objects == s.evicted(numa, q[m]).0.objects
            }
            &&& !any ==> {
                &&& forall|i: int| 0 <= i < q.len() ==> s.spared(#[trigger] q[i], protect)
                &&& t == s.with_fifo(numa, aside + q)
            }
        }),
    decreases s.pools[numa].fifo.len(),
{
    let q = s.pools[numa].fifo;
    let (t, any) = s.evict_some(numa, protect, aside);
    if q.len() == 0 {
        assert(aside + q =~= aside);
        assert forall|n: u16| #[trigger] t.pools.contains_key(n) implies t.queues(
            n,
            t.pools[n].fifo,
        ) by {
            assert(s.pools.contains_key(n));
            let from = if n == numa { aside + q } else { s.pools[n].fifo };
            assert(s.queues(n, from));
            assert forall|e: Entry| #[trigger]
                model::times(t.pools[n].fifo, e) == t.turns_on(e, n) by {
                assert(model::times(from, e) == s.turns_on(e, n));
            }
        }
        0
    } else {
        let tail = q.drop_first();
        let rest = s.with_fifo(numa, tail);
        steps::lemma_with_fifo(s, numa, tail, protect);
        if s.spared(q[0], protect) {
            let put_by = aside.push(q[0]);
            assert(put_by + tail =~= aside + q);
            assert forall|n: u16| #[trigger]
                rest.pools.contains_key(n) && n != numa implies rest.queues(
                n,
                rest.pools[n].fifo,
            ) by {
                assert(s.queues(n, s.pools[n].fifo));
                assert forall|e: Entry| #[trigger]
                    model::times(rest.pools[n].fifo, e) == rest.turns_on(e, n) by {
                    assert(model::times(s.pools[n].fifo, e) == s.turns_on(e, n));
                }
            }
            assert(rest.queues(numa, put_by + tail)) by {
                assert forall|e: Entry| #[trigger]
                    model::times(put_by + tail, e) == rest.turns_on(e, numa) by {
                    assert(model::times(aside + q, e) == s.turns_on(e, numa));
                }
            }
            let m0 = lemma_evict_some_order(rest, numa, protect, put_by);
            assert forall|e: Entry| #[trigger] rest.spared(e, protect) == s.spared(e, protect) by {}
            if any {
                let m = m0 + 1;
                assert(tail[m0] == q[m]);
                assert(put_by + tail.remove(m0) =~= aside + q.remove(m));
                assert forall|i: int| 0 <= i < m implies s.spared(#[trigger] q[i], protect) by {
                    if i > 0 {
                        assert(rest.spared(tail[i - 1], protect));
                    }
                }
                lemma_same_eviction(s, rest, numa, q[m]);
            } else {
                assert forall|i: int| 0 <= i < q.len() implies s.spared(
                    #[trigger] q[i],
                    protect,
                ) by {
                    if i > 0 {
                        assert(rest.spared(tail[i - 1], protect));
                    }
                }
                assert(t =~= s.with_fifo(numa, aside + q));
            }
            m0 + 1
        } else {
            let e0 = q[0];
            assert(s.turns_on(e0, numa) > 0) by {
                order::lemma_times_there(aside + q, aside.len() as int);
                assert((aside + q)[aside.len() as int] == e0);
                assert(model::times(aside + q, e0) == s.turns_on(e0, numa));
            }
            assert(rest.turns_on(e0, numa) == s.turns_on(e0, numa));
            lemma_evicted_turns(rest, numa, e0, e0, numa);
            steps::lemma_evicted(rest, numa, e0, protect);
            let after = rest.evicted(numa, e0).0;
            assert(after.pools[numa].fifo == tail);
            assert(q.remove(0) =~= tail);
            assert(any);
            assert forall|n: u16| #[trigger] t.pools.contains_key(n) implies t.queues(
                n,
                t.pools[n].fifo,
            ) by {
                assert(s.pools.contains_key(n));
                assert forall|e: Entry| #[trigger]
                    model::times(t.pools[n].fifo, e) == t.turns_on(e, n) by {
                    lemma_evicted_turns(rest, numa, e0, e, n);
                    assert(rest.turns_on(e, n) == s.turns_on(e, n));
                    assert(t.turns_on(e, n) == after.turns_on(e, n));
                    if n == numa {
                        assert(model::times(aside + q, e) == s.turns_on(e, n));
                        order::lemma_times_add(aside, q, e);
                        order::lemma_times_add(aside, tail, e);
                        order::lemma_times_first(q, e);
                    } else {
                        assert(rest.pools.contains_key(n));
                        assert(t.pools[n].fifo == s.pools[n].fifo);
                        assert(s.queues(n, s.pools[n].fifo));
                        assert(model::times(s.pools[n].fifo, e) == s.turns_on(e, n));
                    }
                }
            }
            lemma_same_eviction(s, rest, numa, e0);
            0
        }
    }
}

/// Which replicas go does not depend on the eviction orders.
proof fn lemma_same_eviction(s: LocalState, t: LocalState, numa: u16, entry: Entry)
    requires
        t.objects == s.objects,
    ensures
        t.evicted(numa, entry).0.objects == s.evicted(numa, entry).0.objects,
        t.evicted(numa, entry).1 == s.evicted(numa, entry).1,
{
    if s.evictable(entry) {
        let obj = s.objects[entry.0];
        let slot = obj.slots[entry.1 as int];
        let ids = ledger::pinned_ids(slot.replicas, numa);
        let slots = obj.slots.update(
            entry.1 as int,
            LocalSlot { replicas: ledger::without_pinned(slot.replicas, numa), ..slot },
        );
        let objects = if ledger::idle(slots) {
            s.objects.remove(entry.0)
        } else {
            s.objects.insert(entry.0, LocalObject { slots, ..obj })
        };
        lemma_let_go_objects(LocalState { objects, ..s }, ids, ids.len());
        lemma_let_go_objects(LocalState { objects, ..t }, ids, ids.len());
    }
}

/// One step of making room is first in, first out: it takes the oldest slot
/// that may go, and no other; where none may go it changes nothing.
pub proof fn law_local_oldest_goes_first(s: LocalState, numa: u16, protect: Seq<u8>) -> (m: int)
    requires
        safety::local_inv(s),
        s.lined_up(),
        s.pools.contains_key(numa),
        s.bufs.len() <= usize::MAX,
    ensures
        ({
            let q = s.pools[numa].fifo;
            let (t, any) = s.evict_some(numa, protect, Seq::empty());
            &&& t.lined_up()
            &&& any ==> {
                &&& 0 <= m < q.len()
                &&& !s.spared(q[m], protect)
                &&& forall|i: int| 0 <= i < m ==> s.spared(#[trigger] q[i], protect)
                &&& t.pools[numa].fifo == q.remove(m)
                &&& t.objects == s.evicted(numa, q[m]).0.objects
            }
            &&& !any ==> {
                &&& forall|i: int| 0 <= i < q.len() ==> s.spared(#[trigger] q[i], protect)
                &&& t == s
            }
        }),
{
    let q = s.pools[numa].fifo;
    let none = Seq::<Entry>::empty();
    assert(none + q =~= q);
    assert(s.queues(numa, q));
    assert forall|n: u16| #[trigger] s.pools.contains_key(n) && n != numa implies s.queues(
        n,
        s.pools[n].fifo,
    ) by {}
    let m = lemma_evict_some_order(s, numa, protect, none);
    let (t, any) = s.evict_some(numa, protect, none);
    if any {
        assert(none + q.remove(m) =~= q.remove(m));
    } else {
        assert(s.with_fifo(numa, q) =~= s);
    }
    m
}

/// The entries of an order that stay where room is made for `protect`.
pub open spec fn local_spared_of(s: LocalState, protect: Seq<u8>, q: Seq<Entry>) -> Seq<Entry> {
    model::entries_with(q, |e: Entry| s.spared(e, protect))
}

/// Entries that stay come through one step alike, before it and after.
proof fn lemma_spared_after(
    s: LocalState,
    t: LocalState,
    protect: Seq<u8>,
    q: Seq<Entry>,
    m: int,
    n: int,
)
    requires
        0 <= m < q.len(),
        0 <= n < q.len(),
        !s.spared(q[m], protect),
        forall|i: int| 0 <= i < m ==> s.spared(#[trigger] q[i], protect),
        forall|i: int|
            0 <= i < q.len() && i != m ==> s.spared(#[trigger] q[i], protect) == t.spared(
                q[i],
                protect,
            ),
    ensures
        n > m ==> local_spared_of(t, protect, q.remove(m).take(n)) == local_spared_of(
            s,
            protect,
            q.take(n + 1),
        ),
        n <= m ==> local_spared_of(t, protect, q.remove(m).take(n)) == q.take(n),
        n <= m ==> local_spared_of(s, protect, q.take(n)) == q.take(n),
    decreases n,
{
    let cut = q.remove(m);
    if n == 0 {
        assert(cut.take(0) =~= Seq::<Entry>::empty());
        assert(q.take(0) =~= Seq::<Entry>::empty());
    } else {
        lemma_spared_after(s, t, protect, q, m, n - 1);
        assert(cut.take(n).drop_last() =~= cut.take(n - 1));
        assert(q.take(n).drop_last() =~= q.take(n - 1));
        if n <= m {
            assert(cut.take(n).last() == q[n - 1]);
            assert(q.take(n).last() == q[n - 1]);
            assert(s.spared(q[n - 1], protect));
            assert(q.take(n) =~= q.take(n - 1).push(q[n - 1]));
        } else {
            assert(q.take(n + 1).drop_last() =~= q.take(n));
            assert(cut.take(n).last() == q[n]);
            assert(q.take(n + 1).last() == q[n]);
            assert(s.spared(q[n], protect) == t.spared(q[n], protect));
            let staying = |e: Entry| s.spared(e, protect);
            if n == m + 1 {
                assert(q.take(n).last() == q[m]);
                assert(model::entries_with(q.take(n), staying) == model::entries_with(
                    q.take(n - 1),
                    staying,
                ));
                assert(local_spared_of(t, protect, cut.take(n - 1)) == q.take(n - 1));
                assert(local_spared_of(s, protect, q.take(n)) == q.take(n - 1));
            } else {
                assert(local_spared_of(t, protect, cut.take(n - 1)) == local_spared_of(
                    s,
                    protect,
                    q.take(n),
                ));
            }
        }
    }
}

/// Room is made oldest first: what goes from the order is the evictable entries
/// among its first `n`, each with the slot that it stands for. An evictable
/// slot stays only if every one that was stored after it stays.
pub proof fn law_local_oldest_go_first(
    s: LocalState,
    numa: u16,
    len: nat,
    run: usize,
    protect: Seq<u8>,
) -> (n: nat)
    requires
        safety::local_inv(s),
        s.lined_up(),
        s.pools.contains_key(numa),
        s.bufs.len() <= usize::MAX,
    ensures
        n <= s.pools[numa].fifo.len(),
        ({
            let (t, r) = s.alloc_or_evict(numa, len, run, protect);
            &&& t.lined_up()
            &&& t.pools[numa].fifo == local_spared_of(
                s,
                protect,
                s.pools[numa].fifo.take(n as int),
            ) + s.pools[numa].fifo.skip(n as int)
            &&& r is Err && len <= s.pools[numa].pinned.len ==> forall|i: int|
                0 <= i < t.pools[numa].fifo.len() ==> t.spared(
                    #[trigger] t.pools[numa].fifo[i],
                    protect,
                )
        }),
    decreases s.pools[numa].fifo.len(),
{
    let q = s.pools[numa].fifo;
    let (t, r) = s.alloc_or_evict(numa, len, run, protect);
    assert(q.take(0) =~= Seq::<Entry>::empty());
    assert(q.skip(0) =~= q);
    assert(local_spared_of(s, protect, q.take(0)) + q.skip(0) =~= q);
    if s.taken(numa, len, run) is Some {
        assert(t.pools.dom() =~= s.pools.dom());
        lemma_kept_in_order(s, t);
        0
    } else if len > s.pools[numa].pinned.len {
        0
    } else {
        let m = law_local_oldest_goes_first(s, numa, protect);
        let (u, any) = s.evict_some(numa, protect, Seq::empty());
        if any {
            steps::lemma_evict_some(s, numa, protect, Seq::empty());
            let k = law_local_oldest_go_first(u, numa, len, run, protect) as int;
            let cut = q.remove(m);
            assert(u.pools[numa].fifo == cut);
            assert(u.queues(numa, cut));
            assert forall|i: int| 0 <= i < q.len() && i != m implies s.spared(
                #[trigger] q[i],
                protect,
            ) == u.spared(q[i], protect) by {
                let c = if i < m { i } else { i - 1 };
                assert(cut[c] == q[i]);
                order::lemma_times_there(cut, c);
                assert(model::times(cut, q[i]) == u.turns_on(q[i], numa));
                assert(u.objects.contains_key(q[i].0));
                assert(steps::loses_pinned(s.objects[q[i].0], u.objects[q[i].0], numa));
            }
            lemma_spared_after(s, u, protect, q, m, k);
            if k > m {
                assert(cut.skip(k) =~= q.skip(k + 1));
                (k + 1) as nat
            } else {
                lemma_spared_after(s, u, protect, q, m, m);
                assert(q.take(m + 1).drop_last() =~= q.take(m));
                assert(q.take(m + 1).last() == q[m]);
                assert(local_spared_of(s, protect, q.take(m + 1)) == q.take(m));
                assert(cut.take(k) =~= q.take(k));
                assert(q.take(k) + cut.skip(k) =~= cut);
                assert(cut =~= q.take(m) + q.skip(m + 1));
                (m + 1) as nat
            }
        } else {
            0
        }
    }
}

pub proof fn lemma_alloc_lined_up(
    s: LocalState,
    numa: u16,
    len: nat,
    run: usize,
    protect: Seq<u8>,
)
    requires
        safety::local_inv(s),
        s.lined_up(),
        s.bufs.len() <= usize::MAX,
    ensures
        s.alloc_or_evict(numa, len, run, protect).0.lined_up(),
{
    if s.pools.contains_key(numa) {
        let _ = law_local_oldest_go_first(s, numa, len, run, protect);
    }
}

// ---- arrival ----

proof fn lemma_queued_follows(
    s: LocalState,
    spots: Seq<Spot>,
    key: Seq<u8>,
    i: nat,
    n: nat,
    numa: u16,
)
    ensures
        arrival::follows(
            s.queued(spots, key, i, n).pools[numa].fifo,
            s.pools[numa].fifo,
            key,
        ),
    decreases n,
{
    if n == 0 {
        arrival::lemma_thinned_same(s.pools[numa].fifo);
    } else {
        lemma_queued_follows(s, spots, key, i, (n - 1) as nat, numa);
        let p = s.queued(spots, key, i, (n - 1) as nat);
        let q = p.pools[numa].fifo;
        if spots[n - 1].0 == numa && !(q.len() > 0 && q.last() == (key, i)) {
            arrival::lemma_follows_push(q, s.pools[numa].fifo, key, i);
        }
    }
}

/// Every eviction order is one of arrival: room is made and objects are removed
/// by taking entries out of it, the end of a copy adds entries of its slot at
/// the end, and the others stay as they stood.
pub proof fn law_local_orders_are_of_arrival(
    s: LocalState,
    numa: u16,
    len: nat,
    run: usize,
    key: Seq<u8>,
    outcome: Result<(), ErrorView>,
)
    requires
        safety::local_inv(s),
        s.lined_up(),
        s.pools.contains_key(numa),
        s.bufs.len() <= usize::MAX,
    ensures
        arrival::thinned(
            s.alloc_or_evict(numa, len, run, key).0.pools[numa].fifo,
            s.pools[numa].fifo,
        ),
        arrival::thinned(s.removed(key).pools[numa].fifo, s.pools[numa].fifo),
        s.active(run as int) && s.runs[run as int]->0.pending is Some ==> arrival::follows(
            s.copied(run as int, outcome).pools[numa].fifo,
            s.pools[numa].fifo,
            s.runs[run as int]->0.key,
        ),
{
    let q = s.pools[numa].fifo;
    let n = law_local_oldest_go_first(s, numa, len, run, key);
    arrival::lemma_thinned_front(q, |e: Entry| s.spared(e, key), n as int);
    arrival::lemma_thinned_same(q);
    writes::lemma_removed(s, key);
    let rest = s.objects.remove(key);
    arrival::lemma_thinned_with(q, |e: Entry| rest.contains_key(e.0));
    let run = run as int;
    if s.active(run) && s.runs[run]->0.pending is Some {
        let r = s.runs[run]->0;
        let i = r.results.len();
        let spots = r.pending->0;
        let ids = ledger::spot_ids(spots);
        assert(safety::run_ok(s, run));
        let len = r.spec.slots[i as int].len;
        assert forall|x: int| 0 <= x < spots.len() implies s.live((#[trigger] spots[x]).2 as int)
            && s.pools.contains_key(spots[x].0) by {
            assert(safety::spot_ok(s, run, spots[x], len));
            assert(safety::buf_ok(s, spots[x].2 as int));
        }
        if outcome is Ok && s.holds(r.key, i as int, run as usize) {
            let slot = s.objects[r.key].slots[i as int];
            let after = LocalSlot {
                replicas: slot.replicas + ledger::spot_replicas(spots),
                writing: None,
            };
            let a = s.with_slot(r.key, i as int, after);
            writes::lemma_kept(a, spots, spots.len());
            lemma_queued_follows(
                a.kept(spots, spots.len()),
                spots,
                r.key,
                i,
                spots.len(),
                numa,
            );
        } else {
            assert forall|x: int| 0 <= x < ids.len() implies s.live(#[trigger] ids[x] as int) by {
                assert(s.live(spots[x].2 as int));
            }
            assert forall|x: int, y: int| 0 <= x < y < ids.len() implies #[trigger] ids[x]
                != #[trigger] ids[y] by {
                assert(spots[x].2 != spots[y].2);
            }
            safety::lemma_let_go_all(s, ids, ids.len());
        }
    }
}

} // verus!
