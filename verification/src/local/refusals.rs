//! What makes room in a pool, and what is refused for want of it.
use vstd::prelude::*;

use crate::error::ErrorView;
use crate::local::ledger;
use crate::local::ledger::{LocalData, LocalObject, LocalReplica, LocalSlot, LocalState};
use crate::local::queue;
use crate::local::safety;
use crate::local::steps;
use crate::services::model::Entry;
use crate::types::{Device, PlacementView, Tier};

verus! {

// ---- what making room in one pool leaves alone ----

proof fn lemma_let_go_pools(s: LocalState, ids: Seq<usize>, numa: u16, other: u16, m: nat)
    requires
        safety::distinct(ids),
        m <= ids.len(),
        other != numa,
        forall|x: int|
            0 <= x < ids.len() ==> s.live(#[trigger] ids[x] as int) && s.bufs[ids[x] as int]->0.buf.numa
                == numa,
    ensures
        s.let_go_all(ids, m).pools[other] == s.pools[other],
        s.let_go_all(ids, m).bufs.len() == s.bufs.len(),
        forall|x: int|
            m <= x < ids.len() ==> s.let_go_all(ids, m).bufs[#[trigger] ids[x] as int]
                == s.bufs[ids[x] as int],
    decreases m,
{
    if m > 0 {
        lemma_let_go_pools(s, ids, numa, other, (m - 1) as nat);
        let t = s.let_go_all(ids, (m - 1) as nat);
        assert(s.live(ids[m - 1] as int));
        assert(t.bufs[ids[m - 1] as int] == s.bufs[ids[m - 1] as int]);
        assert forall|x: int| m <= x < ids.len() implies s.let_go_all(ids, m).bufs[
            #[trigger] ids[x] as int] == s.bufs[ids[x] as int] by {
            assert(ids[m - 1] != ids[x]);
            assert(s.live(ids[x] as int));
            assert(t.bufs[ids[x] as int] == s.bufs[ids[x] as int]);
        }
    }
}

/// Whether no object is new and none has another spec.
pub open spec fn no_new(s: LocalState, t: LocalState) -> bool {
    forall|k: Seq<u8>| #[trigger]
        t.objects.contains_key(k) ==> s.objects.contains_key(k) && t.objects[k].spec
            == s.objects[k].spec && t.objects[k].slots.len() == s.objects[k].slots.len()
}

proof fn lemma_evicted_pools(s: LocalState, numa: u16, entry: Entry, other: u16)
    requires
        safety::local_inv(s),
        other != numa,
    ensures
        s.evicted(numa, entry).0.pools[other] == s.pools[other],
{
    if s.evictable(entry) {
        let k = entry.0;
        let i = entry.1 as int;
        let obj = s.objects[k];
        let slot = obj.slots[i];
        let ids = ledger::pinned_ids(slot.replicas, numa);
        let on = |r: LocalReplica| r.pinned_on(numa);
        let slots = obj.slots.update(
            i,
            LocalSlot { replicas: ledger::without_pinned(slot.replicas, numa), ..slot },
        );
        let objects = if ledger::idle(slots) {
            s.objects.remove(k)
        } else {
            s.objects.insert(k, LocalObject { slots, ..obj })
        };
        let m = LocalState { objects, ..s };
        assert forall|x: int| 0 <= x < ids.len() implies s.live(#[trigger] ids[x] as int)
            && s.bufs[ids[x] as int]->0.buf.numa == numa && safety::refers(
            s,
            k,
            i,
            steps::kept_at(slot.replicas, on, x),
            ids[x] as int,
        ) by {
            steps::lemma_picked(slot.replicas, on, x);
            let j = steps::kept_at(slot.replicas, on, x);
            assert(safety::has(s, k, i, j));
            assert(safety::replica_ok(s, safety::rep(s, k, i, j), obj.spec.slots[i].len));
        }
        assert(safety::distinct(ids)) by {
            assert forall|x: int, y: int| 0 <= x < y < ids.len() implies #[trigger] ids[x]
                != #[trigger] ids[y] by {
                steps::lemma_picked_order(slot.replicas, on, x, y);
                assert(safety::refers(
                    s,
                    k,
                    i,
                    steps::kept_at(slot.replicas, on, x),
                    ids[x] as int,
                ));
                assert(safety::refers(
                    s,
                    k,
                    i,
                    steps::kept_at(slot.replicas, on, y),
                    ids[y] as int,
                ));
            }
        }
        assert forall|x: int| 0 <= x < ids.len() implies m.live(#[trigger] ids[x] as int)
            && m.bufs[ids[x] as int]->0.buf.numa == numa by {
            assert(s.live(ids[x] as int));
        }
        lemma_let_go_pools(m, ids, numa, other, ids.len());
    }
}

proof fn lemma_evict_some_pools(
    s: LocalState,
    numa: u16,
    protect: Seq<u8>,
    aside: Seq<Entry>,
    other: u16,
)
    requires
        safety::local_inv(s),
        s.pools.contains_key(numa),
        s.bufs.len() <= usize::MAX,
        other != numa,
    ensures
        s.evict_some(numa, protect, aside).0.pools[other] == s.pools[other],
    decreases s.pools[numa].fifo.len(),
{
    let fifo = s.pools[numa].fifo;
    if fifo.len() > 0 {
        let rest = s.with_fifo(numa, fifo.drop_first());
        steps::lemma_with_fifo(s, numa, fifo.drop_first(), protect);
        if s.spared(fifo[0], protect) {
            lemma_evict_some_pools(rest, numa, protect, aside.push(fifo[0]), other);
        } else {
            steps::lemma_evicted(rest, numa, fifo[0], protect);
            lemma_evicted_pools(rest, numa, fifo[0], other);
            let (after, any) = rest.evicted(numa, fifo[0]);
            if !any && after.pools[numa].fifo.len() < fifo.len() {
                lemma_evict_some_pools(after, numa, protect, aside, other);
            }
        }
    }
}

// ---- one pool ----

/// Whether a pool has no room for a slot of `key`: nothing free is long enough,
/// and it never can be, or nothing that is left may be evicted for it.
pub open spec fn no_room(s: LocalState, numa: u16, len: nat, key: Seq<u8>) -> bool {
    &&& s.pools[numa].pinned.allocated(len) is None
    &&& len > s.pools[numa].pinned.len || forall|i: int|
        0 <= i < s.pools[numa].fifo.len() ==> s.spared(#[trigger] s.pools[numa].fifo[i], key)
}

proof fn lemma_asked(
    s: LocalState,
    numa: u16,
    len: nat,
    run: usize,
    key: Seq<u8>,
    other: u16,
)
    requires
        safety::local_inv(s),
        s.lined_up(),
        s.bufs.len() <= usize::MAX,
    ensures
        ({
            let (t, r) = s.alloc_or_evict(numa, len, run, key);
            &&& no_new(s, t)
            &&& r is Err ==> {
                &&& safety::local_inv(t)
                &&& t.lined_up()
                &&& t.bufs.len() == s.bufs.len()
                &&& t.pools.dom() == s.pools.dom()
                &&& s.pools.contains_key(numa) ==> no_room(t, numa, len, key)
            }
            &&& other != numa ==> t.pools[other] == s.pools[other]
        }),
    decreases s.pools[numa].fifo.len(),
{
    if s.pools.contains_key(numa) && s.taken(numa, len, run) is None && len
        <= s.pools[numa].pinned.len {
        let m = queue::law_local_oldest_goes_first(s, numa, key);
        let (u, any) = s.evict_some(numa, key, Seq::empty());
        steps::lemma_evict_some(s, numa, key, Seq::empty());
        if other != numa {
            lemma_evict_some_pools(s, numa, key, Seq::empty(), other);
        }
        assert(no_new(s, u)) by {
            assert forall|k: Seq<u8>| #[trigger] u.objects.contains_key(k) implies s.objects.contains_key(
                k,
            ) && u.objects[k].spec == s.objects[k].spec && u.objects[k].slots.len()
                == s.objects[k].slots.len() by {
                assert(steps::loses_pinned(s.objects[k], u.objects[k], numa));
            }
        }
        if any {
            lemma_asked(u, numa, len, run, key, other);
        }
    }
}

// ---- all pools ----

proof fn lemma_still_no_room(
    s: LocalState,
    t: LocalState,
    numa: u16,
    len: nat,
    key: Seq<u8>,
)
    requires
        no_room(s, numa, len, key),
        no_new(s, t),
        t.pools[numa] == s.pools[numa],
    ensures
        no_room(t, numa, len, key),
{
    if len <= s.pools[numa].pinned.len {
        assert forall|i: int| 0 <= i < t.pools[numa].fifo.len() implies t.spared(
            #[trigger] t.pools[numa].fifo[i],
            key,
        ) by {
            let e = s.pools[numa].fifo[i];
            assert(s.spared(e, key));
            if t.evictable(e) {
                assert(t.objects.contains_key(e.0));
            }
        }
    }
}

proof fn lemma_tried(
    s: LocalState,
    targets: Seq<(u16, bool)>,
    first: Option<ErrorView>,
    len: nat,
    run: usize,
    key: Seq<u8>,
    n: nat,
)
    requires
        safety::local_inv(s),
        s.lined_up(),
        s.bufs.len() <= usize::MAX,
        n <= targets.len(),
    ensures
        ({
            let p = s.tried(targets, first, false, len, run, key, n);
            &&& p.done <==> p.spots.len() > 0
            &&& !p.done ==> {
                &&& safety::local_inv(p.state)
                &&& p.state.lined_up()
                &&& p.state.bufs.len() == s.bufs.len()
                &&& p.state.pools.dom() == s.pools.dom()
                &&& forall|i: int|
                    0 <= i < n && s.pools.contains_key((#[trigger] targets[i]).0) ==> no_room(
                        p.state,
                        targets[i].0,
                        len,
                        key,
                    )
            }
        }),
    decreases n,
{
    if n > 0 {
        lemma_tried(s, targets, first, len, run, key, (n - 1) as nat);
        let q = s.tried(targets, first, false, len, run, key, (n - 1) as nat);
        let p = s.tried(targets, first, false, len, run, key, n);
        if !q.done {
            let numa = targets[n - 1].0;
            let (t, r) = q.state.alloc_or_evict(numa, len, run, key);
            lemma_asked(q.state, numa, len, run, key, numa);
            if r is Err {
                assert forall|i: int|
                    0 <= i < n && s.pools.contains_key((#[trigger] targets[i]).0) implies no_room(
                    p.state,
                    targets[i].0,
                    len,
                    key,
                ) by {
                    if targets[i].0 != numa {
                        assert(no_room(q.state, targets[i].0, len, key));
                        lemma_asked(q.state, numa, len, run, key, targets[i].0);
                        lemma_still_no_room(q.state, t, targets[i].0, len, key);
                    }
                }
            }
        }
    }
}

proof fn lemma_others(order: Seq<u16>, d: Device, n: nat, i: int)
    requires
        0 <= i < n <= order.len(),
        d != (Device::Cpu { numa: order[i] }),
    ensures
        ledger::other_pools(order, d, n).contains((order[i], true)),
    decreases n,
{
    let before = ledger::other_pools(order, d, (n - 1) as nat);
    let now = ledger::other_pools(order, d, n);
    if i == n - 1 {
        assert(now[before.len() as int] == (order[i], true));
    } else {
        lemma_others(order, d, (n - 1) as nat, i);
        let c = before.index_of((order[i], true));
        assert(now[c] == (order[i], true));
    }
}

/// Whether a placement lets a slot land in a pool, by itself.
pub open spec fn admits(placement: PlacementView, numa: u16) -> bool {
    match placement {
        PlacementView::Strict(d) => d == (Device::Cpu { numa }),
        PlacementView::Prefer(_) => true,
        PlacementView::Each(_) => false,
        PlacementView::Anywhere => true,
    }
}

/// A slot is refused only if no pool that its placement admits has room for it:
/// anywhere and a preference admit every pool, a demand the one of its device.
pub proof fn law_local_slots_are_refused_for_want_of_room(
    s: LocalState,
    order: Seq<u16>,
    placement: PlacementView,
    len: nat,
    run: usize,
    key: Seq<u8>,
    i: int,
)
    requires
        safety::local_inv(s),
        s.lined_up(),
        s.bufs.len() <= usize::MAX,
        s.placed(order, placement, len, run, key).1 is Err,
        0 <= i < order.len(),
        s.pools.contains_key(order[i]),
        admits(placement, order[i]),
    ensures
        no_room(s.placed(order, placement, len, run, key).0, order[i], len, key),
{
    assert(order.contains(order[i]));
    let (targets, first) = ledger::resolved(placement, order)->Ok_0;
    lemma_tried(s, targets, first, len, run, key, targets.len());
    let c = match placement {
        PlacementView::Prefer(d) => {
            let others = ledger::other_pools(order, d, order.len());
            if d == (Device::Cpu { numa: order[i] }) {
                0
            } else {
                lemma_others(order, d, order.len(), i);
                let x = others.index_of((order[i], true));
                if ledger::pool_of(order, d) is Ok {
                    assert((seq![(ledger::pool_of(order, d)->Ok_0, false)] + others)[x + 1]
                        == others[x]);
                    x + 1
                } else {
                    x
                }
            }
        },
        PlacementView::Anywhere => i,
        _ => 0,
    };
    assert(targets[c].0 == order[i]);
}

// ---- one slot ----

/// Whether the replica at `x` of slot `j` stays when slot `i` is evicted from the
/// pool of `numa`.
pub open spec fn stays_behind(slots: Seq<LocalSlot>, numa: u16, i: int, j: int, x: int) -> bool {
    &&& 0 <= j < slots.len()
    &&& 0 <= x < slots[j].replicas.len()
    &&& j != i || !slots[j].replicas[x].pinned_on(numa)
}

/// Whether slot `j` is being written.
pub open spec fn is_written(slots: Seq<LocalSlot>, j: int) -> bool {
    0 <= j < slots.len() && slots[j].writing is Some
}

/// A slot is evicted from a pool as a whole: every replica of it that lies there
/// goes, and no other. The object goes with its last replica, unless one of its
/// slots is being written.
pub proof fn law_local_eviction_takes_the_slot_from_its_pool(
    s: LocalState,
    numa: u16,
    entry: Entry,
    r: LocalReplica,
)
    requires
        s.evictable(entry),
    ensures
        ({
            let (t, any) = s.evicted(numa, entry);
            let slots = s.objects[entry.0].slots;
            let i = entry.1 as int;
            let stays = slots[i].replicas.contains(r) && !r.pinned_on(numa);
            &&& t.objects.contains_key(entry.0) <==> (exists|j: int, x: int|
                stays_behind(slots, numa, i, j, x)) || exists|j: int| is_written(slots, j)
            &&& t.objects.contains_key(entry.0) ==> (t.objects[entry.0].slots[i].replicas.contains(
                r,
            ) <==> stays) && t.objects[entry.0].slots[i].writing == slots[i].writing
            &&& slots[i].replicas.contains(r) && r.pinned_on(numa) ==> any
        }),
{
    let obj = s.objects[entry.0];
    let i = entry.1 as int;
    let before = obj.slots[i].replicas;
    let on = |r: LocalReplica| r.pinned_on(numa);
    let off = |r: LocalReplica| !r.pinned_on(numa);
    let after = ledger::without_pinned(before, numa);
    let ids = ledger::pinned_ids(before, numa);
    let slots = obj.slots.update(i, LocalSlot { replicas: after, ..obj.slots[i] });
    let objects = if ledger::idle(slots) {
        s.objects.remove(entry.0)
    } else {
        s.objects.insert(entry.0, LocalObject { slots, ..obj })
    };
    queue::lemma_let_go_objects(LocalState { objects, ..s }, ids, ids.len());
    if before.contains(r) {
        let c = before.index_of(r);
        if r.pinned_on(numa) {
            assert(on(before[c]));
            steps::lemma_picked_has(before, on, c);
        } else {
            assert(off(before[c]));
            steps::lemma_picked_has(before, off, c);
        }
    }
    if after.contains(r) {
        steps::lemma_picked(before, off, after.index_of(r));
        assert(off(r));
    }
    if ledger::idle(slots) {
        assert forall|j: int, x: int| !(#[trigger] stays_behind(obj.slots, numa, i, j, x)) by {
            if stays_behind(obj.slots, numa, i, j, x) {
                assert(slots[j].replicas.len() == 0);
                assert(off(before[x]));
                steps::lemma_picked_has(before, off, x);
            }
        }
        assert forall|j: int| !(#[trigger] is_written(obj.slots, j)) by {
            if is_written(obj.slots, j) {
                assert(slots[j].writing is None);
            }
        }
    } else {
        let j = choose|j: int|
            0 <= j < slots.len() && !((#[trigger] slots[j]).replicas.len() == 0 && slots[j].writing
                is None);
        if slots[j].writing is Some {
            assert(is_written(obj.slots, j));
        } else if j == i {
            steps::lemma_picked(before, off, 0);
            assert(off(after[0]));
            assert(stays_behind(obj.slots, numa, i, j, steps::kept_at(before, off, 0)));
        } else {
            assert(stays_behind(obj.slots, numa, i, j, 0));
        }
    }
}

// ---- where a slot lands ----

proof fn lemma_spots(
    s: LocalState,
    targets: Seq<(u16, bool)>,
    first: Option<ErrorView>,
    each: bool,
    len: nat,
    run: usize,
    key: Seq<u8>,
    n: nat,
)
    requires
        n <= targets.len(),
    ensures
        ({
            let p = s.tried(targets, first, each, len, run, key, n);
            &&& each ==> (p.done ==> p.error is Some)
            &&& each && !p.done ==> p.spots.len() == n && forall|j: int|
                0 <= j < n ==> ((#[trigger] p.spots[j]).0, p.spots[j].1) == targets[j]
            &&& !each ==> p.spots.len() <= 1 && (p.spots.len() == 1 ==> p.done
                && targets.contains((p.spots[0].0, p.spots[0].1)))
            &&& !each && !p.done ==> p.spots.len() == 0
        }),
    decreases n,
{
    if n > 0 {
        lemma_spots(s, targets, first, each, len, run, key, (n - 1) as nat);
        assert(targets.contains(targets[n - 1]));
    }
}

proof fn lemma_other_pools(order: Seq<u16>, d: Device, n: nat)
    requires
        n <= order.len(),
    ensures
        forall|j: int|
            0 <= j < ledger::other_pools(order, d, n).len() ==> (#[trigger] ledger::other_pools(
                order,
                d,
                n,
            )[j]).1 && d != (Device::Cpu { numa: ledger::other_pools(order, d, n)[j].0 }),
    decreases n,
{
    if n > 0 {
        lemma_other_pools(order, d, (n - 1) as nat);
        let before = ledger::other_pools(order, d, (n - 1) as nat);
        let now = ledger::other_pools(order, d, n);
        assert forall|j: int| 0 <= j < now.len() implies (#[trigger] now[j]).1 && d != (
        Device::Cpu { numa: now[j].0 }) by {
            if j < before.len() {
                assert(now[j] == before[j]);
            }
        }
    }
}

proof fn lemma_pools_of(order: Seq<u16>, ds: Seq<Device>, n: nat)
    requires
        n <= ds.len(),
    ensures
        ledger::pools_of(order, ds, n) matches Ok(ps) ==> ps.len() == n && forall|j: int|
            0 <= j < n ==> !(#[trigger] ps[j]).1 && ds[j] == (Device::Cpu { numa: ps[j].0 }),
    decreases n,
{
    if n > 0 {
        lemma_pools_of(order, ds, (n - 1) as nat);
    }
}

/// What the replicas of a slot that was placed look like.
pub open spec fn honoured(placement: PlacementView, slot: Seq<LocalReplica>) -> bool {
    match placement {
        PlacementView::Strict(d) => slot.len() == 1 && slot[0].device == d && !slot[0].misplaced,
        PlacementView::Prefer(d) => slot.len() == 1 && (slot[0].misplaced <==> slot[0].device
            != d),
        PlacementView::Each(ds) => slot.len() == ds.len() && forall|j: int|
            0 <= j < ds.len() ==> (#[trigger] slot[j]).device == ds[j] && !slot[j].misplaced,
        PlacementView::Anywhere => slot.len() == 1 && !slot[0].misplaced,
    }
}

/// A slot that is placed lands where its placement says: on the device demanded, on
/// every one of several, on any, or on another one than preferred only if it is
/// marked as misplaced. Each replica is memory of the store, at its own allocation.
pub proof fn law_local_placement_is_honoured(
    s: LocalState,
    order: Seq<u16>,
    placement: PlacementView,
    len: nat,
    run: usize,
    key: Seq<u8>,
    j: int,
)
    requires
        s.placed(order, placement, len, run, key).1 is Ok,
    ensures
        ({
            let spots = s.placed(order, placement, len, run, key).1->Ok_0;
            let slot = ledger::spot_replicas(spots);
            &&& honoured(placement, slot)
            &&& slot.len() == spots.len()
            &&& 0 <= j < slot.len() ==> slot[j].tier == Tier::Dram && slot[j].data
                == LocalData::Pinned(spots[j].2) && slot[j].device == (Device::Cpu {
                numa: spots[j].0,
            })
        }),
{
    let (targets, first) = ledger::resolved(placement, order)->Ok_0;
    let each = placement is Each;
    lemma_spots(s, targets, first, each, len, run, key, targets.len());
    let spots = s.placed(order, placement, len, run, key).1->Ok_0;
    match placement {
        PlacementView::Prefer(d) => {
            lemma_other_pools(order, d, order.len());
            let c = targets.index_of((spots[0].0, spots[0].1));
            assert(targets[c] == (spots[0].0, spots[0].1));
        },
        PlacementView::Each(ds) => {
            lemma_pools_of(order, ds, ds.len());
            assert forall|x: int| 0 <= x < ds.len() implies (#[trigger] ledger::spot_replicas(
                spots,
            )[x]).device == ds[x] && !ledger::spot_replicas(spots)[x].misplaced by {
                assert((spots[x].0, spots[x].1) == targets[x]);
                assert(!targets[x].1);
            }
        },
        _ => {
            let c = targets.index_of((spots[0].0, spots[0].1));
            assert(targets[c] == (spots[0].0, spots[0].1));
        },
    }
}

} // verus!
