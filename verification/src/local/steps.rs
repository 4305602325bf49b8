//! Every step of the single-node backend keeps its states valid.
use vstd::prelude::*;

use crate::local::ledger;
use crate::local::ledger::{Keeper, LocalObject, LocalReplica, LocalSlot, LocalState};
use crate::local::safety;
use crate::pinned;
use crate::services::model::Entry;
use crate::types::Retention;

verus! {

// ---- replicas that go ----

/// Where the `j`th replica that passes a test stands.
pub open spec fn kept_at(
    replicas: Seq<LocalReplica>,
    keep: spec_fn(LocalReplica) -> bool,
    j: int,
) -> int
    decreases replicas.len(),
{
    if replicas.len() == 0 {
        0
    } else if j < ledger::picked(replicas.drop_last(), keep).len() {
        kept_at(replicas.drop_last(), keep, j)
    } else {
        replicas.len() - 1
    }
}

pub proof fn lemma_picked(
    replicas: Seq<LocalReplica>,
    keep: spec_fn(LocalReplica) -> bool,
    j: int,
)
    requires
        0 <= j < ledger::picked(replicas, keep).len(),
    ensures
        0 <= kept_at(replicas, keep, j) < replicas.len(),
        replicas[kept_at(replicas, keep, j)] == ledger::picked(replicas, keep)[j],
        keep(ledger::picked(replicas, keep)[j]),
    decreases replicas.len(),
{
    let before = ledger::picked(replicas.drop_last(), keep);
    if j < before.len() {
        lemma_picked(replicas.drop_last(), keep, j);
    }
}

pub proof fn lemma_picked_order(
    replicas: Seq<LocalReplica>,
    keep: spec_fn(LocalReplica) -> bool,
    a: int,
    b: int,
)
    requires
        0 <= a < b < ledger::picked(replicas, keep).len(),
    ensures
        kept_at(replicas, keep, a) < kept_at(replicas, keep, b),
    decreases replicas.len(),
{
    let before = ledger::picked(replicas.drop_last(), keep);
    lemma_picked(replicas, keep, a);
    if b < before.len() {
        lemma_picked_order(replicas.drop_last(), keep, a, b);
    } else {
        lemma_picked(replicas.drop_last(), keep, a);
    }
}

pub proof fn lemma_picked_all(replicas: Seq<LocalReplica>, keep: spec_fn(LocalReplica) -> bool)
    requires
        forall|j: int| 0 <= j < replicas.len() ==> keep(#[trigger] replicas[j]),
    ensures
        ledger::picked(replicas, keep) == replicas,
    decreases replicas.len(),
{
    if replicas.len() > 0 {
        let before = replicas.drop_last();
        assert forall|j: int| 0 <= j < before.len() implies keep(#[trigger] before[j]) by {
            assert(replicas[j] == before[j]);
        }
        lemma_picked_all(before, keep);
        assert(keep(replicas[replicas.len() - 1]));
        assert(before.push(replicas.last()) =~= replicas);
    } else {
        assert(ledger::picked(replicas, keep) =~= replicas);
    }
}

/// A replica that passes the test is picked.
pub proof fn lemma_picked_has(
    replicas: Seq<LocalReplica>,
    keep: spec_fn(LocalReplica) -> bool,
    j: int,
)
    requires
        0 <= j < replicas.len(),
        keep(replicas[j]),
    ensures
        ledger::picked(replicas, keep).contains(replicas[j]),
    decreases replicas.len(),
{
    let before = replicas.drop_last();
    let now = ledger::picked(replicas, keep);
    if j < before.len() {
        lemma_picked_has(before, keep, j);
        let c = choose|c: int|
            0 <= c < ledger::picked(before, keep).len() && ledger::picked(before, keep)[c] == before[j];
        assert(now[c] == replicas[j]);
    } else {
        assert(now[now.len() - 1] == replicas[j]);
    }
}

/// Whether a slot lost replicas and nothing else.
pub open spec fn slot_shrinks(before: LocalSlot, after: LocalSlot) -> bool {
    &&& after.writing == before.writing
    &&& exists|keep: spec_fn(LocalReplica) -> bool|
        after.replicas == #[trigger] ledger::picked(before.replicas, keep)
}

pub open spec fn object_shrinks(before: LocalObject, after: LocalObject) -> bool {
    &&& after.spec == before.spec
    &&& after.slots.len() == before.slots.len()
    &&& forall|i: int|
        0 <= i < before.slots.len() ==> slot_shrinks(before.slots[i], #[trigger] after.slots[i])
}

pub proof fn lemma_slot_same(slot: LocalSlot)
    ensures
        slot_shrinks(slot, slot),
{
    let keep = |r: LocalReplica| true;
    lemma_picked_all(slot.replicas, keep);
    assert(slot.replicas == ledger::picked(slot.replicas, keep));
}

pub proof fn lemma_object_same(obj: LocalObject)
    ensures
        object_shrinks(obj, obj),
{
    assert forall|i: int| 0 <= i < obj.slots.len() implies slot_shrinks(
        obj.slots[i],
        #[trigger] obj.slots[i],
    ) by {
        lemma_slot_same(obj.slots[i]);
    }
}

/// Whether `t` has the objects of `s` or fewer, with fewer replicas, and
/// nothing else changed.
pub open spec fn shrinks(s: LocalState, t: LocalState) -> bool {
    &&& t.bufs == s.bufs
    &&& t.runs == s.runs
    &&& t.pools == s.pools
    &&& forall|k: Seq<u8>| #[trigger]
        t.objects.contains_key(k) ==> s.objects.contains_key(k) && object_shrinks(
            s.objects[k],
            t.objects[k],
        )
}

/// A position in the state with fewer replicas is one in the state before.
proof fn lemma_origin(s: LocalState, t: LocalState, k: Seq<u8>, i: int, j: int) -> (o: int)
    requires
        shrinks(s, t),
        safety::has(t, k, i, j),
    ensures
        safety::has(s, k, i, o),
        safety::rep(s, k, i, o) == safety::rep(t, k, i, j),
        forall|keep: spec_fn(LocalReplica) -> bool|
            t.objects[k].slots[i].replicas == #[trigger] ledger::picked(
                s.objects[k].slots[i].replicas,
                keep,
            ) ==> keep(safety::rep(t, k, i, j)),
{
    assert(object_shrinks(s.objects[k], t.objects[k]));
    let a = s.objects[k].slots[i];
    let b = t.objects[k].slots[i];
    assert(slot_shrinks(a, b));
    let keep = choose|keep: spec_fn(LocalReplica) -> bool|
        b.replicas == #[trigger] ledger::picked(a.replicas, keep);
    lemma_picked(a.replicas, keep, j);
    assert forall|other: spec_fn(LocalReplica) -> bool|
        b.replicas == #[trigger] ledger::picked(a.replicas, other) implies other(safety::rep(t, k, i, j)) by {
        lemma_picked(a.replicas, other, j);
    }
    kept_at(a.replicas, keep, j)
}

/// Two positions of one slot come from two positions.
proof fn lemma_origins_differ(s: LocalState, t: LocalState, k: Seq<u8>, i: int, a: int, b: int, id: int)
    requires
        shrinks(s, t),
        safety::refs_ok(s),
        safety::refers(t, k, i, a, id),
        safety::refers(t, k, i, b, id),
    ensures
        a == b,
{
    assert(object_shrinks(s.objects[k], t.objects[k]));
    let x = s.objects[k].slots[i];
    let y = t.objects[k].slots[i];
    assert(slot_shrinks(x, y));
    let keep = choose|keep: spec_fn(LocalReplica) -> bool|
        y.replicas == #[trigger] ledger::picked(x.replicas, keep);
    lemma_picked(x.replicas, keep, a);
    lemma_picked(x.replicas, keep, b);
    assert(safety::refers(s, k, i, kept_at(x.replicas, keep, a), id));
    assert(safety::refers(s, k, i, kept_at(x.replicas, keep, b), id));
    if a < b {
        lemma_picked_order(x.replicas, keep, a, b);
    } else if b < a {
        lemma_picked_order(x.replicas, keep, b, a);
    }
}

/// Losing replicas keeps what is said of replicas and writes.
pub proof fn lemma_shrinks(s: LocalState, t: LocalState)
    requires
        safety::refs_ok(s),
        safety::claims_ok(s),
        shrinks(s, t),
    ensures
        safety::refs_ok(t),
        safety::claims_ok(t),
{
    assert forall|k: Seq<u8>| #[trigger] t.objects.contains_key(k) implies t.objects[k].slots.len()
        == t.objects[k].spec.slots.len() by {
        assert(s.objects.contains_key(k));
    }
    assert forall|k: Seq<u8>, i: int, j: int| #[trigger] safety::has(t, k, i, j) implies safety::replica_ok(
        t,
        safety::rep(t, k, i, j),
        t.objects[k].spec.slots[i].len,
    ) by {
        let o = lemma_origin(s, t, k, i, j);
        assert(safety::has(s, k, i, o));
        let r = safety::rep(s, k, i, o);
        assert(safety::replica_ok(s, r, s.objects[k].spec.slots[i].len));
        if r.data is Pinned {
            assert(t.live(r.data->Pinned_0 as int) == s.live(r.data->Pinned_0 as int));
        }
    }
    assert forall|k: Seq<u8>, i: int, j: int, k2: Seq<u8>, i2: int, j2: int, id: int| #[trigger]
        safety::refers(t, k, i, j, id) && #[trigger] safety::refers(t, k2, i2, j2, id) implies k == k2 && i == i2
        && j == j2 by {
        let o = lemma_origin(s, t, k, i, j);
        let o2 = lemma_origin(s, t, k2, i2, j2);
        assert(safety::refers(s, k, i, o, id) && safety::refers(s, k2, i2, o2, id));
        lemma_origins_differ(s, t, k, i, j, j2, id);
    }
    assert forall|run: int| #[trigger] t.active(run) implies safety::run_ok(t, run) by {
        assert(s.active(run));
        assert(safety::run_ok(s, run));
        lemma_run_frame(s, t, run);
    }
    assert forall|k: Seq<u8>, i: int|
        t.objects.contains_key(k) && 0 <= i < t.objects[k].slots.len() implies #[trigger] safety::claim_ok(
        t,
        k,
        i,
    ) by {
        assert(s.objects.contains_key(k));
        assert(safety::claim_ok(s, k, i));
        let slot = t.objects[k].slots[i];
        assert(slot_shrinks(s.objects[k].slots[i], slot));
        if slot.writing is Some {
            let run = slot.writing->0 as int;
            assert(s.active(run));
            assert(t.active(run));
            assert forall|j: int| 0 <= j < slot.replicas.len() implies (
            #[trigger] slot.replicas[j]).data is External by {
                assert(safety::has(t, k, i, j));
                let o = lemma_origin(s, t, k, i, j);
                assert(s.objects[k].slots[i].replicas[o].data is External);
            }
        }
    }
}

/// What is said of a write depends on its record and the table alone.
pub proof fn lemma_run_frame(s: LocalState, t: LocalState, run: int)
    requires
        s.active(run),
        safety::run_ok(s, run),
        t.runs == s.runs,
        t.bufs == s.bufs,
    ensures
        safety::run_ok(t, run),
{
    let r = s.runs[run]->0;
    if r.pending is Some {
        let spots = r.pending->0;
        assert forall|x: int| 0 <= x < spots.len() implies safety::spot_ok(
            t,
            run,
            #[trigger] spots[x],
            r.spec.slots[r.results.len() as int].len,
        ) by {
            assert(safety::spot_ok(s, run, spots[x], r.spec.slots[r.results.len() as int].len));
            assert(s.live(spots[x].2 as int));
            assert(t.live(spots[x].2 as int));
        }
    }
}

pub proof fn lemma_table_frame(s: LocalState, t: LocalState)
    requires
        safety::table_ok(s),
        t.bufs == s.bufs,
        t.pools.dom() == s.pools.dom(),
        forall|n: u16| #[trigger]
            s.pools.contains_key(n) ==> t.pools[n].pinned == s.pools[n].pinned,
    ensures
        safety::table_ok(t),
{
    assert forall|id: int| #[trigger] t.live(id) implies safety::buf_ok(t, id) by {
        assert(s.live(id));
        assert(safety::buf_ok(s, id));
    }
    assert forall|a: int, b: int| #[trigger]
        t.live(a) && #[trigger] t.live(b) && a != b implies safety::apart(
        t.bufs[a]->0.buf,
        t.bufs[b]->0.buf,
    ) by {
        assert(s.live(a) && s.live(b));
    }
    assert forall|n: u16, x: int|
        t.pools.contains_key(n) && 0 <= x < t.pools[n].pinned.len implies #[trigger] safety::is_accounted(
        t,
        n,
        x,
    ) by {
        assert(s.pools.contains_key(n));
        assert(safety::is_accounted(s, n, x));
        if !pinned::is_free(s.pools[n].pinned.free, x) {
            let j = choose|j: int| #[trigger]
                s.live(j) && s.bufs[j]->0.buf.numa == n && s.bufs[j]->0.buf.covers(x);
            assert(t.live(j));
        }
    }
    assert forall|n: u16| #[trigger] t.pools.contains_key(n) implies t.pools[n].pinned.ok()
        && t.pools[n].pinned.numa == n by {
        assert(s.pools.contains_key(n));
    }
}

/// Replicas that lost their place, and their allocations let go: the state
/// stays valid.
pub proof fn lemma_dropped(s: LocalState, m: LocalState, ids: Seq<usize>)
    requires
        safety::local_inv(s),
        shrinks(s, m),
        s.bufs.len() <= usize::MAX,
        safety::distinct(ids),
        forall|x: int|
            0 <= x < ids.len() ==> s.live(#[trigger] ids[x] as int)
                && s.bufs[ids[x] as int]->0.keeper == Keeper::Stored,
        forall|k: Seq<u8>, i: int, j: int, x: int|
            0 <= x < ids.len() ==> !#[trigger] safety::refers(m, k, i, j, #[trigger] ids[x] as int),
    ensures
        safety::local_inv(m.let_go_all(ids, ids.len())),
        safety::lets_go(m, m.let_go_all(ids, ids.len()), ids),
{
    lemma_shrinks(s, m);
    lemma_table_frame(s, m);
    assert forall|x: int| 0 <= x < ids.len() implies m.live(#[trigger] ids[x] as int) by {
        assert(s.live(ids[x] as int));
    }
    safety::lemma_let_go_all(m, ids, ids.len());
    assert(ids.take(ids.len() as int) =~= ids);
    let t = m.let_go_all(ids, ids.len());
    assert forall|run: int, x: int, y: int|
        #[trigger] m.active(run) && m.runs[run]->0.pending is Some && 0 <= x
            < m.runs[run]->0.pending->0.len() && 0 <= y < ids.len() implies (
    #[trigger] m.runs[run]->0.pending->0[x]).2 != #[trigger] ids[y] by {
        assert(safety::run_ok(m, run));
        let r = m.runs[run]->0;
        assert(safety::spot_ok(m, run, r.pending->0[x], r.spec.slots[r.results.len() as int].len));
        assert(s.bufs[ids[y] as int]->0.keeper == Keeper::Stored);
    }
    safety::lemma_unrelated(m, t, ids);
}

/// What a step that makes room may do: take replicas in the pool of `numa` from
/// `Cache` objects other than `protect`, and objects that have none left.
pub open spec fn local_evicts(s: LocalState, t: LocalState, numa: u16, protect: Seq<u8>) -> bool {
    &&& t.runs == s.runs
    &&& t.bufs.len() == s.bufs.len()
    &&& forall|id: int|
        s.live(id) && s.bufs[id]->0.keeper is Writer ==> #[trigger] t.bufs[id] == s.bufs[id]
    &&& t.pools.dom() == s.pools.dom()
    &&& forall|n: u16| #[trigger]
        s.pools.contains_key(n) ==> t.pools[n].pinned.len == s.pools[n].pinned.len
            && t.pools[n].pinned.base == s.pools[n].pinned.base
    &&& forall|n: u16| #[trigger]
        s.pools.contains_key(n) && n != numa ==> t.pools[n].fifo == s.pools[n].fifo
    &&& forall|k: Seq<u8>| #[trigger]
        t.objects.contains_key(k) ==> s.objects.contains_key(k) && loses_pinned(
            s.objects[k],
            t.objects[k],
            numa,
        )
    &&& forall|k: Seq<u8>| #[trigger]
        s.objects.contains_key(k) && (k == protect || s.objects[k].spec.retention
            != Retention::Cache) ==> t.objects.contains_key(k) && t.objects[k] == s.objects[k]
    &&& forall|k: Seq<u8>| #[trigger]
        s.objects.contains_key(k) && !t.objects.contains_key(k) ==> all_pinned(s.objects[k], numa)
}

/// Whether a slot lost nothing but replicas in the pool of `numa`.
pub open spec fn slot_loses_pinned(before: LocalSlot, after: LocalSlot, numa: u16) -> bool {
    &&& after.writing == before.writing
    &&& forall|r: LocalReplica| #[trigger]
        after.replicas.contains(r) ==> before.replicas.contains(r)
    &&& forall|r: LocalReplica| #[trigger]
        before.replicas.contains(r) && !r.pinned_on(numa) ==> after.replicas.contains(r)
}

/// Whether an object lost nothing but replicas in the pool of `numa`.
pub open spec fn loses_pinned(before: LocalObject, after: LocalObject, numa: u16) -> bool {
    &&& after.spec == before.spec
    &&& after.slots.len() == before.slots.len()
    &&& forall|i: int|
        0 <= i < before.slots.len() ==> slot_loses_pinned(
            before.slots[i],
            #[trigger] after.slots[i],
            numa,
        )
}

/// Whether nothing of a slot lies outside the pool of `numa`, and nobody writes
/// it.
pub open spec fn slot_all_pinned(slot: LocalSlot, numa: u16) -> bool {
    &&& slot.writing is None
    &&& forall|r: LocalReplica| #[trigger] slot.replicas.contains(r) ==> r.pinned_on(numa)
}

pub open spec fn all_pinned(obj: LocalObject, numa: u16) -> bool {
    forall|i: int| 0 <= i < obj.slots.len() ==> slot_all_pinned(#[trigger] obj.slots[i], numa)
}

pub proof fn lemma_local_evicts_transitive(
    s: LocalState,
    t: LocalState,
    u: LocalState,
    numa: u16,
    protect: Seq<u8>,
)
    requires
        local_evicts(s, t, numa, protect),
        local_evicts(t, u, numa, protect),
    ensures
        local_evicts(s, u, numa, protect),
{
    assert forall|id: int|
        s.live(id) && s.bufs[id]->0.keeper is Writer implies #[trigger] u.bufs[id] == s.bufs[id] by {
        assert(t.bufs[id] == s.bufs[id]);
        assert(t.live(id));
    }
    assert forall|n: u16| #[trigger]
        s.pools.contains_key(n) implies u.pools[n].pinned.len == s.pools[n].pinned.len
        && u.pools[n].pinned.base == s.pools[n].pinned.base && (n != numa ==> u.pools[n].fifo
        == s.pools[n].fifo) by {
        assert(t.pools.contains_key(n));
    }
    assert forall|k: Seq<u8>| #[trigger] u.objects.contains_key(k) implies s.objects.contains_key(k)
        && loses_pinned(s.objects[k], u.objects[k], numa) by {
        assert(t.objects.contains_key(k));
        let a = s.objects[k];
        let b = t.objects[k];
        let c = u.objects[k];
        assert forall|i: int| 0 <= i < a.slots.len() implies slot_loses_pinned(
            a.slots[i],
            #[trigger] c.slots[i],
            numa,
        ) by {
            assert(slot_loses_pinned(a.slots[i], b.slots[i], numa));
            assert(slot_loses_pinned(b.slots[i], c.slots[i], numa));
        }
    }
    assert forall|k: Seq<u8>| #[trigger]
        s.objects.contains_key(k) && (k == protect || s.objects[k].spec.retention
            != Retention::Cache) implies u.objects.contains_key(k) && u.objects[k]
        == s.objects[k] by {
        assert(t.objects.contains_key(k));
    }
    assert forall|k: Seq<u8>| #[trigger]
        s.objects.contains_key(k) && !u.objects.contains_key(k) implies all_pinned(
        s.objects[k],
        numa,
    ) by {
        if t.objects.contains_key(k) {
            let a = s.objects[k];
            let b = t.objects[k];
            assert forall|i: int| 0 <= i < a.slots.len() implies slot_all_pinned(
                #[trigger] a.slots[i],
                numa,
            ) by {
                assert(slot_loses_pinned(a.slots[i], b.slots[i], numa));
                assert(slot_all_pinned(b.slots[i], numa));
            }
        }
    }
}

pub proof fn lemma_local_evicts_refl(s: LocalState, numa: u16, protect: Seq<u8>)
    ensures
        local_evicts(s, s, numa, protect),
{
}

/// The allocations of a slot in one pool are live, kept by replicas, and
/// distinct.
pub proof fn lemma_pinned_ids(s: LocalState, k: Seq<u8>, i: int, numa: u16)
    requires
        safety::refs_ok(s),
        s.objects.contains_key(k),
        0 <= i < s.objects[k].slots.len(),
    ensures
        safety::distinct(ledger::pinned_ids(s.objects[k].slots[i].replicas, numa)),
        forall|x: int|
            0 <= x < ledger::pinned_ids(s.objects[k].slots[i].replicas, numa).len() ==> s.live(
                #[trigger] ledger::pinned_ids(s.objects[k].slots[i].replicas, numa)[x] as int,
            ),
{
    let replicas = s.objects[k].slots[i].replicas;
    let on = |r: LocalReplica| r.pinned_on(numa);
    let ids = ledger::pinned_ids(replicas, numa);
    assert forall|x: int| 0 <= x < ids.len() implies s.live(#[trigger] ids[x] as int)
        && safety::refers(s, k, i, kept_at(replicas, on, x), ids[x] as int) by {
        lemma_picked(replicas, on, x);
        assert(safety::has(s, k, i, kept_at(replicas, on, x)));
    }
    assert forall|x: int, y: int| 0 <= x < y < ids.len() implies #[trigger] ids[x]
        != #[trigger] ids[y] by {
        lemma_picked_order(replicas, on, x, y);
        assert(safety::refers(s, k, i, kept_at(replicas, on, x), ids[x] as int));
        assert(safety::refers(s, k, i, kept_at(replicas, on, y), ids[y] as int));
    }
}

proof fn lemma_slot_loses_all(before: LocalSlot, after: LocalSlot, numa: u16)
    requires
        after == (LocalSlot {
            replicas: ledger::without_pinned(before.replicas, numa),
            ..before
        }),
    ensures
        slot_loses_pinned(before, after, numa),
{
    let off = |r: LocalReplica| !r.pinned_on(numa);
    assert forall|r: LocalReplica| #[trigger]
        after.replicas.contains(r) implies before.replicas.contains(r) by {
        let x = after.replicas.index_of(r);
        lemma_picked(before.replicas, off, x);
    }
    assert forall|r: LocalReplica| #[trigger]
        before.replicas.contains(r) && !r.pinned_on(numa) implies after.replicas.contains(r) by {
        lemma_picked_has(before.replicas, off, before.replicas.index_of(r));
    }
}

/// Evicting one slot keeps the state valid.
pub proof fn lemma_evicted(s: LocalState, numa: u16, entry: Entry, protect: Seq<u8>)
    requires
        safety::local_inv(s),
        s.pools.contains_key(numa),
        s.bufs.len() <= usize::MAX,
        entry.0 != protect,
    ensures
        safety::local_inv(s.evicted(numa, entry).0),
        local_evicts(s, s.evicted(numa, entry).0, numa, protect),
        s.evicted(numa, entry).0.pools[numa].fifo == s.pools[numa].fifo,
{
    lemma_local_evicts_refl(s, numa, protect);
    if s.evictable(entry) {
        let k0 = entry.0;
        let i0 = entry.1 as int;
        let obj = s.objects[k0];
        let slot = obj.slots[i0];
        let ids = ledger::pinned_ids(slot.replicas, numa);
        let on = |r: LocalReplica| r.pinned_on(numa);
        let off = |r: LocalReplica| !r.pinned_on(numa);
        let gone = ledger::picked(slot.replicas, on);
        let slots = obj.slots.update(
            i0,
            LocalSlot { replicas: ledger::without_pinned(slot.replicas, numa), ..slot },
        );
        let after = LocalObject { slots, ..obj };
        let objects = if ledger::idle(slots) {
            s.objects.remove(k0)
        } else {
            s.objects.insert(k0, after)
        };
        let m = LocalState { objects, ..s };
        let t = m.let_go_all(ids, ids.len());
        assert(object_shrinks(obj, after)) by {
            assert forall|i: int| 0 <= i < obj.slots.len() implies slot_shrinks(
                obj.slots[i],
                #[trigger] after.slots[i],
            ) by {
                lemma_slot_same(obj.slots[i]);
                if i == i0 {
                    assert(after.slots[i].replicas == ledger::picked(slot.replicas, off));
                }
            }
        }
        assert(shrinks(s, m)) by {
            assert forall|k: Seq<u8>| #[trigger]
                m.objects.contains_key(k) implies s.objects.contains_key(k) && object_shrinks(
                s.objects[k],
                m.objects[k],
            ) by {
                lemma_object_same(s.objects[k]);
            }
        }
        assert forall|x: int| 0 <= x < ids.len() implies s.live(#[trigger] ids[x] as int)
            && s.bufs[ids[x] as int]->0.keeper == Keeper::Stored && safety::refers(
            s,
            k0,
            i0,
            kept_at(slot.replicas, on, x),
            ids[x] as int,
        ) by {
            lemma_picked(slot.replicas, on, x);
            assert(safety::has(s, k0, i0, kept_at(slot.replicas, on, x)));
        }
        assert(safety::distinct(ids)) by {
            assert forall|x: int, y: int| 0 <= x < y < ids.len() implies #[trigger] ids[x]
                != #[trigger] ids[y] by {
                lemma_picked_order(slot.replicas, on, x, y);
                assert(safety::refers(s, k0, i0, kept_at(slot.replicas, on, x), ids[x] as int));
                assert(safety::refers(s, k0, i0, kept_at(slot.replicas, on, y), ids[y] as int));
            }
        }
        assert forall|k: Seq<u8>, i: int, j: int, x: int| 0 <= x < ids.len() implies !#[trigger] safety::refers(
            m,
            k,
            i,
            j,
            #[trigger] ids[x] as int,
        ) by {
            if safety::refers(m, k, i, j, ids[x] as int) {
                let o = lemma_origin(s, m, k, i, j);
                lemma_picked(slot.replicas, on, x);
                assert(safety::refers(s, k, i, o, ids[x] as int));
                assert(safety::refers(s, k0, i0, kept_at(slot.replicas, on, x), ids[x] as int));
                assert(k == k0 && i == i0);
                assert(m.objects[k].slots[i].replicas == ledger::picked(
                    s.objects[k].slots[i].replicas,
                    off,
                ));
                assert(off(safety::rep(m, k, i, j)));
                assert(on(gone[x]));
            }
        }
        lemma_dropped(s, m, ids);
        assert(local_evicts(s, t, numa, protect)) by {
            assert forall|id: int|
                s.live(id) && s.bufs[id]->0.keeper is Writer implies #[trigger] t.bufs[id]
                == s.bufs[id] by {
                if ids.contains(id as usize) {
                    let x = ids.index_of(id as usize);
                    assert(s.bufs[ids[x] as int]->0.keeper == Keeper::Stored);
                }
                assert(t.bufs[id] == m.bufs[id]);
            }
            assert forall|n: u16| #[trigger] s.pools.contains_key(n) implies t.pools[n].pinned.len
                == s.pools[n].pinned.len && t.pools[n].pinned.base == s.pools[n].pinned.base
                && t.pools[n].fifo == s.pools[n].fifo by {
                assert(m.pools.contains_key(n));
            }
            lemma_slot_loses_all(slot, slots[i0], numa);
            assert(loses_pinned(obj, after, numa)) by {
                assert forall|i: int| 0 <= i < obj.slots.len() implies slot_loses_pinned(
                    obj.slots[i],
                    #[trigger] after.slots[i],
                    numa,
                ) by {}
            }
            assert forall|k: Seq<u8>| #[trigger]
                s.objects.contains_key(k) && !t.objects.contains_key(k) implies all_pinned(
                s.objects[k],
                numa,
            ) by {
                assert(k == k0);
                assert forall|i: int| 0 <= i < obj.slots.len() implies slot_all_pinned(
                    #[trigger] obj.slots[i],
                    numa,
                ) by {
                    assert(slots[i].replicas.len() == 0 && slots[i].writing is None);
                    assert(slot_loses_pinned(obj.slots[i], slots[i], numa));
                }
            }
        }
        assert(t.pools[numa].fifo == s.pools[numa].fifo) by {
            assert(m.pools.contains_key(numa));
        }
    }
}

/// Another eviction order changes nothing else.
pub proof fn lemma_with_fifo(s: LocalState, numa: u16, fifo: Seq<Entry>, protect: Seq<u8>)
    requires
        safety::local_inv(s),
        s.pools.contains_key(numa),
    ensures
        safety::local_inv(s.with_fifo(numa, fifo)),
        local_evicts(s, s.with_fifo(numa, fifo), numa, protect),
        s.with_fifo(numa, fifo).pools[numa].fifo == fifo,
{
    let t = s.with_fifo(numa, fifo);
    assert(t.pools.dom() =~= s.pools.dom());
    lemma_table_frame(s, t);
    lemma_state_frame(s, t);
}

/// What is said of replicas and writes depends on objects, writes and the table
/// alone.
pub proof fn lemma_state_frame(s: LocalState, t: LocalState)
    requires
        safety::refs_ok(s),
        safety::claims_ok(s),
        t.objects == s.objects,
        t.runs == s.runs,
        t.bufs == s.bufs,
    ensures
        safety::refs_ok(t),
        safety::claims_ok(t),
{
    safety::lemma_more(s, t);
}

pub proof fn lemma_evict_some(s: LocalState, numa: u16, protect: Seq<u8>, aside: Seq<Entry>)
    requires
        safety::local_inv(s),
        s.pools.contains_key(numa),
        s.bufs.len() <= usize::MAX,
    ensures
        ({
            let (t, any) = s.evict_some(numa, protect, aside);
            &&& safety::local_inv(t)
            &&& local_evicts(s, t, numa, protect)
            &&& t.pools[numa].fifo.len() <= s.pools[numa].fifo.len() + aside.len()
            &&& any ==> t.pools[numa].fifo.len() < s.pools[numa].fifo.len() + aside.len()
        }),
    decreases s.pools[numa].fifo.len(),
{
    let fifo = s.pools[numa].fifo;
    if fifo.len() == 0 {
        lemma_with_fifo(s, numa, aside, protect);
    } else {
        let rest = s.with_fifo(numa, fifo.drop_first());
        lemma_with_fifo(s, numa, fifo.drop_first(), protect);
        if s.spared(fifo[0], protect) {
            lemma_evict_some(rest, numa, protect, aside.push(fifo[0]));
            lemma_local_evicts_transitive(
                s,
                rest,
                s.evict_some(numa, protect, aside).0,
                numa,
                protect,
            );
        } else {
            lemma_evicted(rest, numa, fifo[0], protect);
            let (after, any) = rest.evicted(numa, fifo[0]);
            lemma_local_evicts_transitive(s, rest, after, numa, protect);
            if any {
                lemma_with_fifo(after, numa, aside + after.pools[numa].fifo, protect);
                lemma_local_evicts_transitive(
                    s,
                    after,
                    s.evict_some(numa, protect, aside).0,
                    numa,
                    protect,
                );
            } else {
                lemma_evict_some(after, numa, protect, aside);
                lemma_local_evicts_transitive(
                    s,
                    after,
                    s.evict_some(numa, protect, aside).0,
                    numa,
                    protect,
                );
            }
        }
    }
}

/// Allocating, with evictions where they are needed, keeps the state valid;
/// what was allocated is new and the writer's.
pub proof fn lemma_alloc_or_evict(s: LocalState, numa: u16, len: nat, run: usize, protect: Seq<u8>)
    requires
        safety::local_inv(s),
        s.bufs.len() <= usize::MAX,
    ensures
        ({
            let (t, r) = s.alloc_or_evict(numa, len, run, protect);
            &&& safety::local_inv(t)
            &&& t.runs == s.runs
            &&& t.bufs.len() <= s.bufs.len() + 1
            &&& t.bufs.len() >= s.bufs.len()
            &&& forall|id: int|
                s.live(id) && s.bufs[id]->0.keeper is Writer ==> #[trigger] t.bufs[id]
                    == s.bufs[id]
            &&& t.pools.dom() == s.pools.dom()
            &&& s.objects.contains_key(protect) ==> t.objects.contains_key(protect)
                && t.objects[protect] == s.objects[protect]
            &&& forall|k: Seq<u8>| #[trigger]
                s.objects.contains_key(k) && s.objects[k].spec.retention != Retention::Cache
                    ==> t.objects.contains_key(k) && t.objects[k] == s.objects[k]
            &&& r matches Ok(id) ==> {
                &&& 0 <= id <= s.bufs.len()
                &&& !(s.live(id) && s.bufs[id]->0.keeper is Writer)
                &&& t.live(id)
                &&& t.bufs[id]->0.keeper == Keeper::Writer(run)
                &&& t.bufs[id]->0.buf.numa == numa
                &&& t.bufs[id]->0.buf.len == len
            }
        }),
    decreases s.pools[numa].fifo.len(),
{
    if s.pools.contains_key(numa) {
        match s.taken(numa, len, run) {
            Some((t, id)) => {
                lemma_fits(s, numa, len, run);
                safety::lemma_taken(s, numa, len, run);
                safety::lemma_more(s, t);
            },
            None => {
                if len <= s.pools[numa].pinned.len {
                    lemma_evict_some(s, numa, protect, Seq::empty());
                    let (t, any) = s.evict_some(numa, protect, Seq::empty());
                    if any {
                        lemma_alloc_or_evict(t, numa, len, run, protect);
                        let (u, r) = t.alloc_or_evict(numa, len, run, protect);
                        assert forall|id: int|
                            s.live(id) && s.bufs[id]->0.keeper is Writer implies #[trigger] u.bufs[id]
                            == s.bufs[id] by {
                            assert(t.bufs[id] == s.bufs[id]);
                            assert(t.live(id));
                        }
                        if let Ok(id) = r {
                            if s.live(id) && s.bufs[id]->0.keeper is Writer {
                                assert(t.bufs[id] == s.bufs[id]);
                                assert(t.live(id));
                            }
                        }
                        assert forall|k: Seq<u8>| #[trigger]
                            s.objects.contains_key(k) && s.objects[k].spec.retention
                                != Retention::Cache implies u.objects.contains_key(k)
                            && u.objects[k] == s.objects[k] by {
                            assert(t.objects.contains_key(k));
                        }
                    }
                }
            },
        }
    }
}

/// What is allocated fits its type.
proof fn lemma_fits(s: LocalState, numa: u16, len: nat, run: usize)
    requires
        safety::table_ok(s),
        s.pools.contains_key(numa),
        s.taken(numa, len, run) is Some,
    ensures
        pinned::rounded(len) <= usize::MAX,
{
    let pool = s.pools[numa].pinned;
    let i = choose|i: int| pinned::first_fit(pool.free, pinned::rounded(len), i);
    assert(pinned::first_fit(pool.free, pinned::rounded(len), i));
}

} // verus!
