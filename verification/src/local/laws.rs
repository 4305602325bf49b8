//! What the single-node backend promises over several calls.
use vstd::prelude::*;

use crate::error::ErrorView;
use crate::local::backend::{Hold, LocalView};
use crate::local::ledger;
use crate::local::ledger::{
    Keeper, LocalBuf, LocalObject, LocalReplica, LocalSlot, LocalState,
};
use crate::local::safety;
use crate::local::steps;
use crate::local::writes;
use crate::ops;
use crate::ops::{OpGetView, OpPublishView, OpPutView};
use crate::pinned;
use crate::services::model::Entry;
use crate::types::{Device, Retention};

verus! {

/// Memory is handed out once and never lost: every byte of a pool is free or
/// belongs to an allocation, not to two, and not both.
pub proof fn law_every_byte_has_one_keeper(s: LocalState, numa: u16, x: int)
    requires
        safety::local_inv(s),
        s.pools.contains_key(numa),
        0 <= x < s.pools[numa].pinned.len,
    ensures
        pinned::is_free(s.pools[numa].pinned.free, x) <==> !safety::is_taken(s, numa, x),
        forall|a: int, b: int| #[trigger]
            s.live(a) && #[trigger] s.live(b) && s.bufs[a]->0.buf.numa == numa
                && s.bufs[b]->0.buf.numa == numa && s.bufs[a]->0.buf.covers(x)
                && s.bufs[b]->0.buf.covers(x) ==> a == b,
{
    assert(safety::is_accounted(s, numa, x));
    if pinned::is_free(s.pools[numa].pinned.free, x) && safety::is_taken(s, numa, x) {
        let id = choose|id: int| #[trigger]
            s.live(id) && s.bufs[id]->0.buf.numa == numa && s.bufs[id]->0.buf.covers(x);
        assert(safety::buf_ok(s, id));
    }
    assert forall|a: int, b: int| #[trigger]
        s.live(a) && #[trigger] s.live(b) && s.bufs[a]->0.buf.numa == numa && s.bufs[b]->0.buf.numa
            == numa && s.bufs[a]->0.buf.covers(x) && s.bufs[b]->0.buf.covers(x) implies a == b by {
        if a != b {
            assert(safety::apart(s.bufs[a]->0.buf, s.bufs[b]->0.buf));
        }
    }
}

/// Whether what is being read in `s` is still there in `t`.
pub open spec fn reads_survive(s: LocalState, t: LocalState) -> bool {
    forall|id: int| #[trigger]
        s.live(id) && s.bufs[id]->0.readers > 0 ==> t.live(id) && t.bufs[id]->0.buf
            == s.bufs[id]->0.buf && t.bufs[id]->0.readers == s.bufs[id]->0.readers
}

proof fn lemma_reads_survive_let_go(s: LocalState, ids: Seq<usize>, n: nat)
    requires
        n <= ids.len(),
        forall|x: int| 0 <= x < ids.len() ==> #[trigger] ids[x] < s.bufs.len(),
    ensures
        reads_survive(s, s.let_go_all(ids, n)),
        s.let_go_all(ids, n).bufs.len() == s.bufs.len(),
    decreases n,
{
    if n > 0 {
        lemma_reads_survive_let_go(s, ids, (n - 1) as nat);
        let p = s.let_go_all(ids, (n - 1) as nat);
        let t = s.let_go_all(ids, n);
        assert forall|id: int| #[trigger] s.live(id) && s.bufs[id]->0.readers > 0 implies t.live(id)
            && t.bufs[id]->0.buf == s.bufs[id]->0.buf && t.bufs[id]->0.readers
            == s.bufs[id]->0.readers by {
            assert(p.live(id));
        }
    }
}

proof fn lemma_reads_survive_evict(s: LocalState, numa: u16, entry: Entry)
    requires
        safety::refs_ok(s),
    ensures
        reads_survive(s, s.evicted(numa, entry).0),
        s.evicted(numa, entry).0.bufs.len() == s.bufs.len(),
{
    if s.evictable(entry) {
        let obj = s.objects[entry.0];
        let slot = obj.slots[entry.1 as int];
        let ids = ledger::pinned_ids(slot.replicas, numa);
        let slots = obj.slots.update(
            entry.1 as int,
            LocalSlot { replicas: ledger::without_pinned(slot.replicas, numa), ..slot },
        );
        let objects = if ledger::idle(slots) {
            s.objects.remove(entry.0)
        } else {
            s.objects.insert(entry.0, LocalObject { slots, ..obj })
        };
        let m = LocalState { objects, ..s };
        steps::lemma_pinned_ids(s, entry.0, entry.1 as int, numa);
        assert forall|x: int| 0 <= x < ids.len() implies #[trigger] ids[x] < m.bufs.len() by {
            assert(s.live(ids[x] as int));
        }
        lemma_reads_survive_let_go(m, ids, ids.len());
        assert forall|id: int| #[trigger]
            s.live(id) && s.bufs[id]->0.readers > 0 implies s.evicted(numa, entry).0.live(id)
            && s.evicted(numa, entry).0.bufs[id]->0.buf == s.bufs[id]->0.buf && s.evicted(
            numa,
            entry,
        ).0.bufs[id]->0.readers == s.bufs[id]->0.readers by {
            assert(m.live(id));
        }
    }
}

proof fn lemma_reads_survive_some(s: LocalState, numa: u16, protect: Seq<u8>, aside: Seq<Entry>)
    requires
        safety::local_inv(s),
        s.pools.contains_key(numa),
        s.bufs.len() <= usize::MAX,
    ensures
        reads_survive(s, s.evict_some(numa, protect, aside).0),
        s.evict_some(numa, protect, aside).0.bufs.len() == s.bufs.len(),
    decreases s.pools[numa].fifo.len(),
{
    let fifo = s.pools[numa].fifo;
    let t = s.evict_some(numa, protect, aside).0;
    if fifo.len() > 0 {
        let rest = s.with_fifo(numa, fifo.drop_first());
        steps::lemma_with_fifo(s, numa, fifo.drop_first(), protect);
        if s.spared(fifo[0], protect) {
            lemma_reads_survive_some(rest, numa, protect, aside.push(fifo[0]));
            lemma_reads_chain(s, rest, t);
        } else {
            lemma_reads_survive_evict(rest, numa, fifo[0]);
            steps::lemma_evicted(rest, numa, fifo[0], protect);
            let (after, any) = rest.evicted(numa, fifo[0]);
            lemma_reads_chain(s, rest, after);
            if !any && after.pools[numa].fifo.len() < fifo.len() {
                lemma_reads_survive_some(after, numa, protect, aside);
            }
            lemma_reads_chain(s, after, t);
        }
    }
}

proof fn lemma_reads_chain(s: LocalState, t: LocalState, u: LocalState)
    requires
        reads_survive(s, t) || t.bufs == s.bufs,
        reads_survive(t, u) || u.bufs == t.bufs,
    ensures
        reads_survive(s, u),
{
    assert forall|id: int| #[trigger] s.live(id) && s.bufs[id]->0.readers > 0 implies u.live(id)
        && u.bufs[id]->0.buf == s.bufs[id]->0.buf && u.bufs[id]->0.readers
        == s.bufs[id]->0.readers by {
        assert(t.live(id));
    }
}

/// Eviction never pulls bytes from under a read: what is being read stays
/// allocated, where it is, through whatever room is made.
pub proof fn law_reads_outlive_eviction(
    s: LocalState,
    numa: u16,
    len: nat,
    run: usize,
    protect: Seq<u8>,
)
    requires
        safety::local_inv(s),
        s.bufs.len() <= usize::MAX,
    ensures
        reads_survive(s, s.alloc_or_evict(numa, len, run, protect).0),
    decreases s.pools[numa].fifo.len(),
{
    let t = s.alloc_or_evict(numa, len, run, protect).0;
    if s.pools.contains_key(numa) {
        match s.taken(numa, len, run) {
            Some((u, id)) => {
                let c = safety::lemma_next(s.bufs, 0);
                assert forall|x: int| #[trigger]
                    s.live(x) && s.bufs[x]->0.readers > 0 implies t.live(x) && t.bufs[x]->0.buf
                    == s.bufs[x]->0.buf && t.bufs[x]->0.readers == s.bufs[x]->0.readers by {
                    assert(x != id);
                }
            },
            None => {
                if len <= s.pools[numa].pinned.len {
                    lemma_reads_survive_some(s, numa, protect, Seq::empty());
                    let (u, any) = s.evict_some(numa, protect, Seq::empty());
                    steps::lemma_evict_some(s, numa, protect, Seq::empty());
                    if any {
                        law_reads_outlive_eviction(u, numa, len, run, protect);
                        lemma_reads_chain(s, u, t);
                    }
                }
            },
        }
    }
}

/// Removal never pulls bytes from under a read either.
pub proof fn law_reads_outlive_removal(s: LocalState, key: Seq<u8>)
    requires
        safety::local_inv(s),
    ensures
        reads_survive(s, s.removed(key)),
{
    if s.objects.contains_key(key) {
        let ids = ledger::object_ids(s.objects[key].slots, s.objects[key].slots.len());
        let m = LocalState { objects: s.objects.remove(key), ..s };
        assert forall|x: int| 0 <= x < ids.len() implies #[trigger] ids[x] < m.bufs.len() by {
            let at = writes::lemma_object_ids(s, key, s.objects[key].slots.len(), x);
            assert(safety::has(s, key, at.0, at.1));
            assert(s.live(ids[x] as int));
        }
        lemma_reads_survive_let_go(m, ids, ids.len());
        lemma_reads_chain(s, m, s.removed(key));
    }
}

/// Bytes that only a reader keeps go back when the read ends: the last reader
/// leaves them free.
pub proof fn law_last_reader_frees(s: LocalState, id: int, x: int)
    requires
        safety::local_inv(s),
        s.live(id),
        s.bufs[id]->0.keeper == Keeper::Readers,
        s.bufs[id]->0.readers == 1,
        s.bufs[id]->0.buf.covers(x),
    ensures
        !s.read_ended(id).live(id),
        pinned::is_free(s.read_ended(id).pools[s.bufs[id]->0.buf.numa].pinned.free, x),
{
    let buf = s.bufs[id]->0.buf;
    let pool = s.pools[buf.numa].pinned;
    assert(safety::buf_ok(s, id));
    assert forall|y: int| buf.off <= y < buf.off + buf.reserved implies !#[trigger] pinned::is_free(
        pool.free,
        y,
    ) by {
        assert(buf.covers(y));
    }
    pinned::lemma_returned(pool, buf.off as nat, buf.reserved as nat);
}

/// An `Explicit` object is never evicted, nor is the object that room is made
/// for.
pub proof fn law_local_explicit_is_never_evicted(
    s: LocalState,
    numa: u16,
    len: nat,
    run: usize,
    protect: Seq<u8>,
    k: Seq<u8>,
)
    requires
        safety::local_inv(s),
        s.bufs.len() <= usize::MAX,
        s.objects.contains_key(k),
        k == protect || s.objects[k].spec.retention == Retention::Explicit,
    ensures
        s.alloc_or_evict(numa, len, run, protect).0.objects.contains_key(k),
        s.alloc_or_evict(numa, len, run, protect).0.objects[k] == s.objects[k],
{
    steps::lemma_alloc_or_evict(s, numa, len, run, protect);
}

/// Slots are write-once: a write that begins claims no slot that has bytes or is
/// being written, and a slot that is claimed holds no bytes of the store until
/// its write ends.
pub proof fn law_claims_are_exclusive(s: LocalState, key: Seq<u8>, op: OpPutView, i: int)
    requires
        safety::local_inv(s),
        s.runs.len() <= usize::MAX,
        s.begun(key, op).1 is Ok,
        s.objects.contains_key(key),
        0 <= i < s.objects[key].slots.len(),
        s.objects[key].slots[i].replicas.len() > 0 || s.objects[key].slots[i].writing is Some,
    ensures
        s.begun(key, op).0.objects[key].slots[i] == s.objects[key].slots[i],
        s.begun(key, op).1 matches Ok(run) ==> !s.begun(key, op).0.holds(key, i, run as usize),
{
    writes::lemma_begun(s, key, op);
    let run = s.begun(key, op).1->Ok_0;
    let slot = s.objects[key].slots[i];
    if slot.writing is Some {
        assert(safety::claim_ok(s, key, i));
        assert(s.active(slot.writing->0 as int));
    }
}

/// What is stored stays: the end of a copy takes no replica from any slot, and
/// adds some to the one slot of the write alone.
pub proof fn law_copy_end_adds_to_its_slot_alone(
    s: LocalState,
    run: int,
    outcome: Result<(), ErrorView>,
    k: Seq<u8>,
    i: int,
)
    requires
        safety::local_inv(s),
        s.active(run),
        s.runs[run]->0.pending is Some,
        s.objects.contains_key(k),
        0 <= i < s.objects[k].slots.len(),
    ensures
        ({
            let t = s.copied(run, outcome);
            let r = s.runs[run]->0;
            let before = s.objects[k].slots[i].replicas;
            let after = t.objects[k].slots[i].replicas;
            &&& t.objects.contains_key(k)
            &&& after == if outcome is Ok && k == r.key && i == r.results.len() && s.holds(
                k,
                i,
                run as usize,
            ) {
                before + ledger::spot_replicas(r.pending->0)
            } else {
                before
            }
        }),
{
    let r = s.runs[run]->0;
    let i0 = r.results.len() as int;
    let spots = r.pending->0;
    let ids = ledger::spot_ids(spots);
    assert(safety::run_ok(s, run));
    writes::lemma_let_go_keeps(s, ids, ids.len());
    if outcome is Ok && s.holds(r.key, i0, run as usize) {
        let len = r.spec.slots[i0].len;
        let slot = s.objects[r.key].slots[i0];
        let after = LocalSlot { replicas: slot.replicas + ledger::spot_replicas(spots), writing: None };
        let a = s.with_slot(r.key, i0, after);
        assert forall|x: int| 0 <= x < spots.len() implies a.live(
            (#[trigger] spots[x]).2 as int,
        ) && a.pools.contains_key(spots[x].0) by {
            assert(safety::spot_ok(s, run, spots[x], len));
            assert(safety::buf_ok(s, spots[x].2 as int));
        }
        writes::lemma_kept(a, spots, spots.len());
        let b = a.kept(spots, spots.len());
        assert forall|x: int| 0 <= x < spots.len() implies b.pools.contains_key(
            (#[trigger] spots[x]).0,
        ) by {
            assert(a.pools.contains_key(spots[x].0));
        }
        writes::lemma_queued(b, spots, r.key, i0 as nat, spots.len());
    }
}

/// A read finds the bytes where the write put them: once the copy of a slot has
/// ended well, each of its allocations backs a replica, at the address that
/// the copy was told.
pub proof fn law_reads_find_what_was_copied(s: LocalState, run: int, x: int)
    requires
        safety::local_inv(s),
        s.bufs.len() <= usize::MAX,
        s.active(run),
        s.runs[run]->0.pending is Some,
        s.holds(s.runs[run]->0.key, s.runs[run]->0.results.len() as int, run as usize),
        0 <= x < s.runs[run]->0.pending->0.len(),
    ensures
        ({
            let t = s.copied(run, Ok(()));
            let r = s.runs[run]->0;
            let i = r.results.len() as int;
            let spot = r.pending->0[x];
            let replica = ledger::spot_replicas(r.pending->0)[x];
            &&& t.objects[r.key].slots[i].replicas.contains(replica)
            &&& t.segs(replica) == seq![
                (s.bufs[spot.2 as int]->0.buf.addr, r.spec.slots[i].len),
            ]
        }),
{
    let r = s.runs[run]->0;
    let i = r.results.len() as int;
    let spots = r.pending->0;
    let t = s.copied(run, Ok(()));
    assert(safety::run_ok(s, run));
    assert(safety::spot_ok(s, run, spots[x], r.spec.slots[i].len));
    law_copy_end_adds_to_its_slot_alone(s, run, Ok(()), r.key, i);
    let before = s.objects[r.key].slots[i].replicas;
    let after = t.objects[r.key].slots[i].replicas;
    assert(after[before.len() + x] == ledger::spot_replicas(spots)[x]);
    let id = spots[x].2 as int;
    let slot = s.objects[r.key].slots[i];
    let a = s.with_slot(
        r.key,
        i,
        LocalSlot { replicas: slot.replicas + ledger::spot_replicas(spots), writing: None },
    );
    assert forall|y: int| 0 <= y < spots.len() implies a.live((#[trigger] spots[y]).2 as int)
        && a.pools.contains_key(spots[y].0) by {
        assert(safety::spot_ok(s, run, spots[y], r.spec.slots[i].len));
        assert(safety::buf_ok(s, spots[y].2 as int));
    }
    writes::lemma_kept(a, spots, spots.len());
    let b = a.kept(spots, spots.len());
    assert forall|y: int| 0 <= y < spots.len() implies b.pools.contains_key(
        (#[trigger] spots[y]).0,
    ) by {
        assert(a.pools.contains_key(spots[y].0));
    }
    writes::lemma_queued(b, spots, r.key, i as nat, spots.len());
    assert(b.bufs[spots[x].2 as int] == Some(
        LocalBuf { keeper: Keeper::Stored, ..a.bufs[spots[x].2 as int]->0 },
    ));
    assert(t.bufs[id] == b.bufs[id]);
    assert(t.segs(ledger::spot_replicas(spots)[x]) =~= seq![
        (s.bufs[id]->0.buf.addr, r.spec.slots[i].len),
    ]);
}

// ---- eviction ----

/// Nothing is evicted for what fits, nor for what never could.
pub proof fn law_local_eviction_is_a_last_resort(
    s: LocalState,
    numa: u16,
    len: nat,
    run: usize,
    protect: Seq<u8>,
)
    requires
        s.pools.contains_key(numa),
        s.taken(numa, len, run) is Some || len > s.pools[numa].pinned.len,
    ensures
        s.alloc_or_evict(numa, len, run, protect).0.objects == s.objects,
        s.taken(numa, len, run) is Some ==> s.alloc_or_evict(numa, len, run, protect).1 is Ok,
        s.taken(numa, len, run) is None ==> s.alloc_or_evict(numa, len, run, protect).0 == s,
{
}

// ---- stored bytes ----

/// Whether every allocation of `t` is one of `s`, where it was.
pub open spec fn same_places(s: LocalState, t: LocalState) -> bool {
    forall|id: int| #[trigger]
        t.live(id) ==> s.live(id) && t.bufs[id]->0.buf == s.bufs[id]->0.buf
}

/// Whether every replica in a pool of `t` is one of the same slot in `s`, with
/// its bytes where they were.
pub open spec fn stays_in_place(s: LocalState, t: LocalState) -> bool {
    forall|k: Seq<u8>, i: int, j: int| #[trigger]
        safety::has(t, k, i, j) && safety::rep(t, k, i, j).data is Pinned ==> {
            &&& s.objects.contains_key(k)
            &&& i < s.objects[k].slots.len()
            &&& s.objects[k].slots[i].replicas.contains(safety::rep(t, k, i, j))
            &&& t.segs(safety::rep(t, k, i, j)) == s.segs(safety::rep(t, k, i, j))
        }
}

proof fn lemma_evict_same_places(s: LocalState, numa: u16, entry: Entry)
    requires
        safety::refs_ok(s),
    ensures
        same_places(s, s.evicted(numa, entry).0),
{
    if s.evictable(entry) {
        let obj = s.objects[entry.0];
        let slot = obj.slots[entry.1 as int];
        let ids = ledger::pinned_ids(slot.replicas, numa);
        let slots = obj.slots.update(
            entry.1 as int,
            LocalSlot { replicas: ledger::without_pinned(slot.replicas, numa), ..slot },
        );
        let objects = if ledger::idle(slots) {
            s.objects.remove(entry.0)
        } else {
            s.objects.insert(entry.0, LocalObject { slots, ..obj })
        };
        let m = LocalState { objects, ..s };
        let t = m.let_go_all(ids, ids.len());
        steps::lemma_pinned_ids(s, entry.0, entry.1 as int, numa);
        assert forall|x: int| 0 <= x < ids.len() implies m.live(#[trigger] ids[x] as int) by {
            assert(s.live(ids[x] as int));
        }
        lemma_let_go_places(m, ids, ids.len());
        assert forall|id: int| #[trigger] t.live(id) implies s.live(id) && t.bufs[id]->0.buf
            == s.bufs[id]->0.buf by {
            assert(m.live(id));
        }
    }
}

proof fn lemma_some_same_places(s: LocalState, numa: u16, protect: Seq<u8>, aside: Seq<Entry>)
    requires
        safety::local_inv(s),
        s.pools.contains_key(numa),
        s.bufs.len() <= usize::MAX,
    ensures
        same_places(s, s.evict_some(numa, protect, aside).0),
    decreases s.pools[numa].fifo.len(),
{
    let fifo = s.pools[numa].fifo;
    let t = s.evict_some(numa, protect, aside).0;
    if fifo.len() > 0 {
        let rest = s.with_fifo(numa, fifo.drop_first());
        steps::lemma_with_fifo(s, numa, fifo.drop_first(), protect);
        if s.spared(fifo[0], protect) {
            lemma_some_same_places(rest, numa, protect, aside.push(fifo[0]));
            assert forall|id: int| #[trigger] t.live(id) implies s.live(id) && t.bufs[id]->0.buf
                == s.bufs[id]->0.buf by {
                assert(rest.live(id));
            }
        } else {
            steps::lemma_evicted(rest, numa, fifo[0], protect);
            let (after, any) = rest.evicted(numa, fifo[0]);
            assert(same_places(rest, after)) by {
                lemma_evict_same_places(rest, numa, fifo[0]);
            }
            if !any && after.pools[numa].fifo.len() < fifo.len() {
                lemma_some_same_places(after, numa, protect, aside);
            }
            assert forall|id: int| #[trigger] t.live(id) implies s.live(id) && t.bufs[id]->0.buf
                == s.bufs[id]->0.buf by {
                assert(after.live(id));
                assert(rest.live(id));
            }
        }
    }
}

/// Making room moves nothing: what is stored after it was stored before it, in
/// the same slot and at the same address.
pub proof fn law_room_is_made_in_place(
    s: LocalState,
    numa: u16,
    len: nat,
    run: usize,
    protect: Seq<u8>,
)
    requires
        safety::local_inv(s),
        s.bufs.len() <= usize::MAX,
    ensures
        stays_in_place(s, s.alloc_or_evict(numa, len, run, protect).0),
    decreases s.pools[numa].fifo.len(),
{
    let t = s.alloc_or_evict(numa, len, run, protect).0;
    assert forall|k: Seq<u8>, i: int, j: int| #[trigger]
        safety::has(s, k, i, j) implies s.objects[k].slots[i].replicas.contains(
        safety::rep(s, k, i, j),
    ) by {
        assert(s.objects[k].slots[i].replicas[j] == safety::rep(s, k, i, j));
    }
    if s.pools.contains_key(numa) {
        match s.taken(numa, len, run) {
            Some((u, id)) => {
                let c = safety::lemma_next(s.bufs, 0);
                assert forall|k: Seq<u8>, i: int, j: int| #[trigger]
                    safety::has(t, k, i, j) && safety::rep(t, k, i, j).data is Pinned implies {
                    &&& s.objects.contains_key(k)
                    &&& i < s.objects[k].slots.len()
                    &&& s.objects[k].slots[i].replicas.contains(safety::rep(t, k, i, j))
                    &&& t.segs(safety::rep(t, k, i, j)) == s.segs(safety::rep(t, k, i, j))
                } by {
                    assert(safety::has(s, k, i, j));
                    assert(s.live(safety::rep(s, k, i, j).data->Pinned_0 as int));
                }
            },
            None => {
                if len <= s.pools[numa].pinned.len {
                    let (u, any) = s.evict_some(numa, protect, Seq::empty());
                    lemma_some_same_places(s, numa, protect, Seq::empty());
                    steps::lemma_evict_some(s, numa, protect, Seq::empty());
                    if any {
                        law_room_is_made_in_place(u, numa, len, run, protect);
                    }
                    assert forall|k: Seq<u8>, i: int, j: int| #[trigger]
                        safety::has(t, k, i, j) && safety::rep(t, k, i, j).data is Pinned implies {
                        &&& s.objects.contains_key(k)
                        &&& i < s.objects[k].slots.len()
                        &&& s.objects[k].slots[i].replicas.contains(safety::rep(t, k, i, j))
                        &&& t.segs(safety::rep(t, k, i, j)) == s.segs(safety::rep(t, k, i, j))
                    } by {
                        let r = safety::rep(t, k, i, j);
                        if !any {
                            assert(u.objects[k].slots[i].replicas[j] == r);
                        }
                        assert(u.objects[k].slots[i].replicas.contains(r));
                        let c = u.objects[k].slots[i].replicas.index_of(r);
                        assert(safety::has(u, k, i, c));
                        assert(u.live(r.data->Pinned_0 as int));
                        assert(steps::loses_pinned(s.objects[k], u.objects[k], numa));
                        assert(steps::slot_loses_pinned(
                            s.objects[k].slots[i],
                            u.objects[k].slots[i],
                            numa,
                        ));
                    }
                }
            },
        }
    }
}

/// Nor does removal: what is left is where it was.
pub proof fn law_removal_is_in_place(s: LocalState, key: Seq<u8>)
    requires
        safety::local_inv(s),
        s.bufs.len() <= usize::MAX,
    ensures
        stays_in_place(s, s.removed(key)),
{
    let t = s.removed(key);
    writes::lemma_removed(s, key);
    let slots = s.objects[key].slots;
    let ids = ledger::object_ids(slots, slots.len());
    let m = LocalState { objects: s.objects.remove(key), ..s };
    if s.objects.contains_key(key) {
        assert forall|x: int| 0 <= x < ids.len() implies s.live(#[trigger] ids[x] as int) by {
            let at = writes::lemma_object_ids(s, key, slots.len(), x);
            assert(safety::has(s, key, at.0, at.1));
        }
        writes::lemma_object_ids_distinct(s, key, slots.len());
        assert forall|x: int| 0 <= x < ids.len() implies m.live(#[trigger] ids[x] as int) by {
            assert(s.live(ids[x] as int));
        }
        lemma_let_go_places(m, ids, ids.len());
    }
    assert forall|k: Seq<u8>, i: int, j: int| #[trigger]
        safety::has(t, k, i, j) && safety::rep(t, k, i, j).data is Pinned implies {
        &&& s.objects.contains_key(k)
        &&& i < s.objects[k].slots.len()
        &&& s.objects[k].slots[i].replicas.contains(safety::rep(t, k, i, j))
        &&& t.segs(safety::rep(t, k, i, j)) == s.segs(safety::rep(t, k, i, j))
    } by {
        assert(safety::has(s, k, i, j));
        let id = safety::rep(t, k, i, j).data->Pinned_0 as int;
        assert(s.objects[k].slots[i].replicas[j] == safety::rep(t, k, i, j));
        assert(t.live(id));
        if s.objects.contains_key(key) {
            assert(m.let_go_all(ids, ids.len()).live(id));
            assert(m.live(id));
        }
    }
}

proof fn lemma_let_go_places(s: LocalState, ids: Seq<usize>, n: nat)
    requires
        n <= ids.len(),
        safety::distinct(ids),
        forall|x: int| 0 <= x < ids.len() ==> s.live(#[trigger] ids[x] as int),
    ensures
        same_places(s, s.let_go_all(ids, n)),
        s.let_go_all(ids, n).bufs.len() == s.bufs.len(),
        forall|x: int|
            n <= x < ids.len() ==> s.let_go_all(ids, n).bufs[#[trigger] ids[x] as int]
                == s.bufs[ids[x] as int],
    decreases n,
{
    if n > 0 {
        lemma_let_go_places(s, ids, (n - 1) as nat);
        let p = s.let_go_all(ids, (n - 1) as nat);
        let t = s.let_go_all(ids, n);
        assert(s.live(ids[n - 1] as int));
        assert(p.bufs[ids[n - 1] as int] == s.bufs[ids[n - 1] as int]);
        assert forall|id: int| #[trigger] t.live(id) implies s.live(id) && t.bufs[id]->0.buf
            == s.bufs[id]->0.buf by {
            assert(p.live(id));
        }
    }
}

/// No other step moves anything: the end of a copy, a publication, the end of a
/// region, and the start and the end of a read leave every allocation that
/// stays where it was.
pub proof fn law_steps_move_nothing(
    s: LocalState,
    run: int,
    outcome: Result<(), ErrorView>,
    key: Seq<u8>,
    op: OpPublishView,
    region: u64,
    id: int,
)
    requires
        safety::local_inv(s),
    ensures
        s.active(run) && s.runs[run]->0.pending is Some ==> same_places(s, s.copied(run, outcome)),
        same_places(s, s.published(key, op)),
        same_places(s, s.retired(region)),
        s.live(id) ==> same_places(s, s.read_begun(id)),
        s.live(id) && s.bufs[id]->0.readers > 0 ==> same_places(s, s.read_ended(id)),
{
    assert forall|x: int| #[trigger] s.published(key, op).live(x) implies s.live(x) by {}
    assert forall|x: int| #[trigger] s.retired(region).live(x) implies s.live(x) by {}
    if s.active(run) && s.runs[run]->0.pending is Some {
        let t = s.copied(run, outcome);
        let r = s.runs[run]->0;
        let i = r.results.len();
        let spots = r.pending->0;
        let ids = ledger::spot_ids(spots);
        assert(safety::run_ok(s, run));
        let len = r.spec.slots[i as int].len;
        assert forall|x: int| 0 <= x < spots.len() implies s.live((#[trigger] spots[x]).2 as int)
            && s.pools.contains_key(spots[x].0) by {
            assert(safety::spot_ok(s, run, spots[x], len));
            assert(safety::buf_ok(s, spots[x].2 as int));
        }
        if outcome is Ok && s.holds(r.key, i as int, run as usize) {
            let slot = s.objects[r.key].slots[i as int];
            let after = LocalSlot {
                replicas: slot.replicas + ledger::spot_replicas(spots),
                writing: None,
            };
            let a = s.with_slot(r.key, i as int, after);
            writes::lemma_kept(a, spots, spots.len());
            let b = a.kept(spots, spots.len());
            writes::lemma_queued(b, spots, r.key, i, spots.len());
            assert forall|x: int| #[trigger] t.live(x) implies s.live(x) && t.bufs[x]->0.buf
                == s.bufs[x]->0.buf by {
                assert(t.bufs[x] == b.bufs[x]);
                if exists|y: int| 0 <= y < spots.len() && (#[trigger] spots[y]).2 == x {
                    let y = choose|y: int| 0 <= y < spots.len() && (#[trigger] spots[y]).2 == x;
                    assert(s.live(spots[y].2 as int));
                    assert(b.bufs[spots[y].2 as int]->0.buf == a.bufs[spots[y].2 as int]->0.buf);
                } else {
                    assert(b.bufs[x] == a.bufs[x]);
                }
            }
        } else {
            assert forall|x: int| 0 <= x < ids.len() implies s.live(#[trigger] ids[x] as int) by {
                assert(s.live(spots[x].2 as int));
            }
            assert forall|x: int, y: int| 0 <= x < y < ids.len() implies #[trigger] ids[x]
                != #[trigger] ids[y] by {
                assert(spots[x].2 != spots[y].2);
            }
            lemma_let_go_places(s, ids, ids.len());
            let p = s.let_go_all(ids, ids.len());
            assert forall|x: int| #[trigger] t.live(x) implies s.live(x) && t.bufs[x]->0.buf
                == s.bufs[x]->0.buf by {
                assert(p.live(x));
            }
        }
    }
}

/// A write never touches what is stored: the memory that is to be filled has no
/// byte of any replica.
pub proof fn law_writes_touch_nothing_stored(
    s: LocalState,
    run: int,
    x: int,
    k: Seq<u8>,
    i: int,
    j: int,
)
    requires
        safety::local_inv(s),
        s.active(run),
        s.runs[run]->0.pending is Some,
        0 <= x < s.runs[run]->0.pending->0.len(),
        safety::has(s, k, i, j),
        safety::rep(s, k, i, j).data is Pinned,
    ensures
        safety::apart(
            s.bufs[s.runs[run]->0.pending->0[x].2 as int]->0.buf,
            s.bufs[safety::rep(s, k, i, j).data->Pinned_0 as int]->0.buf,
        ),
{
    let r = s.runs[run]->0;
    let spot = r.pending->0[x];
    let id = safety::rep(s, k, i, j).data->Pinned_0 as int;
    assert(safety::run_ok(s, run));
    assert(safety::spot_ok(s, run, spot, r.spec.slots[r.results.len() as int].len));
    assert(s.live(spot.2 as int) && s.live(id));
}

// ---- the end of a region ----

/// Whether nothing in the store lies in a region.
pub open spec fn unlent(s: LocalState, id: u64) -> bool {
    forall|k: Seq<u8>, i: int, j: int| #[trigger]
        safety::has(s, k, i, j) ==> !safety::rep(s, k, i, j).from_region(id)
}

/// The end of a region takes every replica that lies in it, even in part, and no
/// other.
pub proof fn law_local_retirement_takes_the_region_alone(
    s: LocalState,
    id: u64,
    k: Seq<u8>,
    i: int,
    r: LocalReplica,
)
    requires
        s.objects.contains_key(k),
        0 <= i < s.objects[k].slots.len(),
    ensures
        unlent(s.retired(id), id),
        s.retired(id).objects.contains_key(k),
        s.retired(id).objects[k].slots[i].replicas.contains(r)
            <==> s.objects[k].slots[i].replicas.contains(r) && !r.from_region(id),
{
    let t = s.retired(id);
    let keep = |r: LocalReplica| !r.from_region(id);
    assert forall|k: Seq<u8>, i: int, j: int| #[trigger] safety::has(t, k, i, j) implies !safety::rep(
        t,
        k,
        i,
        j,
    ).from_region(id) by {
        steps::lemma_picked(s.objects[k].slots[i].replicas, keep, j);
    }
    let before = s.objects[k].slots[i].replicas;
    let after = t.objects[k].slots[i].replicas;
    if after.contains(r) {
        let j = after.index_of(r);
        steps::lemma_picked(before, keep, j);
    }
    if before.contains(r) && !r.from_region(id) {
        steps::lemma_picked_has(before, keep, before.index_of(r));
    }
}

/// There is a nearest replica wherever there is any.
pub proof fn lemma_nearest_first(
    gpu_numa: Map<u16, u16>,
    dst: Device,
    replicas: Seq<LocalReplica>,
    n: int,
) -> (i: int)
    requires
        0 < n <= replicas.len(),
    ensures
        ledger::is_nearest_local(gpu_numa, dst, replicas.take(n), i),
    decreases n,
{
    let all = replicas.take(n);
    if n == 1 {
        0
    } else {
        let i = lemma_nearest_first(gpu_numa, dst, replicas, n - 1);
        let before = replicas.take(n - 1);
        assert forall|j: int| 0 <= j < n - 1 implies #[trigger] all[j] == before[j] by {}
        if ledger::nearer_local(gpu_numa, dst, all[n - 1], all[i]) {
            assert forall|j: int| 0 <= j < n - 1 implies ledger::nearer_local(
                gpu_numa,
                dst,
                all[n - 1],
                #[trigger] all[j],
            ) by {
                assert(all[j] == before[j]);
                if j < i {
                    assert(ledger::nearer_local(gpu_numa, dst, before[i], before[j]));
                } else if j > i {
                    assert(!ledger::nearer_local(gpu_numa, dst, before[j], before[i]));
                }
            }
            n - 1
        } else {
            assert forall|j: int| 0 <= j < i implies ledger::nearer_local(
                gpu_numa,
                dst,
                all[i],
                #[trigger] all[j],
            ) by {
                assert(ledger::nearer_local(gpu_numa, dst, before[i], before[j]));
            }
            assert forall|j: int| i < j < n implies !ledger::nearer_local(
                gpu_numa,
                dst,
                #[trigger] all[j],
                all[i],
            ) by {
                if j < n - 1 {
                    assert(!ledger::nearer_local(gpu_numa, dst, before[j], before[i]));
                }
            }
            i
        }
    }
}

/// What a read takes is one of the replicas.
proof fn lemma_nearest_there(
    gpu_numa: Map<u16, u16>,
    dst: Device,
    replicas: Seq<LocalReplica>,
) -> (c: int)
    requires
        replicas.len() > 0,
    ensures
        0 <= c < replicas.len(),
        replicas[c] == ledger::nearest_local(gpu_numa, dst, replicas),
{
    let i = lemma_nearest_first(gpu_numa, dst, replicas, replicas.len() as int);
    assert(replicas.take(replicas.len() as int) =~= replicas);
    choose|c: int| ledger::is_nearest_local(gpu_numa, dst, replicas, c)
}

/// A region of which nothing is left in the store gets no new reader, and the
/// end of a read adds none: from its retirement on, the reads of it are those
/// that had begun before and have not ended.
pub proof fn law_retired_region_is_read_no_more(
    v: LocalView,
    id: u64,
    key: Seq<u8>,
    op: OpGetView,
    hold: Hold,
)
    requires
        unlent(v.state, id),
    ensures
        v.get_begun(key, op).reading(id) <==> v.reading(id),
        unlent(v.get_begun(key, op).state, id),
        v.held(hold) ==> unlent(v.get_ended(hold).state, id),
        v.held(hold) && v.get_ended(hold).reading(id) ==> v.reading(id),
{
    let t = v.get_begun(key, op);
    let next = safety::lemma_next(v.loans, 0);
    assert forall|k: Seq<u8>, i: int, j: int| safety::has(t.state, k, i, j) implies #[trigger] safety::has(
        v.state,
        k,
        i,
        j,
    ) by {}
    assert(unlent(t.state, id)) by {
        assert forall|k: Seq<u8>, i: int, j: int| #[trigger]
            safety::has(t.state, k, i, j) implies !safety::rep(t.state, k, i, j).from_region(id) by {
            assert(safety::has(v.state, k, i, j));
        }
    }
    if v.reading(id) {
        let n = choose|n: int|
            0 <= n < v.loans.len() && (#[trigger] v.loans[n]) is Some
                && v.loans[n]->0.contains(id);
        assert(t.loans[n] == v.loans[n]);
    }
    if t.reading(id) {
        let n = choose|n: int|
            0 <= n < t.loans.len() && (#[trigger] t.loans[n]) is Some
                && t.loans[n]->0.contains(id);
        if t.loans != v.loans && n == next {
            let device = ops::checked_iovs(op.dst, None)->Ok_0.0;
            let replicas = v.state.objects[key].slots[op.slot.0 as int].replicas;
            let c = lemma_nearest_there(v.topo.gpu_numa, device, replicas);
            assert(safety::has(v.state, key, op.slot.0 as int, c));
            assert(!safety::rep(v.state, key, op.slot.0 as int, c).from_region(id));
        } else {
            assert(v.loans[n] == t.loans[n]);
        }
    }
    if v.held(hold) {
        let u = v.get_ended(hold);
        assert(unlent(u.state, id)) by {
            assert forall|k: Seq<u8>, i: int, j: int| #[trigger]
                safety::has(u.state, k, i, j) implies !safety::rep(u.state, k, i, j).from_region(
                id,
            ) by {
                assert(safety::has(v.state, k, i, j));
            }
        }
        if u.reading(id) {
            let n = choose|n: int|
                0 <= n < u.loans.len() && (#[trigger] u.loans[n]) is Some
                    && u.loans[n]->0.contains(id);
            assert(v.loans[n] == u.loans[n]);
        }
    }
}

/// Retirement leaves the reads in flight: a read of lent memory that has begun
/// is counted against each of its regions until it ends, and only until then.
pub proof fn law_reads_of_lent_memory_are_counted(v: LocalView, key: Seq<u8>, op: OpGetView, id: u64)
    requires
        v.get_result(key, op) is Ok,
        v.get_result(key, op)->Ok_0.from_region(id),
    ensures
        ({
            let r = v.get_result(key, op)->Ok_0;
            let t = v.get_begun(key, op);
            &&& t.reading(id)
            &&& v.loans.len() <= usize::MAX ==> t.held(v.hold_of(r))
            &&& v.loans.len() <= usize::MAX ==> (t.get_ended(v.hold_of(r)).reading(id)
                <==> v.reading(id))
            &&& (LocalView { state: t.state.retired(id), ..t }).reading(id)
        }),
{
    let r = v.get_result(key, op)->Ok_0;
    let t = v.get_begun(key, op);
    let next = safety::lemma_next(v.loans, 0);
    assert(t.loans[next] == Some(r.data->regions));
    assert(t.reading(id));
    let later = LocalView { state: t.state.retired(id), ..t };
    assert(later.loans[next] == Some(r.data->regions));
    assert(later.reading(id));
    if v.loans.len() <= usize::MAX {
        let u = t.get_ended(v.hold_of(r));
        if v.reading(id) {
            let n = choose|n: int|
                0 <= n < v.loans.len() && (#[trigger] v.loans[n]) is Some
                    && v.loans[n]->0.contains(id);
            assert(u.loans[n] == v.loans[n]);
        }
        if u.reading(id) {
            let n = choose|n: int|
                0 <= n < u.loans.len() && (#[trigger] u.loans[n]) is Some
                    && u.loans[n]->0.contains(id);
            assert(v.loans[n] == u.loans[n]);
        }
    }
}

} // verus!
