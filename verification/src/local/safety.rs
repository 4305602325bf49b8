//! What every state of the single-node backend keeps: allocations do not
//! overlap and are not free, no byte of a pool is lost, a replica's bytes stay
//! allocated, and a slot that is being written belongs to one write.
use vstd::prelude::*;

use crate::local::ledger;
use crate::local::ledger::{Keeper, LocalBuf, LocalData, LocalReplica, LocalState, Spot};
use crate::pinned;
use crate::pinned::PinnedBuf;
use crate::region;
use crate::types::{Device, Tier};

verus! {

/// Whether two allocations share no byte.
pub open spec fn apart(a: PinnedBuf, b: PinnedBuf) -> bool {
    a.numa == b.numa ==> forall|x: int| #[trigger] a.covers(x) ==> !b.covers(x)
}

/// Whether an allocation lies in its pool, and none of it is free.
pub open spec fn buf_ok(s: LocalState, id: int) -> bool {
    let b = s.bufs[id]->0;
    let pool = s.pools[b.buf.numa].pinned;
    &&& s.pools.contains_key(b.buf.numa)
    &&& b.buf.off + b.buf.reserved <= pool.len
    &&& b.buf.len <= b.buf.reserved
    &&& b.buf.off as int % pinned::ALIGN as int == 0
    &&& b.buf.reserved as int % pinned::ALIGN as int == 0
    &&& b.buf.addr == pool.base.wrapping_add(b.buf.off as u64)
    &&& forall|x: int| b.buf.covers(x) ==> !#[trigger] pinned::is_free(pool.free, x)
    &&& b.keeper == Keeper::Readers ==> b.readers > 0
}

/// Whether a live allocation covers a byte of a pool.
pub open spec fn is_taken(s: LocalState, numa: u16, x: int) -> bool {
    exists|id: int| #[trigger]
        s.live(id) && s.bufs[id]->0.buf.numa == numa && s.bufs[id]->0.buf.covers(x)
}

/// Whether a byte of a pool is free or allocated.
pub open spec fn is_accounted(s: LocalState, numa: u16, x: int) -> bool {
    pinned::is_free(s.pools[numa].pinned.free, x) || is_taken(s, numa, x)
}

pub open spec fn table_ok(s: LocalState) -> bool {
    &&& forall|n: u16| #[trigger]
        s.pools.contains_key(n) ==> s.pools[n].pinned.ok() && s.pools[n].pinned.numa == n
    &&& forall|id: int| #[trigger] s.live(id) ==> buf_ok(s, id)
    &&& forall|a: int, b: int| #[trigger]
        s.live(a) && #[trigger] s.live(b) && a != b ==> apart(s.bufs[a]->0.buf, s.bufs[b]->0.buf)
    &&& forall|n: u16, x: int|
        s.pools.contains_key(n) && 0 <= x < s.pools[n].pinned.len ==> #[trigger] is_accounted(
            s,
            n,
            x,
        )
}

/// Whether a replica is what a slot of `len` bytes may hold, and its bytes are
/// allocated to it.
pub open spec fn replica_ok(s: LocalState, r: LocalReplica, len: u64) -> bool {
    match r.data {
        LocalData::Pinned(id) => {
            &&& s.live(id as int)
            &&& s.bufs[id as int]->0.keeper == Keeper::Stored
            &&& r.device == (Device::Cpu { numa: s.bufs[id as int]->0.buf.numa })
            &&& r.tier == Tier::Dram
            &&& s.bufs[id as int]->0.buf.len == len
        },
        LocalData::External { segs, .. } => {
            &&& r.tier == Tier::External
            &&& !r.misplaced
            &&& region::total_len(segs) == len
        },
    }
}

pub open spec fn has(s: LocalState, k: Seq<u8>, i: int, j: int) -> bool {
    &&& s.objects.contains_key(k)
    &&& 0 <= i < s.objects[k].slots.len()
    &&& 0 <= j < s.objects[k].slots[i].replicas.len()
}

pub open spec fn rep(s: LocalState, k: Seq<u8>, i: int, j: int) -> LocalReplica {
    s.objects[k].slots[i].replicas[j]
}

/// Whether an allocation belongs to a replica.
pub open spec fn refers(s: LocalState, k: Seq<u8>, i: int, j: int, id: int) -> bool {
    has(s, k, i, j) && rep(s, k, i, j).data is Pinned && rep(s, k, i, j).data->Pinned_0 == id
}

pub open spec fn refs_ok(s: LocalState) -> bool {
    &&& forall|k: Seq<u8>| #[trigger]
        s.objects.contains_key(k) ==> s.objects[k].slots.len() == s.objects[k].spec.slots.len()
    &&& forall|k: Seq<u8>, i: int, j: int| #[trigger]
        has(s, k, i, j) ==> replica_ok(s, rep(s, k, i, j), s.objects[k].spec.slots[i].len)
    &&& forall|k: Seq<u8>, i: int, j: int, k2: Seq<u8>, i2: int, j2: int, id: int| #[trigger]
        refers(s, k, i, j, id) && #[trigger] refers(s, k2, i2, j2, id) ==> k == k2 && i == i2 && j
            == j2
}

/// Whether a spot is an allocation that a write keeps.
pub open spec fn spot_ok(s: LocalState, run: int, spot: Spot, len: u64) -> bool {
    &&& s.live(spot.2 as int)
    &&& s.bufs[spot.2 as int]->0.keeper == Keeper::Writer(run as usize)
    &&& s.bufs[spot.2 as int]->0.buf.numa == spot.0
    &&& s.bufs[spot.2 as int]->0.buf.len == len
}

pub open spec fn spots_ok(s: LocalState, run: int, spots: Seq<Spot>, len: u64) -> bool {
    &&& forall|x: int| 0 <= x < spots.len() ==> spot_ok(s, run, #[trigger] spots[x], len)
    &&& forall|x: int, y: int|
        0 <= x < y < spots.len() ==> (#[trigger] spots[x]).2 != (#[trigger] spots[y]).2
}

pub open spec fn run_ok(s: LocalState, run: int) -> bool {
    let r = s.runs[run]->0;
    &&& run <= usize::MAX
    &&& r.writable.len() == r.spec.slots.len()
    &&& r.results.len() <= r.spec.slots.len()
    &&& r.pending is Some ==> {
        &&& r.results.len() < r.spec.slots.len()
        &&& r.writable[r.results.len() as int]
        &&& r.pending->0.len() > 0
        &&& spots_ok(s, run, r.pending->0, r.spec.slots[r.results.len() as int].len)
    }
}

/// Whether a slot that is being written belongs to a write that is still to
/// come to it, and holds no bytes of the store.
pub open spec fn claim_ok(s: LocalState, k: Seq<u8>, i: int) -> bool {
    let slot = s.objects[k].slots[i];
    slot.writing is Some ==> {
        let run = slot.writing->0 as int;
        &&& s.active(run)
        &&& s.runs[run]->0.key == k
        &&& s.runs[run]->0.spec == s.objects[k].spec
        &&& s.runs[run]->0.results.len() <= i
        &&& s.runs[run]->0.writable[i]
        &&& forall|j: int| 0 <= j < slot.replicas.len() ==> (#[trigger] slot.replicas[j]).data
            is External
    }
}

pub open spec fn claims_ok(s: LocalState) -> bool {
    &&& forall|k: Seq<u8>, i: int|
        s.objects.contains_key(k) && 0 <= i < s.objects[k].slots.len() ==> #[trigger] claim_ok(
            s,
            k,
            i,
        )
    &&& forall|run: int| #[trigger] s.active(run) ==> run_ok(s, run)
}

pub open spec fn local_inv(s: LocalState) -> bool {
    &&& table_ok(s)
    &&& refs_ok(s)
    &&& claims_ok(s)
}

/// Whether `t` has the objects, writes and eviction orders of `s`, and its
/// allocations but for `ids`, which are gone or kept by readers.
pub open spec fn lets_go(s: LocalState, t: LocalState, ids: Seq<usize>) -> bool {
    &&& t.objects == s.objects
    &&& t.runs == s.runs
    &&& t.bufs.len() == s.bufs.len()
    &&& forall|j: int|
        0 <= j < s.bufs.len() && !ids.contains(j as usize) ==> #[trigger] t.bufs[j] == s.bufs[j]
    &&& forall|j: int| #[trigger] t.live(j) ==> s.live(j)
    &&& same_pools(s, t)
}

/// Whether the pools are the same but for what is free.
pub open spec fn same_pools(s: LocalState, t: LocalState) -> bool {
    &&& t.pools.dom() == s.pools.dom()
    &&& forall|n: u16| #[trigger]
        s.pools.contains_key(n) ==> t.pools[n].fifo == s.pools[n].fifo && t.pools[n].pinned.len
            == s.pools[n].pinned.len && t.pools[n].pinned.base == s.pools[n].pinned.base
}

proof fn lemma_given_back(s: LocalState, id: int)
    requires
        table_ok(s),
        s.live(id),
        s.bufs.len() <= usize::MAX + 1,
    ensures
        table_ok(s.given_back(id)),
        lets_go(s, s.given_back(id), seq![id as usize]),
        !s.given_back(id).live(id),
{
    let t = s.given_back(id);
    let buf = s.bufs[id]->0.buf;
    let pool = s.pools[buf.numa].pinned;
    assert(buf_ok(s, id));
    assert forall|x: int| buf.off <= x < buf.off + buf.reserved implies !#[trigger] pinned::is_free(
        pool.free,
        x,
    ) by {
        assert(buf.covers(x));
    }
    pinned::lemma_returned(pool, buf.off as nat, buf.reserved as nat);
    let after = pool.returned(buf.off as nat, buf.reserved as nat);
    assert(t.pools.dom() =~= s.pools.dom());
    assert forall|j: int| #[trigger] t.live(j) implies buf_ok(t, j) && s.live(j) && j != id by {
        assert(s.live(j));
        assert(buf_ok(s, j));
        let b = s.bufs[j]->0.buf;
        if b.numa == buf.numa {
            assert(apart(b, buf));
            assert forall|x: int| b.covers(x) implies !#[trigger] pinned::is_free(after.free, x) by {
                assert(!pinned::is_free(pool.free, x));
                assert(!buf.covers(x));
            }
        }
    }
    assert forall|n: u16, x: int|
        t.pools.contains_key(n) && 0 <= x < t.pools[n].pinned.len implies #[trigger] is_accounted(
        t,
        n,
        x,
    ) by {
        assert(s.pools.contains_key(n));
        assert(is_accounted(s, n, x));
        if n == buf.numa && buf.covers(x) {
            assert(pinned::is_free(after.free, x));
        } else if pinned::is_free(s.pools[n].pinned.free, x) {
            if n == buf.numa {
                assert(pinned::is_free(after.free, x));
            }
        } else {
            let j = choose|j: int| #[trigger]
                s.live(j) && s.bufs[j]->0.buf.numa == n && s.bufs[j]->0.buf.covers(x);
            assert(j != id);
            assert(t.live(j));
        }
    }
    assert forall|a: int, b: int| #[trigger]
        t.live(a) && #[trigger] t.live(b) && a != b implies apart(
        t.bufs[a]->0.buf,
        t.bufs[b]->0.buf,
    ) by {
        assert(s.live(a) && s.live(b));
    }
    assert(seq![id as usize][0] == id as usize);
    assert forall|j: int|
        0 <= j < s.bufs.len() && !seq![id as usize].contains(j as usize) implies #[trigger] t.bufs[j]
        == s.bufs[j] by {
        if j == id {
            assert(seq![id as usize][0] == j as usize);
        }
    }
}

/// Changing who keeps an allocation, or how many read it, changes nothing else.
pub proof fn lemma_with_buf(s: LocalState, id: int, b: LocalBuf)
    requires
        table_ok(s),
        s.live(id),
        b.buf == s.bufs[id]->0.buf,
        b.keeper == Keeper::Readers ==> b.readers > 0,
    ensures
        table_ok(s.with_buf(id, b)),
        lets_go(s, s.with_buf(id, b), seq![id as usize]),
        forall|j: int| #[trigger] s.with_buf(id, b).live(j) <==> s.live(j),
{
    let t = s.with_buf(id, b);
    assert forall|j: int| #[trigger] t.live(j) implies buf_ok(t, j) && s.live(j) by {
        assert(s.live(j));
        assert(buf_ok(s, j));
    }
    assert forall|j: int| #[trigger] s.live(j) implies t.live(j) by {}
    assert forall|a: int, c: int| #[trigger]
        t.live(a) && #[trigger] t.live(c) && a != c implies apart(
        t.bufs[a]->0.buf,
        t.bufs[c]->0.buf,
    ) by {
        assert(s.live(a) && s.live(c));
    }
    assert forall|n: u16, x: int|
        t.pools.contains_key(n) && 0 <= x < t.pools[n].pinned.len implies #[trigger] is_accounted(
        t,
        n,
        x,
    ) by {
        assert(is_accounted(s, n, x));
        if !pinned::is_free(s.pools[n].pinned.free, x) {
            let j = choose|j: int| #[trigger]
                s.live(j) && s.bufs[j]->0.buf.numa == n && s.bufs[j]->0.buf.covers(x);
            assert(t.live(j));
        }
    }
    assert forall|j: int|
        0 <= j < s.bufs.len() && !seq![id as usize].contains(j as usize) implies #[trigger] t.bufs[j]
        == s.bufs[j] by {
        if j == id {
            assert(seq![id as usize][0] == j as usize);
        }
    }
}

pub proof fn lemma_let_go(s: LocalState, id: int)
    requires
        table_ok(s),
        s.live(id),
        s.bufs.len() <= usize::MAX + 1,
    ensures
        table_ok(s.let_go(id)),
        lets_go(s, s.let_go(id), seq![id as usize]),
{
    let b = s.bufs[id]->0;
    if b.readers == 0 {
        lemma_given_back(s, id);
    } else {
        lemma_with_buf(s, id, LocalBuf { keeper: Keeper::Readers, ..b });
    }
}

/// Whether no place is named twice.
pub open spec fn distinct(ids: Seq<usize>) -> bool {
    forall|x: int, y: int| 0 <= x < y < ids.len() ==> #[trigger] ids[x] != #[trigger] ids[y]
}

pub proof fn lemma_let_go_all(s: LocalState, ids: Seq<usize>, n: nat)
    requires
        table_ok(s),
        n <= ids.len(),
        distinct(ids),
        s.bufs.len() <= usize::MAX + 1,
        forall|x: int| 0 <= x < ids.len() ==> s.live(#[trigger] ids[x] as int),
    ensures
        table_ok(s.let_go_all(ids, n)),
        lets_go(s, s.let_go_all(ids, n), ids.take(n as int)),
    decreases n,
{
    if n > 0 {
        lemma_let_go_all(s, ids, (n - 1) as nat);
        let p = s.let_go_all(ids, (n - 1) as nat);
        let t = s.let_go_all(ids, n);
        let id = ids[n - 1];
        assert(!ids.take(n - 1).contains(id));
        assert(p.bufs[id as int] == s.bufs[id as int]) by {
            assert(s.live(ids[n - 1] as int));
        }
        assert(p.live(id as int));
        lemma_let_go(p, id as int);
        assert forall|j: int|
            0 <= j < s.bufs.len() && !ids.take(n as int).contains(
                j as usize,
            ) implies #[trigger] t.bufs[j] == s.bufs[j] by {
            if ids.take(n - 1).contains(j as usize) {
                let c = ids.take(n - 1).index_of(j as usize);
                assert(ids.take(n as int)[c] == j as usize);
            }
            if j as usize == id {
                assert(ids.take(n as int)[n - 1] == id);
            }
            assert(p.bufs[j] == s.bufs[j]);
            assert(!seq![id].contains(j as usize));
        }
        assert forall|j: int| #[trigger] t.live(j) implies s.live(j) by {
            assert(p.live(j));
        }
        assert forall|m: u16| #[trigger] s.pools.contains_key(m) implies t.pools[m].fifo
            == s.pools[m].fifo && t.pools[m].pinned.len == s.pools[m].pinned.len
            && t.pools[m].pinned.base == s.pools[m].pinned.base by {
            assert(p.pools.contains_key(m));
        }
    } else {
        assert(ids.take(0) =~= Seq::empty());
    }
}

/// Letting go of allocations that no replica and no write has keeps what is
/// said of replicas and writes.
pub proof fn lemma_unrelated(s: LocalState, t: LocalState, ids: Seq<usize>)
    requires
        refs_ok(s),
        claims_ok(s),
        lets_go(s, t, ids),
        s.bufs.len() <= usize::MAX + 1,
        forall|k: Seq<u8>, i: int, j: int, x: int|
            0 <= x < ids.len() ==> !#[trigger] refers(s, k, i, j, #[trigger] ids[x] as int),
        forall|run: int, x: int, y: int|
            #[trigger] s.active(run) && s.runs[run]->0.pending is Some && 0 <= x
                < s.runs[run]->0.pending->0.len() && 0 <= y < ids.len() ==> (
            #[trigger] s.runs[run]->0.pending->0[x]).2 != #[trigger] ids[y],
    ensures
        refs_ok(t),
        claims_ok(t),
{
    assert forall|k: Seq<u8>, i: int, j: int| #[trigger] has(t, k, i, j) implies replica_ok(
        t,
        rep(t, k, i, j),
        t.objects[k].spec.slots[i].len,
    ) by {
        assert(has(s, k, i, j));
        let r = rep(s, k, i, j);
        if r.data is Pinned {
            let id = r.data->Pinned_0;
            if ids.contains(id) {
                let x = choose|x: int| 0 <= x < ids.len() && ids[x] == id;
                assert(refers(s, k, i, j, ids[x] as int));
            }
            assert(t.bufs[id as int] == s.bufs[id as int]);
        }
    }
    assert forall|k: Seq<u8>, i: int, j: int, k2: Seq<u8>, i2: int, j2: int, id: int| #[trigger]
        refers(t, k, i, j, id) && #[trigger] refers(t, k2, i2, j2, id) implies k == k2 && i == i2
        && j == j2 by {
        assert(refers(s, k, i, j, id) && refers(s, k2, i2, j2, id));
    }
    assert forall|run: int| #[trigger] t.active(run) implies run_ok(t, run) by {
        assert(s.active(run));
        assert(run_ok(s, run));
        let r = s.runs[run]->0;
        if r.pending is Some {
            let spots = r.pending->0;
            assert forall|x: int| 0 <= x < spots.len() implies spot_ok(
                t,
                run,
                #[trigger] spots[x],
                r.spec.slots[r.results.len() as int].len,
            ) by {
                assert(spot_ok(s, run, spots[x], r.spec.slots[r.results.len() as int].len));
                let id = spots[x].2;
                if ids.contains(id) {
                    let y = choose|y: int| 0 <= y < ids.len() && ids[y] == id;
                    assert(s.runs[run]->0.pending->0[x].2 != ids[y]);
                }
                assert(t.bufs[id as int] == s.bufs[id as int]);
            }
        }
    }
    assert forall|k: Seq<u8>, i: int|
        t.objects.contains_key(k) && 0 <= i < t.objects[k].slots.len() implies #[trigger] claim_ok(
        t,
        k,
        i,
    ) by {
        assert(claim_ok(s, k, i));
        let slot = s.objects[k].slots[i];
        if slot.writing is Some {
            assert(s.active(slot.writing->0 as int));
            assert(t.active(slot.writing->0 as int));
        }
    }
}

/// The first free place in a table.
pub proof fn lemma_next<T>(bufs: Seq<Option<T>>, from: int) -> (id: int)
    requires
        0 <= from <= bufs.len(),
        forall|j: int| 0 <= j < from ==> (#[trigger] bufs[j]) is Some,
    ensures
        ledger::is_next(bufs, id),
        id == ledger::next_id(bufs),
    decreases bufs.len() - from,
{
    if from == bufs.len() || bufs[from] is None {
        assert(ledger::is_next(bufs, from));
        let c = ledger::next_id(bufs);
        assert(ledger::is_next(bufs, c));
        assert(c == from) by {
            if c < from {
                assert(bufs[c] is Some);
            }
            if from < c {
                assert(bufs[from] is Some);
            }
        }
        from
    } else {
        lemma_next(bufs, from + 1)
    }
}

/// Allocating keeps the table in order; what was allocated is new.
pub proof fn lemma_taken(s: LocalState, numa: u16, len: nat, run: usize)
    requires
        table_ok(s),
        s.pools.contains_key(numa),
        s.taken(numa, len, run) is Some,
        pinned::rounded(len) <= usize::MAX,
        s.bufs.len() <= usize::MAX,
    ensures
        ({
            let (t, id) = s.taken(numa, len, run)->0;
            &&& table_ok(t)
            &&& t.objects == s.objects
            &&& t.runs == s.runs
            &&& same_pools(s, t)
            &&& 0 <= id <= s.bufs.len()
            &&& t.bufs.len() <= s.bufs.len() + 1
            &&& t.bufs.len() >= s.bufs.len()
            &&& !s.live(id)
            &&& t.live(id)
            &&& t.bufs[id]->0.keeper == Keeper::Writer(run)
            &&& t.bufs[id]->0.readers == 0
            &&& t.bufs[id]->0.buf.numa == numa
            &&& t.bufs[id]->0.buf.len == len
            &&& forall|j: int| s.live(j) ==> #[trigger] t.bufs[j] == s.bufs[j]
            &&& forall|j: int| #[trigger] t.live(j) ==> s.live(j) || j == id
        }),
{
    let (t, id) = s.taken(numa, len, run)->0;
    let pool = s.pools[numa].pinned;
    let (after, buf) = pool.allocated(len)->0;
    let c = lemma_next(s.bufs, 0);
    let i = choose|i: int| pinned::first_fit(pool.free, pinned::rounded(len), i);
    pinned::law_alloc_takes_free_bytes(pool, i, len);
    assert(t.pools.dom() =~= s.pools.dom());
    assert forall|j: int| s.live(j) implies #[trigger] t.bufs[j] == s.bufs[j] by {}
    assert forall|j: int| #[trigger] t.live(j) implies buf_ok(t, j) && (s.live(j) || j == id) by {
        if j != id {
            assert(s.live(j));
            assert(buf_ok(s, j));
            let b = s.bufs[j]->0.buf;
            if b.numa == numa {
                assert forall|x: int| b.covers(x) implies !#[trigger] pinned::is_free(after.free, x) by {
                    assert(!pinned::is_free(pool.free, x));
                }
            }
        } else {
            assert forall|x: int| buf.covers(x) implies !#[trigger] pinned::is_free(after.free, x) by {}
            assert(bytes_fit(len, buf));
        }
    }
    assert forall|a: int, b: int| #[trigger]
        t.live(a) && #[trigger] t.live(b) && a != b implies apart(
        t.bufs[a]->0.buf,
        t.bufs[b]->0.buf,
    ) by {
        if a != id && b != id {
            assert(s.live(a) && s.live(b));
        } else {
            let o = if a == id {
                b
            } else {
                a
            };
            assert(s.live(o));
            assert(buf_ok(s, o));
            let other = s.bufs[o]->0.buf;
            if other.numa == numa {
                assert forall|x: int| #[trigger] buf.covers(x) implies !other.covers(x) by {
                    assert(pinned::is_free(pool.free, x));
                }
                assert forall|x: int| #[trigger] other.covers(x) implies !buf.covers(x) by {
                    assert(!pinned::is_free(pool.free, x));
                }
            }
        }
    }
    assert forall|n: u16, x: int|
        t.pools.contains_key(n) && 0 <= x < t.pools[n].pinned.len implies #[trigger] is_accounted(
        t,
        n,
        x,
    ) by {
        assert(s.pools.contains_key(n));
        assert(is_accounted(s, n, x));
        if n == numa && buf.covers(x) {
            assert(t.live(id));
        } else if pinned::is_free(s.pools[n].pinned.free, x) {
            if n == numa {
                assert(pinned::is_free(after.free, x));
            }
        } else {
            let j = choose|j: int| #[trigger]
                s.live(j) && s.bufs[j]->0.buf.numa == n && s.bufs[j]->0.buf.covers(x);
            assert(t.live(j));
            assert(t.bufs[j] == s.bufs[j]);
        }
    }
}

spec fn bytes_fit(len: nat, buf: PinnedBuf) -> bool {
    len <= buf.reserved && buf.len == len
}

/// One more allocation keeps what is said of replicas and writes.
pub proof fn lemma_more(s: LocalState, t: LocalState)
    requires
        refs_ok(s),
        claims_ok(s),
        t.objects == s.objects,
        t.runs == s.runs,
        t.bufs.len() >= s.bufs.len(),
        forall|j: int| s.live(j) ==> #[trigger] t.bufs[j] == s.bufs[j],
    ensures
        refs_ok(t),
        claims_ok(t),
{
    assert forall|k: Seq<u8>, i: int, j: int| #[trigger] has(t, k, i, j) implies replica_ok(
        t,
        rep(t, k, i, j),
        t.objects[k].spec.slots[i].len,
    ) by {
        assert(has(s, k, i, j));
        let r = rep(s, k, i, j);
        if r.data is Pinned {
            let id = r.data->Pinned_0 as int;
            assert(s.live(id));
            assert(t.bufs[id] == s.bufs[id]);
        }
    }
    assert forall|k: Seq<u8>, i: int, j: int, k2: Seq<u8>, i2: int, j2: int, id: int| #[trigger]
        refers(t, k, i, j, id) && #[trigger] refers(t, k2, i2, j2, id) implies k == k2 && i == i2
        && j == j2 by {
        assert(refers(s, k, i, j, id) && refers(s, k2, i2, j2, id));
    }
    assert forall|run: int| #[trigger] t.active(run) implies run_ok(t, run) by {
        assert(s.active(run));
        assert(run_ok(s, run));
        let r = s.runs[run]->0;
        if r.pending is Some {
            let spots = r.pending->0;
            assert forall|x: int| 0 <= x < spots.len() implies spot_ok(
                t,
                run,
                #[trigger] spots[x],
                r.spec.slots[r.results.len() as int].len,
            ) by {
                assert(spot_ok(s, run, spots[x], r.spec.slots[r.results.len() as int].len));
                let id = spots[x].2 as int;
                assert(s.live(id));
                assert(t.bufs[id] == s.bufs[id]);
            }
        }
    }
    assert forall|k: Seq<u8>, i: int|
        t.objects.contains_key(k) && 0 <= i < t.objects[k].slots.len() implies #[trigger] claim_ok(
        t,
        k,
        i,
    ) by {
        assert(claim_ok(s, k, i));
        let slot = s.objects[k].slots[i];
        if slot.writing is Some {
            assert(s.active(slot.writing->0 as int));
            assert(t.active(slot.writing->0 as int));
        }
    }
}

} // verus!
