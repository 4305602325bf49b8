//! Writes, reads and removals of the single-node backend keep its states valid.
use vstd::prelude::*;

use crate::error::ErrorView;
use crate::local::ledger;
use crate::local::ledger::{
    Keeper, LocalBuf, LocalObject, LocalReplica, LocalSlot, LocalState, RunView, Spot,
};
use crate::local::safety;
use crate::local::steps;
use crate::ops;
use crate::ops::{OpPublishView, OpPutView};
use crate::pinned;
use crate::region;
use crate::text;
use crate::types::{ObjectSpecView, Tier};

verus! {

/// Whether the tables hold the same allocations, whoever keeps them.
pub open spec fn same_bufs(s: LocalState, t: LocalState) -> bool {
    &&& t.bufs.len() == s.bufs.len()
    &&& forall|j: int| #[trigger] t.live(j) <==> s.live(j)
    &&& forall|j: int| #[trigger]
        t.live(j) ==> t.bufs[j]->0.buf == s.bufs[j]->0.buf && (t.bufs[j]->0.keeper
            == Keeper::Readers ==> t.bufs[j]->0.readers > 0)
    &&& t.pools.dom() == s.pools.dom()
    &&& forall|n: u16| #[trigger] s.pools.contains_key(n) ==> t.pools[n].pinned == s.pools[n].pinned
}

pub proof fn lemma_same_bufs(s: LocalState, t: LocalState)
    requires
        safety::table_ok(s),
        same_bufs(s, t),
    ensures
        safety::table_ok(t),
{
    assert forall|id: int| #[trigger] t.live(id) implies safety::buf_ok(t, id) by {
        assert(s.live(id));
        assert(safety::buf_ok(s, id));
    }
    assert forall|a: int, b: int| #[trigger]
        t.live(a) && #[trigger] t.live(b) && a != b implies safety::apart(
        t.bufs[a]->0.buf,
        t.bufs[b]->0.buf,
    ) by {
        assert(s.live(a) && s.live(b));
    }
    assert forall|n: u16, x: int|
        t.pools.contains_key(n) && 0 <= x < t.pools[n].pinned.len implies #[trigger] safety::is_accounted(
        t,
        n,
        x,
    ) by {
        assert(s.pools.contains_key(n));
        assert(safety::is_accounted(s, n, x));
        if !pinned::is_free(s.pools[n].pinned.free, x) {
            let j = choose|j: int| #[trigger]
                s.live(j) && s.bufs[j]->0.buf.numa == n && s.bufs[j]->0.buf.covers(x);
            assert(t.live(j));
        }
    }
    assert forall|n: u16| #[trigger] t.pools.contains_key(n) implies t.pools[n].pinned.ok()
        && t.pools[n].pinned.numa == n by {
        assert(s.pools.contains_key(n));
    }
}

/// Letting go looks at the table and the pools alone.
pub proof fn lemma_let_go_commutes(
    s: LocalState,
    objects: Map<Seq<u8>, LocalObject>,
    runs: Seq<Option<RunView>>,
    ids: Seq<usize>,
    n: nat,
)
    ensures
        (LocalState { objects, runs, ..s }).let_go_all(ids, n) == (LocalState {
            objects,
            runs,
            ..s.let_go_all(ids, n)
        }),
    decreases n,
{
    if n > 0 {
        lemma_let_go_commutes(s, objects, runs, ids, (n - 1) as nat);
    }
}

pub proof fn lemma_let_go_keeps(s: LocalState, ids: Seq<usize>, n: nat)
    ensures
        s.let_go_all(ids, n).objects == s.objects,
        s.let_go_all(ids, n).runs == s.runs,
    decreases n,
{
    if n > 0 {
        lemma_let_go_keeps(s, ids, (n - 1) as nat);
    }
}

// ---- the start of a write ----

proof fn lemma_reserved(s: LocalState, key: Seq<u8>, spec: ObjectSpecView)
    requires
        safety::local_inv(s),
    ensures
        safety::local_inv(s.reserved(key, spec)),
{
    let t = s.reserved(key, spec);
    if !s.objects.contains_key(key) {
        steps::lemma_table_frame(s, t);
        assert forall|k: Seq<u8>, i: int, j: int| #[trigger] safety::has(t, k, i, j) implies safety::has(
            s,
            k,
            i,
            j,
        ) && safety::rep(s, k, i, j) == safety::rep(t, k, i, j) && s.objects[k] == t.objects[k] by {
            if k == key {
                assert(t.objects[k].slots[i].replicas.len() == 0);
            }
        }
        assert forall|k: Seq<u8>, i: int, j: int| #[trigger] safety::has(t, k, i, j) implies safety::replica_ok(
            t,
            safety::rep(t, k, i, j),
            t.objects[k].spec.slots[i].len,
        ) by {
            assert(safety::has(s, k, i, j));
            let r = safety::rep(s, k, i, j);
            assert(safety::replica_ok(s, r, s.objects[k].spec.slots[i].len));
            if r.data is Pinned {
                assert(t.live(r.data->Pinned_0 as int) == s.live(r.data->Pinned_0 as int));
            }
        }
        assert forall|k: Seq<u8>, i: int, j: int, k2: Seq<u8>, i2: int, j2: int, id: int| #[trigger]
            safety::refers(t, k, i, j, id) && #[trigger] safety::refers(t, k2, i2, j2, id) implies k == k2 && i
            == i2 && j == j2 by {
            assert(safety::has(s, k, i, j) && safety::has(s, k2, i2, j2));
            assert(safety::refers(s, k, i, j, id) && safety::refers(s, k2, i2, j2, id));
        }
        assert forall|run: int| #[trigger] t.active(run) implies safety::run_ok(t, run) by {
            assert(s.active(run));
            steps::lemma_run_frame(s, t, run);
        }
        assert forall|k: Seq<u8>, i: int|
            t.objects.contains_key(k) && 0 <= i
                < t.objects[k].slots.len() implies #[trigger] safety::claim_ok(t, k, i) by {
            if k == key {
                assert(t.objects[k].slots[i].writing is None);
            } else {
                assert(safety::claim_ok(s, k, i));
                if s.objects[k].slots[i].writing is Some {
                    let run = s.objects[k].slots[i].writing->0 as int;
                    assert(s.active(run));
                    assert(t.active(run));
                }
            }
        }
    }
}

/// The start of a write keeps the state valid, and its number is new.
pub proof fn lemma_begun(s: LocalState, key: Seq<u8>, op: OpPutView)
    requires
        safety::local_inv(s),
        s.runs.len() <= usize::MAX,
    ensures
        safety::local_inv(s.begun(key, op).0),
        s.begun(key, op).1 matches Ok(run) ==> {
            let t = s.begun(key, op).0;
            &&& 0 <= run <= s.runs.len()
            &&& !s.active(run)
            &&& t.active(run)
            &&& t.bufs == s.bufs
            &&& t.pools == s.pools
            &&& forall|r: int| s.active(r) ==> #[trigger] t.runs[r] == s.runs[r]
        },
{
    let (t, r) = s.begun(key, op);
    if let Ok(run) = r {
        lemma_reserved(s, key, op.spec());
        let m = s.reserved(key, op.spec());
        let c = safety::lemma_next(s.runs, 0);
        assert(run == c);
        steps::lemma_table_frame(s, t);
        let obj = m.objects[key];
        assert(obj.spec == op.spec());
        assert(obj.slots.len() == op.slots.len());
        assert forall|x: int| s.active(x) implies #[trigger] t.runs[x] == s.runs[x] by {}
        assert forall|k: Seq<u8>, i: int, j: int| #[trigger] safety::has(t, k, i, j) implies safety::has(
            m,
            k,
            i,
            j,
        ) && safety::rep(m, k, i, j) == safety::rep(t, k, i, j) && m.objects[k].spec == t.objects[k].spec by {}
        assert forall|k: Seq<u8>| #[trigger]
            t.objects.contains_key(k) implies t.objects[k].slots.len()
            == t.objects[k].spec.slots.len() by {
            assert(m.objects.contains_key(k));
        }
        assert forall|k: Seq<u8>, i: int, j: int| #[trigger] safety::has(t, k, i, j) implies safety::replica_ok(
            t,
            safety::rep(t, k, i, j),
            t.objects[k].spec.slots[i].len,
        ) by {
            assert(safety::has(m, k, i, j));
            let x = safety::rep(m, k, i, j);
            assert(safety::replica_ok(m, x, m.objects[k].spec.slots[i].len));
            if x.data is Pinned {
                assert(t.live(x.data->Pinned_0 as int) == m.live(x.data->Pinned_0 as int));
            }
        }
        assert forall|k: Seq<u8>, i: int, j: int, k2: Seq<u8>, i2: int, j2: int, id: int| #[trigger]
            safety::refers(t, k, i, j, id) && #[trigger] safety::refers(t, k2, i2, j2, id) implies k == k2 && i
            == i2 && j == j2 by {
            assert(safety::has(m, k, i, j) && safety::has(m, k2, i2, j2));
            assert(safety::refers(m, k, i, j, id) && safety::refers(m, k2, i2, j2, id));
        }
        assert forall|x: int| #[trigger] t.active(x) implies safety::run_ok(t, x) by {
            if x != run {
                assert(s.active(x));
                assert(safety::run_ok(s, x));
                lemma_spots_frame(s, t, x);
            }
        }
        assert forall|k: Seq<u8>, i: int|
            t.objects.contains_key(k) && 0 <= i
                < t.objects[k].slots.len() implies #[trigger] safety::claim_ok(t, k, i) by {
            assert(m.objects.contains_key(k));
            assert(safety::claim_ok(m, k, i));
            let slot = m.objects[k].slots[i];
            if slot.writing is Some {
                let x = slot.writing->0 as int;
                assert(s.active(x));
                assert(t.runs[x] == s.runs[x]);
                assert(t.active(x));
            }
        }
    }
}

/// What is said of a write depends on its record and its allocations alone.
pub proof fn lemma_spots_frame(s: LocalState, t: LocalState, run: int)
    requires
        s.active(run),
        safety::run_ok(s, run),
        t.active(run),
        t.runs[run] == s.runs[run],
        s.runs[run]->0.pending is Some ==> forall|x: int|
            0 <= x < s.runs[run]->0.pending->0.len() ==> t.bufs.len() > (
            #[trigger] s.runs[run]->0.pending->0[x]).2 && t.bufs[s.runs[run]->0.pending->0[x].2 as int]
                == s.bufs[s.runs[run]->0.pending->0[x].2 as int],
    ensures
        safety::run_ok(t, run),
{
    let r = s.runs[run]->0;
    if r.pending is Some {
        let spots = r.pending->0;
        let len = r.spec.slots[r.results.len() as int].len;
        assert forall|x: int| 0 <= x < spots.len() implies safety::spot_ok(
            t,
            run,
            #[trigger] spots[x],
            len,
        ) by {
            assert(safety::spot_ok(s, run, spots[x], len));
            assert(s.live(spots[x].2 as int));
            assert(t.live(spots[x].2 as int));
        }
    }
}

// ---- results ----

/// Giving up a claim and recording a result keeps the state valid, whether or
/// not the write waited for a copy.
pub proof fn lemma_answered(s: LocalState, run: int, result: Result<(), ErrorView>)
    requires
        safety::local_inv(s),
        s.active(run),
        s.runs[run]->0.results.len() < s.runs[run]->0.spec.slots.len(),
    ensures
        ({
            let r = s.runs[run]->0;
            let i = r.results.len() as int;
            safety::local_inv(s.unclaimed(r.key, i, run as usize).answered(run, result))
        }),
{
    let r = s.runs[run]->0;
    let i0 = r.results.len() as int;
    let m = s.unclaimed(r.key, i0, run as usize);
    let t = m.answered(run, result);
    assert(safety::run_ok(s, run));
    steps::lemma_table_frame(s, t);
    assert forall|k: Seq<u8>, i: int, j: int| #[trigger] safety::has(t, k, i, j) implies safety::has(s, k, i, j)
        && safety::rep(s, k, i, j) == safety::rep(t, k, i, j) && s.objects[k].spec == t.objects[k].spec by {}
    assert forall|k: Seq<u8>| #[trigger] t.objects.contains_key(k) implies t.objects[k].slots.len()
        == t.objects[k].spec.slots.len() by {
        assert(s.objects.contains_key(k));
    }
    assert forall|k: Seq<u8>, i: int, j: int| #[trigger] safety::has(t, k, i, j) implies safety::replica_ok(
        t,
        safety::rep(t, k, i, j),
        t.objects[k].spec.slots[i].len,
    ) by {
        assert(safety::has(s, k, i, j));
        let x = safety::rep(s, k, i, j);
        assert(safety::replica_ok(s, x, s.objects[k].spec.slots[i].len));
        if x.data is Pinned {
            assert(t.live(x.data->Pinned_0 as int) == s.live(x.data->Pinned_0 as int));
        }
    }
    assert forall|k: Seq<u8>, i: int, j: int, k2: Seq<u8>, i2: int, j2: int, id: int| #[trigger]
        safety::refers(t, k, i, j, id) && #[trigger] safety::refers(t, k2, i2, j2, id) implies k == k2 && i == i2
        && j == j2 by {
        assert(safety::has(s, k, i, j) && safety::has(s, k2, i2, j2));
        assert(safety::refers(s, k, i, j, id) && safety::refers(s, k2, i2, j2, id));
    }
    assert forall|x: int| #[trigger] t.active(x) implies safety::run_ok(t, x) by {
        assert(s.active(x));
        assert(safety::run_ok(s, x));
        if x != run {
            lemma_spots_frame(s, t, x);
        }
    }
    assert forall|k: Seq<u8>, i: int|
        t.objects.contains_key(k) && 0 <= i < t.objects[k].slots.len() implies #[trigger] safety::claim_ok(
        t,
        k,
        i,
    ) by {
        assert(s.objects.contains_key(k));
        assert(safety::claim_ok(s, k, i));
        let slot = s.objects[k].slots[i];
        if t.objects[k].slots[i].writing is Some {
            assert(t.objects[k].slots[i] == slot);
            let x = slot.writing->0 as int;
            assert(s.active(x));
            assert(t.active(x));
            if x == run {
                assert(k == r.key);
                assert(i != i0) by {
                    if i == i0 {
                        assert(s.holds(k, i, run as usize));
                    }
                }
            }
        }
    }
}

/// A write that begins to wait for a copy.
pub proof fn lemma_pending(s: LocalState, run: int, spots: Seq<Spot>)
    requires
        safety::local_inv(s),
        s.active(run),
        s.runs[run]->0.results.len() < s.runs[run]->0.spec.slots.len(),
        s.runs[run]->0.writable[s.runs[run]->0.results.len() as int],
        spots.len() > 0,
        safety::spots_ok(
            s,
            run,
            spots,
            s.runs[run]->0.spec.slots[s.runs[run]->0.results.len() as int].len,
        ),
    ensures
        safety::local_inv(s.with_run(run, RunView { pending: Some(spots), ..s.runs[run]->0 })),
{
    let r = s.runs[run]->0;
    let t = s.with_run(run, RunView { pending: Some(spots), ..r });
    let len = r.spec.slots[r.results.len() as int].len;
    assert(safety::run_ok(s, run));
    steps::lemma_table_frame(s, t);
    assert forall|k: Seq<u8>, i: int, j: int| #[trigger] safety::has(t, k, i, j) implies safety::replica_ok(
        t,
        safety::rep(t, k, i, j),
        t.objects[k].spec.slots[i].len,
    ) by {
        assert(safety::has(s, k, i, j));
        let x = safety::rep(s, k, i, j);
        if x.data is Pinned {
            assert(t.live(x.data->Pinned_0 as int) == s.live(x.data->Pinned_0 as int));
        }
    }
    assert forall|k: Seq<u8>, i: int, j: int, k2: Seq<u8>, i2: int, j2: int, id: int| #[trigger]
        safety::refers(t, k, i, j, id) && #[trigger] safety::refers(t, k2, i2, j2, id) implies k == k2 && i == i2
        && j == j2 by {
        assert(safety::refers(s, k, i, j, id) && safety::refers(s, k2, i2, j2, id));
    }
    assert forall|x: int| #[trigger] t.active(x) implies safety::run_ok(t, x) by {
        assert(s.active(x));
        assert(safety::run_ok(s, x));
        if x != run {
            lemma_spots_frame(s, t, x);
        } else {
            assert forall|y: int| 0 <= y < spots.len() implies safety::spot_ok(
                t,
                run,
                #[trigger] spots[y],
                len,
            ) by {
                assert(safety::spot_ok(s, run, spots[y], len));
                assert(s.live(spots[y].2 as int));
                assert(t.live(spots[y].2 as int));
            }
        }
    }
    assert forall|k: Seq<u8>, i: int|
        t.objects.contains_key(k) && 0 <= i < t.objects[k].slots.len() implies #[trigger] safety::claim_ok(
        t,
        k,
        i,
    ) by {
        assert(safety::claim_ok(s, k, i));
        let slot = s.objects[k].slots[i];
        if slot.writing is Some {
            let x = slot.writing->0 as int;
            assert(s.active(x));
            assert(t.active(x));
        }
    }
}

/// Whether allocations are a write's, and nobody else's.
pub open spec fn own_spots(s: LocalState, run: int, spots: Seq<Spot>) -> bool {
    &&& forall|x: int|
        0 <= x < spots.len() ==> s.live((#[trigger] spots[x]).2 as int)
            && s.bufs[spots[x].2 as int]->0.keeper == Keeper::Writer(run as usize)
    &&& forall|x: int, y: int|
        0 <= x < y < spots.len() ==> (#[trigger] spots[x]).2 != (#[trigger] spots[y]).2
}

/// A write that lets go of allocations that it does not wait for.
pub proof fn lemma_spots_go(s: LocalState, run: int, spots: Seq<Spot>)
    requires
        safety::local_inv(s),
        s.active(run),
        s.runs[run]->0.pending is None,
        s.bufs.len() <= usize::MAX,
        own_spots(s, run, spots),
    ensures
        safety::local_inv(s.let_go_all(ledger::spot_ids(spots), spots.len())),
        safety::lets_go(s, s.let_go_all(ledger::spot_ids(spots), spots.len()), ledger::spot_ids(spots)),
{
    let ids = ledger::spot_ids(spots);
    assert(safety::run_ok(s, run));
    assert forall|x: int| 0 <= x < ids.len() implies s.live(#[trigger] ids[x] as int)
        && s.bufs[ids[x] as int]->0.keeper == Keeper::Writer(run as usize) by {
        assert(s.live(spots[x].2 as int));
    }
    assert(safety::distinct(ids)) by {
        assert forall|x: int, y: int| 0 <= x < y < ids.len() implies #[trigger] ids[x]
            != #[trigger] ids[y] by {
            assert(spots[x].2 != spots[y].2);
        }
    }
    safety::lemma_let_go_all(s, ids, ids.len());
    assert(ids.take(ids.len() as int) =~= ids);
    let t = s.let_go_all(ids, ids.len());
    assert forall|k: Seq<u8>, i: int, j: int, x: int| 0 <= x < ids.len() implies !#[trigger] safety::refers(
        s,
        k,
        i,
        j,
        #[trigger] ids[x] as int,
    ) by {
        if safety::refers(s, k, i, j, ids[x] as int) {
            assert(safety::has(s, k, i, j));
            assert(s.bufs[ids[x] as int]->0.keeper == Keeper::Stored);
        }
    }
    assert forall|r: int, x: int, y: int|
        #[trigger] s.active(r) && s.runs[r]->0.pending is Some && 0 <= x
            < s.runs[r]->0.pending->0.len() && 0 <= y < ids.len() implies (
    #[trigger] s.runs[r]->0.pending->0[x]).2 != #[trigger] ids[y] by {
        assert(safety::run_ok(s, r));
        let q = s.runs[r]->0;
        assert(safety::spot_ok(s, r, q.pending->0[x], q.spec.slots[q.results.len() as int].len));
        assert(r != run);
        assert(s.bufs[ids[y] as int]->0.keeper == Keeper::Writer(run as usize));
    }
    safety::lemma_unrelated(s, t, ids);
}

// ---- the end of a copy ----

pub proof fn lemma_kept(s: LocalState, spots: Seq<Spot>, n: nat)
    requires
        n <= spots.len(),
        forall|x: int| 0 <= x < spots.len() ==> s.live((#[trigger] spots[x]).2 as int),
        forall|x: int, y: int|
            0 <= x < y < spots.len() ==> (#[trigger] spots[x]).2 != (#[trigger] spots[y]).2,
    ensures
        ({
            let t = s.kept(spots, n);
            &&& t.objects == s.objects
            &&& t.runs == s.runs
            &&& t.pools == s.pools
            &&& t.bufs.len() == s.bufs.len()
            &&& forall|x: int|
                0 <= x < n ==> t.bufs[(#[trigger] spots[x]).2 as int] == Some(
                    LocalBuf {
                        keeper: Keeper::Stored,
                        ..s.bufs[spots[x].2 as int]->0
                    },
                )
            &&& forall|j: int|
                0 <= j < s.bufs.len() && (forall|x: int|
                    0 <= x < n ==> (#[trigger] spots[x]).2 != j) ==> #[trigger] t.bufs[j]
                    == s.bufs[j]
        }),
    decreases n,
{
    if n > 0 {
        lemma_kept(s, spots, (n - 1) as nat);
        let p = s.kept(spots, (n - 1) as nat);
        let t = s.kept(spots, n);
        let id = spots[n - 1].2 as int;
        assert(s.live(id));
        assert(p.bufs[id] == s.bufs[id]);
        assert forall|x: int| 0 <= x < n implies t.bufs[(#[trigger] spots[x]).2 as int] == Some(
            LocalBuf { keeper: Keeper::Stored, ..s.bufs[spots[x].2 as int]->0 },
        ) by {
            if x < n - 1 {
                assert(spots[x].2 != spots[n - 1].2);
                assert(s.live(spots[x].2 as int));
            }
        }
        assert forall|j: int|
            0 <= j < s.bufs.len() && (forall|x: int|
                0 <= x < n ==> (#[trigger] spots[x]).2 != j) implies #[trigger] t.bufs[j]
            == s.bufs[j] by {
            assert(spots[n - 1].2 != j);
            assert(p.bufs[j] == s.bufs[j]);
        }
    }
}

pub proof fn lemma_queued(s: LocalState, spots: Seq<Spot>, key: Seq<u8>, i: nat, n: nat)
    requires
        n <= spots.len(),
        forall|x: int| 0 <= x < spots.len() ==> s.pools.contains_key((#[trigger] spots[x]).0),
    ensures
        ({
            let t = s.queued(spots, key, i, n);
            &&& t.objects == s.objects
            &&& t.runs == s.runs
            &&& t.bufs == s.bufs
            &&& t.pools.dom() == s.pools.dom()
            &&& forall|m: u16| #[trigger]
                s.pools.contains_key(m) ==> t.pools[m].pinned == s.pools[m].pinned
        }),
    decreases n,
{
    if n > 0 {
        lemma_queued(s, spots, key, i, (n - 1) as nat);
        let p = s.queued(spots, key, i, (n - 1) as nat);
        let t = s.queued(spots, key, i, n);
        assert(s.pools.contains_key(spots[n - 1].0));
        assert(t.pools.dom() =~= s.pools.dom());
    }
}

/// The end of a copy keeps the state valid: the slot is written or given up.
pub proof fn lemma_copied(s: LocalState, run: int, outcome: Result<(), ErrorView>)
    requires
        safety::local_inv(s),
        s.active(run),
        s.runs[run]->0.pending is Some,
        s.bufs.len() <= usize::MAX,
    ensures
        safety::local_inv(s.copied(run, outcome)),
        s.copied(run, outcome).active(run),
{
    let r = s.runs[run]->0;
    let i0 = r.results.len() as int;
    let spots = r.pending->0;
    let len = r.spec.slots[i0].len;
    let t = s.copied(run, outcome);
    assert(safety::run_ok(s, run));
    assert forall|x: int| 0 <= x < spots.len() implies s.live((#[trigger] spots[x]).2 as int)
        && s.bufs[spots[x].2 as int]->0.keeper == Keeper::Writer(run as usize)
        && s.bufs[spots[x].2 as int]->0.buf.numa == spots[x].0
        && s.bufs[spots[x].2 as int]->0.buf.len == len && s.pools.contains_key(spots[x].0) by {
        assert(safety::spot_ok(s, run, spots[x], len));
        assert(safety::buf_ok(s, spots[x].2 as int));
    }
    if outcome is Ok && s.holds(r.key, i0, run as usize) {
        lemma_stored(s, run, t);
    } else {
        let e = match outcome {
            Ok(_) => ErrorView::new(
                crate::error::ErrorKind::NotFound,
                "object removed during put"@,
            ).with_context("slot"@, text::decimal(i0 as nat)),
            Err(e) => e.with_context("slot"@, text::decimal(i0 as nat)),
        };
        let result: Result<(), ErrorView> = Err(e);
        let ids = ledger::spot_ids(spots);
        let g = s.let_go_all(ids, ids.len());
        lemma_let_go_keeps(s, ids, ids.len());
        let m = s.unclaimed(r.key, i0, run as usize).answered(run, result);
        lemma_answered(s, run, result);
        assert(m.bufs == s.bufs);
        lemma_let_go_commutes(s, m.objects, m.runs, ids, ids.len());
        assert(m == (LocalState { objects: m.objects, runs: m.runs, ..s }));
        assert(t == m.let_go_all(ids, ids.len()));
        assert(own_spots(m, run, spots)) by {
            assert forall|x: int| 0 <= x < spots.len() implies m.live(
                (#[trigger] spots[x]).2 as int,
            ) && m.bufs[spots[x].2 as int]->0.keeper == Keeper::Writer(run as usize) by {
                assert(s.live(spots[x].2 as int));
            }
        }
        lemma_spots_go(m, run, spots);
    }
}

proof fn lemma_stored(s: LocalState, run: int, t: LocalState)
    requires
        safety::local_inv(s),
        s.active(run),
        s.runs[run]->0.pending is Some,
        s.bufs.len() <= usize::MAX,
        s.holds(s.runs[run]->0.key, s.runs[run]->0.results.len() as int, run as usize),
        t == s.copied(run, Ok(())),
    ensures
        safety::local_inv(t),
        t.active(run),
{
    let r = s.runs[run]->0;
    let key = r.key;
    let i0 = r.results.len() as int;
    let spots = r.pending->0;
    let len = r.spec.slots[i0].len;
    assert(safety::run_ok(s, run));
    assert forall|x: int| 0 <= x < spots.len() implies safety::spot_ok(s, run, #[trigger] spots[x], len)
        && s.live(spots[x].2 as int) && s.pools.contains_key(spots[x].0) by {
        assert(safety::spot_ok(s, run, spots[x], len));
        assert(safety::buf_ok(s, spots[x].2 as int));
    }
    let slot = s.objects[key].slots[i0];
    let after = LocalSlot { replicas: slot.replicas + ledger::spot_replicas(spots), writing: None };
    let a = s.with_slot(key, i0, after);
    assert forall|x: int| 0 <= x < spots.len() implies a.live((#[trigger] spots[x]).2 as int) by {
        assert(s.live(spots[x].2 as int));
    }
    lemma_kept(a, spots, spots.len());
    let b = a.kept(spots, spots.len());
    assert forall|x: int| 0 <= x < spots.len() implies b.pools.contains_key(
        (#[trigger] spots[x]).0,
    ) by {
        assert(s.pools.contains_key(spots[x].0));
    }
    lemma_queued(b, spots, key, i0 as nat, spots.len());
    let c = b.queued(spots, key, i0 as nat, spots.len());
    assert(t == c.answered(run, Ok(())));
    assert(safety::claim_ok(s, key, i0));
    assert(s.objects[key].spec == r.spec);
    // Which allocations changed hands.
    assert forall|j: int| #[trigger] t.live(j) <==> s.live(j) by {
        if exists|x: int| 0 <= x < spots.len() && (#[trigger] spots[x]).2 == j {
            let x = choose|x: int| 0 <= x < spots.len() && (#[trigger] spots[x]).2 == j;
            assert(s.live(spots[x].2 as int));
            assert(b.bufs[spots[x].2 as int] is Some);
        } else if 0 <= j < s.bufs.len() {
            assert(b.bufs[j] == a.bufs[j]);
        }
    }
    assert forall|j: int| s.live(j) && s.bufs[j]->0.keeper != Keeper::Writer(
        run as usize,
    ) implies #[trigger] t.bufs[j] == s.bufs[j] by {
        assert forall|x: int| 0 <= x < spots.len() implies (#[trigger] spots[x]).2 != j by {
            assert(safety::spot_ok(s, run, spots[x], len));
        }
        assert(b.bufs[j] == a.bufs[j]);
    }
    assert(same_bufs(s, t)) by {
        assert forall|j: int| #[trigger] t.live(j) implies t.bufs[j]->0.buf == s.bufs[j]->0.buf && (
        t.bufs[j]->0.keeper == Keeper::Readers ==> t.bufs[j]->0.readers > 0) by {
            assert(s.live(j));
            assert(safety::buf_ok(s, j));
            if exists|x: int| 0 <= x < spots.len() && (#[trigger] spots[x]).2 == j {
                let x = choose|x: int| 0 <= x < spots.len() && (#[trigger] spots[x]).2 == j;
                assert(b.bufs[spots[x].2 as int] is Some);
            } else {
                assert(b.bufs[j] == a.bufs[j]);
            }
        }
        assert forall|n: u16| #[trigger] s.pools.contains_key(n) implies t.pools[n].pinned
            == s.pools[n].pinned by {
            assert(b.pools.contains_key(n));
        }
    }
    lemma_same_bufs(s, t);
    let old_n = slot.replicas.len();
    // Replicas: those that were there, and the new ones.
    assert forall|k: Seq<u8>, i: int, j: int| #[trigger] safety::has(t, k, i, j) implies (if k == key && i
        == i0 && j >= old_n {
        &&& 0 <= j - old_n < spots.len()
        &&& safety::rep(t, k, i, j) == ledger::spot_replicas(spots)[j - old_n]
    } else {
        &&& safety::has(s, k, i, j)
        &&& safety::rep(s, k, i, j) == safety::rep(t, k, i, j)
    }) && s.objects.contains_key(k) && s.objects[k].spec == t.objects[k].spec by {
        if k == key && i == i0 {
            assert(t.objects[k].slots[i] == after);
        }
    }
    assert forall|k: Seq<u8>| #[trigger] t.objects.contains_key(k) implies t.objects[k].slots.len()
        == t.objects[k].spec.slots.len() by {
        assert(s.objects.contains_key(k));
    }
    assert forall|k: Seq<u8>, i: int, j: int| #[trigger] safety::has(t, k, i, j) implies safety::replica_ok(
        t,
        safety::rep(t, k, i, j),
        t.objects[k].spec.slots[i].len,
    ) by {
        if k == key && i == i0 && j >= old_n {
            let x = j - old_n;
            assert(safety::spot_ok(s, run, spots[x], len));
            assert(b.bufs[spots[x].2 as int] is Some);
            assert(t.live(spots[x].2 as int));
        } else {
            assert(safety::has(s, k, i, j));
            let q = safety::rep(s, k, i, j);
            assert(safety::replica_ok(s, q, s.objects[k].spec.slots[i].len));
            if q.data is Pinned {
                let id = q.data->Pinned_0 as int;
                assert(s.live(id));
                assert(t.bufs[id] == s.bufs[id]);
                assert(t.live(id));
            }
        }
    }
    assert forall|k: Seq<u8>, i: int, j: int, k2: Seq<u8>, i2: int, j2: int, id: int| #[trigger]
        safety::refers(t, k, i, j, id) && #[trigger] safety::refers(t, k2, i2, j2, id) implies k == k2 && i == i2
        && j == j2 by {
        assert(safety::has(t, k, i, j) && safety::has(t, k2, i2, j2));
        let new1 = k == key && i == i0 && j >= old_n;
        let new2 = k2 == key && i2 == i0 && j2 >= old_n;
        if new1 && new2 {
            if j < j2 {
                assert(spots[j - old_n].2 != spots[j2 - old_n].2);
            } else if j2 < j {
                assert(spots[j2 - old_n].2 != spots[j - old_n].2);
            }
        } else if new1 {
            assert(safety::has(s, k2, i2, j2));
            assert(safety::spot_ok(s, run, spots[j - old_n], len));
        } else if new2 {
            assert(safety::has(s, k, i, j));
            assert(safety::spot_ok(s, run, spots[j2 - old_n], len));
        } else {
            assert(safety::refers(s, k, i, j, id) && safety::refers(s, k2, i2, j2, id));
        }
    }
    assert forall|x: int| #[trigger] t.active(x) implies safety::run_ok(t, x) by {
        assert(s.active(x));
        assert(safety::run_ok(s, x));
        if x != run {
            let q = s.runs[x]->0;
            if q.pending is Some {
                assert forall|y: int| 0 <= y < q.pending->0.len() implies t.bufs.len() > (
                #[trigger] q.pending->0[y]).2 && t.bufs[q.pending->0[y].2 as int]
                    == s.bufs[q.pending->0[y].2 as int] by {
                    assert(safety::spot_ok(
                        s,
                        x,
                        q.pending->0[y],
                        q.spec.slots[q.results.len() as int].len,
                    ));
                    assert(s.live(q.pending->0[y].2 as int));
                }
            }
            lemma_spots_frame(s, t, x);
        }
    }
    assert forall|k: Seq<u8>, i: int|
        t.objects.contains_key(k) && 0 <= i < t.objects[k].slots.len() implies #[trigger] safety::claim_ok(
        t,
        k,
        i,
    ) by {
        assert(s.objects.contains_key(k));
        assert(safety::claim_ok(s, k, i));
        if !(k == key && i == i0) {
            let q = s.objects[k].slots[i];
            assert(t.objects[k].slots[i] == q);
            if q.writing is Some {
                let x = q.writing->0 as int;
                assert(s.active(x));
                assert(t.active(x));
            }
        }
    }
}

/// The end of a write keeps the state valid.
pub proof fn lemma_ended(s: LocalState, run: int)
    requires
        safety::local_inv(s),
        s.active(run),
        s.complete(run),
    ensures
        safety::local_inv(s.ended(run)),
{
    let t = s.ended(run);
    steps::lemma_table_frame(s, t);
    assert forall|k: Seq<u8>, i: int, j: int| #[trigger] safety::has(t, k, i, j) implies safety::replica_ok(
        t,
        safety::rep(t, k, i, j),
        t.objects[k].spec.slots[i].len,
    ) by {
        assert(safety::has(s, k, i, j));
        let x = safety::rep(s, k, i, j);
        if x.data is Pinned {
            assert(t.live(x.data->Pinned_0 as int) == s.live(x.data->Pinned_0 as int));
        }
    }
    assert forall|k: Seq<u8>, i: int, j: int, k2: Seq<u8>, i2: int, j2: int, id: int| #[trigger]
        safety::refers(t, k, i, j, id) && #[trigger] safety::refers(t, k2, i2, j2, id) implies k == k2 && i == i2
        && j == j2 by {
        assert(safety::refers(s, k, i, j, id) && safety::refers(s, k2, i2, j2, id));
    }
    assert forall|x: int| #[trigger] t.active(x) implies safety::run_ok(t, x) by {
        assert(s.active(x));
        assert(safety::run_ok(s, x));
        lemma_spots_frame(s, t, x);
    }
    assert forall|k: Seq<u8>, i: int|
        t.objects.contains_key(k) && 0 <= i < t.objects[k].slots.len() implies #[trigger] safety::claim_ok(
        t,
        k,
        i,
    ) by {
        assert(safety::claim_ok(s, k, i));
        let slot = s.objects[k].slots[i];
        if slot.writing is Some {
            let x = slot.writing->0 as int;
            assert(s.active(x));
            assert(x != run);
            assert(t.active(x));
        }
    }
}

// ---- reads ----

/// The start of a read keeps the state valid.
pub proof fn lemma_read_begun(s: LocalState, id: int)
    requires
        safety::local_inv(s),
        s.live(id),
    ensures
        safety::local_inv(s.read_begun(id)),
{
    let b = s.bufs[id]->0;
    lemma_readers(s, id, b.readers + 1);
}

proof fn lemma_readers(s: LocalState, id: int, readers: nat)
    requires
        safety::local_inv(s),
        s.live(id),
        s.bufs[id]->0.keeper == Keeper::Readers ==> readers > 0,
    ensures
        safety::local_inv(s.with_buf(id, LocalBuf { readers, ..s.bufs[id]->0 })),
{
    let t = s.with_buf(id, LocalBuf { readers, ..s.bufs[id]->0 });
    safety::lemma_with_buf(s, id, LocalBuf { readers, ..s.bufs[id]->0 });
    assert forall|j: int| s.live(j) implies t.live(j) && (#[trigger] t.bufs[j])->0.buf
        == s.bufs[j]->0.buf && t.bufs[j]->0.keeper == s.bufs[j]->0.keeper by {
        assert(t.live(j));
    }
    assert forall|k: Seq<u8>, i: int, j: int| #[trigger] safety::has(t, k, i, j) implies safety::replica_ok(
        t,
        safety::rep(t, k, i, j),
        t.objects[k].spec.slots[i].len,
    ) by {
        assert(safety::has(s, k, i, j));
        let x = safety::rep(s, k, i, j);
        assert(safety::replica_ok(s, x, s.objects[k].spec.slots[i].len));
        if x.data is Pinned {
            let y = x.data->Pinned_0 as int;
            assert(s.live(y));
            assert(t.bufs[y]->0.buf == s.bufs[y]->0.buf);
        }
    }
    assert forall|k: Seq<u8>, i: int, j: int, k2: Seq<u8>, i2: int, j2: int, x: int| #[trigger]
        safety::refers(t, k, i, j, x) && #[trigger] safety::refers(t, k2, i2, j2, x) implies k == k2 && i == i2
        && j == j2 by {
        assert(safety::refers(s, k, i, j, x) && safety::refers(s, k2, i2, j2, x));
    }
    assert forall|x: int| #[trigger] t.active(x) implies safety::run_ok(t, x) by {
        assert(s.active(x));
        assert(safety::run_ok(s, x));
        let r = s.runs[x]->0;
        if r.pending is Some {
            let spots = r.pending->0;
            let len = r.spec.slots[r.results.len() as int].len;
            assert forall|y: int| 0 <= y < spots.len() implies safety::spot_ok(
                t,
                x,
                #[trigger] spots[y],
                len,
            ) by {
                assert(safety::spot_ok(s, x, spots[y], len));
                let z = spots[y].2 as int;
                assert(s.live(z));
                assert(t.bufs[z]->0.buf == s.bufs[z]->0.buf);
            }
        }
    }
    assert forall|k: Seq<u8>, i: int|
        t.objects.contains_key(k) && 0 <= i < t.objects[k].slots.len() implies #[trigger] safety::claim_ok(
        t,
        k,
        i,
    ) by {
        assert(safety::claim_ok(s, k, i));
        let slot = s.objects[k].slots[i];
        if slot.writing is Some {
            let x = slot.writing->0 as int;
            assert(s.active(x));
            assert(t.active(x));
        }
    }
}

/// The end of a read keeps the state valid.
pub proof fn lemma_read_ended(s: LocalState, id: int)
    requires
        safety::local_inv(s),
        s.live(id),
        s.bufs[id]->0.readers > 0,
        s.bufs.len() <= usize::MAX,
    ensures
        safety::local_inv(s.read_ended(id)),
{
    let b = s.bufs[id]->0;
    let t = s.read_ended(id);
    if b.readers == 1 && b.keeper == Keeper::Readers {
        let m = s.with_buf(id, LocalBuf { readers: 0, keeper: Keeper::Stored, ..b });
        safety::lemma_with_buf(s, id, LocalBuf { readers: 0, keeper: Keeper::Stored, ..b });
        safety::lemma_let_go(m, id);
        assert(m.let_go(id) == m.given_back(id));
        assert(t =~= m.given_back(id));
        assert(safety::lets_go(s, t, seq![id as usize])) by {
            assert forall|j: int|
                0 <= j < s.bufs.len() && !seq![id as usize].contains(
                    j as usize,
                ) implies #[trigger] t.bufs[j] == s.bufs[j] by {
                if j == id {
                    assert(seq![id as usize][0] == j as usize);
                }
            }
            assert forall|j: int| #[trigger] t.live(j) implies s.live(j) by {
                assert(m.live(j));
            }
            assert forall|n: u16| #[trigger] s.pools.contains_key(n) implies t.pools[n].fifo
                == s.pools[n].fifo && t.pools[n].pinned.len == s.pools[n].pinned.len
                && t.pools[n].pinned.base == s.pools[n].pinned.base by {
                assert(m.pools.contains_key(n));
            }
        }
        let ids = seq![id as usize];
        assert forall|k: Seq<u8>, i: int, j: int, x: int| 0 <= x < ids.len() implies !#[trigger] safety::refers(
            s,
            k,
            i,
            j,
            #[trigger] ids[x] as int,
        ) by {
            if safety::refers(s, k, i, j, ids[x] as int) {
                assert(safety::has(s, k, i, j));
            }
        }
        assert forall|r: int, x: int, y: int|
            #[trigger] s.active(r) && s.runs[r]->0.pending is Some && 0 <= x
                < s.runs[r]->0.pending->0.len() && 0 <= y < ids.len() implies (
        #[trigger] s.runs[r]->0.pending->0[x]).2 != #[trigger] ids[y] by {
            assert(safety::run_ok(s, r));
            let q = s.runs[r]->0;
            assert(safety::spot_ok(s, r, q.pending->0[x], q.spec.slots[q.results.len() as int].len));
        }
        safety::lemma_unrelated(s, t, ids);
    } else {
        lemma_readers(s, id, (b.readers - 1) as nat);
    }
}

// ---- publication, removal, retirement ----

pub proof fn lemma_published(s: LocalState, key: Seq<u8>, op: OpPublishView)
    requires
        safety::local_inv(s),
    ensures
        safety::local_inv(s.published(key, op)),
{
    if s.publish_result(key, op) is Ok {
        let t = s.published(key, op);
        let i0 = op.slot.0 as int;
        let slot = s.objects[key].slots[i0];
        let old_n = slot.replicas.len();
        ops::law_iovs_pass_exactly_if_sound(op.src, None);
        steps::lemma_table_frame(s, t);
        assert forall|k: Seq<u8>, i: int, j: int| #[trigger] safety::has(t, k, i, j) implies (if k == key
            && i == i0 && j >= old_n {
            &&& safety::rep(t, k, i, j).data is External
            &&& safety::rep(t, k, i, j).tier == Tier::External
            &&& !safety::rep(t, k, i, j).misplaced
            &&& safety::rep(t, k, i, j).data->segs == region::segments(op.src)
        } else {
            &&& safety::has(s, k, i, j)
            &&& safety::rep(s, k, i, j) == safety::rep(t, k, i, j)
        }) && s.objects.contains_key(k) && s.objects[k].spec == t.objects[k].spec by {}
        assert forall|k: Seq<u8>| #[trigger]
            t.objects.contains_key(k) implies t.objects[k].slots.len()
            == t.objects[k].spec.slots.len() by {
            assert(s.objects.contains_key(k));
        }
        assert forall|k: Seq<u8>, i: int, j: int| #[trigger] safety::has(t, k, i, j) implies safety::replica_ok(
            t,
            safety::rep(t, k, i, j),
            t.objects[k].spec.slots[i].len,
        ) by {
            if !(k == key && i == i0 && j >= old_n) {
                assert(safety::has(s, k, i, j));
                let x = safety::rep(s, k, i, j);
                assert(safety::replica_ok(s, x, s.objects[k].spec.slots[i].len));
                if x.data is Pinned {
                    assert(t.live(x.data->Pinned_0 as int) == s.live(x.data->Pinned_0 as int));
                }
            }
        }
        assert forall|k: Seq<u8>, i: int, j: int, k2: Seq<u8>, i2: int, j2: int, id: int| #[trigger]
            safety::refers(t, k, i, j, id) && #[trigger] safety::refers(t, k2, i2, j2, id) implies k == k2 && i
            == i2 && j == j2 by {
            assert(safety::has(t, k, i, j) && safety::has(t, k2, i2, j2));
            assert(safety::refers(s, k, i, j, id) && safety::refers(s, k2, i2, j2, id));
        }
        assert forall|x: int| #[trigger] t.active(x) implies safety::run_ok(t, x) by {
            assert(s.active(x));
            steps::lemma_run_frame(s, t, x);
        }
        assert forall|k: Seq<u8>, i: int|
            t.objects.contains_key(k) && 0 <= i
                < t.objects[k].slots.len() implies #[trigger] safety::claim_ok(t, k, i) by {
            assert(s.objects.contains_key(k));
            assert(safety::claim_ok(s, k, i));
            let now = t.objects[k].slots[i];
            if now.writing is Some {
                let x = now.writing->0 as int;
                assert(s.active(x));
                assert(t.active(x));
                assert forall|j: int| 0 <= j < now.replicas.len() implies (
                #[trigger] now.replicas[j]).data is External by {
                    assert(safety::has(t, k, i, j));
                    if !(k == key && i == i0 && j >= old_n) {
                        assert(s.objects[k].slots[i].replicas[j].data is External);
                    }
                }
            }
        }
    }
}

/// Whether the `x`th allocation of an object is that of a replica, and where.
pub proof fn lemma_object_ids(s: LocalState, key: Seq<u8>, n: nat, x: int) -> (at: (int, int))
    requires
        safety::refs_ok(s),
        s.objects.contains_key(key),
        n <= s.objects[key].slots.len(),
        0 <= x < ledger::object_ids(s.objects[key].slots, n).len(),
    ensures
        0 <= at.0 < n,
        safety::refers(s, key, at.0, at.1, ledger::object_ids(s.objects[key].slots, n)[x] as int),
    decreases n,
{
    let slots = s.objects[key].slots;
    let before = ledger::object_ids(slots, (n - 1) as nat);
    if x < before.len() {
        lemma_object_ids(s, key, (n - 1) as nat, x)
    } else {
        let on = |r: LocalReplica| r.data is Pinned;
        let replicas = slots[n - 1].replicas;
        let y = x - before.len();
        steps::lemma_picked(replicas, on, y);
        let j = steps::kept_at(replicas, on, y);
        assert(safety::has(s, key, n - 1, j));
        (n - 1, j)
    }
}

pub proof fn lemma_object_ids_distinct(s: LocalState, key: Seq<u8>, n: nat)
    requires
        safety::refs_ok(s),
        s.objects.contains_key(key),
        n <= s.objects[key].slots.len(),
    ensures
        safety::distinct(ledger::object_ids(s.objects[key].slots, n)),
    decreases n,
{
    if n > 0 {
        let slots = s.objects[key].slots;
        let before = ledger::object_ids(slots, (n - 1) as nat);
        let all = ledger::object_ids(slots, n);
        let replicas = slots[n - 1].replicas;
        let on = |r: LocalReplica| r.data is Pinned;
        lemma_object_ids_distinct(s, key, (n - 1) as nat);
        assert forall|x: int, y: int| 0 <= x < y < all.len() implies #[trigger] all[x]
            != #[trigger] all[y] by {
            if y < before.len() {
                assert(before[x] != before[y]);
            } else {
                let b = y - before.len();
                steps::lemma_picked(replicas, on, b);
                let jb = steps::kept_at(replicas, on, b);
                assert(safety::refers(s, key, n - 1, jb, all[y] as int));
                if x < before.len() {
                    let at = lemma_object_ids(s, key, (n - 1) as nat, x);
                    assert(safety::refers(s, key, at.0, at.1, all[x] as int));
                } else {
                    let a = x - before.len();
                    steps::lemma_picked(replicas, on, a);
                    steps::lemma_picked_order(replicas, on, a, b);
                    assert(safety::refers(s, key, n - 1, steps::kept_at(replicas, on, a), all[x] as int));
                }
            }
        }
    }
}

/// Removing an object keeps the state valid.
pub proof fn lemma_removed(s: LocalState, key: Seq<u8>)
    requires
        safety::local_inv(s),
        s.bufs.len() <= usize::MAX,
    ensures
        safety::local_inv(s.removed(key)),
        s.removed(key).objects == s.objects.remove(key),
        s.removed(key).bufs.len() == s.bufs.len(),
        s.removed(key).runs == s.runs,
        s.removed(key).pools.dom() == s.pools.dom(),
        forall|n: u16| #[trigger]
            s.pools.contains_key(n) ==> s.removed(key).pools[n].pinned.len
                == s.pools[n].pinned.len && s.removed(key).pools[n].pinned.base
                == s.pools[n].pinned.base,
        s.objects.contains_key(key) ==> forall|n: u16| #[trigger]
            s.pools.contains_key(n) ==> s.removed(key).pools[n].fifo == ledger::live_entries(
                s.pools[n].fifo,
                s.objects.remove(key),
            ),
{
    if s.objects.contains_key(key) {
        let slots = s.objects[key].slots;
        let ids = ledger::object_ids(slots, slots.len());
        let m = LocalState { objects: s.objects.remove(key), ..s };
        assert(steps::shrinks(s, m)) by {
            assert forall|k: Seq<u8>| #[trigger]
                m.objects.contains_key(k) implies s.objects.contains_key(k) && steps::object_shrinks(
                s.objects[k],
                m.objects[k],
            ) by {
                steps::lemma_object_same(s.objects[k]);
            }
        }
        lemma_object_ids_distinct(s, key, slots.len());
        assert forall|x: int| 0 <= x < ids.len() implies s.live(#[trigger] ids[x] as int)
            && s.bufs[ids[x] as int]->0.keeper == Keeper::Stored by {
            let at = lemma_object_ids(s, key, slots.len(), x);
            assert(safety::has(s, key, at.0, at.1));
        }
        assert forall|k: Seq<u8>, i: int, j: int, x: int| 0 <= x < ids.len() implies !#[trigger] safety::refers(
            m,
            k,
            i,
            j,
            #[trigger] ids[x] as int,
        ) by {
            if safety::refers(m, k, i, j, ids[x] as int) {
                let at = lemma_object_ids(s, key, slots.len(), x);
                assert(safety::refers(s, k, i, j, ids[x] as int));
            }
        }
        steps::lemma_dropped(s, m, ids);
        let p = m.let_go_all(ids, ids.len());
        let t = p.swept();
        assert(t.pools.dom() =~= p.pools.dom());
        steps::lemma_table_frame(p, t);
        steps::lemma_state_frame(p, t);
        assert forall|n: u16| #[trigger] s.pools.contains_key(n) implies t.pools[n].pinned.len
            == s.pools[n].pinned.len && t.pools[n].pinned.base == s.pools[n].pinned.base
            && t.pools[n].fifo == ledger::live_entries(s.pools[n].fifo, m.objects) by {
            assert(m.pools.contains_key(n));
        }
    } else {
        assert(s.objects.remove(key) =~= s.objects);
    }
}

/// Retiring a region keeps the state valid.
pub proof fn lemma_retired(s: LocalState, id: u64)
    requires
        safety::local_inv(s),
    ensures
        safety::local_inv(s.retired(id)),
{
    let t = s.retired(id);
    let keep = |r: LocalReplica| !r.from_region(id);
    assert(steps::shrinks(s, t)) by {
        assert forall|k: Seq<u8>| #[trigger]
            t.objects.contains_key(k) implies s.objects.contains_key(k) && steps::object_shrinks(
            s.objects[k],
            t.objects[k],
        ) by {
            assert forall|i: int| 0 <= i < s.objects[k].slots.len() implies steps::slot_shrinks(
                s.objects[k].slots[i],
                #[trigger] t.objects[k].slots[i],
            ) by {
                assert(t.objects[k].slots[i].replicas == ledger::picked(
                    s.objects[k].slots[i].replicas,
                    keep,
                ));
            }
        }
    }
    steps::lemma_shrinks(s, t);
    steps::lemma_table_frame(s, t);
}

} // verus!
