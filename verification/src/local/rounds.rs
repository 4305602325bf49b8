//! How a write goes on, from its start to its last slot, and how a backend comes
//! to be, on the requests and answers themselves.
use vstd::prelude::*;

use crate::error::{ErrorKind, ErrorView};
use crate::local::backend;
use crate::local::ledger;
use crate::local::ledger::{LocalSlot, LocalState, RunView, Spot};
use crate::local::safety;
use crate::ops::OpPutView;
use crate::pinned;
use crate::requests;
use crate::text;

verus! {

// ---- the start ----

/// Whether a slot is free: nothing is stored in it, and no write has claimed it.
pub open spec fn is_free(s: LocalState, key: Seq<u8>, i: int) -> bool {
    s.objects.contains_key(key) ==> s.objects[key].slots[i].replicas.len() == 0
        && s.objects[key].slots[i].writing is None
}

/// A write is refused at its start exactly if its request is not sound, or the
/// object is there with another spec; nothing changes then.
pub proof fn law_writes_start_unless_refused(s: LocalState, key: Seq<u8>, op: OpPutView)
    ensures
        s.begun(key, op).1 is Ok <==> op.slots.len() > 0 && requests::all_sound(op) && (
        s.objects.contains_key(key) ==> s.objects[key].spec == op.spec()),
        s.begun(key, op).1 is Err ==> s.begun(key, op).0 == s,
        s.begun(key, op).1 matches Err(e) ==> e.kind == if op.slots.len() > 0
            && requests::all_sound(op) {
            ErrorKind::SpecMismatch
        } else {
            ErrorKind::InvalidInput
        },
{
    requests::law_writes_pass_exactly_if_sound(op);
}

/// A write gets a number that no other write has, and takes every slot of its
/// object that is free and no other; it has no answer yet, and no other object or
/// write, no pool and no allocation changes.
pub proof fn law_writes_claim_what_is_free(
    s: LocalState,
    key: Seq<u8>,
    op: OpPutView,
    i: int,
    other: Seq<u8>,
    w: int,
)
    requires
        s.begun(key, op).1 is Ok,
        s.objects.contains_key(key) ==> s.objects[key].slots.len()
            == s.objects[key].spec.slots.len(),
        s.runs.len() < usize::MAX,
        0 <= i < op.slots.len(),
    ensures
        ({
            let (t, r) = s.begun(key, op);
            let run = r->Ok_0;
            let put = t.runs[run]->0;
            &&& !s.active(run)
            &&& t.active(run)
            &&& put.key == key
            &&& put.spec == op.spec()
            &&& put.results.len() == 0
            &&& put.pending is None
            &&& put.writable.len() == op.slots.len()
            &&& put.writable[i] == is_free(s, key, i)
            &&& t.objects.contains_key(key)
            &&& t.objects[key].spec == op.spec()
            &&& t.objects[key].slots.len() == op.slots.len()
            &&& t.holds(key, i, run as usize) <== is_free(s, key, i)
            &&& !is_free(s, key, i) ==> t.objects[key].slots[i] == s.objects[key].slots[i]
            &&& other != key ==> t.objects.contains_key(other) == s.objects.contains_key(other)
            &&& other != key && s.objects.contains_key(other) ==> t.objects[other]
                == s.objects[other]
            &&& w != run && s.active(w) ==> t.active(w) && t.runs[w] == s.runs[w]
            &&& t.pools == s.pools
            &&& t.bufs == s.bufs
        }),
{
    let run = safety::lemma_next(s.runs, 0);
    assert(s.begun(key, op).1->Ok_0 == run);
    requests::law_objects_are_as_asked(op, i);
}

// ---- the slots ----

/// Whether a write went on from one state to another: what it is stays, its
/// answers stay and more come behind them.
pub open spec fn went_on(r: RunView, q: RunView) -> bool {
    &&& q.key == r.key
    &&& q.spec == r.spec
    &&& q.writable == r.writable
    &&& r.results.len() <= q.results.len()
    &&& q.results.take(r.results.len() as int) == r.results
}

/// A write goes on to the next slot that it can fill. Every slot before that is
/// refused, one that it has not claimed because it is written already; it waits
/// for a slot that it has claimed, or has an answer for every slot. No other write
/// changes.
pub proof fn law_writes_go_on_slot_by_slot(
    s: LocalState,
    order: Seq<u16>,
    run: int,
    j: int,
    w: int,
)
    requires
        s.active(run),
        s.runs[run]->0.pending is None,
        s.runs[run]->0.results.len() <= s.runs[run]->0.spec.slots.len(),
    ensures
        ({
            let t = s.advanced(order, run);
            let r = s.runs[run]->0;
            let q = t.runs[run]->0;
            &&& t.active(run)
            &&& went_on(r, q)
            &&& q.pending is None ==> q.results.len() == r.spec.slots.len()
            &&& q.pending is Some ==> q.results.len() < r.spec.slots.len()
                && r.writable[q.results.len() as int]
            &&& r.results.len() <= j < q.results.len() ==> q.results[j] is Err
            &&& r.results.len() <= j < q.results.len() && !r.writable[j] ==> (q.results[j]->Err_0).kind
                == ErrorKind::AlreadyExists
            &&& w != run && s.active(w) ==> t.active(w) && t.runs[w] == s.runs[w]
            &&& t.runs.len() == s.runs.len()
        }),
    decreases s.runs[run]->0.spec.slots.len() - s.runs[run]->0.results.len(), 1int,
{
    let r = s.runs[run]->0;
    let i = r.results.len();
    assert(r.results.take(i as int) =~= r.results);
    if i < r.spec.slots.len() {
        if !r.writable[i as int] {
            let a = s.answered(run, Err(ledger::already_written(i)));
            lemma_on(s, a, order, run, j, w, Err(ledger::already_written(i)));
        } else {
            let spec = r.spec.slots[i as int];
            let (p, placed) = s.placed(order, spec.placement, spec.len as nat, run as usize, r.key);
            let q = LocalState { runs: s.runs, ..p };
            match placed {
                Ok(spots) => {},
                Err(e) => {
                    let m = q.unclaimed(r.key, i as int, run as usize);
                    let x = Err(e.with_context("slot"@, text::decimal(i)));
                    assert(m.runs == s.runs);
                    let a = m.answered(run, x);
                    lemma_on(m, a, order, run, j, w, x);
                },
            }
        }
    }
}

/// One answer more, and then on.
proof fn lemma_on(
    s: LocalState,
    a: LocalState,
    order: Seq<u16>,
    run: int,
    j: int,
    w: int,
    x: Result<(), ErrorView>,
)
    requires
        s.active(run),
        s.runs[run]->0.pending is None,
        s.runs[run]->0.results.len() < s.runs[run]->0.spec.slots.len(),
        a == s.answered(run, x),
        x is Err,
        !s.runs[run]->0.writable[s.runs[run]->0.results.len() as int] ==> (x->Err_0).kind
            == ErrorKind::AlreadyExists,
    ensures
        ({
            let t = a.advanced(order, run);
            let r = s.runs[run]->0;
            let q = t.runs[run]->0;
            &&& t.active(run)
            &&& went_on(r, q)
            &&& q.pending is None ==> q.results.len() == r.spec.slots.len()
            &&& q.pending is Some ==> q.results.len() < r.spec.slots.len()
                && r.writable[q.results.len() as int]
            &&& r.results.len() <= j < q.results.len() ==> q.results[j] is Err
            &&& r.results.len() <= j < q.results.len() && !r.writable[j] ==> (q.results[j]->Err_0).kind
                == ErrorKind::AlreadyExists
            &&& w != run && s.active(w) ==> t.active(w) && t.runs[w] == s.runs[w]
            &&& t.runs.len() == s.runs.len()
        }),
    decreases s.runs[run]->0.spec.slots.len() - s.runs[run]->0.results.len(), 0int,
{
    let r = s.runs[run]->0;
    let b = a.runs[run]->0;
    law_writes_go_on_slot_by_slot(a, order, run, j, w);
    let q = a.advanced(order, run).runs[run]->0;
    assert(q.results.take(b.results.len() as int) == b.results);
    assert(q.results.take(r.results.len() as int) =~= r.results) by {
        assert forall|y: int| 0 <= y < r.results.len() implies q.results[y] == r.results[y] by {
            assert(q.results.take(b.results.len() as int)[y] == b.results[y]);
        }
    }
    let n = r.results.len() as int;
    assert(q.results.take(b.results.len() as int)[n] == b.results[n]);
    assert(q.results[n] == x);
}

/// The end of a copy answers the slot that it was for: well if the copy ended well
/// and the object is still there, with the copy's own error if it failed, and as
/// not found if the object was removed meanwhile. The write waits no longer and
/// has no claim on the slot any more, and no other write changes.
pub proof fn law_copies_answer_their_slot(
    s: LocalState,
    run: int,
    outcome: Result<(), ErrorView>,
    w: int,
)
    requires
        safety::local_inv(s),
        s.active(run),
        s.runs[run]->0.pending is Some,
    ensures
        ({
            let t = s.copied(run, outcome);
            let r = s.runs[run]->0;
            let q = t.runs[run]->0;
            let i = r.results.len() as int;
            let here = s.holds(r.key, i, run as usize);
            &&& t.active(run)
            &&& went_on(r, q)
            &&& q.results.len() == i + 1
            &&& q.pending is None
            &&& q.results[i] is Ok <==> outcome is Ok && here
            &&& outcome matches Err(e) ==> (q.results[i]->Err_0).kind == e.kind
                && (q.results[i]->Err_0).status == e.status
            &&& outcome is Ok && !here ==> (q.results[i]->Err_0).kind == ErrorKind::NotFound
            &&& !t.holds(r.key, i, run as usize)
            &&& w != run && s.active(w) ==> t.active(w) && t.runs[w] == s.runs[w]
        }),
{
    let r = s.runs[run]->0;
    let i = r.results.len() as int;
    let spots = r.pending->0;
    let ids = ledger::spot_ids(spots);
    lemma_let_go_runs(s, ids, ids.len());
    let after = LocalSlot {
        replicas: s.objects[r.key].slots[i].replicas + ledger::spot_replicas(spots),
        writing: None,
    };
    let a = s.with_slot(r.key, i, after);
    lemma_kept_runs(a, spots, spots.len());
    lemma_queued_runs(a.kept(spots, spots.len()), spots, r.key, i as nat, spots.len());
    let q = s.copied(run, outcome).runs[run]->0;
    assert(q.results.take(i) =~= r.results);
}

/// A write that gives up a slot has no claim on it any more; what is stored, the
/// claims of others and its claims on other slots stay.
pub proof fn law_claims_are_given_up_one_by_one(
    s: LocalState,
    key: Seq<u8>,
    i: int,
    run: usize,
    k: Seq<u8>,
    j: int,
    w: usize,
)
    ensures
        ({
            let t = s.unclaimed(key, i, run);
            &&& !t.holds(key, i, run)
            &&& k != key || j != i || w != run ==> t.holds(k, j, w) == s.holds(k, j, w)
            &&& t.objects.dom() == s.objects.dom()
            &&& s.objects.contains_key(k) && 0 <= j < s.objects[k].slots.len()
                ==> t.objects[k].slots[j].replicas == s.objects[k].slots[j].replicas
            &&& t.pools == s.pools
            &&& t.bufs == s.bufs
            &&& t.runs == s.runs
        }),
{
    assert(s.unclaimed(key, i, run).objects.dom() =~= s.objects.dom());
}

proof fn lemma_let_go_runs(s: LocalState, ids: Seq<usize>, n: nat)
    ensures
        s.let_go_all(ids, n).runs == s.runs,
        s.let_go_all(ids, n).objects == s.objects,
    decreases n,
{
    if n > 0 {
        lemma_let_go_runs(s, ids, (n - 1) as nat);
    }
}

proof fn lemma_kept_runs(s: LocalState, spots: Seq<Spot>, n: nat)
    ensures
        s.kept(spots, n).runs == s.runs,
        s.kept(spots, n).objects == s.objects,
    decreases n,
{
    if n > 0 {
        lemma_kept_runs(s, spots, (n - 1) as nat);
    }
}

proof fn lemma_queued_runs(s: LocalState, spots: Seq<Spot>, key: Seq<u8>, i: nat, n: nat)
    ensures
        s.queued(spots, key, i, n).runs == s.runs,
        s.queued(spots, key, i, n).objects == s.objects,
    decreases n,
{
    if n > 0 {
        lemma_queued_runs(s, spots, key, i, (n - 1) as nat);
    }
}

// ---- how a backend comes to be ----

proof fn lemma_numa_refusal(dram: Seq<(u16, usize)>, known: Seq<u16>, n: nat)
    requires
        n <= dram.len(),
    ensures
        backend::numa_refusal(dram, known, n) is None <==> forall|i: int|
            0 <= i < n ==> known.contains((#[trigger] dram[i]).0),
        backend::numa_refusal(dram, known, n) matches Some(e) ==> e.kind
            == ErrorKind::InvalidInput,
    decreases n,
{
    if n > 0 {
        lemma_numa_refusal(dram, known, (n - 1) as nat);
    }
}

/// A backend comes to be exactly if the machine has every NUMA node that memory is
/// reserved on.
pub proof fn law_reservations_need_known_nodes(dram: Seq<(u16, usize)>, known: Seq<u16>)
    ensures
        backend::numa_refusal(dram, known, dram.len()) is None <==> forall|i: int|
            0 <= i < dram.len() ==> known.contains((#[trigger] dram[i]).0),
        backend::numa_refusal(dram, known, dram.len()) matches Some(e) ==> e.kind
            == ErrorKind::InvalidInput,
{
    lemma_numa_refusal(dram, known, dram.len());
}

/// Whether the reservation at `i` is the last of the first `n` on a node.
pub open spec fn reserved_last(dram: Seq<(u16, usize)>, n: nat, i: int, numa: u16) -> bool {
    &&& 0 <= i < n
    &&& dram[i].0 == numa
    &&& forall|j: int| i < j < n ==> (#[trigger] dram[j]).0 != numa
}

/// A node has a pool exactly if memory is reserved on it: the memory mapped for
/// its last reservation, at least as much as was asked for, and all of it free.
pub proof fn law_pools_are_their_last_reservation(
    dram: Seq<(u16, usize)>,
    bases: Seq<u64>,
    n: nat,
    numa: u16,
) -> (i: int)
    requires
        n <= dram.len(),
        bases.len() == dram.len(),
        forall|i: int|
            0 <= i < dram.len() ==> pinned::rounded((#[trigger] dram[i]).1 as nat) <= usize::MAX,
    ensures
        ({
            let pools = backend::fresh_pools(dram, bases, n);
            &&& pools.contains_key(numa) <==> exists|i: int|
                0 <= i < n && (#[trigger] dram[i]).0 == numa
            &&& pools.contains_key(numa) ==> {
                let p = pools[numa];
                &&& reserved_last(dram, n, i, numa)
                &&& p.pinned.numa == numa
                &&& p.pinned.base == bases[i]
                &&& dram[i].1 <= p.pinned.len
                &&& pinned::free_total(p.pinned.free) == p.pinned.len
                &&& p.fifo.len() == 0
            }
        }),
    decreases n,
{
    if n == 0 {
        0
    } else if dram[n - 1].0 == numa {
        let bytes = dram[n - 1].1;
        let p = backend::fresh_pools(dram, bases, n)[numa];
        pinned::law_lengths_are_rounded_up_to_the_next_multiple(bytes as nat, 0);
        let free = p.pinned.free;
        if bytes > 0 {
            assert(free.drop_last() =~= Seq::empty());
            assert(pinned::free_total(free.drop_last()) == 0);
        }
        n - 1
    } else {
        let i = law_pools_are_their_last_reservation(dram, bases, (n - 1) as nat, numa);
        i
    }
}

} // verus!
