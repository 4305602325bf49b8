//! What a `put` may and may not do to the state.
use vstd::prelude::*;

use crate::ops;
use crate::ops::OpPutView;
use crate::services::accounting;
use crate::services::evict;
use crate::services::model;
use crate::services::model::{DataView, ObjectView, ReplicaView, StateView};
use crate::types::{Device, PlacementView, Retention};

verus! {

/// Whether a slot lost nothing but store-owned replicas.
pub open spec fn slot_weakens(before: Seq<ReplicaView>, after: Seq<ReplicaView>) -> bool {
    &&& forall|j: int| 0 <= j < after.len() ==> before.contains(#[trigger] after[j])
    &&& forall|j: int|
        0 <= j < before.len() && (#[trigger] before[j]).data is External ==> after.contains(
            before[j],
        )
}

pub open spec fn object_weakens(before: ObjectView, after: ObjectView) -> bool {
    &&& after.spec == before.spec
    &&& after.slots.len() == before.slots.len()
    &&& forall|i: int|
        0 <= i < before.slots.len() ==> slot_weakens(before.slots[i], #[trigger] after.slots[i])
}

/// Whether an object has no bytes outside the store.
pub open spec fn no_external(obj: ObjectView) -> bool {
    forall|i: int, j: int|
        0 <= i < obj.slots.len() && 0 <= j < obj.slots[i].len()
            ==> !((#[trigger] obj.slots[i][j]).data is External)
}

/// Whether every object but `key` is as it was or, where it may be evicted, has
/// lost store-owned replicas; one that lost its last replica may be gone.
pub open spec fn others_weaken(s: StateView, t: StateView, key: Seq<u8>) -> bool {
    &&& forall|k: Seq<u8>| #[trigger]
        t.objects.contains_key(k) && k != key ==> s.objects.contains_key(k) && object_weakens(
            s.objects[k],
            t.objects[k],
        )
    &&& forall|k: Seq<u8>| #[trigger]
        s.objects.contains_key(k) && k != key && s.objects[k].spec.retention != Retention::Cache
            ==> t.objects.contains_key(k) && t.objects[k] == s.objects[k]
    &&& forall|k: Seq<u8>| #[trigger]
        s.objects.contains_key(k) && k != key && !t.objects.contains_key(k) ==> no_external(
            s.objects[k],
        )
}

/// Whether the same devices are served, with the same limits.
pub open spec fn same_limits(s: StateView, t: StateView) -> bool {
    &&& t.pools.dom() == s.pools.dom()
    &&& forall|d: Device| #[trigger]
        s.pools.contains_key(d) ==> t.pools[d].capacity == s.pools[d].capacity
}

pub proof fn lemma_others_weaken_transitive(
    s: StateView,
    t: StateView,
    u: StateView,
    key: Seq<u8>,
)
    requires
        others_weaken(s, t, key),
        others_weaken(t, u, key),
    ensures
        others_weaken(s, u, key),
{
    assert forall|k: Seq<u8>| #[trigger]
        u.objects.contains_key(k) && k != key implies s.objects.contains_key(k) && object_weakens(
        s.objects[k],
        u.objects[k],
    ) by {
        assert(t.objects.contains_key(k));
        let a = s.objects[k];
        let b = t.objects[k];
        let c = u.objects[k];
        assert forall|i: int| 0 <= i < a.slots.len() implies slot_weakens(
            a.slots[i],
            #[trigger] c.slots[i],
        ) by {
            assert(slot_weakens(a.slots[i], b.slots[i]));
            assert forall|j: int| 0 <= j < c.slots[i].len() implies a.slots[i].contains(
                #[trigger] c.slots[i][j],
            ) by {
                let x = choose|x: int|
                    0 <= x < b.slots[i].len() && b.slots[i][x] == c.slots[i][j];
                assert(b.slots[i][x] == c.slots[i][j]);
            }
            assert forall|j: int|
                0 <= j < a.slots[i].len() && (#[trigger] a.slots[i][j]).data is External implies c.slots[i].contains(
            a.slots[i][j]) by {
                let x = choose|x: int|
                    0 <= x < b.slots[i].len() && b.slots[i][x] == a.slots[i][j];
                assert(b.slots[i][x].data is External);
            }
        }
    }
    assert forall|k: Seq<u8>| #[trigger]
        s.objects.contains_key(k) && k != key && s.objects[k].spec.retention
            != Retention::Cache implies u.objects.contains_key(k) && u.objects[k]
        == s.objects[k] by {
        assert(t.objects.contains_key(k));
    }
    assert forall|k: Seq<u8>| #[trigger]
        s.objects.contains_key(k) && k != key && !u.objects.contains_key(k) implies no_external(
        s.objects[k],
    ) by {
        if t.objects.contains_key(k) {
            let a = s.objects[k];
            let b = t.objects[k];
            assert forall|i: int, j: int|
                0 <= i < a.slots.len() && 0 <= j < a.slots[i].len() implies !((
            #[trigger] a.slots[i][j]).data is External) by {
                if a.slots[i][j].data is External {
                    assert(slot_weakens(a.slots[i], b.slots[i]));
                    let x = choose|x: int|
                        0 <= x < b.slots[i].len() && b.slots[i][x] == a.slots[i][j];
                    assert(b.slots[i][x].data is External);
                }
            }
        }
    }
}

proof fn lemma_evicts_weakens(s: StateView, t: StateView, d: Device, key: Seq<u8>)
    requires
        evict::only_evicts(s, t, d, key),
    ensures
        others_weaken(s, t, key),
        same_limits(s, t),
{
    assert forall|k: Seq<u8>| #[trigger]
        t.objects.contains_key(k) && k != key implies s.objects.contains_key(k) && object_weakens(
        s.objects[k],
        t.objects[k],
    ) by {
        let a = s.objects[k];
        let b = t.objects[k];
        assert forall|i: int| 0 <= i < a.slots.len() implies slot_weakens(
            a.slots[i],
            #[trigger] b.slots[i],
        ) by {
            assert(evict::slot_loses(a.slots[i], b.slots[i], d));
        }
    }
    assert forall|k: Seq<u8>| #[trigger]
        s.objects.contains_key(k) && k != key && !t.objects.contains_key(k) implies no_external(
        s.objects[k],
    ) by {
        let a = s.objects[k];
        assert forall|i: int, j: int| 0 <= i < a.slots.len() && 0 <= j < a.slots[i].len() implies !((
        #[trigger] a.slots[i][j]).data is External) by {
            assert(a.slots[i][j].owned_on(d));
        }
    }
}

/// What holds of a search for targets: the state stays valid, the object being
/// written is not touched, no pool grows, and every target has room.
pub open spec fn search_ok(
    s: StateView,
    cands: Seq<(Device, bool)>,
    each: bool,
    len: u64,
    key: Seq<u8>,
    n: nat,
) -> bool {
    let r = s.searched(cands, each, len, key, n);
    &&& r.state.inv()
    &&& same_limits(s, r.state)
    &&& others_weaken(s, r.state, key)
    &&& r.state.objects.contains_key(key)
    &&& r.state.objects[key] == s.objects[key]
    &&& forall|d: Device| #[trigger]
        s.pools.contains_key(d) ==> r.state.pools[d].used <= s.pools[d].used
    &&& r.targets.len() <= n
    &&& !each ==> r.targets.len() <= 1
    &&& !each && r.targets.len() > 0 ==> r.done
    &&& each && r.error is None ==> r.targets == cands.take(n as int)
    &&& forall|j: int|
        0 <= j < r.targets.len() ==> {
            let d = (#[trigger] r.targets[j]).0;
            &&& s.pools.contains_key(d)
            &&& s.pools[d].capacity is Some ==> r.state.pools[d].used + model::aimed(r.targets, d)
                * len as nat <= s.pools[d].capacity->0
        }
}

pub proof fn lemma_searched(
    s: StateView,
    cands: Seq<(Device, bool)>,
    each: bool,
    len: u64,
    key: Seq<u8>,
    n: nat,
)
    requires
        s.inv(),
        s.objects.contains_key(key),
        n <= cands.len(),
    ensures
        search_ok(s, cands, each, len, key, n),
    decreases n,
{
    if n == 0 {
        assert(cands.take(0) =~= Seq::<(Device, bool)>::empty());
    } else {
        lemma_searched(s, cands, each, len, key, (n - 1) as nat);
        let p = s.searched(cands, each, len, key, (n - 1) as nat);
        let r = s.searched(cands, each, len, key, n);
        let d = cands[n - 1].0;
        if !p.done && p.state.pools.contains_key(d) {
            let need = (1 + model::aimed(p.targets, d)) * len as nat;
            evict::law_make_room_only_evicts(p.state, d, need, key);
            lemma_evicts_weakens(p.state, r.state, d, key);
            lemma_others_weaken_transitive(s, p.state, r.state, key);
            assert forall|e: Device| #[trigger]
                s.pools.contains_key(e) implies r.state.pools[e].used <= s.pools[e].used by {
                assert(p.state.pools.contains_key(e));
                if e != d {
                    assert(r.state.pools[e] == p.state.pools[e]);
                }
            }
            assert forall|e: Device| #[trigger]
                s.pools.contains_key(e) implies r.state.pools[e].capacity
                == s.pools[e].capacity by {
                assert(p.state.pools.contains_key(e));
            }
            assert forall|j: int| 0 <= j < r.targets.len() implies {
                let e = (#[trigger] r.targets[j]).0;
                &&& s.pools.contains_key(e)
                &&& s.pools[e].capacity is Some ==> r.state.pools[e].used + model::aimed(
                    r.targets,
                    e,
                ) * len as nat <= s.pools[e].capacity->0
            } by {
                let e = r.targets[j].0;
                let fits = r.targets.len() > p.targets.len();
                if fits {
                    assert(r.targets.drop_last() =~= p.targets);
                }
                if j < p.targets.len() {
                    assert(p.targets[j].0 == e);
                    assert(p.state.pools.contains_key(e));
                    if e != d {
                        assert(r.state.pools[e] == p.state.pools[e]);
                    } else if !fits {
                        assert(r.targets == p.targets);
                    }
                } else {
                    assert(e == d);
                }
            }
        }
        if each && r.error is None {
            assert(p.error is None);
            assert(!p.done) by {
                lemma_each_done(s, cands, len, key, (n - 1) as nat);
            }
            assert(r.targets == cands.take(n - 1).push(cands[n - 1]));
            assert(cands.take(n as int) =~= cands.take(n - 1).push(cands[n - 1]));
        }
    }
}

proof fn lemma_each_done(
    s: StateView,
    cands: Seq<(Device, bool)>,
    len: u64,
    key: Seq<u8>,
    n: nat,
)
    ensures
        s.searched(cands, true, len, key, n).done <==> s.searched(
            cands,
            true,
            len,
            key,
            n,
        ).error is Some,
    decreases n,
{
    if n > 0 {
        lemma_each_done(s, cands, len, key, (n - 1) as nat);
    }
}

/// The number of replicas that a placement asks for.
pub open spec fn width(placement: PlacementView) -> nat {
    match placement {
        PlacementView::Each(ds) => ds.len(),
        _ => 1,
    }
}

pub proof fn lemma_copies_len(targets: Seq<(Device, bool)>, bytes: Seq<u8>, d: Device, n: nat)
    requires
        n <= targets.len(),
    ensures
        model::owned_len(model::copies(targets.take(n as int), bytes), d) <= n * bytes.len(),
    decreases n,
{
    if n > 0 {
        lemma_copies_len(targets, bytes, d, (n - 1) as nat);
        accounting::lemma_copies_push(targets, bytes, n - 1, d);
        assert(n * bytes.len() == (n - 1) * bytes.len() + bytes.len()) by (nonlinear_arith)
            requires
                n > 0,
        ;
    }
}

/// Charging adds to each pool what the copies take up there.
pub proof fn lemma_charged_all(
    s: StateView,
    targets: Seq<(Device, bool)>,
    key: Seq<u8>,
    slot: nat,
    len: u64,
    bytes: Seq<u8>,
    n: nat,
)
    requires
        n <= targets.len(),
        bytes.len() == len,
        forall|j: int| 0 <= j < targets.len() ==> s.pools.contains_key((#[trigger] targets[j]).0),
    ensures
        ({
            let t = s.charged_all(targets, key, slot, len, n);
            &&& t.objects == s.objects
            &&& same_limits(s, t)
            &&& forall|d: Device| #[trigger]
                s.pools.contains_key(d) ==> t.pools[d].used == s.pools[d].used + model::owned_len(
                    model::copies(targets.take(n as int), bytes),
                    d,
                )
        }),
    decreases n,
{
    if n == 0 {
        assert(model::copies(targets.take(0), bytes) =~= Seq::empty());
    } else {
        lemma_charged_all(s, targets, key, slot, len, bytes, (n - 1) as nat);
        let p = s.charged_all(targets, key, slot, len, (n - 1) as nat);
        let t = s.charged_all(targets, key, slot, len, n);
        assert(s.pools.contains_key(targets[n - 1].0));
        assert(t.pools.dom() =~= s.pools.dom());
        assert forall|d: Device| #[trigger] s.pools.contains_key(d) implies t.pools[d].used
            == s.pools[d].used + model::owned_len(model::copies(targets.take(n as int), bytes), d) by {
            accounting::lemma_copies_push(targets, bytes, n - 1, d);
            assert(p.pools[d].used == s.pools[d].used + model::owned_len(
                model::copies(targets.take(n - 1), bytes),
                d,
            ));
        }
    }
}

/// What placing one empty slot does: the state stays valid, only that slot of
/// that object is written, with the bytes given, and no pool grows by more
/// than the replicas asked for.
pub open spec fn place_ok(
    s: StateView,
    order: Seq<Device>,
    key: Seq<u8>,
    i: nat,
    placement: PlacementView,
    bytes: Seq<u8>,
    len: u64,
) -> bool {
    let (t, r) = s.placed(order, key, i, placement, bytes, len);
    &&& t.inv()
    &&& same_limits(s, t)
    &&& others_weaken(s, t, key)
    &&& t.objects.contains_key(key)
    &&& t.objects[key].spec == s.objects[key].spec
    &&& t.objects[key].slots == s.objects[key].slots.update(
        i as int,
        t.objects[key].slots[i as int],
    )
    &&& r is Err ==> t.objects[key] == s.objects[key]
    &&& r is Ok ==> t.objects[key].slots[i as int].len() > 0
    &&& forall|j: int|
        0 <= j < t.objects[key].slots[i as int].len() ==> (
        #[trigger] t.objects[key].slots[i as int][j]).data == DataView::Owned(bytes)
    &&& forall|d: Device| #[trigger]
        s.pools.contains_key(d) ==> t.pools[d].used <= s.pools[d].used + width(placement)
            * len as nat
}

pub proof fn lemma_placed(
    s: StateView,
    order: Seq<Device>,
    key: Seq<u8>,
    i: nat,
    placement: PlacementView,
    bytes: Seq<u8>,
    len: u64,
)
    requires
        s.inv(),
        s.objects.contains_key(key),
        i < s.objects[key].slots.len(),
        s.objects[key].slots[i as int].len() == 0,
        s.objects[key].spec.slots[i as int].len == len,
        bytes.len() == len,
    ensures
        place_ok(s, order, key, i, placement, bytes, len),
{
    let each = placement is Each;
    let cands = model::candidates(placement, order);
    lemma_searched(s, cands, each, len, key, cands.len());
    let r = s.searched(cands, each, len, key, cands.len());
    let (t, result) = s.placed(order, key, i, placement, bytes, len);
    let obj = r.state.objects[key];
    assert(obj == s.objects[key]);
    if result is Ok {
        let m = r.state.landed(key, i, r.targets, bytes);
        let reps = model::copies(r.targets, bytes);
        assert(obj.slots[i as int] + reps =~= reps);
        let slots = obj.slots.update(i as int, reps);
        let after = ObjectView { slots, ..obj };
        assert(m.objects == r.state.objects.insert(key, after));
        assert forall|j: int| 0 <= j < r.targets.len() implies m.pools.contains_key(
            (#[trigger] r.targets[j]).0,
        ) by {}
        lemma_charged_all(m, r.targets, key, i, len, bytes, r.targets.len());
        assert(r.targets.take(r.targets.len() as int) =~= r.targets);
        assert(model::slot_ok(reps, len, s.pools.dom())) by {
            assert forall|j: int| 0 <= j < reps.len() implies s.pools.contains_key(
                (#[trigger] reps[j]).device,
            ) by {
                assert(r.targets[j].0 == reps[j].device);
            }
        }
        assert(model::object_ok(after, s.pools.dom())) by {
            assert forall|j: int| 0 <= j < slots.len() implies model::slot_ok(
                #[trigger] slots[j],
                obj.spec.slots[j].len,
                s.pools.dom(),
            ) by {
                assert(model::slot_ok(obj.slots[j], obj.spec.slots[j].len, s.pools.dom()));
            }
        }
        assert(t.inv()) by {
            assert forall|k: Seq<u8>| #[trigger] t.objects.contains_key(k) implies model::object_ok(
                t.objects[k],
                t.pools.dom(),
            ) by {
                assert(r.state.objects.contains_key(k));
            }
            assert forall|d: Device| #[trigger] t.pools.contains_key(d) implies t.pools[d].used
                == model::held(t.objects, d) by {
                assert(r.state.pools.contains_key(d));
                assert(m.pools.contains_key(d));
                accounting::lemma_held_insert(r.state.objects, d, key, after);
                accounting::lemma_slots_update(obj.slots, i as int, reps, d);
                assert(model::owned_len(obj.slots[i as int], d) == 0);
            }
        }
        assert(same_limits(s, t)) by {
            assert forall|d: Device| #[trigger] s.pools.contains_key(d) implies t.pools[d].capacity
                == s.pools[d].capacity by {
                assert(m.pools.contains_key(d));
            }
        }
        assert(others_weaken(s, t, key)) by {
            assert forall|k: Seq<u8>| #[trigger]
                t.objects.contains_key(k) && k != key implies s.objects.contains_key(k)
                && object_weakens(s.objects[k], t.objects[k]) by {
                assert(r.state.objects.contains_key(k));
            }
            assert forall|k: Seq<u8>| #[trigger]
                s.objects.contains_key(k) && k != key && s.objects[k].spec.retention
                    != Retention::Cache implies t.objects.contains_key(k) && t.objects[k]
                == s.objects[k] by {
                assert(r.state.objects.contains_key(k));
            }
            assert forall|k: Seq<u8>| #[trigger]
                s.objects.contains_key(k) && k != key && !t.objects.contains_key(
                    k,
                ) implies no_external(s.objects[k]) by {
                assert(!r.state.objects.contains_key(k));
            }
        }
        assert forall|d: Device| #[trigger] s.pools.contains_key(d) implies t.pools[d].used
            <= s.pools[d].used + width(placement) * len as nat by {
            assert(m.pools.contains_key(d));
            lemma_copies_len(r.targets, bytes, d, r.targets.len());
            assert(r.targets.len() <= width(placement));
            let a = r.targets.len();
            let b = width(placement);
            assert(a * len <= b * len) by (nonlinear_arith)
                requires
                    a <= b,
            ;
        }
        assert(t.objects[key].slots[i as int] == reps);
    } else {
        assert(t.objects[key].slots =~= s.objects[key].slots.update(
            i as int,
            t.objects[key].slots[i as int],
        ));
        assert(width(placement) * len as nat >= 0) by (nonlinear_arith);
    }
}

/// The most that a request can add to any one pool with its first `n` slots.
pub open spec fn demand(op: OpPutView, n: nat) -> nat
    decreases n,
{
    if n == 0 {
        0
    } else {
        demand(op, (n - 1) as nat) + width(op.slots[n - 1].spec.placement)
            * op.slots[n - 1].spec.len as nat
    }
}

/// Whether the count of used bytes stays within its type whatever a request
/// adds.
pub open spec fn countable(s: StateView, op: OpPutView) -> bool {
    forall|d: Device| #[trigger]
        s.pools.contains_key(d) ==> s.pools[d].used + demand(op, op.slots.len()) <= u64::MAX
}

pub proof fn lemma_demand_grows(op: OpPutView, n: nat, m: nat)
    requires
        n <= m,
    ensures
        demand(op, n) <= demand(op, m),
    decreases m,
{
    if n < m {
        lemma_demand_grows(op, n, (m - 1) as nat);
        let w = width(op.slots[m - 1].spec.placement);
        let l = op.slots[m - 1].spec.len as nat;
        assert(w * l >= 0) by (nonlinear_arith);
    }
}

/// Whether the data is what the slots of a request are to hold.
pub open spec fn data_fits(op: OpPutView, data: Seq<Seq<u8>>) -> bool {
    &&& data.len() == op.slots.len()
    &&& forall|i: int| 0 <= i < data.len() ==> (#[trigger] data[i]).len() == op.slots[i].spec.len
}

/// What the first `n` slots of a `put` do.
pub open spec fn put_ok(
    s: StateView,
    order: Seq<Device>,
    key: Seq<u8>,
    op: OpPutView,
    data: Seq<Seq<u8>>,
    n: nat,
) -> bool {
    let (t, results) = s.put_slots(order, key, op, data, n);
    let start = s.reserved(key, op.spec()).objects[key];
    &&& t.inv()
    &&& same_limits(s, t)
    &&& others_weaken(s, t, key)
    &&& results.len() == n
    &&& t.objects.contains_key(key)
    &&& t.objects[key].spec == op.spec()
    &&& t.objects[key].slots.len() == op.slots.len()
    &&& forall|i: int|
        0 <= i < op.slots.len() ==> {
            let slot = #[trigger] t.objects[key].slots[i];
            &&& i >= n || !s.writable(key, i as nat) || results[i] is Err ==> slot
                == start.slots[i]
            &&& i < n && s.writable(key, i as nat) && results[i] is Ok ==> slot.len() > 0
                && forall|j: int|
                0 <= j < slot.len() ==> (#[trigger] slot[j]).data == DataView::Owned(data[i])
            &&& i < n && !s.writable(key, i as nat) ==> results[i] is Err
        }
    &&& forall|d: Device| #[trigger]
        s.pools.contains_key(d) ==> t.pools[d].used <= s.pools[d].used + demand(op, n)
}

pub proof fn lemma_reserved(s: StateView, key: Seq<u8>, op: OpPutView)
    requires
        s.inv(),
        s.objects.contains_key(key) ==> s.objects[key].spec == op.spec(),
    ensures
        ({
            let t = s.reserved(key, op.spec());
            &&& t.inv()
            &&& t.pools == s.pools
            &&& t.objects.contains_key(key)
            &&& t.objects[key].spec == op.spec()
            &&& t.objects[key].slots.len() == op.slots.len()
            &&& others_weaken(s, t, key)
            &&& forall|i: int|
                0 <= i < op.slots.len() && s.writable(key, i as nat) ==> (
                #[trigger] t.objects[key].slots[i]).len() == 0
        }),
{
    let t = s.reserved(key, op.spec());
    if !s.objects.contains_key(key) {
        let obj = t.objects[key];
        assert forall|d: Device| #[trigger] t.pools.contains_key(d) implies t.pools[d].used == model::held(
            t.objects,
            d,
        ) by {
            accounting::lemma_held_insert(s.objects, d, key, obj);
            accounting::lemma_empty_slots(obj.slots, d);
        }
        assert(t.objects.dom() =~= s.objects.dom().insert(key));
        assert forall|k: Seq<u8>| #[trigger] t.objects.contains_key(k) implies model::object_ok(
            t.objects[k],
            t.pools.dom(),
        ) by {
            if k != key {
                assert(s.objects.contains_key(k));
            }
        }
    } else {
        assert(model::object_ok(s.objects[key], s.pools.dom()));
    }
}

pub proof fn lemma_put_slots(
    s: StateView,
    order: Seq<Device>,
    key: Seq<u8>,
    op: OpPutView,
    data: Seq<Seq<u8>>,
    n: nat,
)
    requires
        s.inv(),
        data_fits(op, data),
        s.objects.contains_key(key) ==> s.objects[key].spec == op.spec(),
        n <= op.slots.len(),
    ensures
        put_ok(s, order, key, op, data, n),
    decreases n,
{
    lemma_reserved(s, key, op);
    if n > 0 {
        let i = (n - 1) as nat;
        lemma_put_slots(s, order, key, op, data, i);
        let (p, results0) = s.put_slots(order, key, op, data, i);
        let (t, results) = s.put_slots(order, key, op, data, n);
        let start = s.reserved(key, op.spec()).objects[key];
        let w = width(op.slots[n - 1].spec.placement);
        let l = op.slots[n - 1].spec.len as nat;
        assert(w * l >= 0) by (nonlinear_arith);
        if s.writable(key, i) {
            let spec = op.slots[i as int].spec;
            assert(p.objects[key].slots[i as int] == start.slots[i as int]);
            assert(op.spec().slots[i as int] == spec);
            lemma_placed(p, order, key, i, spec.placement, data[i as int], spec.len);
            lemma_others_weaken_transitive(s, p, t, key);
            assert forall|j: int| 0 <= j < op.slots.len() implies {
                let slot = #[trigger] t.objects[key].slots[j];
                &&& j >= n || !s.writable(key, j as nat) || results[j] is Err ==> slot
                    == start.slots[j]
                &&& j < n && s.writable(key, j as nat) && results[j] is Ok ==> slot.len() > 0
                    && forall|x: int|
                    0 <= x < slot.len() ==> (#[trigger] slot[x]).data == DataView::Owned(data[j])
                &&& j < n && !s.writable(key, j as nat) ==> results[j] is Err
            } by {
                let before = p.objects[key].slots[j];
                if j != i {
                    assert(t.objects[key].slots[j] == before);
                    if j < i {
                        assert(results[j] == results0[j]);
                    }
                }
            }
            assert forall|d: Device| #[trigger] s.pools.contains_key(d) implies t.pools[d].used
                <= s.pools[d].used + demand(op, n) by {
                assert(p.pools.contains_key(d));
            }
            assert(same_limits(s, t)) by {
                assert forall|d: Device| #[trigger]
                    s.pools.contains_key(d) implies t.pools[d].capacity == s.pools[d].capacity by {
                    assert(p.pools.contains_key(d));
                }
            }
        } else {
            assert forall|j: int| 0 <= j < op.slots.len() implies {
                let slot = #[trigger] t.objects[key].slots[j];
                &&& j >= n || !s.writable(key, j as nat) || results[j] is Err ==> slot
                    == start.slots[j]
                &&& j < n && s.writable(key, j as nat) && results[j] is Ok ==> slot.len() > 0
                    && forall|x: int|
                    0 <= x < slot.len() ==> (#[trigger] slot[x]).data == DataView::Owned(data[j])
                &&& j < n && !s.writable(key, j as nat) ==> results[j] is Err
            } by {
                let before = p.objects[key].slots[j];
                if j < i {
                    assert(results[j] == results0[j]);
                }
            }
        }
    }
}

} // verus!
