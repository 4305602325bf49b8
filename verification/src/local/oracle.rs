//! The in-memory backend is the semantic reference: where two stores hold the
//! same replicas, this backend answers as that one does.
use vstd::prelude::*;

use crate::local::ledger;
use crate::local::ledger::{LocalData, LocalObject, LocalReplica, LocalState};
use crate::local::safety;
use crate::local::writes;
use crate::ops;
use crate::ops::{OpGetView, OpPublishView, OpPutView};
use crate::services::model;
use crate::services::model::{DataView, ObjectView, ReplicaView, StateView};
use crate::types::{Device, NodeId, PlacementView};

verus! {

/// Whether two replicas are the same but for how store-owned bytes are held.
pub open spec fn same_replica(m: ReplicaView, l: LocalReplica) -> bool {
    &&& m.device == l.device
    &&& m.tier == l.tier
    &&& m.misplaced == l.misplaced
    &&& match l.data {
        LocalData::Pinned(_) => m.data is Owned,
        LocalData::External { segs, regions } => m.data == (DataView::External {
            segs,
            regions,
        }),
    }
}

pub open spec fn same_replicas(m: Seq<ReplicaView>, l: Seq<LocalReplica>) -> bool {
    &&& m.len() == l.len()
    &&& forall|j: int| 0 <= j < m.len() ==> same_replica(#[trigger] m[j], l[j])
}

pub open spec fn same_object(m: ObjectView, l: LocalObject) -> bool {
    &&& m.spec == l.spec
    &&& m.slots.len() == l.slots.len()
    &&& m.slots.len() == m.spec.slots.len()
    &&& forall|i: int|
        0 <= i < m.slots.len() ==> same_replicas(#[trigger] m.slots[i], l.slots[i].replicas)
}

/// Whether two stores hold the same objects with the same replicas.
pub open spec fn same_objects(m: StateView, l: LocalState) -> bool {
    &&& m.objects.dom() == l.objects.dom()
    &&& forall|k: Seq<u8>| #[trigger]
        m.objects.contains_key(k) ==> same_object(m.objects[k], l.objects[k])
}

proof fn lemma_same_nearest(
    gpu_numa: Map<u16, u16>,
    dst: Device,
    m: Seq<ReplicaView>,
    l: Seq<LocalReplica>,
    i: int,
)
    requires
        same_replicas(m, l),
    ensures
        model::is_nearest(gpu_numa, dst, m, i) == ledger::is_nearest_local(gpu_numa, dst, l, i),
{
    if 0 <= i < m.len() {
        assert(same_replica(m[i], l[i]));
        assert forall|j: int| 0 <= j < m.len() implies {
            &&& model::nearer(gpu_numa, dst, m[i], #[trigger] m[j]) == ledger::nearer_local(
                gpu_numa,
                dst,
                l[i],
                l[j],
            )
            &&& model::nearer(gpu_numa, dst, m[j], m[i]) == ledger::nearer_local(
                gpu_numa,
                dst,
                l[j],
                l[i],
            )
        } by {
            assert(same_replica(m[j], l[j]));
        }
        if model::is_nearest(gpu_numa, dst, m, i) {
            assert forall|j: int| 0 <= j < i implies ledger::nearer_local(
                gpu_numa,
                dst,
                l[i],
                #[trigger] l[j],
            ) by {
                assert(model::nearer(gpu_numa, dst, m[i], m[j]));
            }
            assert forall|j: int| i < j < l.len() implies !ledger::nearer_local(
                gpu_numa,
                dst,
                #[trigger] l[j],
                l[i],
            ) by {
                assert(!model::nearer(gpu_numa, dst, m[j], m[i]));
            }
        }
        if ledger::is_nearest_local(gpu_numa, dst, l, i) {
            assert forall|j: int| 0 <= j < i implies model::nearer(
                gpu_numa,
                dst,
                m[i],
                #[trigger] m[j],
            ) by {
                assert(ledger::nearer_local(gpu_numa, dst, l[i], l[j]));
            }
            assert forall|j: int| i < j < m.len() implies !model::nearer(
                gpu_numa,
                dst,
                #[trigger] m[j],
                m[i],
            ) by {
                assert(!ledger::nearer_local(gpu_numa, dst, l[j], l[i]));
            }
        }
    }
}

proof fn lemma_nearest_exists(
    gpu_numa: Map<u16, u16>,
    dst: Device,
    m: Seq<ReplicaView>,
    n: int,
) -> (i: int)
    requires
        0 < n <= m.len(),
    ensures
        model::is_nearest(gpu_numa, dst, m.take(n), i),
    decreases n,
{
    if n == 1 {
        0
    } else {
        let i = lemma_nearest_exists(gpu_numa, dst, m, n - 1);
        let before = m.take(n - 1);
        let all = m.take(n);
        assert forall|j: int| 0 <= j < n - 1 implies all[j] == before[j] by {}
        if model::nearer(gpu_numa, dst, all[n - 1], all[i]) {
            assert forall|j: int| 0 <= j < n - 1 implies model::nearer(
                gpu_numa,
                dst,
                all[n - 1],
                #[trigger] all[j],
            ) by {
                if j < i {
                    assert(model::nearer(gpu_numa, dst, before[i], before[j]));
                } else if j > i {
                    assert(!model::nearer(gpu_numa, dst, before[j], before[i]));
                }
            }
            n - 1
        } else {
            assert forall|j: int| 0 <= j < i implies model::nearer(
                gpu_numa,
                dst,
                all[i],
                #[trigger] all[j],
            ) by {
                assert(model::nearer(gpu_numa, dst, before[i], before[j]));
            }
            assert forall|j: int| i < j < all.len() implies !model::nearer(
                gpu_numa,
                dst,
                #[trigger] all[j],
                all[i],
            ) by {
                if j < n - 1 {
                    assert(!model::nearer(gpu_numa, dst, before[j], before[i]));
                }
            }
            i
        }
    }
}

/// A read is refused with the same error, or served from the same replica.
pub proof fn law_reads_match_memory(
    m: StateView,
    l: LocalState,
    gpu_numa: Map<u16, u16>,
    key: Seq<u8>,
    op: OpGetView,
)
    requires
        same_objects(m, l),
    ensures
        match (m.source(gpu_numa, key, op), l.source(gpu_numa, key, op)) {
            (Ok(a), Ok(b)) => same_replica(a, b),
            (Err(e), Err(f)) => e == f,
            _ => false,
        },
{
    if m.objects.contains_key(key) {
        let a = m.objects[key];
        let b = l.objects[key];
        assert(same_object(a, b));
        let i = op.slot.0 as int;
        if i < a.slots.len() {
            assert(same_replicas(a.slots[i], b.slots[i].replicas));
            let rm = a.slots[i];
            let rl = b.slots[i].replicas;
            if rm.len() > 0 && ops::checked_iovs(op.dst, None) is Ok {
                let dst = (ops::checked_iovs(op.dst, None)->Ok_0).0;
                let c = lemma_nearest_exists(gpu_numa, dst, rm, rm.len() as int);
                assert(rm.take(rm.len() as int) =~= rm);
                let x = choose|x: int| model::is_nearest(gpu_numa, dst, rm, x);
                let y = choose|y: int| ledger::is_nearest_local(gpu_numa, dst, rl, y);
                lemma_same_nearest(gpu_numa, dst, rm, rl, c);
                lemma_same_nearest(gpu_numa, dst, rm, rl, x);
                assert(ledger::is_nearest_local(gpu_numa, dst, rl, y));
                assert(ledger::is_nearest_local(gpu_numa, dst, rl, x));
                if x < y {
                    assert(ledger::nearer_local(gpu_numa, dst, rl[y], rl[x]));
                }
                if y < x {
                    assert(ledger::nearer_local(gpu_numa, dst, rl[x], rl[y]));
                }
                assert(x == y);
                assert(same_replica(rm[x], rl[x]));
            }
        }
    } else {
        assert(!l.objects.dom().contains(key));
    }
}

/// `stat` says the same.
pub proof fn law_stat_matches_memory(m: StateView, l: LocalState, node: NodeId, key: Seq<u8>)
    requires
        same_objects(m, l),
    ensures
        m.info(node, key) == l.info(node, key),
{
    if m.objects.contains_key(key) {
        let a = m.objects[key];
        let b = l.objects[key];
        assert(same_object(a, b));
        assert(l.objects.dom().contains(key));
        let x = m.info(node, key)->0;
        let y = l.info(node, key)->0;
        assert forall|i: int| 0 <= i < x.slots.len() implies #[trigger] x.slots[i]
            == y.slots[i] by {
            assert(same_replicas(a.slots[i], b.slots[i].replicas));
            assert forall|j: int| 0 <= j < a.slots[i].len() implies x.slots[i].replicas[j]
                == y.slots[i].replicas[j] by {
                assert(same_replica(a.slots[i][j], b.slots[i].replicas[j]));
            }
            assert(x.slots[i].replicas =~= y.slots[i].replicas);
        }
        assert(x.slots =~= y.slots);
    } else {
        assert(!l.objects.dom().contains(key));
    }
}

/// A publication is answered the same, and leaves the same replicas.
pub proof fn law_publish_matches_memory(
    m: StateView,
    l: LocalState,
    key: Seq<u8>,
    op: OpPublishView,
)
    requires
        same_objects(m, l),
    ensures
        m.publish_result(key, op) == l.publish_result(key, op),
        same_objects(m.published(key, op), l.published(key, op)),
{
    assert(m.objects.contains_key(key) == l.objects.dom().contains(key));
    if m.objects.contains_key(key) {
        assert(same_object(m.objects[key], l.objects[key]));
    }
    if m.publish_result(key, op) is Ok {
        let s = m.published(key, op);
        let t = l.published(key, op);
        let i = op.slot.0 as int;
        assert(s.objects.dom() =~= t.objects.dom());
        assert forall|k: Seq<u8>| #[trigger] s.objects.contains_key(k) implies same_object(
            s.objects[k],
            t.objects[k],
        ) by {
            assert(same_object(m.objects[k], l.objects[k]));
            if k == key {
                assert(same_replicas(m.objects[k].slots[i], l.objects[k].slots[i].replicas));
                assert forall|j: int| 0 <= j < s.objects[k].slots.len() implies same_replicas(
                    #[trigger] s.objects[k].slots[j],
                    t.objects[k].slots[j].replicas,
                ) by {
                    assert(same_replicas(m.objects[k].slots[j], l.objects[k].slots[j].replicas));
                    if j == i {
                        let a = s.objects[k].slots[j];
                        let b = t.objects[k].slots[j].replicas;
                        assert forall|x: int| 0 <= x < a.len() implies same_replica(
                            #[trigger] a[x],
                            b[x],
                        ) by {
                            if x < m.objects[k].slots[j].len() {
                                assert(same_replica(
                                    m.objects[k].slots[j][x],
                                    l.objects[k].slots[j].replicas[x],
                                ));
                            }
                        }
                    }
                }
            }
        }
    }
}

/// A removal leaves the same objects.
pub proof fn law_remove_matches_memory(m: StateView, l: LocalState, key: Seq<u8>)
    requires
        same_objects(m, l),
    ensures
        same_objects(m.removed(key), l.removed(key)),
{
    assert(m.objects.contains_key(key) == l.objects.dom().contains(key));
    if l.objects.contains_key(key) {
        let ids = ledger::object_ids(l.objects[key].slots, l.objects[key].slots.len());
        let t = LocalState { objects: l.objects.remove(key), ..l };
        writes::lemma_let_go_keeps(t, ids, ids.len());
        assert(m.removed(key).objects.dom() =~= l.removed(key).objects.dom());
        assert forall|k: Seq<u8>| #[trigger]
            m.removed(key).objects.contains_key(k) implies same_object(
            m.removed(key).objects[k],
            l.removed(key).objects[k],
        ) by {
            assert(m.objects.contains_key(k));
        }
    }
}

proof fn lemma_without_region(m: Seq<ReplicaView>, l: Seq<LocalReplica>, id: u64)
    requires
        same_replicas(m, l),
    ensures
        same_replicas(model::without_region(m, id), ledger::without_local_region(l, id)),
    decreases m.len(),
{
    if m.len() > 0 {
        assert forall|j: int| 0 <= j < m.len() - 1 implies same_replica(
            #[trigger] m.drop_last()[j],
            l.drop_last()[j],
        ) by {
            assert(same_replica(m[j], l[j]));
        }
        lemma_without_region(m.drop_last(), l.drop_last(), id);
        assert(same_replica(m[m.len() - 1], l[l.len() - 1]));
    }
}

/// The end of a region takes the same replicas.
pub proof fn law_retirement_matches_memory(m: StateView, l: LocalState, id: u64)
    requires
        same_objects(m, l),
    ensures
        same_objects(m.retired(id), l.retired(id)),
{
    let s = m.retired(id);
    let t = l.retired(id);
    assert(s.objects.dom() =~= t.objects.dom());
    assert forall|k: Seq<u8>| #[trigger] s.objects.contains_key(k) implies same_object(
        s.objects[k],
        t.objects[k],
    ) by {
        assert(m.objects.contains_key(k));
        assert(same_object(m.objects[k], l.objects[k]));
        assert forall|i: int| 0 <= i < s.objects[k].slots.len() implies same_replicas(
            #[trigger] s.objects[k].slots[i],
            t.objects[k].slots[i].replicas,
        ) by {
            assert(same_replicas(m.objects[k].slots[i], l.objects[k].slots[i].replicas));
            lemma_without_region(m.objects[k].slots[i], l.objects[k].slots[i].replicas, id);
        }
    }
}

/// A write is refused as a whole with the same error, and while no other write
/// is under way the same slots are refused as written.
pub proof fn law_put_refusals_match_memory(
    m: StateView,
    l: LocalState,
    order: Seq<Device>,
    key: Seq<u8>,
    op: OpPutView,
    data: Seq<Seq<u8>>,
)
    requires
        same_objects(m, l),
        l.objects.contains_key(key) ==> forall|i: int|
            0 <= i < l.objects[key].slots.len() ==> (#[trigger] l.objects[key].slots[i]).writing
                is None,
    ensures
        match (m.put(order, key, op, data).1, l.begun(key, op).1) {
            (Ok(_), Ok(run)) => {
                let r = l.begun(key, op).0.runs[run]->0;
                &&& r.writable.len() == op.slots.len()
                &&& forall|i: int|
                    0 <= i < op.slots.len() ==> #[trigger] r.writable[i] == m.writable(
                        key,
                        i as nat,
                    )
            },
            (Err(e), Err(f)) => e == f,
            _ => false,
        },
{
    assert(m.objects.contains_key(key) == l.objects.dom().contains(key));
    if m.objects.contains_key(key) {
        assert(same_object(m.objects[key], l.objects[key]));
    }
    if l.begun(key, op).1 is Ok {
        let run = ledger::next_id(l.runs);
        let _ = safety::lemma_next(l.runs, 0);
        let t = l.begun(key, op).0;
        let r = t.runs[run]->0;
        assert forall|i: int| 0 <= i < op.slots.len() implies #[trigger] r.writable[i] == m.writable(
            key,
            i as nat,
        ) by {
            if l.objects.contains_key(key) {
                assert(same_replicas(
                    m.objects[key].slots[i],
                    l.objects[key].slots[i].replicas,
                ));
            }
        }
    }
}

// ---- placement ----

/// The devices of a list of pools.
pub open spec fn pool_devices(order: Seq<u16>) -> Seq<Device> {
    Seq::new(order.len(), |i: int| Device::Cpu { numa: order[i] })
}

/// The devices of a list of targets.
pub open spec fn target_devices(targets: Seq<(u16, bool)>) -> Seq<(Device, bool)> {
    Seq::new(targets.len(), |i: int| (Device::Cpu { numa: targets[i].0 }, targets[i].1))
}

proof fn lemma_fallbacks_match(order: Seq<u16>, d: Device, n: nat)
    requires
        n <= order.len(),
    ensures
        model::fallbacks(pool_devices(order), d, n) =~= target_devices(
            ledger::other_pools(order, d, n),
        ),
    decreases n,
{
    if n > 0 {
        lemma_fallbacks_match(order, d, (n - 1) as nat);
        let before = ledger::other_pools(order, d, (n - 1) as nat);
        assert(target_devices(before.push((order[n - 1], true))) =~= target_devices(before).push(
            (Device::Cpu { numa: order[n - 1] }, true),
        ));
    }
}

proof fn lemma_pools_match(order: Seq<u16>, ds: Seq<Device>, n: nat)
    requires
        n <= ds.len(),
    ensures
        ledger::pools_of(order, ds, n) matches Ok(ps) ==> target_devices(ps) =~= Seq::new(
            n,
            |i: int| (ds[i], false),
        ),
        ledger::pools_of(order, ds, n) is Err ==> exists|i: int|
            0 <= i < n && !pool_devices(order).contains(#[trigger] ds[i]),
    decreases n,
{
    if n > 0 {
        lemma_pools_match(order, ds, (n - 1) as nat);
        match ledger::pools_of(order, ds, (n - 1) as nat) {
            Ok(ps) => {
                lemma_pool_known(order, ds[n - 1]);
                if ledger::pool_of(order, ds[n - 1]) is Ok {
                    let numa = ledger::pool_of(order, ds[n - 1])->Ok_0;
                    assert(target_devices(ps.push((numa, false))) =~= target_devices(ps).push(
                        (Device::Cpu { numa }, false),
                    ));
                }
            },
            Err(_) => {
                let i = choose|i: int|
                    0 <= i < n - 1 && !pool_devices(order).contains(#[trigger] ds[i]);
                assert(!pool_devices(order).contains(ds[i]));
            },
        }
    }
}

proof fn lemma_pool_known(order: Seq<u16>, d: Device)
    ensures
        ledger::pool_of(order, d) is Ok <==> pool_devices(order).contains(d),
        ledger::pool_of(order, d) matches Ok(numa) ==> d == (Device::Cpu { numa }),
{
    let devices = pool_devices(order);
    if ledger::pool_of(order, d) is Ok {
        let i = order.index_of(d->numa);
        assert(devices[i] == d);
    }
    if devices.contains(d) {
        let i = devices.index_of(d);
        assert(order[i] == d->numa);
        assert(order.contains(d->numa));
    }
}

/// A slot is tried on the same devices in the same order: those of the
/// reference, served by the same pools. A preferred device without a pool is
/// passed over by both; a demanded one is refused.
pub proof fn law_placements_match_memory(placement: PlacementView, order: Seq<u16>)
    ensures
        ({
            let cands = model::candidates(placement, pool_devices(order));
            match ledger::resolved(placement, order) {
                Ok((targets, None)) => target_devices(targets) == cands,
                Ok((targets, Some(_))) => cands.len() > 0 && !pool_devices(order).contains(
                    cands[0].0,
                ) && target_devices(targets) == cands.skip(1),
                Err(_) => exists|i: int|
                    0 <= i < cands.len() && !pool_devices(order).contains((#[trigger] cands[i]).0),
            }
        }),
{
    let cands = model::candidates(placement, pool_devices(order));
    match placement {
        PlacementView::Strict(d) => {
            lemma_pool_known(order, d);
            assert(cands[0].0 == d);
            if ledger::pool_of(order, d) is Ok {
                assert(target_devices(seq![(ledger::pool_of(order, d)->Ok_0, false)]) =~= cands);
            }
        },
        PlacementView::Prefer(d) => {
            lemma_pool_known(order, d);
            lemma_fallbacks_match(order, d, order.len());
            let others = ledger::other_pools(order, d, order.len());
            assert(cands[0].0 == d);
            if ledger::pool_of(order, d) is Ok {
                let numa = ledger::pool_of(order, d)->Ok_0;
                assert(target_devices(seq![(numa, false)] + others) =~= cands);
            } else {
                assert(target_devices(others) =~= cands.skip(1));
            }
        },
        PlacementView::Each(ds) => {
            lemma_pools_match(order, ds, ds.len());
            if ledger::pools_of(order, ds, ds.len()) is Ok {
                assert(target_devices(ledger::pools_of(order, ds, ds.len())->Ok_0) =~= cands);
            } else {
                let i = choose|i: int|
                    0 <= i < ds.len() && !pool_devices(order).contains(#[trigger] ds[i]);
                assert(cands[i].0 == ds[i]);
            }
        },
        PlacementView::Anywhere => {
            assert(target_devices(Seq::new(order.len(), |i: int| (order[i], false))) =~= cands);
        },
    }
}

} // verus!
