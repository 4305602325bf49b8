//! What the in-process backend promises over several calls.
use vstd::prelude::*;

use crate::error::{ErrorKind, ErrorStatus};
use crate::ops;
use crate::ops::{OpGetView, OpPublishView, OpPutView};
use crate::region;
use crate::services::accounting;
use crate::services::memory;
use crate::services::memory::MemoryView;
use crate::services::model;
use crate::services::model::{DataView, ObjectView, ReplicaView, StateView};
use crate::services::order;
use crate::services::placing;
use crate::types;
use crate::types::{Device, NodeId, PlacementView, Retention, Tier};

verus! {

/// A slot that a `put` reported as written holds the bytes of its sources, in
/// every replica.
pub proof fn lemma_put_holds(
    s: StateView,
    order: Seq<Device>,
    key: Seq<u8>,
    op: OpPutView,
    data: Seq<Seq<u8>>,
    i: int,
)
    requires
        s.inv(),
        placing::data_fits(op, data),
        s.put(order, key, op, data).1 is Ok,
        0 <= i < op.slots.len(),
        s.put(order, key, op, data).1->Ok_0[i] is Ok,
    ensures
        ({
            let t = s.put(order, key, op, data).0;
            &&& t.inv()
            &&& t.objects.contains_key(key)
            &&& t.objects[key].spec == op.spec()
            &&& t.objects[key].slots.len() == op.slots.len()
            &&& t.objects[key].slots[i].len() > 0
            &&& forall|j: int|
                0 <= j < t.objects[key].slots[i].len() ==> (
                #[trigger] t.objects[key].slots[i][j]).data == DataView::Owned(data[i])
        }),
{
    placing::lemma_put_slots(s, order, key, op, data, op.slots.len());
    let (t, results) = s.put_slots(order, key, op, data, op.slots.len());
    let slot = t.objects[key].slots[i];
    assert(s.writable(key, i as nat));
}

/// A read gives back what was written: after a `put` that reported slot `i` as
/// written, a `get` of any range of that slot into memory that does not
/// overlap itself leaves there the bytes that the sources held at the `put`,
/// whatever memory holds by then.
pub proof fn law_get_reads_what_put_wrote(
    m: MemoryView,
    mem: Map<u64, u8>,
    key: Seq<u8>,
    op: OpPutView,
    later: Map<u64, u8>,
    get: OpGetView,
)
    requires
        m.state.inv(),
        op.error() is None,
        m.state.put(m.info.devices, key, op, memory::sources(mem, op)).1 is Ok,
        get.slot.0 < op.slots.len(),
        m.state.put(m.info.devices, key, op, memory::sources(mem, op)).1->Ok_0[get.slot.0 as int] is Ok,
        ops::checked_iovs(get.dst, None) is Ok,
        get.src_offset + region::iov_total(get.dst) <= op.slots[get.slot.0 as int].spec.len,
        region::segs_mapped(later, region::segments(get.dst)),
        region::segs_disjoint(region::segments(get.dst)),
    ensures
        ({
            let n = MemoryView {
                state: m.state.put(m.info.devices, key, op, memory::sources(mem, op)).0,
                ..m
            };
            &&& n.get_result(key, get) is Ok
            &&& n.get_result(key, get)->Ok_0.from.tier == Tier::Dram
            &&& region::gathered(n.get_memory(later, key, get), region::segments(get.dst)) == memory::sources(
                mem,
                op,
            )[get.slot.0 as int].subrange(
                get.src_offset as int,
                get.src_offset + region::iov_total(get.dst),
            )
        }),
{
    let i = get.slot.0 as int;
    let data = memory::sources(mem, op);
    let t = m.state.put(m.info.devices, key, op, data).0;
    let n = MemoryView { state: t, ..m };
    memory::lemma_sources_fit(mem, op);
    lemma_put_holds(m.state, m.info.devices, key, op, data, i);
    ops::law_iovs_pass_exactly_if_sound(get.dst, None);
    assert(op.spec().slots[i] == op.slots[i].spec);
    memory::lemma_source(t, m.gpu_numa, key, get);
    let r = t.source(m.gpu_numa, key, get)->Ok_0;
    let slot = t.objects[key].slots[i];
    let j = choose|j: int| 0 <= j < slot.len() && slot[j] == r;
    assert(slot[j].data == DataView::Owned(data[i]));
    assert(model::slot_ok(slot, t.objects[key].spec.slots[i].len, t.pools.dom())) by {
        assert(model::object_ok(t.objects[key], t.pools.dom()));
    }
    assert(slot[j].tier == Tier::Dram);
    let part = data[i].subrange(get.src_offset as int, get.src_offset + region::iov_total(get.dst));
    region::law_gather_reads_what_scatter_wrote(later, region::segments(get.dst), part);
    assert(part.take(part.len() as int) =~= part);
}

/// Slots are write-once: whatever a `put` is asked to do, a slot that had a
/// replica before gets none that it did not have.
pub proof fn law_slots_are_write_once(
    s: StateView,
    order: Seq<Device>,
    key: Seq<u8>,
    op: OpPutView,
    data: Seq<Seq<u8>>,
    k: Seq<u8>,
    i: int,
    j: int,
)
    requires
        s.inv(),
        op.error() is None ==> placing::data_fits(op, data),
        s.objects.contains_key(k),
        0 <= i < s.objects[k].slots.len(),
        s.objects[k].slots[i].len() > 0,
        s.put(order, key, op, data).0.objects.contains_key(k),
        0 <= j < s.put(order, key, op, data).0.objects[k].slots[i].len(),
    ensures
        s.put(order, key, op, data).0.objects[k].spec == s.objects[k].spec,
        s.objects[k].slots[i].contains(s.put(order, key, op, data).0.objects[k].slots[i][j]),
{
    let (t, r) = s.put(order, key, op, data);
    let slot = s.objects[k].slots[i];
    if r is Err {
        assert(slot[j] == t.objects[k].slots[i][j]);
    } else {
        placing::lemma_put_slots(s, order, key, op, data, op.slots.len());
        assert(model::object_ok(s.objects[k], s.pools.dom()));
        if k == key {
            assert(!s.writable(key, i as nat));
            assert(t.objects[k].slots[i] == slot);
            assert(slot[j] == t.objects[k].slots[i][j]);
        } else {
            assert(placing::object_weakens(s.objects[k], t.objects[k]));
            assert(placing::slot_weakens(slot, t.objects[k].slots[i]));
        }
    }
}

/// An `Explicit` object is never evicted: no `put` of another key touches it,
/// and a `put` of its own key takes nothing from it.
pub proof fn law_explicit_is_never_evicted(
    s: StateView,
    order: Seq<Device>,
    key: Seq<u8>,
    op: OpPutView,
    data: Seq<Seq<u8>>,
    k: Seq<u8>,
)
    requires
        s.inv(),
        op.error() is None ==> placing::data_fits(op, data),
        s.objects.contains_key(k),
        s.objects[k].spec.retention == Retention::Explicit,
    ensures
        s.put(order, key, op, data).0.objects.contains_key(k),
        k != key ==> s.put(order, key, op, data).0.objects[k] == s.objects[k],
        s.put(order, key, op, data).0.objects[k].slots.len() == s.objects[k].slots.len(),
        forall|i: int|
            0 <= i < s.objects[k].slots.len() && (#[trigger] s.objects[k].slots[i]).len() > 0
                ==> s.put(order, key, op, data).0.objects[k].slots[i] == s.objects[k].slots[i],
{
    let (t, r) = s.put(order, key, op, data);
    if r is Ok {
        placing::lemma_put_slots(s, order, key, op, data, op.slots.len());
        assert(model::object_ok(s.objects[k], s.pools.dom()));
        if k == key {
            assert forall|i: int|
                0 <= i < s.objects[k].slots.len() && (
                #[trigger] s.objects[k].slots[i]).len() > 0 implies t.objects[k].slots[i]
                == s.objects[k].slots[i] by {
                assert(!s.writable(key, i as nat));
                let slot = t.objects[key].slots[i];
            }
        }
    }
}

/// A `put` evicts store-owned bytes alone: a published replica of any object
/// outlives it.
pub proof fn law_published_replicas_are_never_evicted(
    s: StateView,
    order: Seq<Device>,
    key: Seq<u8>,
    op: OpPutView,
    data: Seq<Seq<u8>>,
    k: Seq<u8>,
    i: int,
    j: int,
)
    requires
        s.inv(),
        op.error() is None ==> placing::data_fits(op, data),
        s.objects.contains_key(k),
        0 <= i < s.objects[k].slots.len(),
        0 <= j < s.objects[k].slots[i].len(),
        s.objects[k].slots[i][j].data is External,
    ensures
        s.put(order, key, op, data).0.objects.contains_key(k),
        s.put(order, key, op, data).0.objects[k].slots[i].contains(s.objects[k].slots[i][j]),
{
    let (t, r) = s.put(order, key, op, data);
    if r is Ok {
        placing::lemma_put_slots(s, order, key, op, data, op.slots.len());
        assert(model::object_ok(s.objects[k], s.pools.dom()));
        if k == key {
            assert(!s.writable(key, i as nat));
            assert(t.objects[k].slots[i] == s.objects[k].slots[i]);
            assert(t.objects[k].slots[i][j] == s.objects[k].slots[i][j]);
        } else {
            if !t.objects.contains_key(k) {
                assert(placing::no_external(s.objects[k]));
                assert(!(s.objects[k].slots[i][j].data is External));
            }
            assert(placing::object_weakens(s.objects[k], t.objects[k]));
            assert(placing::slot_weakens(s.objects[k].slots[i], t.objects[k].slots[i]));
        }
    } else {
        assert(t.objects[k].slots[i][j] == s.objects[k].slots[i][j]);
    }
}

// ---- placement ----

/// What a slot that was placed looks like.
pub open spec fn honoured(placement: PlacementView, slot: Seq<ReplicaView>) -> bool {
    match placement {
        PlacementView::Strict(d) => slot.len() == 1 && slot[0].device == d && !slot[0].misplaced,
        PlacementView::Prefer(d) => slot.len() == 1 && (slot[0].misplaced <==> slot[0].device
            != d),
        PlacementView::Each(ds) => slot.len() == ds.len() && forall|j: int|
            0 <= j < ds.len() ==> (#[trigger] slot[j]).device == ds[j] && !slot[j].misplaced,
        PlacementView::Anywhere => slot.len() == 1 && !slot[0].misplaced,
    }
}

proof fn lemma_fallbacks(order: Seq<Device>, d: Device, n: nat)
    requires
        n <= order.len(),
    ensures
        forall|j: int|
            0 <= j < model::fallbacks(order, d, n).len() ==> (#[trigger] model::fallbacks(order, d, n)[j]).1
                && model::fallbacks(order, d, n)[j].0 != d,
    decreases n,
{
    if n > 0 {
        lemma_fallbacks(order, d, (n - 1) as nat);
    }
}

proof fn lemma_targets_from(
    s: StateView,
    cands: Seq<(Device, bool)>,
    each: bool,
    len: u64,
    key: Seq<u8>,
    n: nat,
)
    requires
        n <= cands.len(),
    ensures
        forall|j: int|
            0 <= j < s.searched(cands, each, len, key, n).targets.len() ==> cands.contains(
                #[trigger] s.searched(cands, each, len, key, n).targets[j],
            ),
    decreases n,
{
    if n > 0 {
        lemma_targets_from(s, cands, each, len, key, (n - 1) as nat);
        let p = s.searched(cands, each, len, key, (n - 1) as nat);
        let r = s.searched(cands, each, len, key, n);
        assert forall|j: int| 0 <= j < r.targets.len() implies cands.contains(
            #[trigger] r.targets[j],
        ) by {
            if j < p.targets.len() {
                assert(r.targets[j] == p.targets[j]);
            } else {
                assert(r.targets[j] == cands[n - 1]);
            }
        }
    }
}

/// A placement is honoured or the slot is refused: `Strict` lands on its device
/// alone; `Prefer` lands once, flagged exactly where it is elsewhere; `Each`
/// lands on every listed device; `Anywhere` lands once, never flagged.
pub proof fn law_placement_is_honoured(
    s: StateView,
    order: Seq<Device>,
    key: Seq<u8>,
    i: nat,
    placement: PlacementView,
    bytes: Seq<u8>,
    len: u64,
)
    requires
        s.inv(),
        s.objects.contains_key(key),
        i < s.objects[key].slots.len(),
        s.objects[key].slots[i as int].len() == 0,
        s.objects[key].spec.slots[i as int].len == len,
        bytes.len() == len,
    ensures
        ({
            let (t, r) = s.placed(order, key, i, placement, bytes, len);
            let slot = t.objects[key].slots[i as int];
            &&& t.objects.contains_key(key)
            &&& r is Ok ==> honoured(placement, slot)
            &&& r is Err ==> slot.len() == 0
        }),
{
    placing::lemma_placed(s, order, key, i, placement, bytes, len);
    let each = placement is Each;
    let cands = model::candidates(placement, order);
    placing::lemma_searched(s, cands, each, len, key, cands.len());
    lemma_targets_from(s, cands, each, len, key, cands.len());
    let found = s.searched(cands, each, len, key, cands.len());
    let (t, r) = s.placed(order, key, i, placement, bytes, len);
    if r is Ok {
        let reps = model::copies(found.targets, bytes);
        let obj = found.state.objects[key];
        assert(obj.slots[i as int] + reps =~= reps);
        assert forall|j: int| 0 <= j < found.targets.len() implies found.state.landed(
            key,
            i,
            found.targets,
            bytes,
        ).pools.contains_key((#[trigger] found.targets[j]).0) by {}
        placing::lemma_charged_all(
            found.state.landed(key, i, found.targets, bytes),
            found.targets,
            key,
            i,
            len,
            bytes,
            found.targets.len(),
        );
        let slot = t.objects[key].slots[i as int];
        assert(slot == reps);
        assert(cands.contains(found.targets[0]));
        match placement {
            PlacementView::Prefer(d) => {
                lemma_fallbacks(order, d, order.len());
                let c = choose|c: int| 0 <= c < cands.len() && cands[c] == found.targets[0];
                if c > 0 {
                    assert(cands[c] == model::fallbacks(order, d, order.len())[c - 1]);
                }
            },
            PlacementView::Each(ds) => {
                assert(found.targets =~= cands);
            },
            _ => {},
        }
    }
}

/// Placing one slot leaves the other slots of its object alone.
pub proof fn lemma_placed_alone(
    s: StateView,
    order: Seq<Device>,
    key: Seq<u8>,
    i: nat,
    placement: PlacementView,
    bytes: Seq<u8>,
    len: u64,
    j: int,
)
    requires
        s.inv(),
        s.objects.contains_key(key),
        i < s.objects[key].slots.len(),
        0 <= j < s.objects[key].slots.len(),
        j != i,
        bytes.len() == len,
    ensures
        s.placed(order, key, i, placement, bytes, len).0.objects[key].slots[j]
            == s.objects[key].slots[j],
{
    let each = placement is Each;
    let cands = model::candidates(placement, order);
    placing::lemma_searched(s, cands, each, len, key, cands.len());
    let found = s.searched(cands, each, len, key, cands.len());
    let m = found.state.landed(key, i, found.targets, bytes);
    assert forall|x: int| 0 <= x < found.targets.len() implies m.pools.contains_key(
        (#[trigger] found.targets[x]).0,
    ) by {}
    placing::lemma_charged_all(m, found.targets, key, i, len, bytes, found.targets.len());
}

proof fn lemma_put_honoured(
    s: StateView,
    order: Seq<Device>,
    key: Seq<u8>,
    op: OpPutView,
    data: Seq<Seq<u8>>,
    n: nat,
    i: int,
)
    requires
        s.inv(),
        placing::data_fits(op, data),
        s.objects.contains_key(key) ==> s.objects[key].spec == op.spec(),
        n <= op.slots.len(),
        0 <= i < n,
        s.put_slots(order, key, op, data, n).1[i] is Ok,
    ensures
        honoured(
            op.slots[i].spec.placement,
            s.put_slots(order, key, op, data, n).0.objects[key].slots[i],
        ),
    decreases n,
{
    let last = (n - 1) as nat;
    placing::lemma_put_slots(s, order, key, op, data, last);
    placing::lemma_put_slots(s, order, key, op, data, n);
    let (p, results) = s.put_slots(order, key, op, data, last);
    let spec = op.slots[last as int].spec;
    assert(op.spec().slots[last as int] == spec);
    assert(data[last as int].len() == spec.len);
    if i < last {
        lemma_put_honoured(s, order, key, op, data, last, i);
        if s.writable(key, last) {
            lemma_placed_alone(
                p,
                order,
                key,
                last,
                spec.placement,
                data[last as int],
                spec.len,
                i,
            );
        }
    } else {
        assert(s.writable(key, last));
        placing::lemma_reserved(s, key, op);
        let start = s.reserved(key, op.spec()).objects[key];
        assert(p.objects[key].slots[last as int] == start.slots[last as int]);
        law_placement_is_honoured(
            p,
            order,
            key,
            last,
            spec.placement,
            data[last as int],
            spec.len,
        );
    }
}

/// A `put` honours the placement of every slot that it reports as written, and
/// leaves every slot that it refuses as it was: empty, where the object is new.
pub proof fn law_put_honours_every_placement(
    s: StateView,
    order: Seq<Device>,
    key: Seq<u8>,
    op: OpPutView,
    data: Seq<Seq<u8>>,
    i: int,
)
    requires
        s.inv(),
        placing::data_fits(op, data),
        s.put(order, key, op, data).1 is Ok,
        0 <= i < op.slots.len(),
    ensures
        ({
            let (t, r) = s.put(order, key, op, data);
            let slot = t.objects[key].slots[i];
            &&& t.objects.contains_key(key)
            &&& r->Ok_0.len() == op.slots.len()
            &&& r->Ok_0[i] is Ok ==> honoured(op.slots[i].spec.placement, slot)
            &&& r->Ok_0[i] is Err ==> slot == if s.objects.contains_key(key) {
                s.objects[key].slots[i]
            } else {
                Seq::empty()
            }
        }),
{
    placing::lemma_put_slots(s, order, key, op, data, op.slots.len());
    let (t, results) = s.put_slots(order, key, op, data, op.slots.len());
    if results[i] is Ok {
        lemma_put_honoured(s, order, key, op, data, op.slots.len(), i);
    } else {
        let slot = t.objects[key].slots[i];
        assert(slot == s.reserved(key, op.spec()).objects[key].slots[i]);
    }
}

/// Want of room is back-pressure: whatever the placement, a slot that is
/// refused for `NoSpace` may be tried again.
pub proof fn law_no_space_is_temporary(
    s: StateView,
    order: Seq<Device>,
    key: Seq<u8>,
    i: nat,
    placement: PlacementView,
    bytes: Seq<u8>,
    len: u64,
)
    ensures
        s.placed(order, key, i, placement, bytes, len).1 matches Err(e) ==> (e.kind
            == ErrorKind::NoSpace ==> e.status == ErrorStatus::Temporary) && (e.kind
            == ErrorKind::NoSpace || e.kind == ErrorKind::InvalidInput),
{
    let each = placement is Each;
    let cands = model::candidates(placement, order);
    lemma_search_errors(s, cands, each, len, key, cands.len());
}

proof fn lemma_search_errors(
    s: StateView,
    cands: Seq<(Device, bool)>,
    each: bool,
    len: u64,
    key: Seq<u8>,
    n: nat,
)
    ensures
        s.searched(cands, each, len, key, n).error matches Some(e) ==> (e.kind
            == ErrorKind::NoSpace && e.status == ErrorStatus::Temporary) || e.kind
            == ErrorKind::InvalidInput,
    decreases n,
{
    if n > 0 {
        lemma_search_errors(s, cands, each, len, key, (n - 1) as nat);
    }
}

/// Pools stay within their limits: no `put` leaves a pool over its capacity, and
/// a pool's count of used bytes is what the objects hold there.
pub proof fn law_pools_stay_within_limits(
    s: StateView,
    order: Seq<Device>,
    key: Seq<u8>,
    op: OpPutView,
    data: Seq<Seq<u8>>,
)
    requires
        s.sound(),
        op.error() is None ==> placing::data_fits(op, data),
    ensures
        s.put(order, key, op, data).0.within_limits(),
        forall|d: Device| #[trigger]
            s.put(order, key, op, data).0.pools.contains_key(d) ==> s.put(
                order,
                key,
                op,
                data,
            ).0.pools[d].used == model::held(s.put(order, key, op, data).0.objects, d),
{
    order::lemma_put_sound(s, order, key, op, data);
}

// ---- writing again ----

proof fn lemma_all_refused(
    s: StateView,
    order: Seq<Device>,
    key: Seq<u8>,
    op: OpPutView,
    data: Seq<Seq<u8>>,
    n: nat,
)
    requires
        s.objects.contains_key(key),
        n <= op.slots.len(),
        forall|i: int|
            0 <= i < op.slots.len() ==> (#[trigger] s.objects[key].slots[i]).len() > 0,
    ensures
        s.put_slots(order, key, op, data, n).0 == s,
        s.put_slots(order, key, op, data, n).1.len() == n,
        forall|i: int|
            0 <= i < n ==> {
                let r = #[trigger] s.put_slots(order, key, op, data, n).1[i];
                r is Err && r->Err_0.kind == ErrorKind::AlreadyExists
            },
    decreases n,
{
    if n > 0 {
        lemma_all_refused(s, order, key, op, data, (n - 1) as nat);
        assert(s.objects[key].slots[n - 1].len() > 0);
        assert(!s.writable(key, (n - 1) as nat));
        let before = s.put_slots(order, key, op, data, (n - 1) as nat).1;
        let after = s.put_slots(order, key, op, data, n).1;
        assert forall|i: int| 0 <= i < n implies {
            let r = #[trigger] after[i];
            r is Err && r->Err_0.kind == ErrorKind::AlreadyExists
        } by {
            if i < n - 1 {
                assert(after[i] == before[i]);
            }
        }
    }
}

/// Writing an object that is fully there changes nothing: every slot is refused
/// as already written, whatever the bytes.
pub proof fn law_writing_again_is_refused(
    s: StateView,
    order: Seq<Device>,
    key: Seq<u8>,
    op: OpPutView,
    data: Seq<Seq<u8>>,
    again: Seq<Seq<u8>>,
)
    requires
        s.inv(),
        op.error() is None,
        placing::data_fits(op, data),
        s.put(order, key, op, data).1 is Ok,
        forall|i: int|
            0 <= i < op.slots.len() ==> (#[trigger] s.put(order, key, op, data).1->Ok_0[i]) is Ok,
    ensures
        ({
            let t = s.put(order, key, op, data).0;
            &&& t.put(order, key, op, again).0 == t
            &&& t.put(order, key, op, again).1 is Ok
            &&& t.put(order, key, op, again).1->Ok_0.len() == op.slots.len()
            &&& forall|i: int|
                0 <= i < op.slots.len() ==> {
                    let r = #[trigger] t.put(order, key, op, again).1->Ok_0[i];
                    r is Err && r->Err_0.kind == ErrorKind::AlreadyExists
                }
        }),
{
    let t = s.put(order, key, op, data).0;
    placing::lemma_put_slots(s, order, key, op, data, op.slots.len());
    assert forall|i: int| 0 <= i < op.slots.len() implies (
    #[trigger] t.objects[key].slots[i]).len() > 0 by {
        assert(s.put(order, key, op, data).1->Ok_0[i] is Ok);
        lemma_put_holds(s, order, key, op, data, i);
    }
    lemma_all_refused(t, order, key, op, again, op.slots.len());
}

/// An object under another spec is left alone: the whole request is refused.
pub proof fn law_spec_mismatch_changes_nothing(
    s: StateView,
    order: Seq<Device>,
    key: Seq<u8>,
    op: OpPutView,
    data: Seq<Seq<u8>>,
)
    requires
        op.error() is None,
        s.objects.contains_key(key),
        s.objects[key].spec != op.spec(),
    ensures
        s.put(order, key, op, data).0 == s,
        s.put(order, key, op, data).1 is Err,
        s.put(order, key, op, data).1->Err_0.kind == ErrorKind::SpecMismatch,
{
}

// ---- lifecycle ----

/// Removing twice is removing once, and what is removed is not found.
pub proof fn law_remove_is_idempotent(
    s: StateView,
    gpu_numa: Map<u16, u16>,
    key: Seq<u8>,
    get: OpGetView,
)
    requires
        ops::checked_iovs(get.dst, None) is Ok,
    ensures
        s.removed(key).removed(key) == s.removed(key),
        s.removed(key).source(gpu_numa, key, get) is Err,
        s.removed(key).source(gpu_numa, key, get)->Err_0.kind == ErrorKind::NotFound,
{
}

/// Removing a prefix removes the keys under it and no others, and leaves none.
pub proof fn law_remove_prefix_takes_the_prefix_alone(s: StateView, prefix: Seq<u8>, k: Seq<u8>)
    ensures
        s.removed_prefix(prefix).objects.contains_key(k) <==> s.objects.contains_key(k)
            && !types::starts_with(k, prefix),
        s.removed_prefix(prefix).objects.contains_key(k) ==> s.removed_prefix(prefix).objects[k]
            == s.objects[k],
        s.removed_prefix(prefix).under(prefix) == Set::<Seq<u8>>::empty(),
{
    assert(s.removed_prefix(prefix).under(prefix) =~= Set::<Seq<u8>>::empty());
}

/// A removal gives its room back: once every object is gone, every pool is
/// empty.
pub proof fn law_removing_everything_frees_everything(s: StateView, d: Device)
    requires
        s.inv(),
        s.pools.contains_key(d),
    ensures
        s.removed_prefix(Seq::empty()).pools[d].used == 0,
        s.removed_prefix(Seq::empty()).objects == Map::<Seq<u8>, ObjectView>::empty(),
{
    let e = Seq::<u8>::empty();
    let rest = s.removed_prefix(e).objects;
    assert forall|k: Seq<u8>| !rest.contains_key(k) by {
        assert(k.take(0) =~= e);
        assert(types::starts_with(k, e));
    }
    assert(rest =~= Map::<Seq<u8>, ObjectView>::empty());
    assert(rest.dom() =~= Set::<Seq<u8>>::empty());
}

proof fn lemma_nothing_to_retire(replicas: Seq<ReplicaView>, id: u64)
    requires
        forall|j: int| 0 <= j < replicas.len() ==> !(#[trigger] replicas[j]).from_region(id),
    ensures
        model::without_region(replicas, id) == replicas,
    decreases replicas.len(),
{
    if replicas.len() > 0 {
        lemma_nothing_to_retire(replicas.drop_last(), id);
        assert(!replicas[replicas.len() - 1].from_region(id));
        assert(replicas.drop_last().push(replicas.last()) =~= replicas);
    } else {
        assert(model::without_region(replicas, id) =~= replicas);
    }
}

/// What was published from a region vanishes with it, whichever of its regions
/// goes: the state is then as it was before.
pub proof fn law_publication_ends_with_its_region(
    s: StateView,
    key: Seq<u8>,
    op: OpPublishView,
    x: int,
)
    requires
        s.publish_result(key, op) is Ok,
        0 <= x < op.src.len(),
        forall|k: Seq<u8>, i: int, j: int|
            s.objects.contains_key(k) && 0 <= i < s.objects[k].slots.len() && 0 <= j
                < s.objects[k].slots[i].len() ==> !(
            #[trigger] s.objects[k].slots[i][j]).from_region(op.src[x].region.id),
    ensures
        s.published(key, op).retired(op.src[x].region.id) == s,
{
    let id = op.src[x].region.id;
    let t = s.published(key, op);
    let u = t.retired(id);
    assert(model::region_ids(op.src)[x] == id);
    assert forall|k: Seq<u8>| #[trigger] s.objects.contains_key(k) implies u.objects[k]
        == s.objects[k] by {
        let obj = s.objects[k];
        assert forall|i: int| 0 <= i < obj.slots.len() implies (#[trigger] u.objects[k].slots[i])
            == obj.slots[i] by {
            assert forall|j: int| 0 <= j < obj.slots[i].len() implies !(
            #[trigger] obj.slots[i][j]).from_region(id) by {}
            lemma_nothing_to_retire(obj.slots[i], id);
            if k == key && i == op.slot.0 {
                let after = t.objects[k].slots[i];
                assert(after.drop_last() =~= obj.slots[i]);
                assert(after.last().from_region(id));
            }
        }
        assert(u.objects[k].slots =~= obj.slots);
    }
    assert(u.objects =~= s.objects);
}

/// The end of a region takes every replica that lies in it, even in part, and no
/// other.
pub proof fn law_retirement_takes_the_region_alone(
    s: StateView,
    id: u64,
    k: Seq<u8>,
    i: int,
    r: ReplicaView,
)
    requires
        s.objects.contains_key(k),
        0 <= i < s.objects[k].slots.len(),
    ensures
        s.retired(id).objects.contains_key(k),
        s.retired(id).objects[k].slots[i].contains(r) <==> s.objects[k].slots[i].contains(r)
            && !r.from_region(id),
{
    let slot = s.objects[k].slots[i];
    let after = s.retired(id).objects[k].slots[i];
    accounting::lemma_without_region(slot, id);
    if after.contains(r) {
        let j = after.index_of(r);
        assert(!after[j].from_region(id) && slot.contains(after[j]));
    }
    if slot.contains(r) && !r.from_region(id) {
        let j = slot.index_of(r);
        assert(after.contains(slot[j]));
    }
}

/// A refused `publish` changes nothing; one that is taken adds one replica and
/// touches no pool.
pub proof fn law_publish_takes_no_room(s: StateView, key: Seq<u8>, op: OpPublishView)
    ensures
        s.published(key, op).pools == s.pools,
        s.publish_result(key, op) is Err ==> s.published(key, op) == s,
        s.publish_result(key, op) is Ok ==> s.published(key, op).objects[key].slots[op.slot.0 as int].len()
            == s.objects[key].slots[op.slot.0 as int].len() + 1,
{
}

// ---- partial residency ----

/// A slot that a `put` could not write stays empty, and the next `put` of the
/// same object may fill it.
pub proof fn law_failed_slots_can_be_refilled(
    s: StateView,
    order: Seq<Device>,
    key: Seq<u8>,
    op: OpPutView,
    data: Seq<Seq<u8>>,
    i: int,
)
    requires
        s.inv(),
        placing::data_fits(op, data),
        s.put(order, key, op, data).1 is Ok,
        0 <= i < op.slots.len(),
        s.writable(key, i as nat),
        s.put(order, key, op, data).1->Ok_0[i] is Err,
    ensures
        ({
            let t = s.put(order, key, op, data).0;
            &&& t.objects.contains_key(key)
            &&& t.objects[key].spec == op.spec()
            &&& t.objects[key].slots[i].len() == 0
            &&& t.writable(key, i as nat)
        }),
{
    placing::lemma_put_slots(s, order, key, op, data, op.slots.len());
    let (t, results) = s.put_slots(order, key, op, data, op.slots.len());
    let slot = t.objects[key].slots[i];
    let start = s.reserved(key, op.spec()).objects[key];
    assert(slot == start.slots[i]);
}

/// What `stat` shows as resident is what a read finds: a sound read within a
/// slot succeeds exactly if the slot is resident, and is `Evicted` otherwise;
/// a key that `stat` does not know is `NotFound`.
pub proof fn law_stat_agrees_with_get(
    s: StateView,
    gpu_numa: Map<u16, u16>,
    node: NodeId,
    key: Seq<u8>,
    get: OpGetView,
)
    requires
        s.inv(),
        ops::checked_iovs(get.dst, None) is Ok,
    ensures
        s.info(node, key) is None ==> (s.source(gpu_numa, key, get) matches Err(e) && e.kind
            == ErrorKind::NotFound),
        s.info(node, key) matches Some(info) ==> get.slot.0 < info.slots.len() && get.src_offset
            + (ops::checked_iovs(get.dst, None)->Ok_0).1 <= info.slots[get.slot.0 as int].len ==> {
            if info.slots[get.slot.0 as int].replicas.len() > 0 {
                s.source(gpu_numa, key, get) is Ok
            } else {
                s.source(gpu_numa, key, get) matches Err(e) && e.kind == ErrorKind::Evicted
            }
        },
{
    if s.objects.contains_key(key) {
        assert(model::object_ok(s.objects[key], s.pools.dom()));
    }
}

} // verus!
