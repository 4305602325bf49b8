//! What a slot keeps over any sequence of calls.
use vstd::prelude::*;

use crate::ops;
use crate::ops::{OpGetView, OpPublishView, OpPutView};
use crate::region;
use crate::services::accounting;
use crate::services::laws;
use crate::services::memory;
use crate::services::memory::MemoryView;
use crate::services::model;
use crate::services::model::{DataView, ReplicaView, StateView};
use crate::services::order;
use crate::types::Device;

verus! {

/// A call that may change the store. (`get` and `stat` change nothing in it.)
pub enum Call {
    /// With what memory holds at the call.
    Put { key: Seq<u8>, op: OpPutView, mem: Map<u64, u8> },
    Publish { key: Seq<u8>, source: OpPublishView },
    Remove { keys: Seq<Seq<u8>> },
    RemovePrefix { prefix: Seq<u8> },
    RetireRegion { id: u64 },
}

/// The state after a call.
pub open spec fn called(s: StateView, order: Seq<Device>, call: Call) -> StateView {
    match call {
        Call::Put { key, op, mem } => s.put(order, key, op, memory::sources(mem, op)).0,
        Call::Publish { key, source } => s.published(key, source),
        Call::Remove { keys } => s.removed_all(keys, keys.len()),
        Call::RemovePrefix { prefix } => s.removed_prefix(prefix),
        Call::RetireRegion { id } => s.retired(id),
    }
}

/// The state after a sequence of calls.
pub open spec fn after(s: StateView, order: Seq<Device>, calls: Seq<Call>) -> StateView
    decreases calls.len(),
{
    if calls.len() == 0 {
        s
    } else {
        called(after(s, order, calls.drop_last()), order, calls.last())
    }
}

/// Whether a slot has a replica.
pub open spec fn resident(s: StateView, k: Seq<u8>, i: int) -> bool {
    &&& s.objects.contains_key(k)
    &&& 0 <= i < s.objects[k].slots.len()
    &&& s.objects[k].slots[i].len() > 0
}

/// Whether a slot has a replica from the first call to the last.
pub open spec fn stays(s: StateView, order: Seq<Device>, calls: Seq<Call>, k: Seq<u8>, i: int) -> bool {
    forall|n: int| 0 <= n <= calls.len() ==> resident(#[trigger] after(s, order, calls.take(n)), k, i)
}

/// Whether the replicas of a slot that the store owns hold `bytes`.
pub open spec fn holds(s: StateView, k: Seq<u8>, i: int, bytes: Seq<u8>) -> bool {
    forall|j: int|
        0 <= j < s.objects[k].slots[i].len() ==> match (
        #[trigger] s.objects[k].slots[i][j]).data {
            DataView::Owned(b) => b == bytes,
            DataView::External { .. } => true,
        }
}

proof fn lemma_removed_all_rest(s: StateView, keys: Seq<Seq<u8>>, n: nat, k: Seq<u8>)
    requires
        s.removed_all(keys, n).objects.contains_key(k),
    ensures
        s.objects.contains_key(k),
        s.removed_all(keys, n).objects[k] == s.objects[k],
    decreases n,
{
    if n > 0 {
        let p = s.removed_all(keys, (n - 1) as nat);
        assert(p.objects.contains_key(k));
        lemma_removed_all_rest(s, keys, (n - 1) as nat, k);
    }
}

/// Every call leaves a sound store sound: no pool holds more than its limit, and
/// every eviction order has one entry for every slot with a replica in its pool.
pub proof fn law_calls_keep_the_store_sound(s: StateView, order: Seq<Device>, call: Call)
    requires
        s.sound(),
    ensures
        called(s, order, call).sound(),
        called(s, order, call).within_limits(),
        called(s, order, call).queued(),
{
    match call {
        Call::Put { key, op, mem } => {
            if op.error() is None {
                memory::lemma_sources_fit(mem, op);
            }
            order::lemma_put_sound(s, order, key, op, memory::sources(mem, op));
        },
        Call::Publish { key, source } => {
            order::lemma_published_sound(s, key, source);
        },
        Call::Remove { keys } => {
            order::lemma_removed_all_sound(s, keys, keys.len());
        },
        Call::RemovePrefix { prefix } => {
            order::lemma_removed_prefix_sound(s, prefix);
        },
        Call::RetireRegion { id } => {
            order::lemma_retired_sound(s, id);
        },
    }
}

/// No call changes the bytes of a replica that stays: what a slot with a replica
/// has after any call it had before, but for memory that the call lends to it.
pub proof fn law_calls_keep_the_bytes(
    s: StateView,
    order: Seq<Device>,
    call: Call,
    k: Seq<u8>,
    i: int,
    r: ReplicaView,
)
    requires
        s.sound(),
        resident(s, k, i),
        called(s, order, call).objects.contains_key(k),
        called(s, order, call).objects[k].slots[i].contains(r),
    ensures
        called(s, order, call).objects[k].spec == s.objects[k].spec,
        called(s, order, call).objects[k].slots.len() == s.objects[k].slots.len(),
        s.objects[k].slots[i].contains(r) || (call is Publish && r.data is External),
{
    let t = called(s, order, call);
    let now = t.objects[k].slots[i];
    let slot = s.objects[k].slots[i];
    let j = now.index_of(r);
    assert(model::object_ok(s.objects[k], s.pools.dom()));
    law_calls_keep_the_store_sound(s, order, call);
    assert(model::object_ok(t.objects[k], t.pools.dom()));
    match call {
        Call::Put { key, op, mem } => {
            if op.error() is None {
                memory::lemma_sources_fit(mem, op);
            }
            laws::law_slots_are_write_once(s, order, key, op, memory::sources(mem, op), k, i, j);
        },
        Call::Publish { key, source } => {
            if s.publish_result(key, source) is Ok && k == key && i == source.slot.0 {
                if j < slot.len() {
                    assert(slot[j] == r);
                }
            } else {
                assert(slot[j] == r);
            }
        },
        Call::Remove { keys } => {
            lemma_removed_all_rest(s, keys, keys.len(), k);
        },
        Call::RemovePrefix { prefix } => {},
        Call::RetireRegion { id } => {
            accounting::lemma_without_region(slot, id);
            assert(slot.contains(now[j]));
        },
    }
}

/// Bytes that were written stay as they were written: over any sequence of calls
/// through which a slot has a replica, those of its replicas that the store owns
/// hold the bytes that they held before.
pub proof fn law_bytes_stay_as_written(
    s: StateView,
    order: Seq<Device>,
    calls: Seq<Call>,
    k: Seq<u8>,
    i: int,
    bytes: Seq<u8>,
)
    requires
        s.sound(),
        stays(s, order, calls, k, i),
        holds(s, k, i, bytes),
    ensures
        after(s, order, calls).sound(),
        after(s, order, calls).objects[k].spec == s.objects[k].spec,
        resident(after(s, order, calls), k, i),
        holds(after(s, order, calls), k, i, bytes),
    decreases calls.len(),
{
    assert(calls.take(calls.len() as int) =~= calls);
    assert(resident(after(s, order, calls.take(calls.len() as int)), k, i));
    if calls.len() > 0 {
        let before = calls.drop_last();
        assert forall|n: int| 0 <= n <= before.len() implies resident(
            #[trigger] after(s, order, before.take(n)),
            k,
            i,
        ) by {
            assert(before.take(n) =~= calls.take(n));
            assert(resident(after(s, order, calls.take(n)), k, i));
        }
        law_bytes_stay_as_written(s, order, before, k, i, bytes);
        let p = after(s, order, before);
        let t = after(s, order, calls);
        law_calls_keep_the_store_sound(p, order, calls.last());
        assert forall|j: int| 0 <= j < t.objects[k].slots[i].len() implies match (
        #[trigger] t.objects[k].slots[i][j]).data {
            DataView::Owned(b) => b == bytes,
            DataView::External { .. } => true,
        } by {
            let r = t.objects[k].slots[i][j];
            law_calls_keep_the_bytes(p, order, calls.last(), k, i, r);
            if r.data is Owned {
                let c = p.objects[k].slots[i].index_of(r);
                assert(p.objects[k].slots[i][c] == r);
            }
        }
        assert(t.objects[k].slots[i].contains(t.objects[k].slots[i][0]));
        law_calls_keep_the_bytes(p, order, calls.last(), k, i, t.objects[k].slots[i][0]);
    } else {
        assert(after(s, order, calls.take(0)) == s);
    }
}

/// Whether memory that was lent for a slot holds `bytes`.
pub open spec fn lent_alike(
    s: StateView,
    mem: Map<u64, u8>,
    k: Seq<u8>,
    i: int,
    bytes: Seq<u8>,
) -> bool {
    forall|j: int|
        0 <= j < s.objects[k].slots[i].len() && (
        #[trigger] s.objects[k].slots[i][j]).data is External ==> s.objects[k].slots[i][j].data.bytes(
            mem,
        ) == bytes
}

/// A read gives back what was written, whatever was called in between: after a
/// `put` that reported slot `i` as written, and any calls through which the slot
/// has a replica, a `get` of any range of it into memory that does not overlap
/// itself leaves there the bytes that the sources held at the `put`, from
/// whichever replica is nearest. Memory that was lent for the slot has to hold
/// the same bytes.
pub proof fn law_get_reads_what_put_wrote_before(
    m: MemoryView,
    mem: Map<u64, u8>,
    key: Seq<u8>,
    op: OpPutView,
    calls: Seq<Call>,
    later: Map<u64, u8>,
    get: OpGetView,
)
    requires
        m.state.sound(),
        op.error() is None,
        m.state.put(m.info.devices, key, op, memory::sources(mem, op)).1 is Ok,
        get.slot.0 < op.slots.len(),
        m.state.put(m.info.devices, key, op, memory::sources(mem, op)).1->Ok_0[get.slot.0 as int] is Ok,
        stays(
            m.state.put(m.info.devices, key, op, memory::sources(mem, op)).0,
            m.info.devices,
            calls,
            key,
            get.slot.0 as int,
        ),
        lent_alike(
            after(
                m.state.put(m.info.devices, key, op, memory::sources(mem, op)).0,
                m.info.devices,
                calls,
            ),
            later,
            key,
            get.slot.0 as int,
            memory::sources(mem, op)[get.slot.0 as int],
        ),
        ops::checked_iovs(get.dst, None) is Ok,
        get.src_offset + region::iov_total(get.dst) <= op.slots[get.slot.0 as int].spec.len,
        region::segs_mapped(later, region::segments(get.dst)),
        region::segs_disjoint(region::segments(get.dst)),
    ensures
        ({
            let n = MemoryView {
                state: after(
                    m.state.put(m.info.devices, key, op, memory::sources(mem, op)).0,
                    m.info.devices,
                    calls,
                ),
                ..m
            };
            &&& n.get_result(key, get) is Ok
            &&& region::gathered(n.get_memory(later, key, get), region::segments(get.dst))
                == memory::sources(mem, op)[get.slot.0 as int].subrange(
                get.src_offset as int,
                get.src_offset + region::iov_total(get.dst),
            )
        }),
{
    let i = get.slot.0 as int;
    let data = memory::sources(mem, op);
    let s = m.state.put(m.info.devices, key, op, data).0;
    let t = after(s, m.info.devices, calls);
    memory::lemma_sources_fit(mem, op);
    laws::lemma_put_holds(m.state, m.info.devices, key, op, data, i);
    order::lemma_put_sound(m.state, m.info.devices, key, op, data);
    law_bytes_stay_as_written(s, m.info.devices, calls, key, i, data[i]);
    ops::law_iovs_pass_exactly_if_sound(get.dst, None);
    assert(model::object_ok(t.objects[key], t.pools.dom()));
    assert(op.spec().slots[i] == op.slots[i].spec);
    memory::lemma_source(t, m.gpu_numa, key, get);
    let r = t.source(m.gpu_numa, key, get)->Ok_0;
    let slot = t.objects[key].slots[i];
    let j = slot.index_of(r);
    assert(slot[j] == r);
    assert(t.objects[key].slots[i][j].data.bytes(later) == data[i]);
    let part = data[i].subrange(get.src_offset as int, get.src_offset + region::iov_total(get.dst));
    region::law_gather_reads_what_scatter_wrote(later, region::segments(get.dst), part);
    assert(part.take(part.len() as int) =~= part);
}

} // verus!
