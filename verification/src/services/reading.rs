//! Which replica is read, and what a read that cannot be served is answered.
use vstd::prelude::*;

use crate::error::{ErrorKind, ErrorView};
use crate::local::backend::LocalView;
use crate::local::laws;
use crate::local::ledger;
use crate::local::ledger::{LocalReplica, LocalState};
use crate::ops;
use crate::ops::{OpGetView, OpPublishView};
use crate::region;
use crate::requests;
use crate::services::memory;
use crate::services::memory::MemoryView;
use crate::services::model::{ReplicaView, StateView};
use crate::topology;
use crate::types::{Device, SlotIdx, Tier};

verus! {

/// Whether one tier is read rather than another at the same distance: memory of
/// the store before lent memory, and both before an SSD.
pub open spec fn reads_before(a: Tier, b: Tier) -> bool {
    match (a, b) {
        (Tier::Dram, Tier::External) => true,
        (Tier::Dram, Tier::Ssd) => true,
        (Tier::External, Tier::Ssd) => true,
        _ => false,
    }
}

/// A read is served from the nearest replica: none of the slot is less far from
/// the destination, and of those that are as near none is in a tier that is read
/// before.
pub proof fn law_reads_are_served_from_the_nearest(
    m: MemoryView,
    key: Seq<u8>,
    op: OpGetView,
    r: ReplicaView,
) -> (i: int)
    requires
        m.state.inv(),
        m.get_result(key, op) is Ok,
        m.state.objects[key].slots[op.slot.0 as int].contains(r),
    ensures
        ({
            let slot = m.state.objects[key].slots[op.slot.0 as int];
            let from = m.get_result(key, op)->Ok_0.from;
            let dst = op.dst[0].region.device;
            let served = topology::distance(m.gpu_numa, dst, from.device);
            let other = topology::distance(m.gpu_numa, dst, r.device);
            &&& served <= other
            &&& served == other ==> !reads_before(r.tier, from.tier)
            &&& 0 <= i < slot.len()
            &&& slot[i].device == from.device
            &&& slot[i].tier == from.tier
            &&& from.node == m.info.node
            &&& m.state.source(m.gpu_numa, key, op) == Ok::<ReplicaView, ErrorView>(slot[i])
        }),
{
    let slot = m.state.objects[key].slots[op.slot.0 as int];
    let dst = op.dst[0].region.device;
    ops::law_iovs_pass_exactly_if_sound(op.dst, None);
    let i = memory::lemma_some_nearest(m.gpu_numa, dst, slot);
    memory::law_nearest_is_unique(m.gpu_numa, dst, slot, i);
    let j = slot.index_of(r);
    assert(slot[j] == r);
    i
}

/// The single-node backend reads from the nearest replica too.
pub proof fn law_local_reads_are_served_from_the_nearest(
    v: LocalView,
    key: Seq<u8>,
    op: OpGetView,
    r: LocalReplica,
) -> (i: int)
    requires
        v.get_result(key, op) is Ok,
        v.state.objects[key].slots[op.slot.0 as int].replicas.contains(r),
    ensures
        ({
            let slot = v.state.objects[key].slots[op.slot.0 as int].replicas;
            let from = v.get_result(key, op)->Ok_0;
            let dst = op.dst[0].region.device;
            let served = topology::distance(v.topo.gpu_numa, dst, from.device);
            let other = topology::distance(v.topo.gpu_numa, dst, r.device);
            &&& served <= other
            &&& served == other ==> !reads_before(r.tier, from.tier)
            &&& 0 <= i < slot.len()
            &&& slot[i] == from
        }),
{
    let slot = v.state.objects[key].slots[op.slot.0 as int].replicas;
    let dst = op.dst[0].region.device;
    ops::law_iovs_pass_exactly_if_sound(op.dst, None);
    let i = laws::lemma_nearest_first(v.topo.gpu_numa, dst, slot, slot.len() as int);
    assert(slot.take(slot.len() as int) =~= slot);
    let c = choose|c: int| ledger::is_nearest_local(v.topo.gpu_numa, dst, slot, c);
    let j = slot.index_of(r);
    assert(slot[j] == r);
    c
}

/// Two devices are as far apart as two others of the same kinds: any two GPUs;
/// memory and a GPU of its socket; memory and a GPU of another; and memory of
/// two sockets, as memory and a GPU of which nothing is known.
pub proof fn law_distance_goes_by_kind(
    gpu_numa: Map<u16, u16>,
    a: u16,
    b: u16,
    c: u16,
    d: u16,
    unknown: u16,
)
    requires
        a != b,
        c != d,
        !gpu_numa.contains_key(unknown),
    ensures
        topology::distance(gpu_numa, Device::Gpu { index: a }, Device::Gpu { index: b })
            == topology::distance(gpu_numa, Device::Gpu { index: c }, Device::Gpu { index: d }),
        topology::distance(gpu_numa, Device::Cpu { numa: a }, Device::Cpu { numa: b })
            == topology::distance(gpu_numa, Device::Gpu { index: unknown }, Device::Cpu { numa: c }),
        gpu_numa.contains_key(a) && gpu_numa.contains_key(c) ==> topology::distance(
            gpu_numa,
            Device::Gpu { index: a },
            Device::Cpu { numa: gpu_numa[a] },
        ) == topology::distance(
            gpu_numa,
            Device::Gpu { index: c },
            Device::Cpu { numa: gpu_numa[c] },
        ),
        gpu_numa.contains_key(a) && gpu_numa.contains_key(c) && gpu_numa[a] != b && gpu_numa[c] != d
            ==> topology::distance(gpu_numa, Device::Gpu { index: a }, Device::Cpu { numa: b })
            == topology::distance(gpu_numa, Device::Gpu { index: c }, Device::Cpu { numa: d }),
{
}

/// What a read is answered that cannot be served.
pub open spec fn read_refusal(
    there: bool,
    slots: nat,
    slot: SlotIdx,
    end: int,
    len: u64,
    replicas: nat,
) -> Option<ErrorKind> {
    if !there {
        Some(ErrorKind::NotFound)
    } else if slot.0 >= slots || end > len {
        Some(ErrorKind::InvalidInput)
    } else if replicas == 0 {
        Some(ErrorKind::Evicted)
    } else {
        None
    }
}

pub open spec fn kind_of<T>(r: Result<T, ErrorView>) -> Option<ErrorKind> {
    match r {
        Ok(_) => None,
        Err(e) => Some(e.kind),
    }
}

/// A read into sound memory succeeds exactly if the key is there, the slot is
/// one of its slots, the range lies in the slot and the slot has a replica; it is
/// otherwise answered `NotFound`, `InvalidInput` or `Evicted`.
pub proof fn law_reads_are_refused_for_cause(
    m: MemoryView,
    v: LocalView,
    key: Seq<u8>,
    op: OpGetView,
)
    requires
        ops::checked_iovs(op.dst, None) is Ok,
    ensures
        ({
            let obj = m.state.objects[key];
            let i = op.slot.0 as int;
            kind_of(m.get_result(key, op)) == read_refusal(
                m.state.objects.contains_key(key),
                obj.slots.len(),
                op.slot,
                op.src_offset + region::iov_total(op.dst),
                obj.spec.slots[i].len,
                obj.slots[i].len(),
            )
        }),
        ({
            let obj = v.state.objects[key];
            let i = op.slot.0 as int;
            kind_of(v.state.source(v.topo.gpu_numa, key, op)) == read_refusal(
                v.state.objects.contains_key(key),
                obj.slots.len(),
                op.slot,
                op.src_offset + region::iov_total(op.dst),
                obj.spec.slots[i].len,
                obj.slots[i].replicas.len(),
            )
        }),
{
    ops::law_iovs_pass_exactly_if_sound(op.dst, None);
}

/// Memory is lent for a slot exactly if it is sound, the key is there, the slot
/// is one of its slots and the lengths agree; it is otherwise answered
/// `InvalidInput` or `NotFound`.
pub proof fn law_publications_are_refused_for_cause(
    s: StateView,
    l: LocalState,
    key: Seq<u8>,
    op: OpPublishView,
)
    ensures
        kind_of(s.publish_result(key, op)) == publish_refusal(
            ops::checked_iovs(op.src, None) is Ok,
            s.objects.contains_key(key),
            s.objects[key].slots.len(),
            op,
            s.objects[key].spec.slots[op.slot.0 as int].len,
        ),
        kind_of(l.publish_result(key, op)) == publish_refusal(
            ops::checked_iovs(op.src, None) is Ok,
            l.objects.contains_key(key),
            l.objects[key].slots.len(),
            op,
            l.objects[key].spec.slots[op.slot.0 as int].len,
        ),
{
    ops::law_iovs_pass_exactly_if_sound(op.src, None);
    requests::law_bad_lists_are_invalid_input(op.src, None);
}

/// What memory that cannot be lent is answered.
pub open spec fn publish_refusal(
    sound: bool,
    there: bool,
    slots: nat,
    op: OpPublishView,
    len: u64,
) -> Option<ErrorKind> {
    if !sound {
        Some(ErrorKind::InvalidInput)
    } else if !there || op.slot.0 >= slots {
        Some(ErrorKind::NotFound)
    } else if region::iov_total(op.src) != len {
        Some(ErrorKind::InvalidInput)
    } else {
        None
    }
}

/// What was lent for a slot is one more replica of it, last, where the memory
/// is; nothing else changes.
pub proof fn law_publications_add_one_replica(
    s: StateView,
    key: Seq<u8>,
    op: OpPublishView,
    k: Seq<u8>,
    i: int,
)
    requires
        s.publish_result(key, op) is Ok,
        s.objects.contains_key(k),
        0 <= i < s.objects[k].slots.len(),
    ensures
        ({
            let t = s.published(key, op);
            let before = s.objects[k].slots[i];
            let after = t.objects[k].slots[i];
            &&& t.objects.dom() == s.objects.dom()
            &&& t.objects[k].spec == s.objects[k].spec
            &&& t.objects[k].slots.len() == s.objects[k].slots.len()
            &&& if k == key && i == op.slot.0 {
                &&& after.len() == before.len() + 1
                &&& after.drop_last() == before
                &&& after.last().device == op.src[0].region.device
                &&& after.last().tier == Tier::External
                &&& !after.last().misplaced
                &&& after.last().data is External
                &&& after.last().data->segs == region::segments(op.src)
                &&& forall|x: int|
                    0 <= x < op.src.len() ==> after.last().from_region(
                        (#[trigger] op.src[x]).region.id,
                    )
            } else {
                after == before
            }
        }),
{
    let t = s.published(key, op);
    assert(t.objects.dom() =~= s.objects.dom());
    if k == key && i == op.slot.0 {
        let after = t.objects[k].slots[i];
        assert(after.drop_last() =~= s.objects[k].slots[i]);
        assert forall|x: int| 0 <= x < op.src.len() implies after.last().from_region(
            (#[trigger] op.src[x]).region.id,
        ) by {
            assert(after.last().data->regions[x] == op.src[x].region.id);
        }
    }
}

} // verus!
