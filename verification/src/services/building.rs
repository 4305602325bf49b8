//! What a new backend starts from, on the devices that were named.
use vstd::prelude::*;

use crate::services::memory;
use crate::services::memory::MemoryBuilderView;
use crate::types::Device;

verus! {

/// Whether the entry at `i` is the last for a device.
pub open spec fn named_last(
    devices: Seq<(Device, Option<u64>)>,
    i: int,
    device: Device,
) -> bool {
    &&& 0 <= i < devices.len()
    &&& devices[i].0 == device
    &&& forall|j: int| i < j < devices.len() ==> (#[trigger] devices[j]).0 != device
}

proof fn lemma_pools(devices: Seq<(Device, Option<u64>)>, device: Device) -> (i: int)
    ensures
        ({
            let pools = memory::fresh_pools(devices);
            &&& pools.contains_key(device) ==> named_last(devices, i, device)
                && pools[device].capacity == devices[i].1 && pools[device].used == 0
                && pools[device].fifo.len() == 0
            &&& !pools.contains_key(device) ==> forall|j: int|
                0 <= j < devices.len() ==> (#[trigger] devices[j]).0 != device
        }),
    decreases devices.len(),
{
    if devices.len() == 0 {
        0
    } else if devices.last().0 == device {
        devices.len() - 1
    } else {
        let before = devices.drop_last();
        let i = lemma_pools(before, device);
        if memory::fresh_pools(before).contains_key(device) {
            assert(devices[i] == before[i]);
            assert forall|j: int| i < j < devices.len() implies (#[trigger] devices[j]).0
                != device by {
                if j < before.len() {
                    assert(before[j].0 != device);
                }
            }
        } else {
            assert forall|j: int| 0 <= j < devices.len() implies (#[trigger] devices[j]).0
                != device by {
                if j < before.len() {
                    assert(before[j].0 != device);
                }
            }
        }
        i
    }
}

/// A new backend holds nothing, and serves the devices that were named, in their
/// order, each within the limit named last for it; where none was named, it serves
/// one NUMA node without a limit.
pub proof fn law_new_backends_serve_what_was_named(b: MemoryBuilderView, device: Device) -> (i: int)
    ensures
        ({
            let m = b.built();
            let pools = m.state.pools;
            &&& m.state.objects.dom() == Set::<Seq<u8>>::empty()
            &&& b.devices.len() > 0 ==> {
                &&& m.info.devices.len() == b.devices.len()
                &&& forall|j: int|
                    0 <= j < b.devices.len() ==> m.info.devices[j] == (#[trigger] b.devices[j]).0
                &&& pools.contains_key(device) ==> named_last(b.devices, i, device)
                    && pools[device].capacity == b.devices[i].1
                &&& !pools.contains_key(device) ==> forall|j: int|
                    0 <= j < b.devices.len() ==> (#[trigger] b.devices[j]).0 != device
            }
            &&& b.devices.len() == 0 ==> {
                &&& m.info.devices == seq![Device::Cpu { numa: 0 }]
                &&& pools.contains_key(device) <==> device == (Device::Cpu { numa: 0 })
                &&& pools.contains_key(device) ==> pools[device].capacity is None
            }
            &&& pools.contains_key(device) ==> pools[device].used == 0 && pools[device].fifo.len()
                == 0
            &&& m.gpu_numa == b.gpu_numa
            &&& m.info.node == b.node
            &&& m.info.capability == b.capability
        }),
{
    let i = lemma_pools(b.served(), device);
    assert(b.built().state.objects.dom() =~= Set::<Seq<u8>>::empty());
    if b.devices.len() == 0 {
        assert(b.served()[0].0 == Device::Cpu { numa: 0 });
        assert(b.built().info.devices =~= seq![Device::Cpu { numa: 0 }]);
    }
    i
}

} // verus!
