//! In-process reference backend. Defines the semantics every other backend
//! must reproduce: write-once slots, per-device pools with FIFO eviction of
//! `Cache` objects, `Explicit` never evicted, distance-based source
//! selection, `External` replicas that vanish with their region.
//!
//! It is an oracle, not a fast path: byte copies through `Vec`.
use std::collections::HashMap;

use vstd::prelude::*;

use crate::error;
use crate::error::{Error, ErrorKind, ErrorView};
use crate::index::Index;
use crate::ops;
use crate::ops::{OpGet, OpGetView, OpPublish, OpPut, OpPutView, RpGet, RpPut};
use crate::region;
use crate::region::{gather, scatter, HostMemory, MemoryRegion, RegionIds, RegionView};
use crate::services::model;
use crate::services::model::{Entry, ObjectView, PoolView, ReplicaView, StateView};
use crate::services::order;
use crate::services::placing;
use crate::services::removing;
use crate::services::state;
use crate::services::state::{Object, Pool, ReplicaData, ReplicaEntry, State};
use crate::text::decimal_string;
use crate::topology;
use crate::types;
use crate::types::{
    tier_rank, AccessInfo, AccessInfoView, Capability, Device, Key, Location, NodeId, ObjectInfo,
    ObjectInfoView, Placement, Replica, SlotInfo, Tier,
};

verus! {

broadcast use vstd::std_specs::hash::group_hash_axioms;

pub struct MemoryBuilder {
    node: NodeId,
    devices: Vec<(Device, Option<u64>)>,
    gpu_numa: HashMap<u16, u16>,
    capability: Capability,
}

pub struct MemoryBuilderView {
    pub node: NodeId,
    pub devices: Seq<(Device, Option<u64>)>,
    pub gpu_numa: Map<u16, u16>,
    pub capability: Capability,
}

impl View for MemoryBuilder {
    type V = MemoryBuilderView;

    closed spec fn view(&self) -> MemoryBuilderView {
        MemoryBuilderView {
            node: self.node,
            devices: self.devices@,
            gpu_numa: self.gpu_numa@,
            capability: self.capability,
        }
    }
}

/// The pools of a list of devices with limits: where a device is named twice,
/// the later limit holds.
pub open spec fn fresh_pools(devices: Seq<(Device, Option<u64>)>) -> Map<Device, PoolView>
    decreases devices.len(),
{
    if devices.len() == 0 {
        Map::empty()
    } else {
        fresh_pools(devices.drop_last()).insert(
            devices.last().0,
            PoolView { capacity: devices.last().1, used: 0, fifo: Seq::empty() },
        )
    }
}

impl MemoryBuilderView {
    /// The devices served: those named, or one NUMA node without a limit.
    pub open spec fn served(self) -> Seq<(Device, Option<u64>)> {
        if self.devices.len() == 0 {
            seq![(Device::Cpu { numa: 0 }, None)]
        } else {
            self.devices
        }
    }

    /// The backend that comes of it: nothing stored yet.
    pub open spec fn built(self) -> MemoryView {
        MemoryView {
            info: AccessInfoView {
                name: "memory"@,
                node: self.node,
                devices: Seq::new(self.served().len(), |i: int| self.served()[i].0),
                capability: self.capability,
            },
            gpu_numa: self.gpu_numa,
            state: StateView { objects: Map::empty(), pools: fresh_pools(self.served()) },
        }
    }
}

impl Default for MemoryBuilder {
    fn default() -> (r: Self)
        ensures
            r@ == (MemoryBuilderView {
                node: NodeId(0),
                devices: Seq::empty(),
                gpu_numa: Map::empty(),
                capability: types::unlimited(true),
            }),
    {
        Self::new()
    }
}

impl MemoryBuilder {
    pub fn new() -> (r: Self)
        ensures
            r@ == (MemoryBuilderView {
                node: NodeId(0),
                devices: Seq::empty(),
                gpu_numa: Map::empty(),
                capability: types::unlimited(true),
            }),
    {
        Self {
            node: NodeId(0),
            devices: Vec::new(),
            gpu_numa: HashMap::new(),
            capability: Capability::all(),
        }
    }

    pub fn node(self, node: NodeId) -> (r: Self)
        ensures
            r@ == (MemoryBuilderView { node, ..self@ }),
    {
        Self { node, ..self }
    }

    /// Add a device with unlimited capacity.
    pub fn device(self, device: Device) -> (r: Self)
        ensures
            r@ == (MemoryBuilderView { devices: self@.devices.push((device, None)), ..self@ }),
    {
        let mut b = self;
        b.devices.push((device, None));
        b
    }

    /// Add a device whose pool holds at most `capacity` bytes.
    pub fn device_with_capacity(self, device: Device, capacity: u64) -> (r: Self)
        ensures
            r@ == (MemoryBuilderView {
                devices: self@.devices.push((device, Some(capacity))),
                ..self@
            }),
    {
        let mut b = self;
        b.devices.push((device, Some(capacity)));
        b
    }

    /// Declare which NUMA node a GPU hangs off; drives the distance function.
    pub fn gpu_affinity(self, gpu: u16, numa: u16) -> (r: Self)
        ensures
            r@ == (MemoryBuilderView { gpu_numa: self@.gpu_numa.insert(gpu, numa), ..self@ }),
    {
        let mut b = self;
        b.gpu_numa.insert(gpu, numa);
        b
    }

    pub fn capability(self, capability: Capability) -> (r: Self)
        ensures
            r@ == (MemoryBuilderView { capability, ..self@ }),
    {
        Self { capability, ..self }
    }

    pub fn build(self) -> (r: Memory)
        ensures
            r.wf(),
            r@ == self@.built(),
    {
        let devices: Vec<(Device, Option<u64>)> = if self.devices.len() == 0 {
            vec![(Device::cpu(0), None)]
        } else {
            self.devices
        };
        assert(devices@ =~= self@.served());
        let mut order: Vec<Device> = Vec::new();
        let mut pools: Vec<Pool> = Vec::new();
        let objects: Index<Object> = Index::new();
        let mut state = State { objects, pools };
        assert(state@.pools =~= Map::empty());
        assert(state@.objects =~= Map::empty());
        assert(devices@.take(0) =~= Seq::empty());
        for i in 0..devices.len()
            invariant
                order@ == Seq::new(i as nat, |j: int| devices@[j].0),
                state.wf(),
                state@.objects == Map::<Seq<u8>, ObjectView>::empty(),
                state@.pools == fresh_pools(devices@.take(i as int)),
                forall|d: Device|
                    order@.contains(d) <==> #[trigger] state@.pools.contains_key(d),
        {
            let (device, capacity) = devices[i];
            let ghost order0 = order@;
            order.push(device);
            assert(order@ =~= Seq::new((i + 1) as nat, |j: int| devices@[j].0));
            assert(devices@.take(i + 1).drop_last() =~= devices@.take(i as int));
            state.add_pool(device, capacity);
            assert forall|d: Device|
                order@.contains(d) <==> #[trigger] state@.pools.contains_key(d) by {
                if order0.contains(d) {
                    let c = choose|c: int| 0 <= c < order0.len() && order0[c] == d;
                    assert(order@[c] == d);
                }
                if d == device {
                    assert(order@[i as int] == d);
                }
                if order@.contains(d) && d != device {
                    let c = choose|c: int| 0 <= c < order@.len() && order@[c] == d;
                    assert(order0[c] == d);
                }
            }
        }
        assert(devices@.take(devices@.len() as int) =~= devices@);
        proof {
            lemma_fresh(devices@);
        }
        let info = AccessInfo {
            name: "memory",
            node: self.node,
            devices: order,
            capability: self.capability,
        };
        let m = Memory { info, gpu_numa: self.gpu_numa, state };
        assert(m@ =~= self@.built());
        m
    }
}

proof fn lemma_fresh(devices: Seq<(Device, Option<u64>)>)
    ensures
        (StateView { objects: Map::empty(), pools: fresh_pools(devices) }).sound(),
        forall|d: Device| #[trigger]
            fresh_pools(devices).contains_key(d) ==> fresh_pools(devices)[d].used == 0
                && fresh_pools(devices)[d].fifo == Seq::<Entry>::empty(),
    decreases devices.len(),
{
    if devices.len() > 0 {
        lemma_fresh(devices.drop_last());
    }
    let s = StateView { objects: Map::empty(), pools: fresh_pools(devices) };
    assert forall|d: Device| #[trigger] s.pools.contains_key(d) implies s.queues(
        d,
        s.pools[d].fifo,
    ) by {}
}

pub struct Memory {
    info: AccessInfo,
    gpu_numa: HashMap<u16, u16>,
    state: State,
}

#[verifier::ext_equal]
pub struct MemoryView {
    pub info: AccessInfoView,
    pub gpu_numa: Map<u16, u16>,
    pub state: StateView,
}

impl View for Memory {
    type V = MemoryView;

    closed spec fn view(&self) -> MemoryView {
        MemoryView { info: self.info@, gpu_numa: self.gpu_numa@, state: self.state@ }
    }
}

/// What the sources of a request hold, one byte string per slot.
pub open spec fn sources(mem: Map<u64, u8>, op: OpPutView) -> Seq<Seq<u8>> {
    Seq::new(op.slots.len(), |i: int| region::gathered(mem, region::segments(op.slots[i].src)))
}

/// Whether the memory that a request reads is mapped.
pub open spec fn sources_mapped(mem: Map<u64, u8>, op: OpPutView) -> bool {
    forall|i: int|
        0 <= i < op.slots.len() ==> region::segs_mapped(mem, region::segments((#[trigger] op.slots[i]).src))
}

/// Whether the caller memory behind every published replica is mapped.
pub open spec fn externals_mapped(mem: Map<u64, u8>, s: StateView) -> bool {
    forall|k: Seq<u8>, i: int, j: int|
        s.objects.contains_key(k) && 0 <= i < s.objects[k].slots.len() && 0 <= j
            < s.objects[k].slots[i].len() && (
        #[trigger] s.objects[k].slots[i][j]).data is External ==> region::segs_mapped(
            mem,
            s.objects[k].slots[i][j].data->segs,
        )
}

pub open spec fn reply_view(r: Result<RpPut, Error>) -> Result<
    Seq<Result<(), ErrorView>>,
    ErrorView,
> {
    match r {
        Ok(rp) => Ok(rp@),
        Err(e) => Err(e@),
    }
}

pub open spec fn key_views(keys: Seq<Key>) -> Seq<Seq<u8>> {
    Seq::new(keys.len(), |i: int| keys[i]@)
}

pub open spec fn info_view(o: Option<ObjectInfo>) -> Option<ObjectInfoView> {
    match o {
        Some(info) => Some(info@),
        None => None,
    }
}

pub open spec fn info_views(infos: Seq<Option<ObjectInfo>>) -> Seq<Option<ObjectInfoView>> {
    Seq::new(infos.len(), |i: int| info_view(infos[i]))
}

impl MemoryView {
    /// Where a replica is.
    pub open spec fn location(self, r: ReplicaView) -> Location {
        model::location(self.info.node, r)
    }

    /// What a `get` answers.
    pub open spec fn get_result(self, key: Seq<u8>, op: OpGetView) -> Result<RpGet, ErrorView> {
        match self.state.source(self.gpu_numa, key, op) {
            Ok(r) => Ok(RpGet { from: self.location(r) }),
            Err(e) => Err(e),
        }
    }

    /// Memory after a `get`: the range read lies in the destinations; a refusal
    /// changes nothing.
    pub open spec fn get_memory(self, mem: Map<u64, u8>, key: Seq<u8>, op: OpGetView) -> Map<
        u64,
        u8,
    > {
        match self.state.source(self.gpu_numa, key, op) {
            Ok(r) => region::scattered(
                mem,
                region::segments(op.dst),
                r.data.bytes(mem).subrange(
                    op.src_offset as int,
                    op.src_offset + region::iov_total(op.dst),
                ),
            ),
            Err(_) => mem,
        }
    }
}

impl Memory {
    pub closed spec fn wf(&self) -> bool {
        &&& self.state.wf()
        &&& self.state@.sound()
        &&& forall|d: Device|
            self.info.devices@.contains(d) <==> #[trigger] self.state@.pools.contains_key(d)
    }

    /// What every well-formed backend keeps: a sound state, with every pool within
    /// its limit and in order, whose pools are those of the devices it reports.
    pub proof fn lemma_wf(&self)
        requires
            self.wf(),
        ensures
            self@.state.sound(),
            forall|d: Device|
                self@.info.devices.contains(d) <==> #[trigger] self@.state.pools.contains_key(d),
    {
    }

    pub fn builder() -> (r: MemoryBuilder)
        ensures
            r@ == (MemoryBuilderView {
                node: NodeId(0),
                devices: Seq::empty(),
                gpu_numa: Map::empty(),
                capability: types::unlimited(true),
            }),
    {
        MemoryBuilder::new()
    }

    /// Bytes currently held in the pool for `device`.
    pub fn used(&self, device: Device) -> (r: u64)
        requires
            self.wf(),
        ensures
            r == if self@.state.pools.contains_key(device) {
                self@.state.pools[device].used
            } else {
                0
            },
    {
        match self.state.find_pool(device) {
            Some(p) => self.state.pools[p].used,
            None => 0,
        }
    }

    /// Same ordering as `Topology::distance`; this backend is the semantic
    /// oracle, so the two must agree.
    pub fn distance(&self, a: Device, b: Device) -> (r: u32)
        ensures
            r == topology::distance(self@.gpu_numa, a, b),
    {
        if a == b {
            return 0;
        }
        match (a, b) {
            (Device::Gpu { .. }, Device::Gpu { .. }) => 1,  // NVLink
            (Device::Cpu { numa }, Device::Gpu { index }) => self.host_link(numa, index),
            (Device::Gpu { index }, Device::Cpu { numa }) => self.host_link(numa, index),
            (Device::Cpu { .. }, Device::Cpu { .. }) => 3,  // cross socket
        }
    }

    fn host_link(&self, numa: u16, index: u16) -> (r: u32)
        ensures
            r == topology::host_link(self@.gpu_numa, numa, index),
    {
        match self.gpu_numa.get(&index) {
            Some(n) => if *n == numa {
                2  // C2C / local PCIe
            } else {
                4  // cross socket + PCIe
            },
            None => 3,
        }
    }

    pub fn info(&self) -> (r: AccessInfo)
        ensures
            r@ == self@.info,
    {
        self.info.clone()
    }

    pub fn register(&self, ids: &mut RegionIds, addr: u64, len: u64, device: Device) -> (r: Result<
        MemoryRegion,
        Error,
    >)
        ensures
            device is Gpu && !self@.info.capability.gpu_memory ==> r is Err && r->Err_0@
                == ErrorView::new(ErrorKind::Unsupported, "gpu memory disabled"@) && final(ids)@
                == old(ids)@,
            !(device is Gpu && !self@.info.capability.gpu_memory) ==> r is Ok && r->Ok_0@
                == (RegionView { id: old(ids)@, addr, len, device }) && final(ids)@ == old(
                ids,
            )@.wrapping_add(1),
    {
        if device.is_gpu() && !self.info.capability.gpu_memory {
            return Err(Error::new(ErrorKind::Unsupported, "gpu memory disabled"));
        }
        let id = MemoryRegion::next_id(ids);
        Ok(MemoryRegion::with_id(id, addr, len, device))
    }

    /// Whether the counts of used bytes can hold what a request may add.
    pub fn can_count(&self, op: &OpPut<'_>) -> (r: bool)
        requires
            self.wf(),
        ensures
            r == placing::countable(self@.state, op@),
    {
        let mut total: u64 = 0;
        let mut overflow = false;
        let mut i: usize = 0;
        while i < op.slots.len() && !overflow
            invariant
                i <= op.slots@.len(),
                !overflow ==> total == placing::demand(op@, i as nat),
                overflow ==> placing::demand(op@, op@.slots.len()) > u64::MAX,
            decreases op.slots@.len() - i,
        {
            let slot = &op.slots[i];
            assert(op@.slots[i as int] == slot@);
            let copies: u64 = match &slot.spec.placement {
                Placement::Each(ds) => ds.len() as u64,
                _ => 1,
            };
            proof {
                placing::lemma_demand_grows(op@, (i + 1) as nat, op@.slots.len());
            }
            match copies.checked_mul(slot.spec.len) {
                Some(n) => match total.checked_add(n) {
                    Some(t) => {
                        total = t;
                    },
                    None => {
                        overflow = true;
                    },
                },
                None => {
                    overflow = true;
                },
            }
            i = i + 1;
        }
        if overflow {
            proof {
                if self.state.pools@.len() > 0 {
                    state::lemma_pool_at(self.state.pools@, 0);
                    assert(self@.state.pools.contains_key(self.state.pools@[0].device));
                }
            }
            return self.state.pools.len() == 0;
        }
        for p in 0..self.state.pools.len()
            invariant
                self.wf(),
                !overflow,
                total == placing::demand(op@, op@.slots.len()),
                forall|j: int|
                    0 <= j < p ==> (#[trigger] self.state.pools@[j]).used + total <= u64::MAX,
        {
            if self.state.pools[p].used.checked_add(total).is_none() {
                proof {
                    state::lemma_pool_at(self.state.pools@, p as int);
                    assert(self@.state.pools.contains_key(self.state.pools@[p as int].device));
                }
                return false;
            }
        }
        proof {
            assert forall|d: Device| #[trigger]
                self@.state.pools.contains_key(d) implies self@.state.pools[d].used + placing::demand(
                op@,
                op@.slots.len(),
            ) <= u64::MAX by {
                let c = choose|c: int|
                    0 <= c < self.state.pools@.len() && (#[trigger] self.state.pools@[c]).device
                        == d;
                state::lemma_pool_at(self.state.pools@, c);
            }
        }
        true
    }

    /// Write-once per slot, with the bytes of each slot at hand. Creates the
    /// object if absent; otherwise the spec must match and only empty slots
    /// are written.
    pub fn put_bytes(&mut self, key: Key, op: &OpPut<'_>, data: Vec<Vec<u8>>) -> (r: Result<
        RpPut,
        Error,
    >)
        requires
            old(self).wf(),
            op@.error() is None ==> placing::data_fits(op@, byte_views(data@)) && placing::countable(
                old(self)@.state,
                op@,
            ),
        ensures
            final(self).wf(),
            final(self)@.info == old(self)@.info,
            final(self)@.gpu_numa == old(self)@.gpu_numa,
            (final(self)@.state, reply_view(r)) == old(self)@.state.put(
                old(self)@.info.devices,
                key@,
                op@,
                byte_views(data@),
            ),
    {
        let ghost s = self.state@;
        let ghost order = self.info.devices@;
        let ghost bytes = byte_views(data@);
        match op.validate() {
            Err(e) => return Err(e),
            Ok(_) => {},
        }
        let spec = op.spec();
        let found = self.state.objects.find(&key);
        if let Some(at) = found {
            let obj = self.state.objects.at(at);
            assert(s.objects[key@] == obj@);
            if !obj.spec.same(&spec) {
                return Err(
                    Error::new(
                        ErrorKind::SpecMismatch,
                        "existing object has a different spec",
                    ).with_context("key", key.debug_text()),
                );
            }
        }
        // Reserve the key; decide which slots are writable.
        let mut writable: Vec<bool> = Vec::new();
        for i in 0..op.slots.len()
            invariant
                self.wf(),
                s == self.state@,
                s.objects.contains_key(key@) ==> s.objects[key@].spec == op@.spec(),
                match found {
                    Some(at) => s.objects.contains_key(key@) && at
                        < self.state.objects.keys().len() && self.state.objects.keys()[at as int]
                        == key@,
                    None => !s.objects.contains_key(key@),
                },
                writable@.len() == i,
                forall|j: int|
                    0 <= j < i ==> #[trigger] writable@[j] == s.writable(key@, j as nat),
        {
            let w = match found {
                Some(at) => {
                    let obj = self.state.objects.at(at);
                    assert(s.objects[key@] == obj@);
                    assert(model::object_ok(s.objects[key@], s.pools.dom()));
                    assert(obj@.slots[i as int].len() == obj.slots@[i as int].replicas@.len());
                    obj.slots[i].replicas.len() == 0
                },
                None => true,
            };
            writable.push(w);
        }
        self.state.reserve(&key, &spec);
        // Place each writable slot (may evict other objects).
        let mut rest = data;
        let mut results: Vec<Result<(), Error>> = Vec::new();
        assert(error::results_view(results@) =~= Seq::empty());
        for i in 0..op.slots.len()
            invariant
                self.state.wf(),
                self.info == old(self).info,
                self.gpu_numa == old(self).gpu_numa,
                order == self.info.devices@,
                s.inv(),
                s.sound(),
                s.objects.contains_key(key@) ==> s.objects[key@].spec == op@.spec(),
                placing::data_fits(op@, bytes),
                placing::countable(s, op@),
                writable@.len() == op@.slots.len(),
                forall|j: int|
                    0 <= j < op@.slots.len() ==> #[trigger] writable@[j] == s.writable(
                        key@,
                        j as nat,
                    ),
                rest@.len() == bytes.len(),
                forall|j: int| i <= j < bytes.len() ==> (#[trigger] rest@[j])@ == bytes[j],
                (self.state@, error::results_view(results@)) == s.put_slots(
                    order,
                    key@,
                    op@,
                    bytes,
                    i as nat,
                ),
        {
            let ghost before = error::results_view(results@);
            let ghost t = self.state@;
            proof {
                placing::lemma_put_slots(s, order, key@, op@, bytes, i as nat);
            }
            assert(writable@[i as int] == s.writable(key@, i as nat));
            let result = if !writable[i] {
                Err(
                    Error::new(ErrorKind::AlreadyExists, "slot already written").with_context(
                        "slot",
                        decimal_string(i as u64),
                    ),
                )
            } else {
                let slot = &op.slots[i];
                assert(op@.slots[i as int] == slot@);
                let mut chunk: Vec<u8> = Vec::new();
                core::mem::swap(&mut rest[i], &mut chunk);
                proof {
                    placing::lemma_reserved(s, key@, op@);
                    lemma_demand_step(op@, i as nat);
                    assert(op@.spec().slots[i as int] == slot.spec@);
                    assert(t.objects[key@].slots[i as int].len() == 0);
                    assert forall|d: Device| #[trigger]
                        t.pools.contains_key(d) implies t.pools[d].used + placing::width(
                        slot.spec.placement@,
                    ) * slot.spec.len as nat <= u64::MAX by {
                        assert(s.pools.contains_key(d));
                    }
                }
                self.state.place(
                    &self.info.devices,
                    &key,
                    i,
                    &slot.spec.placement,
                    chunk,
                    slot.spec.len,
                )
            };
            results.push(result);
            assert(error::results_view(results@) =~= before.push(error::result_view(result)));
        }
        proof {
            placing::lemma_put_slots(s, order, key@, op@, bytes, op@.slots.len());
            order::lemma_put_sound(s, order, key@, op@, bytes);
        }
        Ok(RpPut { slots: results })
    }
}

impl Memory {
    /// Write-once per slot. Creates the object if absent; otherwise the spec
    /// must match and only empty slots are written.
    pub fn put(&mut self, mem: &HostMemory, key: Key, op: OpPut<'_>) -> (r: Result<RpPut, Error>)
        requires
            old(self).wf(),
            op@.error() is None ==> sources_mapped(mem@, op@) && placing::countable(
                old(self)@.state,
                op@,
            ),
        ensures
            final(self).wf(),
            final(self)@.info == old(self)@.info,
            final(self)@.gpu_numa == old(self)@.gpu_numa,
            (final(self)@.state, reply_view(r)) == old(self)@.state.put(
                old(self)@.info.devices,
                key@,
                op@,
                sources(mem@, op@),
            ),
    {
        match op.validate() {
            Err(e) => return Err(e),
            Ok(_) => {},
        }
        let mut data: Vec<Vec<u8>> = Vec::new();
        for i in 0..op.slots.len()
            invariant
                sources_mapped(mem@, op@),
                byte_views(data@) == sources(mem@, op@).take(i as int),
        {
            let ghost before = byte_views(data@);
            assert(op@.slots[i as int] == op.slots@[i as int]@);
            assert(region::segs_mapped(mem@, region::segments(op@.slots[i as int].src)));
            data.push(gather(mem, op.slots[i].src));
            assert(byte_views(data@) =~= before.push(sources(mem@, op@)[i as int]));
            assert(byte_views(data@) =~= sources(mem@, op@).take(i + 1));
        }
        assert(byte_views(data@) =~= sources(mem@, op@));
        proof {
            lemma_sources_fit(mem@, op@);
        }
        self.put_bytes(key, &op, data)
    }

    /// Register user memory as an `External` replica of an existing slot.
    pub fn publish(&mut self, key: Key, op: OpPublish<'_>) -> (r: Result<(), Error>)
        requires
            old(self).wf(),
        ensures
            final(self).wf(),
            final(self)@ == (MemoryView {
                state: old(self)@.state.published(key@, op@),
                ..old(self)@
            }),
            error::result_view(r) == old(self)@.state.publish_result(key@, op@),
    {
        let ghost s = self.state@;
        let (device, total) = match op.validate() {
            Err(e) => return Err(e),
            Ok(v) => v,
        };
        let at = match self.state.objects.find(&key) {
            Some(at) => at,
            None => return Err(
                Error::new(ErrorKind::NotFound, "no such key").with_context(
                    "key",
                    key.debug_text(),
                ),
            ),
        };
        let idx: usize = op.slot.0 as usize;
        let obj = self.state.objects.at(at);
        assert(s.objects[key@] == obj@);
        assert(model::object_ok(obj@, s.pools.dom()));
        if idx >= obj.spec.slots.len() {
            return Err(
                Error::new(ErrorKind::NotFound, "no such slot").with_context(
                    "slot",
                    decimal_string(op.slot.0 as u64),
                ),
            );
        }
        let expected: u64 = obj.spec.slots[idx].len;
        assert(expected == obj@.spec.slots[idx as int].len);
        if expected != total {
            return Err(
                Error::new(
                    ErrorKind::InvalidInput,
                    "published length differs from slot length",
                ).with_context("slot", decimal_string(op.slot.0 as u64)).with_context(
                    "len",
                    decimal_string(total),
                ).with_context("expected", decimal_string(expected)),
            );
        }
        assert(op@.src[0] == op.src@[0]@);
        let mut segs: Vec<(u64, u64)> = Vec::new();
        let mut regions: Vec<u64> = Vec::new();
        for i in 0..op.src.len()
            invariant
                segs@ == region::segments(op@.src).take(i as int),
                regions@ == model::region_ids(op@.src).take(i as int),
        {
            assert(op@.src[i as int] == op.src@[i as int]@);
            segs.push((op.src[i].as_ptr(), op.src[i].len));
            regions.push(op.src[i].region.id());
            assert(segs@ =~= region::segments(op@.src).take(i + 1));
            assert(regions@ =~= model::region_ids(op@.src).take(i + 1));
        }
        assert(segs@ =~= region::segments(op@.src));
        assert(regions@ =~= model::region_ids(op@.src));
        let entry = ReplicaEntry {
            device,
            tier: Tier::External,
            misplaced: false,
            data: ReplicaData::External { segs, regions },
        };
        let ghost old_slots = obj@.slots;
        let ghost replica = entry@;
        let ghost m0 = self.state.objects@;
        let obj = self.state.objects.at_mut(at);
        let ghost obj0 = *obj;
        obj.slots[idx].replicas.push(entry);
        let ghost obj1 = *obj;
        proof {
            assert(obj1.slots@[idx as int]@ =~= obj0.slots@[idx as int]@.push(replica));
            assert(obj1@.slots =~= obj0@.slots.update(
                idx as int,
                obj0@.slots[idx as int].push(replica),
            ));
            ops::law_iovs_pass_exactly_if_sound(op@.src, None);
            removing::lemma_published(s, key@, op@);
            order::lemma_published_sound(s, key@, op@);
            assert(self.state@.objects =~= s.published(key@, op@).objects);
        }
        Ok(())
    }

    pub fn stat(&self, keys: &[Key]) -> (r: Vec<Option<ObjectInfo>>)
        requires
            self.wf(),
        ensures
            r@.len() == keys@.len(),
            forall|i: int|
                0 <= i < keys@.len() ==> info_view(#[trigger] r@[i]) == self@.state.info(
                    self@.info.node,
                    keys@[i]@,
                ),
    {
        let mut out: Vec<Option<ObjectInfo>> = Vec::new();
        for i in 0..keys.len()
            invariant
                self.wf(),
                out@.len() == i,
                forall|j: int|
                    0 <= j < i ==> info_view(#[trigger] out@[j]) == self@.state.info(
                        self@.info.node,
                        keys@[j]@,
                    ),
        {
            let info = match self.state.objects.find(&keys[i]) {
                Some(at) => {
                    let obj = self.state.objects.at(at);
                    assert(self@.state.objects.contains_key(keys@[i as int]@));
                    assert(self@.state.objects[keys@[i as int]@] == obj@);
                    assert(model::object_ok(obj@, self@.state.pools.dom()));
                    Some(self.object_info(obj))
                },
                None => None,
            };
            out.push(info);
        }
        out
    }

    fn object_info(&self, obj: &Object) -> (r: ObjectInfo)
        requires
            obj@.slots.len() == obj@.spec.slots.len(),
        ensures
            r@ == model::object_info(self@.info.node, obj@),
    {
        let ghost goal = model::object_info(self@.info.node, obj@);
        let mut slots: Vec<SlotInfo> = Vec::new();
        for i in 0..obj.slots.len()
            invariant
                goal == model::object_info(self@.info.node, obj@),
                obj@.slots.len() == obj@.spec.slots.len(),
                types::slot_infos_view(slots@) == goal.slots.take(i as int),
        {
            let ghost before = types::slot_infos_view(slots@);
            let ghost slot = obj@.slots[i as int];
            assert(slot == obj.slots@[i as int]@);
            let from = &obj.slots[i].replicas;
            let mut replicas: Vec<Replica> = Vec::new();
            let ghost want = goal.slots[i as int].replicas;
            for j in 0..from.len()
                invariant
                    slot == state::replica_views(from@),
                    want == model::slot_info(
                        self@.info.node,
                        obj@.spec.slots[i as int].len,
                        slot,
                    ).replicas,
                    replicas@ == want.take(j as int),
            {
                let r = &from[j];
                assert(slot[j as int] == r@);
                replicas.push(
                    Replica {
                        location: Location {
                            node: self.info.node,
                            device: r.device,
                            tier: r.tier,
                        },
                        misplaced: r.misplaced,
                    },
                );
                assert(replicas@ =~= want.take(j + 1));
            }
            assert(replicas@ =~= want);
            assert(obj@.spec.slots[i as int] == obj.spec.slots@[i as int]@);
            slots.push(SlotInfo { len: obj.spec.slots[i].len, replicas });
            assert(types::slot_infos_view(slots@) =~= before.push(goal.slots[i as int]));
            assert(types::slot_infos_view(slots@) =~= goal.slots.take(i + 1));
        }
        assert(types::slot_infos_view(slots@) =~= goal.slots);
        ObjectInfo { retention: obj.spec.retention, slots }
    }

    /// The replica to read: the nearest to `dst`, the better tier among equally
    /// near ones, the first among equals.
    fn pick(&self, replicas: &Vec<ReplicaEntry>, dst: Device) -> (r: usize)
        requires
            replicas@.len() > 0,
        ensures
            model::is_nearest(self@.gpu_numa, dst, state::replica_views(replicas@), r as int),
    {
        let ghost views = state::replica_views(replicas@);
        let mut best: usize = 0;
        let mut distance: u32 = self.distance(dst, replicas[0].device);
        let mut rank: u8 = tier_rank(replicas[0].tier);
        for i in 1..replicas.len()
            invariant
                views == state::replica_views(replicas@),
                best < i <= replicas@.len(),
                distance == topology::distance(self@.gpu_numa, dst, views[best as int].device),
                rank == types::rank_of(views[best as int].tier),
                model::is_nearest(self@.gpu_numa, dst, views.take(i as int), best as int),
        {
            assert(views[i as int] == replicas@[i as int]@);
            let d: u32 = self.distance(dst, replicas[i].device);
            let k: u8 = tier_rank(replicas[i].tier);
            let ghost best0 = best;
            assert(views.take(i as int)[best0 as int] == views[best0 as int]);
            assert forall|j: int| 0 <= j < i implies views.take(i as int)[j] == #[trigger] views.take(
                i + 1,
            )[j] by {}
            if d < distance || d == distance && k < rank {
                best = i;
                distance = d;
                rank = k;
            }
            assert(model::is_nearest(self@.gpu_numa, dst, views.take(i + 1), best as int)) by {
                let upto = views.take(i + 1);
                assert forall|j: int| 0 <= j < best implies model::nearer(
                    self@.gpu_numa,
                    dst,
                    upto[best as int],
                    #[trigger] upto[j],
                ) by {
                    assert(views.take(i as int)[j] == upto[j]);
                }
                assert forall|j: int| best < j < upto.len() implies !model::nearer(
                    self@.gpu_numa,
                    dst,
                    #[trigger] upto[j],
                    upto[best as int],
                ) by {
                    if j < i {
                        assert(views.take(i as int)[j] == upto[j]);
                    }
                }
            }
        }
        assert(views.take(views.len() as int) =~= views);
        best
    }

    /// The replica that a read is served from, or why there is none.
    pub fn source(&self, key: &Key, op: &OpGet<'_>) -> (r: Result<&ReplicaEntry, Error>)
        requires
            self.wf(),
        ensures
            source_view(r) == self@.state.source(self@.gpu_numa, key@, op@),
    {
        let ghost s = self.state@;
        let (device, len) = match op.validate() {
            Err(e) => return Err(e),
            Ok(v) => v,
        };
        let at = match self.state.objects.find(key) {
            Some(at) => at,
            None => return Err(
                Error::new(ErrorKind::NotFound, "no such key").with_context(
                    "key",
                    key.debug_text(),
                ),
            ),
        };
        let obj = self.state.objects.at(at);
        let idx: usize = op.slot.0 as usize;
        assert(s.objects[key@] == obj@);
        assert(model::object_ok(obj@, s.pools.dom()));
        if idx >= obj.spec.slots.len() {
            return Err(
                Error::new(ErrorKind::InvalidInput, "slot index out of range").with_context(
                    "slot",
                    decimal_string(op.slot.0 as u64),
                ),
            );
        }
        let slot_len: u64 = obj.spec.slots[idx].len;
        assert(slot_len == obj@.spec.slots[idx as int].len);
        let fits = match op.src_offset.checked_add(len) {
            Some(end) => end <= slot_len,
            None => false,
        };
        if !fits {
            return Err(
                Error::new(ErrorKind::InvalidInput, "read range exceeds slot").with_context(
                    "src_offset",
                    decimal_string(op.src_offset),
                ).with_context("len", decimal_string(len)).with_context(
                    "slot_len",
                    decimal_string(slot_len),
                ),
            );
        }
        let replicas = &obj.slots[idx].replicas;
        assert(obj@.slots[idx as int] == state::replica_views(replicas@));
        if replicas.len() == 0 {
            return Err(
                Error::new(ErrorKind::Evicted, "slot has no replica").with_context(
                    "key",
                    key.debug_text(),
                ).with_context("slot", decimal_string(op.slot.0 as u64)),
            );
        }
        let i = self.pick(replicas, device);
        proof {
            law_nearest_is_unique(
                self@.gpu_numa,
                device,
                obj@.slots[idx as int],
                i as int,
            );
        }
        Ok(&replicas[i])
    }

    /// Read one slot into `dst`, choosing the nearest replica.
    pub fn get(&self, mem: &mut HostMemory, key: Key, op: OpGet<'_>) -> (r: Result<RpGet, Error>)
        requires
            self.wf(),
            externals_mapped(old(mem)@, self@.state),
            ops::checked_iovs(op@.dst, None) is Ok ==> region::segs_mapped(old(mem)@, region::segments(op@.dst)),
        ensures
            error::result_view(r) == self@.get_result(key@, op@),
            final(mem)@ == self@.get_memory(old(mem)@, key@, op@),
            final(mem)@.dom() == old(mem)@.dom(),
    {
        let ghost s = self.state@;
        let source = match self.source(&key, &op) {
            Err(e) => return Err(e),
            Ok(source) => source,
        };
        let len: u64 = match op.validate() {
            Err(e) => return Err(e),
            Ok((_, len)) => len,
        };
        proof {
            ops::law_iovs_pass_exactly_if_sound(op@.dst, None);
            lemma_source(s, self@.gpu_numa, key@, op@);
            let slot = s.objects[key@].slots[op@.slot.0 as int];
            let j = choose|j: int| 0 <= j < slot.len() && slot[j] == source@;
            assert(slot[j] == source@);
        }
        proof {
            if source.data@ is External {
                region::lemma_gathered_len(mem@, source.data@->segs);
            }
        }
        let bytes = source.data.read(mem, op.src_offset, len);
        proof {
            region::lemma_scattered_domain(mem@, region::segments(op@.dst), bytes@);
        }
        scatter(mem, bytes.as_slice(), op.dst);
        Ok(
            RpGet {
                from: Location {
                    node: self.info.node,
                    device: source.device,
                    tier: source.tier,
                },
            },
        )
    }

    pub fn remove(&mut self, keys: &[Key])
        requires
            old(self).wf(),
        ensures
            final(self).wf(),
            final(self)@ == (MemoryView {
                state: old(self)@.state.removed_all(key_views(keys@), keys@.len()),
                ..old(self)@
            }),
    {
        let ghost s = self.state@;
        let ghost views = key_views(keys@);
        for i in 0..keys.len()
            invariant
                views == key_views(keys@),
                self.state.wf(),
                s.sound(),
                self.info == old(self).info,
                self.gpu_numa == old(self).gpu_numa,
                self.state@ == s.removed_all(views, i as nat),
        {
            proof {
                removing::lemma_removed_all(s, views, i as nat);
            }
            assert(views[i as int] == keys@[i as int]@);
            self.state.remove(&keys[i]);
        }
        proof {
            removing::lemma_removed_all(s, views, keys@.len());
            order::lemma_removed_all_sound(s, views, keys@.len());
        }
    }

    /// Remove every object whose key starts with `prefix`; returns the count.
    pub fn remove_prefix(&mut self, prefix: &[u8]) -> (r: u64)
        requires
            old(self).wf(),
        ensures
            final(self).wf(),
            final(self)@ == (MemoryView {
                state: old(self)@.state.removed_prefix(prefix@),
                ..old(self)@
            }),
            r == old(self)@.state.under(prefix@).len(),
    {
        proof {
            removing::lemma_removed_prefix(self.state@, prefix@);
            order::lemma_removed_prefix_sound(self.state@, prefix@);
        }
        self.state.remove_prefix(prefix)
    }

    /// Drop every `External` replica published from a region. To be called when
    /// the region goes.
    pub fn retire_region(&mut self, region_id: u64)
        requires
            old(self).wf(),
        ensures
            final(self).wf(),
            final(self)@ == (MemoryView {
                state: old(self)@.state.retired(region_id),
                ..old(self)@
            }),
    {
        proof {
            removing::lemma_retired(self.state@, region_id);
            order::lemma_retired_sound(self.state@, region_id);
        }
        self.state.retire_region(region_id);
    }
}

pub open spec fn source_view(r: Result<&ReplicaEntry, Error>) -> Result<ReplicaView, ErrorView> {
    match r {
        Ok(entry) => Ok(entry@),
        Err(e) => Err(e@),
    }
}

/// There is one replica to read, whichever way it is looked for.
pub proof fn law_nearest_is_unique(
    gpu_numa: Map<u16, u16>,
    dst: Device,
    replicas: Seq<ReplicaView>,
    i: int,
)
    requires
        model::is_nearest(gpu_numa, dst, replicas, i),
    ensures
        model::nearest(gpu_numa, dst, replicas) == replicas[i],
        forall|j: int|
            0 <= j < replicas.len() ==> !model::nearer(
                gpu_numa,
                dst,
                #[trigger] replicas[j],
                replicas[i],
            ),
{
    let c = choose|c: int| model::is_nearest(gpu_numa, dst, replicas, c);
    assert(c == i) by {
        if c < i {
            assert(model::nearer(gpu_numa, dst, replicas[i], replicas[c]));
        }
        if i < c {
            assert(model::nearer(gpu_numa, dst, replicas[c], replicas[i]));
        }
    }
}

pub proof fn lemma_some_nearest(
    gpu_numa: Map<u16, u16>,
    dst: Device,
    replicas: Seq<ReplicaView>,
) -> (i: int)
    requires
        replicas.len() > 0,
    ensures
        model::is_nearest(gpu_numa, dst, replicas, i),
    decreases replicas.len(),
{
    if replicas.len() == 1 {
        0
    } else {
        let before = replicas.drop_last();
        let b = lemma_some_nearest(gpu_numa, dst, before);
        let last = replicas.len() - 1;
        assert forall|j: int| 0 <= j < last implies before[j] == #[trigger] replicas[j] by {}
        if model::nearer(gpu_numa, dst, replicas[last], replicas[b]) {
            assert forall|j: int| 0 <= j < last implies model::nearer(
                gpu_numa,
                dst,
                replicas[last],
                #[trigger] replicas[j],
            ) by {
                assert(before[j] == replicas[j]);
                assert(!model::nearer(gpu_numa, dst, before[j], before[b]));
            }
            last
        } else {
            assert forall|j: int| 0 <= j < b implies model::nearer(
                gpu_numa,
                dst,
                replicas[b],
                #[trigger] replicas[j],
            ) by {
                assert(before[j] == replicas[j]);
            }
            assert forall|j: int| b < j < replicas.len() implies !model::nearer(
                gpu_numa,
                dst,
                #[trigger] replicas[j],
                replicas[b],
            ) by {
                if j < last {
                    assert(before[j] == replicas[j]);
                }
            }
            b
        }
    }
}

/// What a read is served from is one of the slot's replicas, as long as the
/// slot.
pub proof fn lemma_source(s: StateView, gpu_numa: Map<u16, u16>, key: Seq<u8>, op: OpGetView)
    requires
        s.inv(),
        s.source(gpu_numa, key, op) is Ok,
    ensures
        s.objects.contains_key(key),
        op.slot.0 < s.objects[key].slots.len(),
        s.objects[key].slots[op.slot.0 as int].contains(s.source(gpu_numa, key, op)->Ok_0),
        s.source(gpu_numa, key, op)->Ok_0.data.len() == s.objects[key].spec.slots[op.slot.0 as int].len,
        op.src_offset + region::iov_total(op.dst) <= s.objects[key].spec.slots[op.slot.0 as int].len,
{
    let obj = s.objects[key];
    let i = op.slot.0 as int;
    ops::law_iovs_pass_exactly_if_sound(op.dst, None);
    let device = op.dst[0].region.device;
    let n = lemma_some_nearest(gpu_numa, device, obj.slots[i]);
    law_nearest_is_unique(gpu_numa, device, obj.slots[i], n);
    assert(model::object_ok(obj, s.pools.dom()));
    assert(model::slot_ok(obj.slots[i], obj.spec.slots[i].len, s.pools.dom()));
    assert(obj.slots[i][n] == s.source(gpu_numa, key, op)->Ok_0);
}

/// The sources of a sound request are as long as its slots.
pub proof fn lemma_sources_fit(mem: Map<u64, u8>, op: OpPutView)
    requires
        op.error() is None,
    ensures
        placing::data_fits(op, sources(mem, op)),
{
    assert forall|i: int| 0 <= i < op.slots.len() implies (#[trigger] sources(mem, op)[i]).len()
        == op.slots[i].spec.len by {
        ops::lemma_sound_put(op, i);
        region::lemma_gathered_len(mem, region::segments(op.slots[i].src));
    }
}

/// A request that passes asks for its own length once more than before, at
/// least, and for no more than in all.
proof fn lemma_demand_step(op: OpPutView, i: nat)
    requires
        i < op.slots.len(),
    ensures
        placing::demand(op, i) + placing::width(op.slots[i as int].spec.placement) * op.slots[i as int].spec.len as nat
            <= placing::demand(op, op.slots.len()),
{
    placing::lemma_demand_grows(op, i + 1, op.slots.len());
}

pub open spec fn byte_views(data: Seq<Vec<u8>>) -> Seq<Seq<u8>> {
    Seq::new(data.len(), |i: int| data[i]@)
}

} // verus!
