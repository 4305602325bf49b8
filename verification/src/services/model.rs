//! What the in-process backend does, as functions on its state. Every other
//! backend must reproduce these semantics: write-once slots, per-device pools
//! with FIFO eviction of `Cache` objects, `Explicit` never evicted, distance
//! based source selection, `External` replicas that vanish with their region.
use vstd::prelude::*;

use crate::error::{ErrorKind, ErrorView};
use crate::ops;
use crate::ops::{OpGetView, OpPublishView, OpPutView};
use crate::region;
use crate::region::IovView;
use crate::text;
use crate::topology;
use crate::types;
use crate::types::{
    Device, Location, NodeId, ObjectInfoView, ObjectSpecView, PlacementView, Replica, Retention,
    SlotInfoView, Tier,
};

verus! {

pub enum DataView {
    Owned(Seq<u8>),
    /// Segments of user memory, and the region that each of them lies in.
    External { segs: Seq<(u64, u64)>, regions: Seq<u64> },
}

impl DataView {
    pub open spec fn len(self) -> nat {
        match self {
            DataView::Owned(b) => b.len(),
            DataView::External { segs, .. } => region::total_len(segs),
        }
    }

    /// The bytes, given what memory holds.
    pub open spec fn bytes(self, mem: Map<u64, u8>) -> Seq<u8> {
        match self {
            DataView::Owned(b) => b,
            DataView::External { segs, .. } => region::gathered(mem, segs),
        }
    }
}

pub struct ReplicaView {
    pub device: Device,
    pub tier: Tier,
    pub misplaced: bool,
    pub data: DataView,
}

impl ReplicaView {
    /// Whether the replica takes up room in the pool of `d`.
    pub open spec fn owned_on(self, d: Device) -> bool {
        self.device == d && self.data is Owned
    }

    /// Whether any of the replica lies in a region.
    pub open spec fn from_region(self, id: u64) -> bool {
        self.data is External && self.data->regions.contains(id)
    }
}

#[verifier::ext_equal]
pub struct ObjectView {
    pub spec: ObjectSpecView,
    /// The replicas of each slot.
    pub slots: Seq<Seq<ReplicaView>>,
}

/// A place in a pool's eviction order: a slot of an object.
pub type Entry = (Seq<u8>, nat);

#[verifier::ext_equal]
pub struct PoolView {
    pub capacity: Option<u64>,
    pub used: nat,
    /// The slots that have replicas in the pool, in the order in which they were
    /// stored, for eviction.
    pub fifo: Seq<Entry>,
}

#[verifier::ext_equal]
pub struct StateView {
    pub objects: Map<Seq<u8>, ObjectView>,
    pub pools: Map<Device, PoolView>,
}

// ---- what pools hold ----

/// The bytes that the replicas of one slot take up on `d`.
pub open spec fn owned_len(replicas: Seq<ReplicaView>, d: Device) -> nat
    decreases replicas.len(),
{
    if replicas.len() == 0 {
        0
    } else {
        owned_len(replicas.drop_last(), d) + if replicas.last().owned_on(d) {
            replicas.last().data.len()
        } else {
            0
        }
    }
}

/// The bytes that an object takes up on `d`.
pub open spec fn slots_len(slots: Seq<Seq<ReplicaView>>, d: Device) -> nat
    decreases slots.len(),
{
    if slots.len() == 0 {
        0
    } else {
        slots_len(slots.drop_last(), d) + owned_len(slots.last(), d)
    }
}

/// The bytes that all objects take up on `d`.
pub open spec fn held(objects: Map<Seq<u8>, ObjectView>, d: Device) -> nat
    decreases objects.dom().len(),
{
    if objects.dom().finite() && objects.dom().len() > 0 {
        let k = objects.dom().choose();
        slots_len(objects[k].slots, d) + held(objects.remove(k), d)
    } else {
        0
    }
}

// ---- eviction ----

/// The replicas of a slot but for those that take up room on `d`.
pub open spec fn without_owned(replicas: Seq<ReplicaView>, d: Device) -> Seq<ReplicaView>
    decreases replicas.len(),
{
    if replicas.len() == 0 {
        Seq::empty()
    } else {
        let before = without_owned(replicas.drop_last(), d);
        if replicas.last().owned_on(d) {
            before
        } else {
            before.push(replicas.last())
        }
    }
}

/// How many replicas of a slot take up room on `d`.
pub open spec fn owned_count(replicas: Seq<ReplicaView>, d: Device) -> nat
    decreases replicas.len(),
{
    if replicas.len() == 0 {
        0
    } else {
        owned_count(replicas.drop_last(), d) + if replicas.last().owned_on(d) {
            1nat
        } else {
            0nat
        }
    }
}

/// How many entries of an eviction order are `entry`.
pub open spec fn times(fifo: Seq<Entry>, entry: Entry) -> nat
    decreases fifo.len(),
{
    if fifo.len() == 0 {
        0
    } else {
        times(fifo.drop_last(), entry) + if fifo.last() == entry {
            1nat
        } else {
            0nat
        }
    }
}

/// An eviction order with an entry at the end, where it is not there yet.
pub open spec fn appended(fifo: Seq<Entry>, entry: Entry) -> Seq<Entry> {
    if fifo.len() > 0 && fifo.last() == entry {
        fifo
    } else {
        fifo.push(entry)
    }
}

/// The entries of an eviction order that pass a test, in order.
pub open spec fn entries_with(fifo: Seq<Entry>, keep: spec_fn(Entry) -> bool) -> Seq<Entry>
    decreases fifo.len(),
{
    if fifo.len() == 0 {
        Seq::empty()
    } else {
        let before = entries_with(fifo.drop_last(), keep);
        if keep(fifo.last()) {
            before.push(fifo.last())
        } else {
            before
        }
    }
}

/// The entries of an eviction order whose object is there.
pub open spec fn entries_of(fifo: Seq<Entry>, objects: Map<Seq<u8>, ObjectView>) -> Seq<Entry> {
    entries_with(fifo, |e: Entry| objects.contains_key(e.0))
}

pub open spec fn all_empty(slots: Seq<Seq<ReplicaView>>) -> bool {
    forall|i: int| 0 <= i < slots.len() ==> (#[trigger] slots[i]).len() == 0
}

impl StateView {
    pub open spec fn with_pool(self, d: Device, pool: PoolView) -> StateView {
        StateView { pools: self.pools.insert(d, pool), ..self }
    }

    pub open spec fn with_object(self, key: Seq<u8>, obj: ObjectView) -> StateView {
        StateView { objects: self.objects.insert(key, obj), ..self }
    }

    /// Whether an entry names a slot that may be evicted.
    pub open spec fn evictable(self, entry: Entry) -> bool {
        &&& self.objects.contains_key(entry.0)
        &&& self.objects[entry.0].spec.retention == Retention::Cache
        &&& entry.1 < self.objects[entry.0].slots.len()
    }

    /// Whether an entry stays where room is made for `protect`.
    pub open spec fn spared(self, entry: Entry, protect: Seq<u8>) -> bool {
        entry.0 == protect || !self.evictable(entry)
    }

    /// The state after the replicas of one slot gave up their room on `d`. An
    /// object with no replica left goes too.
    pub open spec fn evicted(self, d: Device, entry: Entry) -> StateView {
        if !self.evictable(entry) {
            self
        } else {
            let obj = self.objects[entry.0];
            let slot = obj.slots[entry.1 as int];
            let slots = obj.slots.update(entry.1 as int, without_owned(slot, d));
            let pool = self.pools[d];
            StateView {
                objects: if all_empty(slots) {
                    self.objects.remove(entry.0)
                } else {
                    self.objects.insert(entry.0, ObjectView { slots, ..obj })
                },
                pools: self.pools.insert(
                    d,
                    PoolView { used: (pool.used - owned_len(slot, d)) as nat, ..pool },
                ),
            }
        }
    }

    /// Take entries off the front of the eviction order of `d` until `need`
    /// more bytes fit or none is left; those that are spared are set aside, and
    /// go back to the front.
    pub open spec fn drained(
        self,
        d: Device,
        need: nat,
        cap: u64,
        protect: Seq<u8>,
        aside: Seq<Entry>,
    ) -> StateView
        decreases self.pools[d].fifo.len(),
    {
        let pool = self.pools[d];
        if pool.used + need <= cap || pool.fifo.len() == 0 {
            self.with_pool(d, PoolView { fifo: aside + pool.fifo, ..pool })
        } else {
            let rest = self.with_pool(d, PoolView { fifo: pool.fifo.drop_first(), ..pool });
            if self.spared(pool.fifo[0], protect) {
                rest.drained(d, need, cap, protect, aside.push(pool.fifo[0]))
            } else {
                rest.evicted(d, pool.fifo[0]).drained(d, need, cap, protect, aside)
            }
        }
    }

    /// The state after room for `need` bytes was asked for on `d`, and whether
    /// there is room.
    pub open spec fn make_room(self, d: Device, need: nat, protect: Seq<u8>) -> (StateView, bool) {
        match self.pools[d].capacity {
            None => (self, true),
            Some(cap) => if need > cap {
                (self, false)
            } else {
                let after = self.drained(d, need, cap, protect, Seq::empty());
                (after, after.pools[d].used + need <= cap)
            },
        }
    }

    /// The state after one slot was charged to the pool of `d`.
    pub open spec fn charged(self, d: Device, key: Seq<u8>, slot: nat, len: u64) -> StateView {
        let pool = self.pools[d];
        self.with_pool(
            d,
            PoolView {
                used: pool.used + len as nat,
                fifo: appended(pool.fifo, (key, slot)),
                ..pool
            },
        )
    }

    /// The state after one slot was charged to the first `n` of the targets.
    pub open spec fn charged_all(
        self,
        targets: Seq<(Device, bool)>,
        key: Seq<u8>,
        slot: nat,
        len: u64,
        n: nat,
    ) -> StateView
        decreases n,
    {
        if n == 0 {
            self
        } else {
            self.charged_all(targets, key, slot, len, (n - 1) as nat).charged(
                targets[n - 1].0,
                key,
                slot,
                len,
            )
        }
    }
}

// ---- put ----

pub open spec fn unknown_device(d: Device) -> ErrorView {
    ErrorView::new(ErrorKind::InvalidInput, "device not served by this backend"@).with_context(
        "device"@,
        types::device_text(d),
    )
}

pub open spec fn no_space(d: Device, len: u64) -> ErrorView {
    ErrorView::new(ErrorKind::NoSpace, "pool cannot fit slot"@).with_context(
        "device"@,
        types::device_text(d),
    ).with_context("len"@, text::decimal(len as nat))
}

/// The devices of `order` but for `d`, each a fallback.
pub open spec fn fallbacks(order: Seq<Device>, d: Device, n: nat) -> Seq<(Device, bool)>
    decreases n,
{
    if n == 0 {
        Seq::empty()
    } else {
        let before = fallbacks(order, d, (n - 1) as nat);
        if order[n - 1] == d {
            before
        } else {
            before.push((order[n - 1], true))
        }
    }
}

/// The devices to try for a slot, in order, and whether landing there counts
/// as misplaced.
pub open spec fn candidates(placement: PlacementView, order: Seq<Device>) -> Seq<(Device, bool)> {
    match placement {
        PlacementView::Strict(d) => seq![(d, false)],
        PlacementView::Prefer(d) => seq![(d, false)] + fallbacks(order, d, order.len()),
        PlacementView::Each(ds) => Seq::new(ds.len(), |i: int| (ds[i], false)),
        PlacementView::Anywhere => Seq::new(order.len(), |i: int| (order[i], false)),
    }
}

/// How far the search for targets has come.
#[verifier::ext_equal]
pub struct Search {
    pub state: StateView,
    pub targets: Seq<(Device, bool)>,
    pub error: Option<ErrorView>,
    pub done: bool,
}

/// How many targets are on `d`.
pub open spec fn aimed(targets: Seq<(Device, bool)>, d: Device) -> nat
    decreases targets.len(),
{
    if targets.len() == 0 {
        0
    } else {
        aimed(targets.drop_last(), d) + if targets.last().0 == d {
            1nat
        } else {
            0nat
        }
    }
}

impl StateView {
    /// The search after the first `n` candidates: with `each`, all of them must
    /// take the slot; otherwise the first one that does is enough. Room is asked
    /// for all copies on a device together.
    pub open spec fn searched(
        self,
        cands: Seq<(Device, bool)>,
        each: bool,
        len: u64,
        key: Seq<u8>,
        n: nat,
    ) -> Search
        decreases n,
    {
        if n == 0 {
            Search { state: self, targets: Seq::empty(), error: None, done: false }
        } else {
            let s = self.searched(cands, each, len, key, (n - 1) as nat);
            let d = cands[n - 1].0;
            if s.done {
                s
            } else if !s.state.pools.contains_key(d) {
                Search { error: Some(unknown_device(d)), done: each, ..s }
            } else {
                let (state, fits) = s.state.make_room(d, (1 + aimed(s.targets, d)) * len as nat, key);
                if fits {
                    Search { state, targets: s.targets.push(cands[n - 1]), done: !each, ..s }
                } else {
                    Search { state, error: Some(no_space(d, len)), done: each, ..s }
                }
            }
        }
    }

    /// The state and the result of placing slot `i`.
    pub open spec fn placed(
        self,
        order: Seq<Device>,
        key: Seq<u8>,
        i: nat,
        placement: PlacementView,
        bytes: Seq<u8>,
        len: u64,
    ) -> (StateView, Result<(), ErrorView>) {
        let each = placement is Each;
        let cands = candidates(placement, order);
        let s = self.searched(cands, each, len, key, cands.len());
        if s.targets.len() > 0 && (each ==> s.error is None) {
            (
                s.state.landed(key, i, s.targets, bytes).charged_all(
                    s.targets,
                    key,
                    i,
                    len,
                    s.targets.len(),
                ),
                Ok(()),
            )
        } else {
            let e = match s.error {
                Some(e) => e,
                None => ErrorView::new(ErrorKind::NoSpace, "no device available"@),
            };
            (s.state, Err(e.with_context("slot"@, text::decimal(i))))
        }
    }

    /// The state after slot `i` got a replica on each target.
    pub open spec fn landed(
        self,
        key: Seq<u8>,
        i: nat,
        targets: Seq<(Device, bool)>,
        bytes: Seq<u8>,
    ) -> StateView {
        let obj = self.objects[key];
        self.with_object(
            key,
            ObjectView {
                slots: obj.slots.update(i as int, obj.slots[i as int] + copies(targets, bytes)),
                ..obj
            },
        )
    }

    /// The state with an object for `key`: the one that is there, or a new one
    /// with empty slots.
    pub open spec fn reserved(self, key: Seq<u8>, spec: ObjectSpecView) -> StateView {
        if self.objects.contains_key(key) {
            self
        } else {
            self.with_object(
                key,
                ObjectView {
                    spec,
                    slots: Seq::new(spec.slots.len(), |i: int| Seq::<ReplicaView>::empty()),
                },
            )
        }
    }

    /// The state and the results after the first `n` slots: one that had a
    /// replica at the start is refused, the others are placed.
    pub open spec fn put_slots(
        self,
        order: Seq<Device>,
        key: Seq<u8>,
        op: OpPutView,
        data: Seq<Seq<u8>>,
        n: nat,
    ) -> (StateView, Seq<Result<(), ErrorView>>)
        decreases n,
    {
        if n == 0 {
            (self.reserved(key, op.spec()), Seq::empty())
        } else {
            let i = (n - 1) as nat;
            let (s, results) = self.put_slots(order, key, op, data, i);
            if !self.writable(key, i) {
                (
                    s,
                    results.push(
                        Err(
                            ErrorView::new(
                                ErrorKind::AlreadyExists,
                                "slot already written"@,
                            ).with_context("slot"@, text::decimal(i)),
                        ),
                    ),
                )
            } else {
                let spec = op.slots[i as int].spec;
                let (t, result) = s.placed(order, key, i, spec.placement, data[i as int], spec.len);
                (t, results.push(result))
            }
        }
    }

    pub open spec fn writable(self, key: Seq<u8>, i: nat) -> bool {
        self.objects.contains_key(key) ==> self.objects[key].slots[i as int].len() == 0
    }

    /// The state and the reply after a `put` of `data`, one byte string per
    /// slot.
    pub open spec fn put(
        self,
        order: Seq<Device>,
        key: Seq<u8>,
        op: OpPutView,
        data: Seq<Seq<u8>>,
    ) -> (StateView, Result<Seq<Result<(), ErrorView>>, ErrorView>) {
        if op.error() is Some {
            (self, Err(op.error()->0))
        } else if self.objects.contains_key(key) && self.objects[key].spec != op.spec() {
            (
                self,
                Err(
                    ErrorView::new(
                        ErrorKind::SpecMismatch,
                        "existing object has a different spec"@,
                    ).with_context("key"@, types::key_text(key)),
                ),
            )
        } else {
            let (s, results) = self.put_slots(order, key, op, data, op.slots.len());
            (s, Ok(results))
        }
    }
}

/// One owned replica per target.
pub open spec fn copies(targets: Seq<(Device, bool)>, bytes: Seq<u8>) -> Seq<ReplicaView> {
    Seq::new(
        targets.len(),
        |i: int|
            ReplicaView {
                device: targets[i].0,
                tier: Tier::Dram,
                misplaced: targets[i].1,
                data: DataView::Owned(bytes),
            },
    )
}

// ---- publish, get ----

pub open spec fn no_such_key(key: Seq<u8>) -> ErrorView {
    ErrorView::new(ErrorKind::NotFound, "no such key"@).with_context("key"@, types::key_text(key))
}

/// The region of each segment of a list.
pub open spec fn region_ids(iovs: Seq<IovView>) -> Seq<u64> {
    Seq::new(iovs.len(), |i: int| iovs[i].region.id)
}

/// The refusal of a publication for a slot that the object does not have.
pub open spec fn no_slot_to_publish(slot: u32) -> ErrorView {
    ErrorView::new(ErrorKind::NotFound, "no such slot"@).with_context(
        "slot"@,
        text::decimal(slot as nat),
    )
}

pub open spec fn no_such_slot(slot: u32) -> ErrorView {
    ErrorView::new(ErrorKind::InvalidInput, "slot index out of range"@).with_context(
        "slot"@,
        text::decimal(slot as nat),
    )
}

pub open spec fn bad_range(offset: u64, len: u64, slot_len: u64) -> ErrorView {
    ErrorView::new(ErrorKind::InvalidInput, "read range exceeds slot"@).with_context(
        "src_offset"@,
        text::decimal(offset as nat),
    ).with_context("len"@, text::decimal(len as nat)).with_context("slot_len"@, text::decimal(slot_len as nat))
}

pub open spec fn no_replica(key: Seq<u8>, slot: u32) -> ErrorView {
    ErrorView::new(ErrorKind::Evicted, "slot has no replica"@).with_context(
        "key"@,
        types::key_text(key),
    ).with_context("slot"@, text::decimal(slot as nat))
}

/// Whether `a` is read rather than `b`: because it is nearer to `dst`, or as
/// near and in a better tier.
pub open spec fn nearer(
    gpu_numa: Map<u16, u16>,
    dst: Device,
    a: ReplicaView,
    b: ReplicaView,
) -> bool {
    let x = topology::distance(gpu_numa, dst, a.device);
    let y = topology::distance(gpu_numa, dst, b.device);
    x < y || x == y && types::rank_of(a.tier) < types::rank_of(b.tier)
}

/// Whether the replica at `i` is the one to read: none is nearer, and none
/// before it is as near.
pub open spec fn is_nearest(
    gpu_numa: Map<u16, u16>,
    dst: Device,
    replicas: Seq<ReplicaView>,
    i: int,
) -> bool {
    &&& 0 <= i < replicas.len()
    &&& forall|j: int| 0 <= j < i ==> nearer(gpu_numa, dst, replicas[i], #[trigger] replicas[j])
    &&& forall|j: int|
        i < j < replicas.len() ==> !nearer(gpu_numa, dst, #[trigger] replicas[j], replicas[i])
}

pub open spec fn nearest(
    gpu_numa: Map<u16, u16>,
    dst: Device,
    replicas: Seq<ReplicaView>,
) -> ReplicaView {
    replicas[choose|i: int| is_nearest(gpu_numa, dst, replicas, i)]
}

impl StateView {
    /// What a `publish` answers.
    pub open spec fn publish_result(self, key: Seq<u8>, op: OpPublishView) -> Result<
        (),
        ErrorView,
    > {
        match ops::checked_iovs(op.src, None) {
            Err(e) => Err(e),
            Ok((_, total)) => if !self.objects.contains_key(key) {
                Err(no_such_key(key))
            } else if op.slot.0 >= self.objects[key].slots.len() {
                Err(no_slot_to_publish(op.slot.0))
            } else if self.objects[key].spec.slots[op.slot.0 as int].len != total {
                Err(
                    ErrorView::new(
                        ErrorKind::InvalidInput,
                        "published length differs from slot length"@,
                    ).with_context("slot"@, text::decimal(op.slot.0 as nat)).with_context(
                        "len"@,
                        text::decimal(total as nat),
                    ).with_context(
                        "expected"@,
                        text::decimal(self.objects[key].spec.slots[op.slot.0 as int].len as nat),
                    ),
                )
            } else {
                Ok(())
            },
        }
    }

    /// The state after a `publish`: on success one more replica, which lies in
    /// the caller's memory.
    pub open spec fn published(self, key: Seq<u8>, op: OpPublishView) -> StateView {
        if self.publish_result(key, op) is Err {
            self
        } else {
            let obj = self.objects[key];
            let i = op.slot.0 as int;
            let replica = ReplicaView {
                device: op.src[0].region.device,
                tier: Tier::External,
                misplaced: false,
                data: DataView::External {
                    segs: region::segments(op.src),
                    regions: region_ids(op.src),
                },
            };
            self.with_object(
                key,
                ObjectView { slots: obj.slots.update(i, obj.slots[i].push(replica)), ..obj },
            )
        }
    }

    /// The replica that a `get` reads, or the refusal.
    pub open spec fn source(self, gpu_numa: Map<u16, u16>, key: Seq<u8>, op: OpGetView) -> Result<
        ReplicaView,
        ErrorView,
    > {
        match ops::checked_iovs(op.dst, None) {
            Err(e) => Err(e),
            Ok((device, total)) => if !self.objects.contains_key(key) {
                Err(no_such_key(key))
            } else {
                let obj = self.objects[key];
                let i = op.slot.0 as int;
                if i >= obj.slots.len() {
                    Err(no_such_slot(op.slot.0))
                } else if op.src_offset + total > obj.spec.slots[i].len {
                    Err(bad_range(op.src_offset, total, obj.spec.slots[i].len))
                } else if obj.slots[i].len() == 0 {
                    Err(no_replica(key, op.slot.0))
                } else {
                    Ok(nearest(gpu_numa, device, obj.slots[i]))
                }
            },
        }
    }

    // ---- metadata, lifecycle ----

    /// What `stat` says of one key.
    pub open spec fn info(self, node: NodeId, key: Seq<u8>) -> Option<ObjectInfoView> {
        if self.objects.contains_key(key) {
            Some(object_info(node, self.objects[key]))
        } else {
            None
        }
    }

    /// The state after the object of `key` was removed and its room given back.
    pub open spec fn removed(self, key: Seq<u8>) -> StateView {
        if self.objects.contains_key(key) {
            let obj = self.objects[key];
            let rest = self.objects.remove(key);
            StateView {
                objects: rest,
                pools: self.pools.map_entries(
                    |d: Device, pool: PoolView|
                        PoolView {
                            used: (pool.used - slots_len(obj.slots, d)) as nat,
                            fifo: entries_of(pool.fifo, rest),
                            ..pool
                        },
                ),
            }
        } else {
            self
        }
    }

    /// The state after the first `n` keys were removed.
    pub open spec fn removed_all(self, keys: Seq<Seq<u8>>, n: nat) -> StateView
        decreases n,
    {
        if n == 0 {
            self
        } else {
            self.removed_all(keys, (n - 1) as nat).removed(keys[n - 1])
        }
    }

    /// The keys that start with `prefix`.
    pub open spec fn under(self, prefix: Seq<u8>) -> Set<Seq<u8>> {
        self.objects.dom().filter(|k: Seq<u8>| types::starts_with(k, prefix))
    }

    /// The state after every object under `prefix` was removed: each pool is left
    /// with what the other objects hold.
    pub open spec fn removed_prefix(self, prefix: Seq<u8>) -> StateView {
        let rest = self.objects.remove_keys(self.under(prefix));
        StateView {
            objects: rest,
            pools: self.pools.map_entries(
                |d: Device, pool: PoolView|
                    PoolView {
                        used: held(rest, d),
                        fifo: entries_of(pool.fifo, rest),
                        ..pool
                    },
            ),
        }
    }

    /// The state after every replica that lay in a region went.
    pub open spec fn retired(self, id: u64) -> StateView {
        StateView {
            objects: self.objects.map_values(
                |obj: ObjectView|
                    ObjectView {
                        slots: Seq::new(
                            obj.slots.len(),
                            |i: int| without_region(obj.slots[i], id),
                        ),
                        ..obj
                    },
            ),
            ..self
        }
    }
}

/// The replicas of a slot but for those that lie in a region.
pub open spec fn without_region(replicas: Seq<ReplicaView>, id: u64) -> Seq<ReplicaView>
    decreases replicas.len(),
{
    if replicas.len() == 0 {
        Seq::empty()
    } else {
        let before = without_region(replicas.drop_last(), id);
        if replicas.last().from_region(id) {
            before
        } else {
            before.push(replicas.last())
        }
    }
}

pub open spec fn location(node: NodeId, r: ReplicaView) -> Location {
    Location { node, device: r.device, tier: r.tier }
}

pub open spec fn object_info(node: NodeId, obj: ObjectView) -> ObjectInfoView {
    ObjectInfoView {
        retention: obj.spec.retention,
        slots: Seq::new(
            obj.slots.len(),
            |i: int| slot_info(node, obj.spec.slots[i].len, obj.slots[i]),
        ),
    }
}

pub open spec fn slot_info(node: NodeId, len: u64, replicas: Seq<ReplicaView>) -> SlotInfoView {
    SlotInfoView {
        len,
        replicas: Seq::new(
            replicas.len(),
            |j: int|
                Replica {
                    location: location(node, replicas[j]),
                    misplaced: replicas[j].misplaced,
                },
        ),
    }
}

// ---- validity ----

/// Whether the replicas of one slot are what a slot of `len` bytes may hold:
/// every replica is that long, store-owned bytes lie in a served pool and are
/// the same in every replica, and a tier says who owns the bytes.
pub open spec fn slot_ok(replicas: Seq<ReplicaView>, len: u64, served: Set<Device>) -> bool {
    &&& forall|j: int|
        0 <= j < replicas.len() ==> {
            let r = #[trigger] replicas[j];
            &&& r.data.len() == len
            &&& r.data is Owned ==> r.tier == Tier::Dram && served.contains(r.device)
            &&& r.data is External ==> r.tier == Tier::External && !r.misplaced
        }
    &&& forall|j: int, k: int|
        0 <= j < replicas.len() && 0 <= k < replicas.len() && (#[trigger] replicas[j]).data is Owned
            && (#[trigger] replicas[k]).data is Owned ==> replicas[j].data == replicas[k].data
}

pub open spec fn object_ok(obj: ObjectView, served: Set<Device>) -> bool {
    &&& obj.slots.len() == obj.spec.slots.len()
    &&& forall|i: int|
        0 <= i < obj.slots.len() ==> slot_ok(#[trigger] obj.slots[i], obj.spec.slots[i].len, served)
}

impl StateView {
    /// How often a slot is to stand in the eviction order of `d`: once where it
    /// takes up room there.
    pub open spec fn turns_on(self, entry: Entry, d: Device) -> nat {
        if self.objects.contains_key(entry.0) && entry.1 < self.objects[entry.0].slots.len()
            && owned_count(self.objects[entry.0].slots[entry.1 as int], d) > 0 {
            1
        } else {
            0
        }
    }

    /// Whether an eviction order holds one entry for every slot that takes up room
    /// on `d`, and no other.
    pub open spec fn queues(self, d: Device, fifo: Seq<Entry>) -> bool {
        forall|entry: Entry| #[trigger] times(fifo, entry) == self.turns_on(entry, d)
    }

    /// Whether the eviction order of every pool holds one entry for every slot
    /// that has a replica in it, and no other.
    pub open spec fn queued(self) -> bool {
        forall|d: Device| #[trigger]
            self.pools.contains_key(d) ==> self.queues(d, self.pools[d].fifo)
    }

    /// Whether every pool holds no more than its limit.
    pub open spec fn within_limits(self) -> bool {
        forall|d: Device| #[trigger]
            self.pools.contains_key(d) && self.pools[d].capacity is Some ==> self.pools[d].used
                <= self.pools[d].capacity->0
    }

    /// What holds of the backend's state between calls.
    pub open spec fn sound(self) -> bool {
        self.inv() && self.queued() && self.within_limits()
    }

    pub open spec fn inv(self) -> bool {
        &&& self.objects.dom().finite()
        &&& forall|k: Seq<u8>| #[trigger]
            self.objects.contains_key(k) ==> object_ok(self.objects[k], self.pools.dom())
        &&& forall|d: Device| #[trigger]
            self.pools.contains_key(d) ==> self.pools[d].used == held(self.objects, d)
    }
}

} // verus!
