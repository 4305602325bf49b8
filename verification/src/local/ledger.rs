//! What the single-node backend does, as functions on its state.
use vstd::prelude::*;

use crate::error::{ErrorKind, ErrorView};
use crate::ops;
use crate::ops::{OpGetView, OpPublishView, OpPutView};
use crate::pinned::{PinnedBuf, PinnedView};
use crate::region;
use crate::services::model;
use crate::services::model::Entry;
use crate::text;
use crate::topology;
use crate::types;
use crate::types::{
    Device, Location, NodeId, ObjectInfoView, ObjectSpecView, PlacementView, Replica, Retention,
    SlotInfoView, Tier,
};

verus! {

pub enum LocalData {
    /// An allocation in a pool, by its place in the table of allocations.
    Pinned(usize),
    /// The segments, and the regions that they lie in.
    External { segs: Seq<(u64, u64)>, regions: Seq<u64> },
}

pub struct LocalReplica {
    pub device: Device,
    pub tier: Tier,
    pub misplaced: bool,
    pub data: LocalData,
}

impl LocalReplica {
    pub open spec fn pinned_on(self, numa: u16) -> bool {
        self.device == (Device::Cpu { numa }) && self.data is Pinned
    }

    pub open spec fn from_region(self, id: u64) -> bool {
        self.data is External && self.data->regions.contains(id)
    }
}

#[verifier::ext_equal]
pub struct LocalSlot {
    pub replicas: Seq<LocalReplica>,
    /// The write that has claimed the slot.
    pub writing: Option<usize>,
}

#[verifier::ext_equal]
pub struct LocalObject {
    pub spec: ObjectSpecView,
    pub slots: Seq<LocalSlot>,
}

/// Who keeps an allocation.
#[derive(Copy, Clone, Debug, PartialEq, Eq, Structural)]
pub enum Keeper {
    /// A write that has not been finished.
    Writer(usize),
    /// A replica.
    Stored,
    /// Readers alone.
    Readers,
}

pub struct LocalBuf {
    pub buf: PinnedBuf,
    pub keeper: Keeper,
    /// How many reads are in flight.
    pub readers: nat,
}

#[verifier::ext_equal]
pub struct LocalPool {
    pub pinned: PinnedView,
    /// Insertion order of replicas, for eviction.
    pub fifo: Seq<Entry>,
}

#[verifier::ext_equal]
pub struct LocalState {
    pub objects: Map<Seq<u8>, LocalObject>,
    pub pools: Map<u16, LocalPool>,
    /// The allocations, by their place; `None` is a place to be used again.
    pub bufs: Seq<Option<LocalBuf>>,
    /// The writes under way, by their number; `None` is a number to be used
    /// again.
    pub runs: Seq<Option<RunView>>,
}

/// A write under way. The slots are taken one after the other: those with a
/// result are done.
#[verifier::ext_equal]
pub struct RunView {
    pub key: Seq<u8>,
    pub spec: ObjectSpecView,
    /// Which slots the write has claimed.
    pub writable: Seq<bool>,
    pub results: Seq<Result<(), ErrorView>>,
    /// The allocations of the slot whose bytes are being copied.
    pub pending: Option<Seq<Spot>>,
}

// ---- the table of allocations ----

/// Whether `id` is the first place in the table that is not taken.
pub open spec fn is_next<T>(bufs: Seq<Option<T>>, id: int) -> bool {
    &&& 0 <= id <= bufs.len()
    &&& id < bufs.len() ==> bufs[id] is None
    &&& forall|j: int| 0 <= j < id ==> (#[trigger] bufs[j]) is Some
}

pub open spec fn next_id<T>(bufs: Seq<Option<T>>) -> int {
    choose|id: int| is_next(bufs, id)
}

/// The table with `v` at `id`, a place in it or the one after the last.
pub open spec fn stored<T>(bufs: Seq<T>, id: int, v: T) -> Seq<T> {
    if id < bufs.len() {
        bufs.update(id, v)
    } else {
        bufs.push(v)
    }
}

impl LocalState {
    pub open spec fn with_pool(self, numa: u16, pool: LocalPool) -> LocalState {
        LocalState { pools: self.pools.insert(numa, pool), ..self }
    }

    pub open spec fn with_object(self, key: Seq<u8>, obj: LocalObject) -> LocalState {
        LocalState { objects: self.objects.insert(key, obj), ..self }
    }

    pub open spec fn with_fifo(self, numa: u16, fifo: Seq<Entry>) -> LocalState {
        self.with_pool(numa, LocalPool { fifo, ..self.pools[numa] })
    }

    pub open spec fn live(self, id: int) -> bool {
        0 <= id < self.bufs.len() && self.bufs[id] is Some
    }

    pub open spec fn with_buf(self, id: int, b: LocalBuf) -> LocalState {
        LocalState { bufs: self.bufs.update(id, Some(b)), ..self }
    }

    /// The state after a write allocated `len` bytes on `numa`, where they fit.
    pub open spec fn taken(self, numa: u16, len: nat, run: usize) -> Option<(LocalState, int)> {
        match self.pools[numa].pinned.allocated(len) {
            Some((pinned, buf)) => {
                let id = next_id(self.bufs);
                let b = LocalBuf { buf, keeper: Keeper::Writer(run), readers: 0 };
                Some(
                    (
                        LocalState {
                            bufs: stored(self.bufs, id, Some(b)),
                            pools: self.pools.insert(
                                numa,
                                LocalPool { pinned, ..self.pools[numa] },
                            ),
                            ..self
                        },
                        id,
                    ),
                )
            },
            None => None,
        }
    }

    /// The state after an allocation was given back to its pool.
    pub open spec fn given_back(self, id: int) -> LocalState {
        let buf = self.bufs[id]->0.buf;
        let pool = self.pools[buf.numa];
        LocalState {
            bufs: self.bufs.update(id, None),
            pools: self.pools.insert(
                buf.numa,
                LocalPool {
                    pinned: pool.pinned.returned(buf.off as nat, buf.reserved as nat),
                    ..pool
                },
            ),
            ..self
        }
    }

    /// The state after a write or a replica let go of an allocation: it goes back
    /// to its pool, unless there are readers.
    pub open spec fn let_go(self, id: int) -> LocalState {
        let b = self.bufs[id]->0;
        if b.readers == 0 {
            self.given_back(id)
        } else {
            self.with_buf(id, LocalBuf { keeper: Keeper::Readers, ..b })
        }
    }

    pub open spec fn let_go_all(self, ids: Seq<usize>, n: nat) -> LocalState
        decreases n,
    {
        if n == 0 {
            self
        } else {
            self.let_go_all(ids, (n - 1) as nat).let_go(ids[n - 1] as int)
        }
    }

    /// The state after a read of an allocation began.
    pub open spec fn read_begun(self, id: int) -> LocalState {
        let b = self.bufs[id]->0;
        self.with_buf(id, LocalBuf { readers: b.readers + 1, ..b })
    }

    /// The state after a read of an allocation ended; the last reader of one that
    /// nothing else keeps gives it back.
    pub open spec fn read_ended(self, id: int) -> LocalState {
        let b = self.bufs[id]->0;
        if b.readers == 1 && b.keeper == Keeper::Readers {
            self.given_back(id)
        } else {
            self.with_buf(id, LocalBuf { readers: (b.readers - 1) as nat, ..b })
        }
    }
}

// ---- eviction ----

/// The replicas that pass a test, in order.
pub open spec fn picked(
    replicas: Seq<LocalReplica>,
    keep: spec_fn(LocalReplica) -> bool,
) -> Seq<LocalReplica>
    decreases replicas.len(),
{
    if replicas.len() == 0 {
        Seq::empty()
    } else {
        let before = picked(replicas.drop_last(), keep);
        if keep(replicas.last()) {
            before.push(replicas.last())
        } else {
            before
        }
    }
}

/// The replicas but for those that lie in the pool of `numa`.
pub open spec fn without_pinned(replicas: Seq<LocalReplica>, numa: u16) -> Seq<LocalReplica> {
    picked(replicas, |r: LocalReplica| !r.pinned_on(numa))
}

/// How many replicas of a slot lie in the pool of `numa`.
pub open spec fn pinned_count(replicas: Seq<LocalReplica>, numa: u16) -> nat
    decreases replicas.len(),
{
    if replicas.len() == 0 {
        0
    } else {
        pinned_count(replicas.drop_last(), numa) + if replicas.last().pinned_on(numa) {
            1nat
        } else {
            0nat
        }
    }
}

/// The allocations of a list of replicas.
pub open spec fn ids_of(replicas: Seq<LocalReplica>) -> Seq<usize> {
    Seq::new(replicas.len(), |i: int| replicas[i].data->Pinned_0)
}

/// The allocations of the replicas that lie in the pool of `numa`.
pub open spec fn pinned_ids(replicas: Seq<LocalReplica>, numa: u16) -> Seq<usize> {
    ids_of(picked(replicas, |r: LocalReplica| r.pinned_on(numa)))
}

/// The entries of an eviction order whose object is there.
pub open spec fn live_entries(
    fifo: Seq<Entry>,
    objects: Map<Seq<u8>, LocalObject>,
) -> Seq<Entry> {
    model::entries_with(fifo, |e: Entry| objects.contains_key(e.0))
}

/// Whether nothing is stored in an object and nothing is about to be.
pub open spec fn idle(slots: Seq<LocalSlot>) -> bool {
    forall|i: int|
        0 <= i < slots.len() ==> (#[trigger] slots[i]).replicas.len() == 0 && slots[i].writing
            is None
}

impl LocalState {
    pub open spec fn evictable(self, entry: Entry) -> bool {
        &&& self.objects.contains_key(entry.0)
        &&& self.objects[entry.0].spec.retention == Retention::Cache
        &&& entry.1 < self.objects[entry.0].slots.len()
    }

    /// Whether an entry of the eviction order is passed over: it is of `protect`,
    /// or of an object that is not evicted.
    pub open spec fn spared(self, entry: Entry, protect: Seq<u8>) -> bool {
        entry.0 == protect || !self.evictable(entry)
    }

    /// The state after the replicas of one slot gave up their place in the pool
    /// of `numa`, and whether there were any.
    pub open spec fn evicted(self, numa: u16, entry: Entry) -> (LocalState, bool) {
        if !self.evictable(entry) {
            (self, false)
        } else {
            let obj = self.objects[entry.0];
            let slot = obj.slots[entry.1 as int];
            let ids = pinned_ids(slot.replicas, numa);
            let slots = obj.slots.update(
                entry.1 as int,
                LocalSlot { replicas: without_pinned(slot.replicas, numa), ..slot },
            );
            let objects = if idle(slots) {
                self.objects.remove(entry.0)
            } else {
                self.objects.insert(entry.0, LocalObject { slots, ..obj })
            };
            (LocalState { objects, ..self }.let_go_all(ids, ids.len()), ids.len() > 0)
        }
    }

    /// Take entries off the front of the eviction order until one was evicted or
    /// none is left; those that are spared are set aside, and go back to the
    /// front. Says whether anything was evicted.
    pub open spec fn evict_some(
        self,
        numa: u16,
        protect: Seq<u8>,
        aside: Seq<Entry>,
    ) -> (LocalState, bool)
        decreases self.pools[numa].fifo.len(),
    {
        let fifo = self.pools[numa].fifo;
        if fifo.len() == 0 {
            (self.with_fifo(numa, aside), false)
        } else {
            let rest = self.with_fifo(numa, fifo.drop_first());
            if self.spared(fifo[0], protect) {
                rest.evict_some(numa, protect, aside.push(fifo[0]))
            } else {
                let (after, any) = rest.evicted(numa, fifo[0]);
                if any {
                    (after.with_fifo(numa, aside + after.pools[numa].fifo), true)
                } else if after.pools[numa].fifo.len() < fifo.len() {
                    after.evict_some(numa, protect, aside)
                } else {
                    (after, false)
                }
            }
        }
    }

    /// Allocate `len` bytes on `numa`, evicting one slot after the other while
    /// they do not fit.
    pub open spec fn alloc_or_evict(
        self,
        numa: u16,
        len: nat,
        run: usize,
        protect: Seq<u8>,
    ) -> (LocalState, Result<int, ErrorView>)
        decreases self.pools[numa].fifo.len(),
    {
        if !self.pools.contains_key(numa) {
            (self, Err(no_pool(Device::Cpu { numa })))
        } else {
            match self.taken(numa, len, run) {
                Some((s, id)) => (s, Ok(id)),
                None => if len > self.pools[numa].pinned.len {
                    (self, Err(no_space(numa, len)))
                } else {
                    let (s, any) = self.evict_some(numa, protect, Seq::empty());
                    if any && s.pools[numa].fifo.len() < self.pools[numa].fifo.len() {
                        s.alloc_or_evict(numa, len, run, protect)
                    } else {
                        (s, Err(no_space(numa, len)))
                    }
                },
            }
        }
    }
}

pub open spec fn no_pool(d: Device) -> ErrorView {
    ErrorView::new(ErrorKind::InvalidInput, "no pool on device"@).with_context(
        "device"@,
        types::device_text(d),
    )
}

pub open spec fn not_a_tier(d: Device) -> ErrorView {
    ErrorView::new(
        ErrorKind::InvalidInput,
        "GPU memory is not a store tier; use publish"@,
    ).with_context("device"@, types::device_text(d))
}

pub open spec fn no_space(numa: u16, len: nat) -> ErrorView {
    ErrorView::new(ErrorKind::NoSpace, "pool cannot fit slot"@).with_context(
        "device"@,
        types::device_text(Device::Cpu { numa }),
    ).with_context("len"@, text::decimal(len))
}

// ---- placement ----

/// The pool of a device.
pub open spec fn pool_of(order: Seq<u16>, d: Device) -> Result<u16, ErrorView> {
    match d {
        Device::Cpu { numa } => if order.contains(numa) {
            Ok(numa)
        } else {
            Err(no_pool(d))
        },
        Device::Gpu { .. } => Err(not_a_tier(d)),
    }
}

/// The pools but for `numa`, each a fallback.
pub open spec fn other_pools(order: Seq<u16>, d: Device, n: nat) -> Seq<(u16, bool)>
    decreases n,
{
    if n == 0 {
        Seq::empty()
    } else {
        let before = other_pools(order, d, (n - 1) as nat);
        if d == (Device::Cpu { numa: order[n - 1] }) {
            before
        } else {
            before.push((order[n - 1], true))
        }
    }
}

/// The pools of the first `n` devices of a list, or the first refusal.
pub open spec fn pools_of(order: Seq<u16>, ds: Seq<Device>, n: nat) -> Result<
    Seq<(u16, bool)>,
    ErrorView,
>
    decreases n,
{
    if n == 0 {
        Ok(Seq::empty())
    } else {
        match pools_of(order, ds, (n - 1) as nat) {
            Err(e) => Err(e),
            Ok(ps) => match pool_of(order, ds[n - 1]) {
                Err(e) => Err(e),
                Ok(numa) => Ok(ps.push((numa, false))),
            },
        }
    }
}

/// Where a slot is to be tried: the pools, in order, whether landing there
/// counts as misplaced, and what is wrong with the device asked for where
/// others may take its place. `Err` where none may.
pub open spec fn resolved(placement: PlacementView, order: Seq<u16>) -> Result<
    (Seq<(u16, bool)>, Option<ErrorView>),
    ErrorView,
> {
    match placement {
        PlacementView::Strict(d) => match pool_of(order, d) {
            Ok(numa) => Ok((seq![(numa, false)], None)),
            Err(e) => Err(e),
        },
        PlacementView::Prefer(d) => match pool_of(order, d) {
            Ok(numa) => Ok((seq![(numa, false)] + other_pools(order, d, order.len()), None)),
            Err(e) => Ok((other_pools(order, d, order.len()), Some(e))),
        },
        PlacementView::Each(ds) => match pools_of(order, ds, ds.len()) {
            Ok(ps) => Ok((ps, None)),
            Err(e) => Err(e),
        },
        PlacementView::Anywhere => Ok(
            (Seq::new(order.len(), |i: int| (order[i], false)), None),
        ),
    }
}

/// One allocation of a slot: its pool, whether it is misplaced, its place in the
/// table.
pub type Spot = (u16, bool, usize);

/// How far the placing of a slot has come.
#[verifier::ext_equal]
pub struct Placing {
    pub state: LocalState,
    pub spots: Seq<Spot>,
    pub error: Option<ErrorView>,
    pub done: bool,
}

/// The places in the table of a list of spots.
pub open spec fn spot_ids(spots: Seq<Spot>) -> Seq<usize> {
    Seq::new(spots.len(), |i: int| spots[i].2)
}

impl LocalState {
    pub open spec fn tried(
        self,
        targets: Seq<(u16, bool)>,
        first: Option<ErrorView>,
        each: bool,
        len: nat,
        run: usize,
        key: Seq<u8>,
        n: nat,
    ) -> Placing
        decreases n,
    {
        if n == 0 {
            Placing { state: self, spots: Seq::empty(), error: first, done: false }
        } else {
            let p = self.tried(targets, first, each, len, run, key, (n - 1) as nat);
            if p.done {
                p
            } else {
                let (state, r) = p.state.alloc_or_evict(targets[n - 1].0, len, run, key);
                match r {
                    Ok(id) => Placing {
                        state,
                        spots: p.spots.push((targets[n - 1].0, targets[n - 1].1, id as usize)),
                        done: !each,
                        ..p
                    },
                    Err(e) => Placing { state, error: Some(e), done: each, ..p },
                }
            }
        }
    }

    /// The state after a slot was placed, and its spots; a slot that is not
    /// placed keeps none.
    pub open spec fn placed(
        self,
        order: Seq<u16>,
        placement: PlacementView,
        len: nat,
        run: usize,
        key: Seq<u8>,
    ) -> (LocalState, Result<Seq<Spot>, ErrorView>) {
        match resolved(placement, order) {
            Err(e) => (self, Err(e)),
            Ok((targets, first)) => {
                let each = placement is Each;
                let p = self.tried(targets, first, each, len, run, key, targets.len());
                if p.spots.len() > 0 && (each ==> p.error is None) {
                    (p.state, Ok(p.spots))
                } else {
                    let e = match p.error {
                        Some(e) => e,
                        None => ErrorView::new(ErrorKind::NoSpace, "no device available"@),
                    };
                    (p.state.let_go_all(spot_ids(p.spots), p.spots.len()), Err(e))
                }
            },
        }
    }

    // ---- put ----

    /// The state with an object for `key`: the one that is there, or a new one
    /// with empty slots.
    pub open spec fn reserved(self, key: Seq<u8>, spec: ObjectSpecView) -> LocalState {
        if self.objects.contains_key(key) {
            self
        } else {
            self.with_object(
                key,
                LocalObject {
                    spec,
                    slots: Seq::new(
                        spec.slots.len(),
                        |i: int| LocalSlot { replicas: Seq::empty(), writing: None },
                    ),
                },
            )
        }
    }

    /// Whether a write may claim a slot.
    pub open spec fn claimable(self, key: Seq<u8>, i: int) -> bool {
        let slot = self.objects[key].slots[i];
        slot.replicas.len() == 0 && slot.writing is None
    }

    /// The state after a write claimed every slot of `key` that it may.
    pub open spec fn claimed(self, key: Seq<u8>, run: usize) -> LocalState {
        let obj = self.objects[key];
        self.with_object(
            key,
            LocalObject {
                slots: Seq::new(
                    obj.slots.len(),
                    |i: int|
                        if self.claimable(key, i) {
                            LocalSlot { writing: Some(run), ..obj.slots[i] }
                        } else {
                            obj.slots[i]
                        },
                ),
                ..obj
            },
        )
    }

    /// The start of a `put`: the object is there, its free slots are claimed, and
    /// the write has a number.
    pub open spec fn begun(self, key: Seq<u8>, op: OpPutView) -> (
        LocalState,
        Result<int, ErrorView>,
    ) {
        if op.error() is Some {
            (self, Err(op.error()->0))
        } else if self.objects.contains_key(key) && self.objects[key].spec != op.spec() {
            (
                self,
                Err(
                    ErrorView::new(
                        ErrorKind::SpecMismatch,
                        "existing object has a different spec"@,
                    ).with_context("key"@, types::key_text(key)),
                ),
            )
        } else {
            let run = next_id(self.runs);
            let s = self.reserved(key, op.spec());
            let r = RunView {
                key,
                spec: op.spec(),
                writable: Seq::new(op.slots.len(), |i: int| s.claimable(key, i)),
                results: Seq::empty(),
                pending: None,
            };
            (
                LocalState {
                    runs: stored(self.runs, run, Some(r)),
                    ..s.claimed(key, run as usize)
                },
                Ok(run),
            )
        }
    }

    pub open spec fn active(self, run: int) -> bool {
        0 <= run < self.runs.len() && self.runs[run] is Some
    }

    pub open spec fn with_run(self, run: int, r: RunView) -> LocalState {
        LocalState { runs: self.runs.update(run, Some(r)), ..self }
    }

    /// The state after the slot that a write is at got its result.
    pub open spec fn answered(self, run: int, result: Result<(), ErrorView>) -> LocalState {
        let r = self.runs[run]->0;
        self.with_run(run, RunView { results: r.results.push(result), pending: None, ..r })
    }

    /// The state after a write went on to the next slot that has bytes to be
    /// copied: one that was not claimed is refused, one that cannot be placed
    /// gives up its claim.
    pub open spec fn advanced(self, order: Seq<u16>, run: int) -> LocalState
        decreases self.runs[run]->0.spec.slots.len() - self.runs[run]->0.results.len(),
    {
        let r = self.runs[run]->0;
        let i = r.results.len();
        if !self.active(run) || r.pending is Some || i >= r.spec.slots.len() {
            self
        } else if !r.writable[i as int] {
            self.answered(run, Err(already_written(i))).advanced(order, run)
        } else {
            let spec = r.spec.slots[i as int];
            let (s, placed) = self.placed(
                order,
                spec.placement,
                spec.len as nat,
                run as usize,
                r.key,
            );
            let s = LocalState { runs: self.runs, ..s };
            match placed {
                Ok(spots) => s.with_run(run, RunView { pending: Some(spots), ..r }),
                Err(e) => {
                    let t = s.unclaimed(r.key, i as int, run as usize).answered(
                        run,
                        Err(e.with_context("slot"@, text::decimal(i))),
                    );
                    t.advanced(order, run)
                },
            }
        }
    }

    /// The state after the copy that a write waited for ended: the slot is
    /// written, or its allocations and its claim are given up.
    pub open spec fn copied(self, run: int, outcome: Result<(), ErrorView>) -> LocalState {
        let r = self.runs[run]->0;
        let i = r.results.len();
        let spots = r.pending->0;
        match outcome {
            Ok(_) => {
                let (s, result) = self.committed(r.key, i, run as usize, spots);
                match result {
                    Ok(_) => s.answered(run, Ok(())),
                    Err(e) => s.answered(run, Err(e.with_context("slot"@, text::decimal(i)))),
                }
            },
            Err(e) => self.let_go_all(spot_ids(spots), spots.len()).unclaimed(
                r.key,
                i as int,
                run as usize,
            ).answered(run, Err(e.with_context("slot"@, text::decimal(i)))),
        }
    }

    /// Whether every slot of a write has its result.
    pub open spec fn complete(self, run: int) -> bool {
        let r = self.runs[run]->0;
        r.pending is None && r.results.len() == r.spec.slots.len()
    }

    pub open spec fn ended(self, run: int) -> LocalState {
        LocalState { runs: self.runs.update(run, None), ..self }
    }

    /// Whether slot `i` of `key` is still claimed by a write.
    pub open spec fn holds(self, key: Seq<u8>, i: int, run: usize) -> bool {
        &&& self.objects.contains_key(key)
        &&& 0 <= i < self.objects[key].slots.len()
        &&& self.objects[key].slots[i].writing == Some(run)
    }

    pub open spec fn with_slot(self, key: Seq<u8>, i: int, slot: LocalSlot) -> LocalState {
        let obj = self.objects[key];
        self.with_object(key, LocalObject { slots: obj.slots.update(i, slot), ..obj })
    }

    /// The state after a write gave up its claim on a slot.
    pub open spec fn unclaimed(self, key: Seq<u8>, i: int, run: usize) -> LocalState {
        if self.holds(key, i, run) {
            self.with_slot(
                key,
                i,
                LocalSlot { writing: None, ..self.objects[key].slots[i] },
            )
        } else {
            self
        }
    }

    /// The state after the first `n` spots of a slot became replicas' in the
    /// table.
    pub open spec fn kept(self, spots: Seq<Spot>, n: nat) -> LocalState
        decreases n,
    {
        if n == 0 {
            self
        } else {
            let s = self.kept(spots, (n - 1) as nat);
            let id = spots[n - 1].2 as int;
            s.with_buf(id, LocalBuf { keeper: Keeper::Stored, ..s.bufs[id]->0 })
        }
    }

    /// The state after the first `n` spots of a slot entered the eviction orders.
    pub open spec fn queued(self, spots: Seq<Spot>, key: Seq<u8>, i: nat, n: nat) -> LocalState
        decreases n,
    {
        if n == 0 {
            self
        } else {
            let s = self.queued(spots, key, i, (n - 1) as nat);
            s.with_fifo(
                spots[n - 1].0,
                model::appended(s.pools[spots[n - 1].0].fifo, (key, i)),
            )
        }
    }

    /// The state after a slot was written, and the result: its spots are
    /// replicas, unless the object was removed in the meantime.
    pub open spec fn committed(self, key: Seq<u8>, i: nat, run: usize, spots: Seq<Spot>) -> (
        LocalState,
        Result<(), ErrorView>,
    ) {
        if self.holds(key, i as int, run) {
            let slot = self.objects[key].slots[i as int];
            let after = LocalSlot { replicas: slot.replicas + spot_replicas(spots), writing: None };
            (
                self.with_slot(key, i as int, after).kept(spots, spots.len()).queued(
                    spots,
                    key,
                    i,
                    spots.len(),
                ),
                Ok(()),
            )
        } else {
            (
                self.let_go_all(spot_ids(spots), spots.len()),
                Err(ErrorView::new(ErrorKind::NotFound, "object removed during put"@)),
            )
        }
    }

    // ---- get, publish, stat ----

    /// The replica that a `get` reads, or the refusal.
    pub open spec fn source(self, gpu_numa: Map<u16, u16>, key: Seq<u8>, op: OpGetView) -> Result<
        LocalReplica,
        ErrorView,
    > {
        match ops::checked_iovs(op.dst, None) {
            Err(e) => Err(e),
            Ok((device, total)) => if !self.objects.contains_key(key) {
                Err(model::no_such_key(key))
            } else {
                let obj = self.objects[key];
                let i = op.slot.0 as int;
                if i >= obj.slots.len() {
                    Err(model::no_such_slot(op.slot.0))
                } else if op.src_offset + total > obj.spec.slots[i].len {
                    Err(model::bad_range(op.src_offset, total, obj.spec.slots[i].len))
                } else if obj.slots[i].replicas.len() == 0 {
                    Err(model::no_replica(key, op.slot.0))
                } else {
                    Ok(nearest_local(gpu_numa, device, obj.slots[i].replicas))
                }
            },
        }
    }

    /// The addresses of a replica's bytes.
    pub open spec fn segs(self, r: LocalReplica) -> Seq<(u64, u64)> {
        match r.data {
            LocalData::Pinned(id) => {
                let buf = self.bufs[id as int]->0.buf;
                seq![(buf.addr, buf.len as u64)]
            },
            LocalData::External { segs, .. } => segs,
        }
    }

    pub open spec fn publish_result(self, key: Seq<u8>, op: OpPublishView) -> Result<
        (),
        ErrorView,
    > {
        match ops::checked_iovs(op.src, None) {
            Err(e) => Err(e),
            Ok((_, total)) => if !self.objects.contains_key(key) {
                Err(model::no_such_key(key))
            } else if op.slot.0 >= self.objects[key].slots.len() {
                Err(model::no_slot_to_publish(op.slot.0))
            } else if self.objects[key].spec.slots[op.slot.0 as int].len != total {
                Err(
                    ErrorView::new(
                        ErrorKind::InvalidInput,
                        "published length differs from slot length"@,
                    ).with_context("slot"@, text::decimal(op.slot.0 as nat)).with_context(
                        "len"@,
                        text::decimal(total as nat),
                    ).with_context(
                        "expected"@,
                        text::decimal(self.objects[key].spec.slots[op.slot.0 as int].len as nat),
                    ),
                )
            } else {
                Ok(())
            },
        }
    }

    pub open spec fn published(self, key: Seq<u8>, op: OpPublishView) -> LocalState {
        if self.publish_result(key, op) is Err {
            self
        } else {
            let i = op.slot.0 as int;
            let slot = self.objects[key].slots[i];
            let replica = LocalReplica {
                device: op.src[0].region.device,
                tier: Tier::External,
                misplaced: false,
                data: LocalData::External {
                    segs: region::segments(op.src),
                    regions: model::region_ids(op.src),
                },
            };
            self.with_slot(key, i, LocalSlot { replicas: slot.replicas.push(replica), ..slot })
        }
    }

    pub open spec fn info(self, node: NodeId, key: Seq<u8>) -> Option<ObjectInfoView> {
        if self.objects.contains_key(key) {
            let obj = self.objects[key];
            Some(
                ObjectInfoView {
                    retention: obj.spec.retention,
                    slots: Seq::new(
                        obj.slots.len(),
                        |i: int|
                            local_slot_info(node, obj.spec.slots[i].len, obj.slots[i].replicas),
                    ),
                },
            )
        } else {
            None
        }
    }

    // ---- lifecycle ----

    /// The state with the eviction orders cut down to the entries whose object is
    /// there.
    pub open spec fn swept(self) -> LocalState {
        LocalState {
            pools: self.pools.map_values(
                |pool: LocalPool|
                    LocalPool {
                        fifo: live_entries(pool.fifo, self.objects),
                        ..pool
                    },
            ),
            ..self
        }
    }

    /// The state after the object of `key` was removed: its allocations go back
    /// once nobody reads them, and the eviction orders have no entry of it.
    pub open spec fn removed(self, key: Seq<u8>) -> LocalState {
        if self.objects.contains_key(key) {
            let ids = object_ids(self.objects[key].slots, self.objects[key].slots.len());
            LocalState { objects: self.objects.remove(key), ..self }.let_go_all(
                ids,
                ids.len(),
            ).swept()
        } else {
            self
        }
    }

    pub open spec fn removed_all(self, keys: Seq<Seq<u8>>, n: nat) -> LocalState
        decreases n,
    {
        if n == 0 {
            self
        } else {
            self.removed_all(keys, (n - 1) as nat).removed(keys[n - 1])
        }
    }

    pub open spec fn retired(self, id: u64) -> LocalState {
        LocalState {
            objects: self.objects.map_values(
                |obj: LocalObject|
                    LocalObject {
                        slots: Seq::new(
                            obj.slots.len(),
                            |i: int|
                                LocalSlot {
                                    replicas: without_local_region(obj.slots[i].replicas, id),
                                    ..obj.slots[i]
                                },
                        ),
                        ..obj
                    },
            ),
            ..self
        }
    }
}

impl LocalState {
    /// How often a slot is to stand in the eviction order of `numa`: once where it
    /// has a replica in that pool.
    pub open spec fn turns_on(self, entry: Entry, numa: u16) -> nat {
        if self.objects.contains_key(entry.0) && entry.1 < self.objects[entry.0].slots.len()
            && pinned_count(self.objects[entry.0].slots[entry.1 as int].replicas, numa) > 0 {
            1
        } else {
            0
        }
    }

    /// Whether an eviction order holds one entry for every slot that has a replica
    /// in the pool of `numa`, and no other.
    pub open spec fn queues(self, numa: u16, fifo: Seq<Entry>) -> bool {
        forall|entry: Entry| #[trigger]
            model::times(fifo, entry) == self.turns_on(entry, numa)
    }

    /// Whether the eviction order of every pool holds one entry for every slot that
    /// has a replica in it, and no other.
    pub open spec fn lined_up(self) -> bool {
        forall|numa: u16| #[trigger]
            self.pools.contains_key(numa) ==> self.queues(numa, self.pools[numa].fifo)
    }
}

pub open spec fn already_written(i: nat) -> ErrorView {
    ErrorView::new(ErrorKind::AlreadyExists, "slot already written"@).with_context(
        "slot"@,
        text::decimal(i),
    )
}

/// One replica per spot.
pub open spec fn spot_replicas(spots: Seq<Spot>) -> Seq<LocalReplica> {
    Seq::new(
        spots.len(),
        |i: int|
            LocalReplica {
                device: Device::Cpu { numa: spots[i].0 },
                tier: Tier::Dram,
                misplaced: spots[i].1,
                data: LocalData::Pinned(spots[i].2),
            },
    )
}

/// The allocations of the replicas of a slot.
pub open spec fn slot_ids(replicas: Seq<LocalReplica>) -> Seq<usize> {
    ids_of(picked(replicas, |r: LocalReplica| r.data is Pinned))
}

/// The allocations of the first `n` slots of an object.
pub open spec fn object_ids(slots: Seq<LocalSlot>, n: nat) -> Seq<usize>
    decreases n,
{
    if n == 0 {
        Seq::empty()
    } else {
        object_ids(slots, (n - 1) as nat) + slot_ids(slots[n - 1].replicas)
    }
}

/// The replicas but for those that lie in a region.
pub open spec fn without_local_region(replicas: Seq<LocalReplica>, id: u64) -> Seq<LocalReplica> {
    picked(replicas, |r: LocalReplica| !r.from_region(id))
}

pub open spec fn local_slot_info(node: NodeId, len: u64, replicas: Seq<LocalReplica>) -> SlotInfoView {
    SlotInfoView {
        len,
        replicas: Seq::new(
            replicas.len(),
            |j: int|
                Replica {
                    location: Location {
                        node,
                        device: replicas[j].device,
                        tier: replicas[j].tier,
                    },
                    misplaced: replicas[j].misplaced,
                },
        ),
    }
}

/// Whether `a` is read rather than `b`: because it is nearer to `dst`, or as
/// near and in a better tier.
pub open spec fn nearer_local(
    gpu_numa: Map<u16, u16>,
    dst: Device,
    a: LocalReplica,
    b: LocalReplica,
) -> bool {
    let x = topology::distance(gpu_numa, dst, a.device);
    let y = topology::distance(gpu_numa, dst, b.device);
    x < y || x == y && types::rank_of(a.tier) < types::rank_of(b.tier)
}

pub open spec fn is_nearest_local(
    gpu_numa: Map<u16, u16>,
    dst: Device,
    replicas: Seq<LocalReplica>,
    i: int,
) -> bool {
    &&& 0 <= i < replicas.len()
    &&& forall|j: int|
        0 <= j < i ==> nearer_local(gpu_numa, dst, replicas[i], #[trigger] replicas[j])
    &&& forall|j: int|
        i < j < replicas.len() ==> !nearer_local(gpu_numa, dst, #[trigger] replicas[j], replicas[i])
}

pub open spec fn nearest_local(
    gpu_numa: Map<u16, u16>,
    dst: Device,
    replicas: Seq<LocalReplica>,
) -> LocalReplica {
    replicas[choose|i: int| is_nearest_local(gpu_numa, dst, replicas, i)]
}

} // verus!
