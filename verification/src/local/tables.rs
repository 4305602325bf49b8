//! The single-node backend's tables: objects, pools, allocations, writes.
use std::collections::VecDeque;

use vstd::prelude::*;

use crate::error;
use crate::error::{Error, ErrorKind, ErrorView};
use crate::index::Index;
use crate::local::ledger;
use crate::local::ledger::{
    Keeper, LocalBuf, LocalData, LocalObject, LocalPool, LocalReplica, LocalSlot, LocalState,
    RunView, Spot,
};
use crate::local::queue;
use crate::local::safety;
use crate::local::steps;
use crate::local::writes;
use crate::pinned;
use crate::pinned::{PinnedBuf, PinnedPool};
use crate::services::model::Entry;
use crate::services::state;
use crate::text::decimal_string;
use crate::types::{Device, Key, ObjectSpec, Placement, PlacementView, Retention, Tier};

verus! {

pub enum Backing {
    /// An allocation in a pool, by its place in the table of allocations.
    Pinned(usize),
    /// The segments, and the regions that they lie in.
    External { segs: Vec<(u64, u64)>, regions: Vec<u64> },
}

impl View for Backing {
    type V = LocalData;

    open spec fn view(&self) -> LocalData {
        match self {
            Backing::Pinned(id) => LocalData::Pinned(*id),
            Backing::External { segs, regions } => LocalData::External {
                segs: segs@,
                regions: regions@,
            },
        }
    }
}

pub struct ReplicaRow {
    pub device: Device,
    pub tier: Tier,
    pub misplaced: bool,
    pub data: Backing,
}

impl View for ReplicaRow {
    type V = LocalReplica;

    open spec fn view(&self) -> LocalReplica {
        LocalReplica {
            device: self.device,
            tier: self.tier,
            misplaced: self.misplaced,
            data: self.data@,
        }
    }
}

pub open spec fn replica_row_views(replicas: Seq<ReplicaRow>) -> Seq<LocalReplica> {
    Seq::new(replicas.len(), |i: int| replicas[i]@)
}

pub struct SlotRow {
    pub replicas: Vec<ReplicaRow>,
    pub writing: Option<usize>,
}

impl View for SlotRow {
    type V = LocalSlot;

    open spec fn view(&self) -> LocalSlot {
        LocalSlot { replicas: replica_row_views(self.replicas@), writing: self.writing }
    }
}

pub open spec fn slot_row_views(slots: Seq<SlotRow>) -> Seq<LocalSlot> {
    Seq::new(slots.len(), |i: int| slots[i]@)
}

pub struct ObjectRow {
    pub spec: ObjectSpec,
    pub slots: Vec<SlotRow>,
}

impl View for ObjectRow {
    type V = LocalObject;

    open spec fn view(&self) -> LocalObject {
        LocalObject { spec: self.spec@, slots: slot_row_views(self.slots@) }
    }
}

/// The allocations of a list of replicas that are all in pools.
proof fn lemma_ids_push(replicas: Seq<LocalReplica>, r: LocalReplica)
    ensures
        ledger::ids_of(replicas.push(r)) == ledger::ids_of(replicas).push(r.data->Pinned_0),
{
    assert(ledger::ids_of(replicas.push(r)) =~= ledger::ids_of(replicas).push(r.data->Pinned_0));
}

impl SlotRow {
    /// Drop the replicas in the pool of `numa`; says which allocations they had.
    fn drop_pinned(&mut self, numa: u16) -> (r: Vec<usize>)
        ensures
            final(self)@ == (LocalSlot {
                replicas: ledger::without_pinned(old(self)@.replicas, numa),
                ..old(self)@
            }),
            r@ == ledger::pinned_ids(old(self)@.replicas, numa),
    {
        let ghost all = self@.replicas;
        let ghost on = |r: LocalReplica| r.pinned_on(numa);
        let ghost off = |r: LocalReplica| !r.pinned_on(numa);
        let ghost mut seen: int = 0;
        let mut ids: Vec<usize> = Vec::new();
        let mut i: usize = 0;
        assert(all.take(0) =~= Seq::empty());
        assert(self@.replicas =~= ledger::picked(all.take(0), off) + all.skip(0));
        assert(ids@ =~= ledger::ids_of(ledger::picked(all.take(0), on)));
        while i < self.replicas.len()
            invariant
                0 <= seen <= all.len(),
                on == (|r: LocalReplica| r.pinned_on(numa)),
                off == (|r: LocalReplica| !r.pinned_on(numa)),
                self.writing == old(self).writing,
                self@.replicas == ledger::picked(all.take(seen), off) + all.skip(seen),
                i == ledger::picked(all.take(seen), off).len(),
                ids@ == ledger::ids_of(ledger::picked(all.take(seen), on)),
            decreases all.len() - seen,
        {
            let ghost before = self@.replicas;
            assert(before.len() == self.replicas@.len());
            assert(before[i as int] == all[seen]);
            assert(all.take(seen + 1).drop_last() =~= all.take(seen));
            let entry = &self.replicas[i];
            assert(entry@ == all[seen]);
            let mut gone: Option<usize> = None;
            if entry.device == (Device::Cpu { numa }) {
                if let Backing::Pinned(id) = &entry.data {
                    gone = Some(*id);
                }
            }
            if let Some(id) = gone {
                self.replicas.remove(i);
                ids.push(id);
                assert(self@.replicas =~= before.remove(i as int));
                proof {
                    lemma_ids_push(ledger::picked(all.take(seen), on), all[seen]);
                }
            } else {
                i = i + 1;
            }
            assert(self@.replicas =~= ledger::picked(all.take(seen + 1), off) + all.skip(seen + 1));
            proof {
                seen = seen + 1;
            }
        }
        assert(seen == all.len());
        assert(all.take(seen) =~= all);
        assert(self@.replicas =~= ledger::without_pinned(all, numa));
        ids
    }

    /// Drop the replicas that lie in a region.
    pub fn drop_region(&mut self, id: u64)
        ensures
            final(self)@ == (LocalSlot {
                replicas: ledger::without_local_region(old(self)@.replicas, id),
                ..old(self)@
            }),
    {
        let ghost all = self@.replicas;
        let ghost off = |r: LocalReplica| !r.from_region(id);
        let ghost mut seen: int = 0;
        let mut i: usize = 0;
        assert(all.take(0) =~= Seq::empty());
        assert(self@.replicas =~= ledger::picked(all.take(0), off) + all.skip(0));
        while i < self.replicas.len()
            invariant
                0 <= seen <= all.len(),
                off == (|r: LocalReplica| !r.from_region(id)),
                self.writing == old(self).writing,
                self@.replicas == ledger::picked(all.take(seen), off) + all.skip(seen),
                i == ledger::picked(all.take(seen), off).len(),
            decreases all.len() - seen,
        {
            let ghost before = self@.replicas;
            assert(before.len() == self.replicas@.len());
            assert(before[i as int] == all[seen]);
            assert(all.take(seen + 1).drop_last() =~= all.take(seen));
            let entry = &self.replicas[i];
            assert(entry@ == all[seen]);
            let mut gone = false;
            if let Backing::External { regions, .. } = &entry.data {
                gone = state::holds_id(regions, id);
            }
            if gone {
                self.replicas.remove(i);
                assert(self@.replicas =~= before.remove(i as int));
            } else {
                i = i + 1;
            }
            assert(self@.replicas =~= ledger::picked(all.take(seen + 1), off) + all.skip(seen + 1));
            proof {
                seen = seen + 1;
            }
        }
        assert(all.take(seen) =~= all);
        assert(self@.replicas =~= ledger::without_local_region(all, id));
    }

    /// The allocations of the replicas.
    pub fn ids(&self) -> (r: Vec<usize>)
        ensures
            r@ == ledger::slot_ids(self@.replicas),
    {
        let ghost all = self@.replicas;
        let ghost on = |r: LocalReplica| r.data is Pinned;
        let mut ids: Vec<usize> = Vec::new();
        assert(all.take(0) =~= Seq::empty());
        assert(ids@ =~= ledger::ids_of(ledger::picked(all.take(0), on)));
        for i in 0..self.replicas.len()
            invariant
                all == self@.replicas,
                on == (|r: LocalReplica| r.data is Pinned),
                ids@ == ledger::ids_of(ledger::picked(all.take(i as int), on)),
        {
            assert(all.take(i + 1).drop_last() =~= all.take(i as int));
            assert(all[i as int] == self.replicas@[i as int]@);
            if let Backing::Pinned(id) = &self.replicas[i].data {
                ids.push(*id);
                proof {
                    lemma_ids_push(ledger::picked(all.take(i as int), on), all[i as int]);
                }
            }
        }
        assert(all.take(all.len() as int) =~= all);
        ids
    }
}

impl ObjectRow {
    fn is_idle(&self) -> (r: bool)
        ensures
            r == ledger::idle(self@.slots),
    {
        for i in 0..self.slots.len()
            invariant
                forall|j: int|
                    0 <= j < i ==> (#[trigger] self@.slots[j]).replicas.len() == 0
                        && self@.slots[j].writing is None,
        {
            assert(self@.slots[i as int].replicas.len() == self.slots@[i as int].replicas@.len());
            if self.slots[i].replicas.len() > 0 || self.slots[i].writing.is_some() {
                return false;
            }
        }
        true
    }

    pub fn drop_region(&mut self, id: u64)
        ensures
            final(self)@ == (LocalObject {
                slots: Seq::new(
                    old(self)@.slots.len(),
                    |i: int|
                        LocalSlot {
                            replicas: ledger::without_local_region(old(self)@.slots[i].replicas, id),
                            ..old(self)@.slots[i]
                        },
                ),
                ..old(self)@
            }),
    {
        let ghost want = Seq::new(
            self@.slots.len(),
            |i: int|
                LocalSlot {
                    replicas: ledger::without_local_region(self@.slots[i].replicas, id),
                    ..self@.slots[i]
                },
        );
        let n: usize = self.slots.len();
        for i in 0..n
            invariant
                self.spec == old(self).spec,
                n == self.slots@.len(),
                n == old(self).slots@.len(),
                want == Seq::new(
                    old(self)@.slots.len(),
                    |i: int|
                        LocalSlot {
                            replicas: ledger::without_local_region(old(self)@.slots[i].replicas, id),
                            ..old(self)@.slots[i]
                        },
                ),
                forall|j: int| 0 <= j < i ==> (#[trigger] self@.slots[j]) == want[j],
                forall|j: int|
                    i <= j < self.slots@.len() ==> #[trigger] self.slots@[j] == old(self).slots@[j],
        {
            let ghost before = self.slots@;
            let ghost before_view = self@;
            self.slots[i].drop_region(id);
            assert forall|j: int| 0 <= j < i + 1 implies (#[trigger] self@.slots[j]) == want[j] by {
                if j < i {
                    assert(self.slots@[j] == before[j]);
                    assert(before_view.slots[j] == want[j]);
                } else {
                    assert(before[j] == old(self).slots@[j]);
                }
            }
        }
        assert(self@.slots =~= want);
    }

    /// The allocations of the replicas of all slots.
    pub fn ids(&self) -> (r: Vec<usize>)
        ensures
            r@ == ledger::object_ids(self@.slots, self@.slots.len()),
    {
        let mut ids: Vec<usize> = Vec::new();
        for i in 0..self.slots.len()
            invariant
                ids@ == ledger::object_ids(self@.slots, i as nat),
        {
            assert(self@.slots[i as int] == self.slots@[i as int]@);
            let mut more = self.slots[i].ids();
            ids.append(&mut more);
        }
        ids
    }
}

#[derive(Copy, Clone)]
pub struct Buffer {
    pub buf: PinnedBuf,
    pub keeper: Keeper,
    pub readers: u64,
}

impl View for Buffer {
    type V = LocalBuf;

    open spec fn view(&self) -> LocalBuf {
        LocalBuf { buf: self.buf, keeper: self.keeper, readers: self.readers as nat }
    }
}

pub open spec fn buffer_view(b: Option<Buffer>) -> Option<LocalBuf> {
    match b {
        Some(b) => Some(b@),
        None => None,
    }
}

pub open spec fn buffer_views(bufs: Seq<Option<Buffer>>) -> Seq<Option<LocalBuf>> {
    Seq::new(bufs.len(), |i: int| buffer_view(bufs[i]))
}

pub struct DramPool {
    pub pinned: PinnedPool,
    pub fifo: VecDeque<(Key, usize)>,
}

impl View for DramPool {
    type V = LocalPool;

    open spec fn view(&self) -> LocalPool {
        LocalPool { pinned: self.pinned@, fifo: state::entry_views(self.fifo@) }
    }
}

impl DramPool {
    /// Drop the entries of objects that are not there.
    fn keep_entries(&mut self, objects: &Index<ObjectRow>)
        requires
            objects.wf(),
        ensures
            final(self)@ == (LocalPool {
                fifo: ledger::live_entries(old(self)@.fifo, object_row_views(objects@)),
                ..old(self)@
            }),
    {
        let ghost all = self@.fifo;
        let ghost live = object_row_views(objects@);
        let n: usize = self.fifo.len();
        assert(all.take(0) =~= Seq::<Entry>::empty());
        assert(all.skip(0) + ledger::live_entries(all.take(0), live) =~= all);
        for i in 0..n
            invariant
                objects.wf(),
                live == object_row_views(objects@),
                n == all.len(),
                self.pinned == old(self).pinned,
                self@.fifo == all.skip(i as int) + ledger::live_entries(all.take(i as int), live),
        {
            let ghost before = self@.fifo;
            let ghost kept = ledger::live_entries(all.take(i as int), live);
            let ghost raw = self.fifo@;
            assert(before.len() == raw.len());
            let (key, slot) = self.fifo.pop_front().unwrap();
            let ghost e = (key@, slot as nat);
            assert(before[0] == e);
            assert(all[i as int] == e);
            assert(self@.fifo =~= before.drop_first());
            assert(all.take(i + 1).drop_last() =~= all.take(i as int));
            assert(all.take(i + 1).last() == e);
            if objects.find(&key).is_some() {
                assert(live.contains_key(key@));
                let ghost mid = self@.fifo;
                self.fifo.push_back((key, slot));
                assert(self@.fifo =~= mid.push(e));
                assert(ledger::live_entries(all.take(i + 1), live) == kept.push(e));
            } else {
                assert(!live.contains_key(key@));
                assert(ledger::live_entries(all.take(i + 1), live) == kept);
            }
            assert(self@.fifo =~= all.skip(i + 1) + ledger::live_entries(all.take(i + 1), live));
        }
        assert(all.take(n as int) =~= all);
        assert(self@.fifo =~= ledger::live_entries(all, live));
    }
}

/// What a list of pools says of each NUMA node.
pub open spec fn dram_map(pools: Seq<DramPool>) -> Map<u16, LocalPool> {
    Map::new(
        |n: u16| exists|i: int| 0 <= i < pools.len() && (#[trigger] pools[i])@.pinned.numa == n,
        |n: u16|
            pools[choose|i: int| 0 <= i < pools.len() && (#[trigger] pools[i])@.pinned.numa == n]@,
    )
}

/// The NUMA nodes of a list of pools.
pub open spec fn dram_order(pools: Seq<DramPool>) -> Seq<u16> {
    Seq::new(pools.len(), |i: int| pools[i]@.pinned.numa)
}

pub open spec fn in_order(pools: Seq<DramPool>) -> bool {
    forall|i: int, j: int|
        0 <= i < j < pools.len() ==> (#[trigger] pools[i])@.pinned.numa < (
        #[trigger] pools[j])@.pinned.numa
}

pub proof fn lemma_dram_at(pools: Seq<DramPool>, i: int)
    requires
        in_order(pools),
        0 <= i < pools.len(),
    ensures
        dram_map(pools).contains_key(pools[i]@.pinned.numa),
        dram_map(pools)[pools[i]@.pinned.numa] == pools[i]@,
{
    let n = pools[i]@.pinned.numa;
    let c = choose|c: int| 0 <= c < pools.len() && (#[trigger] pools[c])@.pinned.numa == n;
    assert(c == i);
}

pub proof fn lemma_dram_update(pools: Seq<DramPool>, i: int, p: DramPool)
    requires
        in_order(pools),
        0 <= i < pools.len(),
        p@.pinned.numa == pools[i]@.pinned.numa,
    ensures
        in_order(pools.update(i, p)),
        dram_order(pools.update(i, p)) == dram_order(pools),
        dram_map(pools.update(i, p)) == dram_map(pools).insert(p@.pinned.numa, p@),
{
    let after = pools.update(i, p);
    assert forall|n: u16| #[trigger] dram_map(after).contains_key(n) <==> dram_map(
        pools,
    ).contains_key(n) by {
        if dram_map(after).contains_key(n) {
            let c = choose|c: int| 0 <= c < after.len() && (#[trigger] after[c])@.pinned.numa == n;
            assert(pools[c]@.pinned.numa == n);
        }
        if dram_map(pools).contains_key(n) {
            let c = choose|c: int| 0 <= c < pools.len() && (#[trigger] pools[c])@.pinned.numa == n;
            assert(after[c]@.pinned.numa == n);
        }
    }
    lemma_dram_at(pools, i);
    assert forall|n: u16| #[trigger] dram_map(after).contains_key(n) implies dram_map(after)[n]
        == dram_map(pools).insert(p@.pinned.numa, p@)[n] by {
        let c = choose|c: int| 0 <= c < after.len() && (#[trigger] after[c])@.pinned.numa == n;
        lemma_dram_at(after, c);
        lemma_dram_at(pools, c);
    }
    assert(dram_map(after) =~= dram_map(pools).insert(p@.pinned.numa, p@));
    assert(dram_order(after) =~= dram_order(pools));
}

pub proof fn lemma_dram_insert(pools: Seq<DramPool>, i: int, p: DramPool)
    requires
        in_order(pools),
        0 <= i <= pools.len(),
        forall|j: int| 0 <= j < i ==> (#[trigger] pools[j])@.pinned.numa < p@.pinned.numa,
        i < pools.len() ==> p@.pinned.numa < pools[i]@.pinned.numa,
    ensures
        in_order(pools.insert(i, p)),
        dram_map(pools.insert(i, p)) == dram_map(pools).insert(p@.pinned.numa, p@),
{
    let after = pools.insert(i, p);
    assert forall|j: int| 0 <= j < after.len() implies #[trigger] after[j] == if j < i {
        pools[j]
    } else if j == i {
        p
    } else {
        pools[j - 1]
    } by {}
    assert forall|a: int, b: int| 0 <= a < b < after.len() implies (
    #[trigger] after[a])@.pinned.numa < (#[trigger] after[b])@.pinned.numa by {
        if a == i && b > i + 1 {
            assert(pools[i]@.pinned.numa < pools[b - 1]@.pinned.numa);
        }
    }
    assert forall|n: u16| #[trigger] dram_map(after).contains_key(n) <==> n == p@.pinned.numa
        || dram_map(pools).contains_key(n) by {
        if dram_map(after).contains_key(n) {
            let c = choose|c: int| 0 <= c < after.len() && (#[trigger] after[c])@.pinned.numa == n;
            if c < i {
                assert(pools[c]@.pinned.numa == n);
            } else if c > i {
                assert(pools[c - 1]@.pinned.numa == n);
            }
        }
        if dram_map(pools).contains_key(n) {
            let c = choose|c: int| 0 <= c < pools.len() && (#[trigger] pools[c])@.pinned.numa == n;
            if c < i {
                assert(after[c]@.pinned.numa == n);
            } else {
                assert(after[c + 1]@.pinned.numa == n);
            }
        }
        assert(after[i]@.pinned.numa == p@.pinned.numa);
    }
    assert forall|n: u16| #[trigger] dram_map(after).contains_key(n) implies dram_map(after)[n]
        == dram_map(pools).insert(p@.pinned.numa, p@)[n] by {
        let c = choose|c: int| 0 <= c < after.len() && (#[trigger] after[c])@.pinned.numa == n;
        lemma_dram_at(after, c);
        if c < i {
            lemma_dram_at(pools, c);
        } else if c > i {
            lemma_dram_at(pools, c - 1);
        }
    }
    assert(dram_map(after) =~= dram_map(pools).insert(p@.pinned.numa, p@));
}

pub struct Run {
    pub key: Key,
    pub spec: ObjectSpec,
    pub writable: Vec<bool>,
    pub results: Vec<Result<(), Error>>,
    pub pending: Option<Vec<Spot>>,
}

pub open spec fn pending_view(p: Option<Vec<Spot>>) -> Option<Seq<Spot>> {
    match p {
        Some(spots) => Some(spots@),
        None => None,
    }
}

impl View for Run {
    type V = RunView;

    open spec fn view(&self) -> RunView {
        RunView {
            key: self.key@,
            spec: self.spec@,
            writable: self.writable@,
            results: error::results_view(self.results@),
            pending: pending_view(self.pending),
        }
    }
}

pub open spec fn run_view(r: Option<Run>) -> Option<RunView> {
    match r {
        Some(r) => Some(r@),
        None => None,
    }
}

pub open spec fn run_views(runs: Seq<Option<Run>>) -> Seq<Option<RunView>> {
    Seq::new(runs.len(), |i: int| run_view(runs[i]))
}

pub open spec fn object_row_views(objects: Map<Seq<u8>, ObjectRow>) -> Map<Seq<u8>, LocalObject> {
    objects.map_values(|o: ObjectRow| o@)
}

pub struct Tables {
    pub objects: Index<ObjectRow>,
    pub pools: Vec<DramPool>,
    pub bufs: Vec<Option<Buffer>>,
    pub runs: Vec<Option<Run>>,
}

impl View for Tables {
    type V = LocalState;

    open spec fn view(&self) -> LocalState {
        LocalState {
            objects: object_row_views(self.objects@),
            pools: dram_map(self.pools@),
            bufs: buffer_views(self.bufs@),
            runs: run_views(self.runs@),
        }
    }
}

impl Tables {
    pub open spec fn wf(&self) -> bool {
        &&& self.objects.wf()
        &&& in_order(self.pools@)
    }

    pub open spec fn order(&self) -> Seq<u16> {
        dram_order(self.pools@)
    }

    pub fn find_pool(&self, numa: u16) -> (r: Option<usize>)
        requires
            self.wf(),
        ensures
            match r {
                Some(i) => i < self.pools@.len() && self.pools@[i as int]@.pinned.numa == numa
                    && self@.pools.contains_key(numa) && self@.pools[numa]
                    == self.pools@[i as int]@ && self.order().contains(numa),
                None => !self@.pools.contains_key(numa) && !self.order().contains(numa),
            },
    {
        for i in 0..self.pools.len()
            invariant
                self.wf(),
                forall|j: int| 0 <= j < i ==> (#[trigger] self.pools@[j])@.pinned.numa != numa,
        {
            if self.pools[i].pinned.numa() == numa {
                proof {
                    lemma_dram_at(self.pools@, i as int);
                    assert(self.order()[i as int] == numa);
                }
                return Some(i);
            }
        }
        assert forall|i: int| 0 <= i < self.order().len() implies self.order()[i] != numa by {
            assert(self.pools@[i]@.pinned.numa != numa);
        }
        None
    }

    /// Add a pool, in the place of the one that its NUMA node has, if any.
    pub fn add_pool(&mut self, pool: DramPool)
        requires
            old(self).wf(),
        ensures
            final(self).wf(),
            final(self).objects == old(self).objects,
            final(self).bufs == old(self).bufs,
            final(self).runs == old(self).runs,
            final(self)@.pools == old(self)@.pools.insert(pool@.pinned.numa, pool@),
    {
        let ghost before = self.pools@;
        let numa = pool.pinned.numa();
        let mut i: usize = 0;
        while i < self.pools.len() && self.pools[i].pinned.numa() < numa
            invariant
                i <= self.pools@.len(),
                self.pools@ == before,
                self.objects == old(self).objects,
                self.bufs == old(self).bufs,
                self.runs == old(self).runs,
                forall|j: int| 0 <= j < i ==> (#[trigger] self.pools@[j])@.pinned.numa < numa,
            decreases self.pools@.len() - i,
        {
            i = i + 1;
        }
        if i < self.pools.len() && self.pools[i].pinned.numa() == numa {
            self.pools.set(i, pool);
            proof {
                lemma_dram_update(before, i as int, pool);
            }
        } else {
            self.pools.insert(i, pool);
            proof {
                lemma_dram_insert(before, i as int, pool);
            }
        }
    }

    /// Allocate for a write, where the bytes fit.
    fn take(&mut self, p: usize, len: usize, run: usize) -> (r: Option<usize>)
        requires
            old(self).wf(),
            safety::table_ok(old(self)@),
            p < old(self).pools@.len(),
            pinned::rounded(len as nat) <= usize::MAX,
        ensures
            final(self).wf(),
            final(self).order() == old(self).order(),
            final(self).runs == old(self).runs,
            ({
                let numa = old(self).pools@[p as int]@.pinned.numa;
                match old(self)@.taken(numa, len as nat, run) {
                    Some((s, id)) => r is Some && r->0 == id && final(self)@ == s,
                    None => r is None && final(self)@ == old(self)@,
                }
            }),
    {
        let ghost s = self@;
        let ghost pools0 = self.pools@;
        let ghost numa = self.pools@[p as int]@.pinned.numa;
        proof {
            lemma_dram_at(self.pools@, p as int);
            assert(s.pools.contains_key(numa));
        }
        let got = self.pools[p].pinned.allocate(len);
        proof {
            assert(self.pools@ =~= pools0.update(p as int, self.pools@[p as int]));
            lemma_dram_update(pools0, p as int, self.pools@[p as int]);
        }
        match got {
            None => {
                proof {
                    assert(self.pools@[p as int]@ == pools0[p as int]@);
                    assert(self@.pools =~= s.pools);
                }
                None
            },
            Some(buf) => {
                let b = Buffer { buf, keeper: Keeper::Writer(run), readers: 0 };
                let mut id: usize = 0;
                while id < self.bufs.len() && self.bufs[id].is_some()
                    invariant
                        id <= self.bufs@.len(),
                        forall|j: int| 0 <= j < id ==> (#[trigger] self.bufs@[j]) is Some,
                    decreases self.bufs@.len() - id,
                {
                    id = id + 1;
                }
                let ghost bufs0 = self.bufs@;
                proof {
                    assert forall|j: int| 0 <= j < id implies (#[trigger] s.bufs[j]) is Some by {
                        assert(bufs0[j] is Some);
                    }
                    if id < bufs0.len() {
                        assert(s.bufs[id as int] is None);
                    }
                    let c = safety::lemma_next(s.bufs, id as int);
                    assert(c == id);
                }
                if id < self.bufs.len() {
                    self.bufs.set(id, Some(b));
                } else {
                    self.bufs.push(Some(b));
                }
                assert(buffer_views(self.bufs@) =~= ledger::stored(s.bufs, id as int, Some(b@)));
                proof {
                    let (t, _) = s.taken(numa, len as nat, run)->0;
                    assert(self@ =~= t);
                }
                Some(id)
            },
        }
    }

    /// Give an allocation back to its pool.
    pub fn give_back(&mut self, id: usize)
        requires
            old(self).wf(),
            safety::table_ok(old(self)@),
            old(self)@.live(id as int),
        ensures
            final(self).wf(),
            final(self).order() == old(self).order(),
            final(self).objects == old(self).objects,
            final(self).runs == old(self).runs,
            final(self)@ == old(self)@.given_back(id as int),
    {
        let ghost s = self@;
        let ghost pools0 = self.pools@;
        assert(safety::buf_ok(s, id as int));
        let buf = match self.bufs[id] {
            Some(b) => b.buf,
            None => return,
        };
        let p = match self.find_pool(buf.numa) {
            Some(p) => p,
            None => return,
        };
        assert forall|x: int| buf.off <= x < buf.off + buf.reserved implies !#[trigger] pinned::is_free(
            self.pools@[p as int]@.pinned.free,
            x,
        ) by {
            assert(buf.covers(x));
        }
        self.pools[p].pinned.release(buf.off, buf.reserved);
        self.bufs.set(id, None);
        proof {
            assert(self.pools@ =~= pools0.update(p as int, self.pools@[p as int]));
            lemma_dram_update(pools0, p as int, self.pools@[p as int]);
            assert(buffer_views(self.bufs@) =~= s.bufs.update(id as int, None));
            assert(self@ =~= s.given_back(id as int));
        }
    }

    /// Let go of an allocation: it goes back to its pool, unless there are
    /// readers.
    pub fn let_go(&mut self, id: usize)
        requires
            old(self).wf(),
            safety::table_ok(old(self)@),
            old(self)@.live(id as int),
        ensures
            final(self).wf(),
            final(self).order() == old(self).order(),
            final(self).objects == old(self).objects,
            final(self).runs == old(self).runs,
            final(self)@ == old(self)@.let_go(id as int),
    {
        let ghost s = self@;
        assert(s.bufs[id as int] == buffer_view(self.bufs@[id as int]));
        if let Some(b) = self.bufs[id] {
            if b.readers == 0 {
                self.give_back(id);
            } else {
                self.bufs.set(id, Some(Buffer { keeper: Keeper::Readers, ..b }));
                assert(self@.bufs =~= s.let_go(id as int).bufs);
            }
        }
    }

    pub fn let_go_all(&mut self, ids: &Vec<usize>)
        requires
            old(self).wf(),
            safety::table_ok(old(self)@),
            safety::distinct(ids@),
            forall|x: int| 0 <= x < ids@.len() ==> old(self)@.live(#[trigger] ids@[x] as int),
        ensures
            final(self).wf(),
            final(self).order() == old(self).order(),
            final(self).objects == old(self).objects,
            final(self).runs == old(self).runs,
            final(self)@ == old(self)@.let_go_all(ids@, ids@.len()),
    {
        let ghost s = self@;
        assert(self.bufs@.len() == self.bufs.len());
        for n in 0..ids.len()
            invariant
                self.wf(),
                self.order() == old(self).order(),
                self.objects == old(self).objects,
                self.runs == old(self).runs,
                safety::table_ok(s),
                s.bufs.len() <= usize::MAX,
                safety::distinct(ids@),
                forall|x: int| 0 <= x < ids@.len() ==> s.live(#[trigger] ids@[x] as int),
                self@ == s.let_go_all(ids@, n as nat),
        {
            proof {
                safety::lemma_let_go_all(s, ids@, n as nat);
                assert(s.live(ids@[n as int] as int));
                assert(!ids@.take(n as int).contains(ids@[n as int]));
                assert(self@.bufs[ids@[n as int] as int] == s.bufs[ids@[n as int] as int]);
            }
            self.let_go(ids[n]);
        }
    }

    /// Drop the entries of the eviction orders whose object is not there.
    pub fn sweep(&mut self)
        requires
            old(self).wf(),
        ensures
            final(self).wf(),
            final(self).order() == old(self).order(),
            final(self).objects == old(self).objects,
            final(self).bufs == old(self).bufs,
            final(self).runs == old(self).runs,
            final(self)@ == old(self)@.swept(),
    {
        let ghost s = self@;
        let ghost pools0 = self.pools@;
        let ghost cut = |pool: LocalPool|
            LocalPool { fifo: ledger::live_entries(pool.fifo, s.objects), ..pool };
        let n: usize = self.pools.len();
        for i in 0..n
            invariant
                n == pools0.len(),
                self.objects == old(self).objects,
                self.bufs == old(self).bufs,
                self.runs == old(self).runs,
                self.objects.wf(),
                s.objects == object_row_views(self.objects@),
                self.pools@.len() == n,
                forall|j: int|
                    0 <= j < n ==> (#[trigger] self.pools@[j])@ == (if j < i {
                        LocalPool {
                            fifo: ledger::live_entries(pools0[j]@.fifo, s.objects),
                            ..pools0[j]@
                        }
                    } else {
                        pools0[j]@
                    }),
        {
            let ghost before = self.pools@;
            assert(before[i as int]@ == pools0[i as int]@);
            self.pools[i].keep_entries(&self.objects);
            assert forall|j: int| 0 <= j < n && j != i implies #[trigger] self.pools@[j]
                == before[j] by {}
        }
        proof {
            let now = self.pools@;
            assert forall|a: int, b: int| 0 <= a < b < now.len() implies (
            #[trigger] now[a])@.pinned.numa < (#[trigger] now[b])@.pinned.numa by {
                assert(pools0[a]@.pinned.numa < pools0[b]@.pinned.numa);
            }
            assert(dram_order(now) =~= dram_order(pools0));
            assert forall|m: u16| #[trigger] dram_map(now).contains_key(m) <==> dram_map(
                pools0,
            ).contains_key(m) by {
                if dram_map(now).contains_key(m) {
                    let c = choose|c: int|
                        0 <= c < now.len() && (#[trigger] now[c])@.pinned.numa == m;
                    assert(pools0[c]@.pinned.numa == m);
                }
                if dram_map(pools0).contains_key(m) {
                    let c = choose|c: int|
                        0 <= c < pools0.len() && (#[trigger] pools0[c])@.pinned.numa == m;
                    assert(now[c]@.pinned.numa == m);
                }
            }
            assert forall|m: u16| #[trigger] dram_map(now).contains_key(m) implies dram_map(now)[m]
                == s.swept().pools[m] by {
                let c = choose|c: int| 0 <= c < now.len() && (#[trigger] now[c])@.pinned.numa == m;
                lemma_dram_at(now, c);
                lemma_dram_at(pools0, c);
            }
            assert(dram_map(now) =~= s.swept().pools);
        }
    }

    fn is_spared(&self, key: &Key, slot: usize, protect: &Key) -> (r: bool)
        requires
            self.wf(),
        ensures
            r == self@.spared((key@, slot as nat), protect@),
    {
        if key.same(protect) {
            return true;
        }
        match self.objects.find(key) {
            Some(i) => {
                let obj = self.objects.at(i);
                assert(self@.objects[key@] == obj@);
                obj.spec.retention != Retention::Cache || slot >= obj.slots.len()
            },
            None => true,
        }
    }

    /// Evict one slot from the pool at `p`; says whether anything went.
    fn evict(&mut self, p: usize, key: &Key, slot: usize) -> (r: bool)
        requires
            old(self).wf(),
            safety::local_inv(old(self)@),
            p < old(self).pools@.len(),
        ensures
            final(self).wf(),
            final(self).order() == old(self).order(),
            final(self).runs == old(self).runs,
            (final(self)@, r) == old(self)@.evicted(
                old(self).pools@[p as int]@.pinned.numa,
                (key@, slot as nat),
            ),
    {
        let numa = self.pools[p].pinned.numa();
        let ghost s = self@;
        let i = match self.objects.find(key) {
            Some(i) => i,
            None => return false,
        };
        let obj = self.objects.at(i);
        assert(s.objects[key@] == obj@);
        if obj.spec.retention != Retention::Cache || slot >= obj.slots.len() {
            return false;
        }
        proof {
            steps::lemma_pinned_ids(s, key@, slot as int, numa);
        }
        let ghost slot0 = obj@.slots[slot as int];
        let obj = self.objects.at_mut(i);
        let ghost obj0 = *obj;
        let ids = obj.slots[slot].drop_pinned(numa);
        let ghost obj1 = *obj;
        let ghost after = LocalSlot {
            replicas: ledger::without_pinned(slot0.replicas, numa),
            ..slot0
        };
        assert(obj1@.slots =~= obj0@.slots.update(slot as int, after));
        assert(self@.objects =~= s.objects.insert(key@, obj1@));
        if self.objects.at(i).is_idle() {
            let _ = self.objects.remove_at(i);
            assert(self@.objects =~= s.objects.remove(key@));
        }
        proof {
            steps::lemma_table_frame(s, self@);
            assert forall|x: int| 0 <= x < ids@.len() implies self@.live(
                #[trigger] ids@[x] as int,
            ) by {
                assert(s.live(ids@[x] as int));
            }
        }
        self.let_go_all(&ids);
        ids.len() > 0
    }

    /// Take entries off the front of the eviction order until one was evicted or
    /// none is left; those that are spared go back to the front. Says whether
    /// anything was evicted.
    fn evict_some(&mut self, p: usize, protect: &Key) -> (r: bool)
        requires
            old(self).wf(),
            safety::local_inv(old(self)@),
            p < old(self).pools@.len(),
        ensures
            final(self).wf(),
            final(self).order() == old(self).order(),
            final(self).runs == old(self).runs,
            (final(self)@, r) == old(self)@.evict_some(
                old(self).pools@[p as int]@.pinned.numa,
                protect@,
                Seq::empty(),
            ),
    {
        let ghost numa = self.pools@[p as int]@.pinned.numa;
        let ghost s = self@;
        let ghost goal = s.evict_some(numa, protect@, Seq::empty());
        let mut aside: Vec<(Key, usize)> = Vec::new();
        let mut any = false;
        assert(state::entry_views(aside@) =~= Seq::empty());
        proof {
            lemma_dram_at(self.pools@, p as int);
            assert(self.bufs@.len() == self.bufs.len());
        }
        while !any && self.pools[p].fifo.len() > 0
            invariant
                self.wf(),
                self.order() == old(self).order(),
                self.runs == old(self).runs,
                safety::local_inv(self@),
                p < self.pools@.len(),
                self.pools@[p as int]@.pinned.numa == numa,
                self@.pools.contains_key(numa),
                self@.pools[numa] == self.pools@[p as int]@,
                !any ==> self@.evict_some(numa, protect@, state::entry_views(aside@)) == goal,
                any ==> goal == (
                    self@.with_fifo(numa, state::entry_views(aside@) + self@.pools[numa].fifo),
                    true,
                ),
            decreases self.pools@[p as int].fifo@.len() + if any { 0int } else { 1int },
        {
            let ghost t = self@;
            let ghost pools0 = self.pools@;
            let ghost pool0 = self.pools@[p as int];
            let ghost aside0 = state::entry_views(aside@);
            let (key, slot) = self.pools[p].fifo.pop_front().unwrap();
            let ghost entry = (key@, slot as nat);
            let ghost rest = t.with_fifo(numa, t.pools[numa].fifo.drop_first());
            proof {
                assert(self.pools@ =~= pools0.update(p as int, self.pools@[p as int]));
                lemma_dram_update(pools0, p as int, self.pools@[p as int]);
                lemma_dram_at(self.pools@, p as int);
                assert(state::entry_views(self.pools@[p as int].fifo@) =~= state::entry_views(
                    pool0.fifo@,
                ).drop_first());
                assert(self@ =~= rest);
                assert(t.pools[numa].fifo[0] == entry);
                assert(rest.spared(entry, protect@) == t.spared(entry, protect@));
                steps::lemma_with_fifo(t, numa, t.pools[numa].fifo.drop_first(), protect@);
            }
            if self.is_spared(&key, slot, protect) {
                aside.push((key, slot));
                assert(state::entry_views(aside@) =~= aside0.push(entry));
            } else {
                proof {
                    assert(self.bufs@.len() == self.bufs.len());
                    steps::lemma_evicted(rest, numa, entry, protect@);
                }
                any = self.evict(p, &key, slot);
                proof {
                    assert(self.pools@.len() == self.order().len());
                    assert(self.order()[p as int] == self.pools@[p as int]@.pinned.numa);
                    lemma_dram_at(self.pools@, p as int);
                }
            }
        }
        let ghost t = self@;
        let ghost tail = self@.pools[numa].fifo;
        let ghost all = state::entry_views(aside@) + tail;
        assert(all.skip(aside@.len() as int) =~= tail);
        assert(state::entry_views(aside@) =~= all.take(aside@.len() as int));
        assert(self@ =~= t.with_fifo(numa, tail));
        assert(tail.len() == 0 ==> all =~= state::entry_views(aside@));
        while aside.len() > 0
            invariant
                self.wf(),
                self.order() == old(self).order(),
                self.runs == old(self).runs,
                p < self.pools@.len(),
                self.pools@[p as int]@.pinned.numa == numa,
                t.pools.contains_key(numa),
                self@ == t.with_fifo(numa, all.skip(aside@.len() as int)),
                self@.pools[numa] == self.pools@[p as int]@,
                all.len() >= aside@.len(),
                state::entry_views(aside@) == all.take(aside@.len() as int),
            decreases aside@.len(),
        {
            let ghost pools0 = self.pools@;
            let ghost pool0 = self.pools@[p as int];
            let ghost a0 = aside@;
            let (key, slot) = aside.pop().unwrap();
            let ghost entry = (key@, slot as nat);
            assert(all[a0.len() - 1] == entry) by {
                assert(state::entry_views(a0)[a0.len() - 1] == entry);
            }
            assert(state::entry_views(aside@) =~= all.take(aside@.len() as int)) by {
                assert(state::entry_views(aside@) =~= state::entry_views(a0).drop_last());
            }
            self.pools[p].fifo.push_front((key, slot));
            proof {
                assert(self.pools@ =~= pools0.update(p as int, self.pools@[p as int]));
                lemma_dram_update(pools0, p as int, self.pools@[p as int]);
                lemma_dram_at(self.pools@, p as int);
                assert(state::entry_views(self.pools@[p as int].fifo@) =~= seq![entry] + state::entry_views(
                    pool0.fifo@,
                ));
                assert(seq![entry] + all.skip(a0.len() as int) =~= all.skip(a0.len() - 1));
                assert(self@ =~= t.with_fifo(numa, all.skip(aside@.len() as int)));
            }
        }
        assert(all.skip(0) =~= all);
        any
    }
}

impl Tables {
    /// Allocate `len` bytes on `numa`, evicting `Cache` replicas FIFO if needed.
    fn alloc_or_evict(&mut self, numa: u16, len: u64, run: usize, protect: &Key) -> (r: Result<
        usize,
        Error,
    >)
        requires
            old(self).wf(),
            safety::local_inv(old(self)@),
        ensures
            final(self).wf(),
            final(self).order() == old(self).order(),
            final(self).runs == old(self).runs,
            ({
                let (s, want) = old(self)@.alloc_or_evict(numa, len as nat, run, protect@);
                &&& final(self)@ == s
                &&& match want {
                    Ok(id) => r is Ok && r->Ok_0 == id,
                    Err(e) => r is Err && r->Err_0@ == e,
                }
            }),
    {
        let p = match self.find_pool(numa) {
            Some(p) => p,
            None => return Err(
                Error::new(ErrorKind::InvalidInput, "no pool on device").with_context(
                    "device",
                    Device::cpu(numa).to_string(),
                ),
            ),
        };
        let ghost s = self@;
        let ghost goal = s.alloc_or_evict(numa, len as nat, run, protect@);
        let cap: usize = self.pools[p].pinned.capacity();
        if len > cap as u64 {
            proof {
                lemma_too_long(s, numa, len as nat, run);
            }
            return Err(
                Error::new(ErrorKind::NoSpace, "pool cannot fit slot").with_context(
                    "device",
                    Device::cpu(numa).to_string(),
                ).with_context("len", decimal_string(len)),
            );
        }
        proof {
            pinned::lemma_rounded_within(len as nat, cap as nat);
        }
        let mut more = true;
        while more
            invariant
                self.wf(),
                self.order() == old(self).order(),
                self.runs == old(self).runs,
                safety::local_inv(self@),
                len <= cap,
                goal == old(self)@.alloc_or_evict(numa, len as nat, run, protect@),
                pinned::rounded(len as nat) <= usize::MAX,
                self@.pools.contains_key(numa),
                self@.pools[numa].pinned.len == cap,
                p < self.pools@.len(),
                self.pools@[p as int]@.pinned.numa == numa,
                more ==> self@.alloc_or_evict(numa, len as nat, run, protect@) == goal,
                !more ==> goal == (
                    self@,
                    Err::<int, ErrorView>(ledger::no_space(numa, len as nat)),
                ),
            decreases
                self@.pools[numa].fifo.len() + if more {
                    1int
                } else {
                    0int
                },
        {
            let ghost t = self@;
            if let Some(id) = self.take(p, len as usize, run) {
                return Ok(id);
            }
            proof {
                assert(self.bufs@.len() == self.bufs.len());
                steps::lemma_evict_some(t, numa, protect@, Seq::empty());
                assert(self.pools@.len() == self.order().len());
                assert(self.order()[p as int] == self.pools@[p as int]@.pinned.numa);
            }
            more = self.evict_some(p, protect);
            proof {
                assert(self.pools@.len() == self.order().len());
                assert(self.order()[p as int] == self.pools@[p as int]@.pinned.numa);
                assert(t.pools.contains_key(numa));
            }
        }
        Err(
            Error::new(ErrorKind::NoSpace, "pool cannot fit slot").with_context(
                "device",
                Device::cpu(numa).to_string(),
            ).with_context("len", decimal_string(len)),
        )
    }

    /// The pool of a device.
    fn pool_for(&self, d: Device) -> (r: Result<u16, Error>)
        requires
            self.wf(),
        ensures
            error::result_view(r) == ledger::pool_of(self.order(), d),
    {
        match d {
            Device::Cpu { numa } => if self.find_pool(numa).is_some() {
                Ok(numa)
            } else {
                Err(
                    Error::new(ErrorKind::InvalidInput, "no pool on device").with_context(
                        "device",
                        d.to_string(),
                    ),
                )
            },
            Device::Gpu { .. } => Err(
                Error::new(
                    ErrorKind::InvalidInput,
                    "GPU memory is not a store tier; use publish",
                ).with_context("device", d.to_string()),
            ),
        }
    }

    /// Where a slot is to be tried.
    fn resolve(&self, placement: &Placement) -> (r: Result<
        (Vec<(u16, bool)>, Option<Error>),
        Error,
    >)
        requires
            self.wf(),
        ensures
            match ledger::resolved(placement@, self.order()) {
                Ok((targets, first)) => r matches Ok(t) && t.0@ == targets && state::error_view(t.1)
                    == first,
                Err(e) => r matches Err(x) && x@ == e,
            },
    {
        let ghost order = self.order();
        match placement {
            Placement::Strict(d) => match self.pool_for(*d) {
                Ok(numa) => {
                    let v = vec![(numa, false)];
                    assert(v@ =~= seq![(numa, false)]);
                    Ok((v, None))
                },
                Err(e) => Err(e),
            },
            Placement::Prefer(d) => {
                let mut out: Vec<(u16, bool)> = Vec::new();
                let mut first: Option<Error> = None;
                match self.pool_for(*d) {
                    Ok(numa) => {
                        out.push((numa, false));
                    },
                    Err(e) => {
                        first = Some(e);
                    },
                }
                let ghost head = out@;
                assert(out@ =~= head + ledger::other_pools(order, *d, 0));
                for i in 0..self.pools.len()
                    invariant
                        order == self.order(),
                        out@ == head + ledger::other_pools(order, *d, i as nat),
                {
                    let numa = self.pools[i].pinned.numa();
                    assert(order[i as int] == numa);
                    if *d != (Device::Cpu { numa }) {
                        out.push((numa, true));
                    }
                    assert(out@ =~= head + ledger::other_pools(order, *d, (i + 1) as nat));
                }
                proof {
                    match ledger::pool_of(order, *d) {
                        Ok(numa) => {
                            assert(head =~= seq![(numa, false)]);
                        },
                        Err(_) => {
                            assert(out@ =~= ledger::other_pools(order, *d, order.len()));
                        },
                    }
                }
                Ok((out, first))
            },
            Placement::Each(ds) => {
                let mut out: Vec<(u16, bool)> = Vec::new();
                for i in 0..ds.len()
                    invariant
                        self.wf(),
                        order == self.order(),
                        placement@ == PlacementView::Each(ds@),
                        ledger::pools_of(order, ds@, i as nat) == Ok::<Seq<(u16, bool)>, ErrorView>(out@),
                {
                    match self.pool_for(ds[i]) {
                        Ok(numa) => {
                            out.push((numa, false));
                        },
                        Err(e) => {
                            proof {
                                lemma_pools_error(order, ds@, (i + 1) as nat, ds@.len());
                            }
                            return Err(e);
                        },
                    }
                }
                Ok((out, None))
            },
            Placement::Anywhere => {
                let mut out: Vec<(u16, bool)> = Vec::new();
                for i in 0..self.pools.len()
                    invariant
                        order == self.order(),
                        out@ == Seq::new(i as nat, |j: int| (order[j], false)),
                {
                    let numa = self.pools[i].pinned.numa();
                    assert(order[i as int] == numa);
                    out.push((numa, false));
                    assert(out@ =~= Seq::new((i + 1) as nat, |j: int| (order[j], false)));
                }
                Ok((out, None))
            },
        }
    }

    /// Place a slot of a write; one that is not placed keeps no allocation.
    pub fn place(&mut self, placement: &Placement, len: u64, run: usize, key: &Key) -> (r: Result<
        Vec<Spot>,
        Error,
    >)
        requires
            old(self).wf(),
            safety::local_inv(old(self)@),
            old(self)@.lined_up(),
            old(self)@.active(run as int),
            old(self)@.runs[run as int]->0.pending is None,
        ensures
            final(self).wf(),
            final(self).order() == old(self).order(),
            safety::local_inv(final(self)@),
            final(self)@.lined_up(),
            final(self)@.runs == old(self)@.runs,
            final(self).runs == old(self).runs,
            ({
                let (s, want) = old(self)@.placed(
                    old(self).order(),
                    placement@,
                    len as nat,
                    run,
                    key@,
                );
                &&& final(self)@ == s
                &&& match want {
                    Ok(spots) => r matches Ok(v) && v@ == spots && spots.len() > 0 && safety::spots_ok(
                        s,
                        run as int,
                        spots,
                        len,
                    ),
                    Err(e) => r matches Err(x) && x@ == e,
                }
            }),
    {
        let ghost s = self@;
        let ghost order = self.order();
        let (targets, first) = match self.resolve(placement) {
            Ok(t) => t,
            Err(e) => return Err(e),
        };
        let each = matches!(placement, Placement::Each(_));
        let ghost first0 = state::error_view(first);
        let mut spots: Vec<Spot> = Vec::new();
        let mut error = first;
        let mut done = false;
        let mut i: usize = 0;
        while i < targets.len() && !done
            invariant
                i <= targets@.len(),
                self.wf(),
                self.order() == old(self).order(),
                safety::local_inv(self@),
                self@.lined_up(),
                self@.runs == s.runs,
                self.runs == old(self).runs,
                s.active(run as int),
                s.runs[run as int]->0.pending is None,
                safety::spots_ok(self@, run as int, spots@, len),
                ({
                    let p = s.tried(targets@, first0, each, len as nat, run, key@, i as nat);
                    &&& self@ == p.state
                    &&& spots@ == p.spots
                    &&& state::error_view(error) == p.error
                    &&& done == p.done
                }),
            decreases targets@.len() - i,
        {
            let (numa, misplaced) = targets[i];
            let ghost t = self@;
            let ghost spots0 = spots@;
            proof {
                assert(self.bufs@.len() == self.bufs.len());
                steps::lemma_alloc_or_evict(t, numa, len as nat, run, key@);
                queue::lemma_alloc_lined_up(t, numa, len as nat, run, key@);
            }
            match self.alloc_or_evict(numa, len, run, key) {
                Ok(id) => {
                    spots.push((numa, misplaced, id));
                    done = !each;
                    proof {
                        lemma_spot_added(t, self@, run as int, spots0, (numa, misplaced, id), len);
                    }
                },
                Err(e) => {
                    error = Some(e);
                    done = each;
                    proof {
                        lemma_spots_kept(t, self@, run as int, spots0, len);
                    }
                },
            }
            i = i + 1;
        }
        proof {
            if done {
                lemma_tried_done(
                    s,
                    targets@,
                    first0,
                    each,
                    len as nat,
                    run,
                    key@,
                    i as nat,
                    targets@.len(),
                );
            }
        }
        if spots.len() > 0 && !(each && error.is_some()) {
            return Ok(spots);
        }
        let mut ids: Vec<usize> = Vec::new();
        for j in 0..spots.len()
            invariant
                ids@ == ledger::spot_ids(spots@).take(j as int),
        {
            ids.push(spots[j].2);
            assert(ids@ =~= ledger::spot_ids(spots@).take(j + 1));
        }
        assert(ids@ =~= ledger::spot_ids(spots@));
        proof {
            assert(self.bufs@.len() == self.bufs.len());
            assert(writes::own_spots(self@, run as int, spots@)) by {
                assert forall|x: int| 0 <= x < spots@.len() implies self@.live(
                    (#[trigger] spots@[x]).2 as int,
                ) && self@.bufs[spots@[x].2 as int]->0.keeper == Keeper::Writer(run) by {
                    assert(safety::spot_ok(self@, run as int, spots@[x], len));
                }
            }
            writes::lemma_spots_go(self@, run as int, spots@);
            assert forall|x: int| 0 <= x < ids@.len() implies self@.live(
                #[trigger] ids@[x] as int,
            ) by {
                assert(self@.live(spots@[x].2 as int));
            }
            assert(safety::distinct(ids@)) by {
                assert forall|x: int, y: int| 0 <= x < y < ids@.len() implies #[trigger] ids@[x]
                    != #[trigger] ids@[y] by {
                    assert(spots@[x].2 != spots@[y].2);
                }
            }
        }
        self.let_go_all(&ids);
        Err(
            match error {
                Some(e) => e,
                None => Error::new(ErrorKind::NoSpace, "no device available"),
            },
        )
    }
}

/// What does not fit a pool is not allocated.
proof fn lemma_too_long(s: LocalState, numa: u16, len: nat, run: usize)
    requires
        safety::table_ok(s),
        s.pools.contains_key(numa),
        len > s.pools[numa].pinned.len,
    ensures
        s.taken(numa, len, run) is None,
{
    let pool = s.pools[numa].pinned;
    if exists|i: int| pinned::first_fit(pool.free, pinned::rounded(len), i) {
        let i = choose|i: int| pinned::first_fit(pool.free, pinned::rounded(len), i);
        pinned::lemma_rounded(len);
        assert(pool.free[i].0 + pool.free[i].1 <= pool.len);
    }
}

proof fn lemma_pools_error(order: Seq<u16>, ds: Seq<Device>, n: nat, m: nat)
    requires
        n <= m,
        ledger::pools_of(order, ds, n) is Err,
    ensures
        ledger::pools_of(order, ds, m) == ledger::pools_of(order, ds, n),
    decreases m,
{
    if n < m {
        lemma_pools_error(order, ds, n, (m - 1) as nat);
    }
}

/// Placing that is done stays as it is.
proof fn lemma_tried_done(
    s: LocalState,
    targets: Seq<(u16, bool)>,
    first: Option<ErrorView>,
    each: bool,
    len: nat,
    run: usize,
    key: Seq<u8>,
    n: nat,
    m: nat,
)
    requires
        n <= m,
        s.tried(targets, first, each, len, run, key, n).done,
    ensures
        s.tried(targets, first, each, len, run, key, m) == s.tried(
            targets,
            first,
            each,
            len,
            run,
            key,
            n,
        ),
    decreases m,
{
    if n < m {
        lemma_tried_done(s, targets, first, each, len, run, key, n, (m - 1) as nat);
    }
}

/// A step that leaves writers' allocations alone leaves a write its spots.
proof fn lemma_spots_kept(s: LocalState, t: LocalState, run: int, spots: Seq<Spot>, len: u64)
    requires
        safety::spots_ok(s, run, spots, len),
        t.bufs.len() >= s.bufs.len(),
        forall|id: int|
            s.live(id) && s.bufs[id]->0.keeper is Writer ==> #[trigger] t.bufs[id] == s.bufs[id],
    ensures
        safety::spots_ok(t, run, spots, len),
{
    assert forall|x: int| 0 <= x < spots.len() implies safety::spot_ok(
        t,
        run,
        #[trigger] spots[x],
        len,
    ) by {
        assert(safety::spot_ok(s, run, spots[x], len));
        let id = spots[x].2 as int;
        assert(s.live(id));
        assert(t.bufs[id] == s.bufs[id]);
    }
}

proof fn lemma_spot_added(
    s: LocalState,
    t: LocalState,
    run: int,
    spots: Seq<Spot>,
    spot: Spot,
    len: u64,
)
    requires
        safety::spots_ok(s, run, spots, len),
        t.bufs.len() >= s.bufs.len(),
        forall|id: int|
            s.live(id) && s.bufs[id]->0.keeper is Writer ==> #[trigger] t.bufs[id] == s.bufs[id],
        !(s.live(spot.2 as int) && s.bufs[spot.2 as int]->0.keeper is Writer),
        safety::spot_ok(t, run, spot, len),
    ensures
        safety::spots_ok(t, run, spots.push(spot), len),
{
    lemma_spots_kept(s, t, run, spots, len);
    let after = spots.push(spot);
    assert forall|x: int, y: int| 0 <= x < y < after.len() implies (#[trigger] after[x]).2 != (
    #[trigger] after[y]).2 by {
        if y == spots.len() {
            assert(safety::spot_ok(s, run, spots[x], len));
        }
    }
    assert forall|x: int| 0 <= x < after.len() implies safety::spot_ok(
        t,
        run,
        #[trigger] after[x],
        len,
    ) by {
        if x < spots.len() {
            assert(safety::spot_ok(t, run, spots[x], len));
        }
    }
}

} // verus!
